use vstd::prelude::*;
use vstd::utf8::{decode_utf8, valid_utf8};
use crate::error::ParseError;
use crate::parse::ParseResult;
use crate::var_string::{VarString, decode_var_string, lemma_var_string_take};

verus! {

/// The payloads of an asset name: protocol, type and ticker.
pub type NameText = (Seq<u8>, Seq<u8>, Seq<u8>);

/// Decodes three var strings in a row: protocol, type and ticker.
pub open spec fn decode_asset_name(s: Seq<u8>) -> Result<(NameText, nat), ParseError> {
    match decode_var_string(s) {
        Ok((p, c1)) => match decode_var_string(s.skip(c1 as int)) {
            Ok((t, c2)) => match decode_var_string(s.skip((c1 + c2) as int)) {
                Ok((k, c3)) => Ok(((p, t, k), c1 + c2 + c3)),
                Err(e) => Err(e),
            },
            Err(e) => Err(e),
        },
        Err(e) => Err(e),
    }
}

/// Where the type and where the ticker begin in an encoded asset name.
pub open spec fn asset_name_cuts(s: Seq<u8>) -> (nat, nat) {
    let c1 = decode_var_string(s)->Ok_0.1;
    (c1, c1 + decode_var_string(s.skip(c1 as int))->Ok_0.1)
}

/// An asset name cut short of its encoding fails with `InsufficientBytes`; bytes after it do
/// not change it.
pub proof fn lemma_asset_name_take(s: Seq<u8>, k: nat)
    requires
        decode_asset_name(s) is Ok,
        k <= s.len(),
    ensures
        decode_asset_name(s.take(k as int)) == (if k >= decode_asset_name(s)->Ok_0.1 {
            decode_asset_name(s)
        } else {
            Err(ParseError::InsufficientBytes)
        }),
{
    let t = s.take(k as int);
    lemma_var_string_take(s, k);
    let c1 = decode_var_string(s)->Ok_0.1;
    if k >= c1 {
        let s1 = s.skip(c1 as int);
        assert(t.skip(c1 as int) =~= s1.take((k - c1) as int));
        lemma_var_string_take(s1, (k - c1) as nat);
        let c2 = decode_var_string(s1)->Ok_0.1;
        if k >= c1 + c2 {
            let s2 = s.skip((c1 + c2) as int);
            assert(s1.skip(c2 as int) =~= s2);
            assert(t.skip((c1 + c2) as int) =~= s2.take((k - c1 - c2) as int));
            lemma_var_string_take(s2, (k - c1 - c2) as nat);
        }
    }
}

/// An asset's name: protocol, type and ticker, kept as the bytes they were parsed from.
#[derive(Debug, Clone, Copy, PartialEq, Eq)]
pub struct AssetName<'a> {
    slice: &'a [u8],
    protocol: VarString<'a>,
    type_: VarString<'a>,
    ticker: VarString<'a>,
}

impl<'a> AssetName<'a> {
    #[verifier::type_invariant]
    spec fn inv(&self) -> bool {
        let (a, b) = asset_name_cuts(self.slice@);
        &&& decode_asset_name(self.slice@) == Ok::<(NameText, nat), ParseError>(
            (
                (self.protocol.payload(), self.type_.payload(), self.ticker.payload()),
                self.slice@.len(),
            ),
        )
        &&& self.protocol.bytes() == self.slice@.take(a as int)
        &&& self.type_.bytes() == self.slice@.subrange(a as int, b as int)
        &&& self.ticker.bytes() == self.slice@.skip(b as int)
    }

    /// The bytes the name was parsed from.
    pub closed spec fn bytes(&self) -> Seq<u8> {
        self.slice@
    }

    /// The payloads of the protocol, the type and the ticker.
    pub closed spec fn texts(&self) -> NameText {
        (self.protocol.payload(), self.type_.payload(), self.ticker.payload())
    }

    /// Parses an asset name at the front of `slice`.
    pub fn parse(slice: &'a [u8]) -> (r: Result<ParseResult<'a, AssetName<'a>>, ParseError>)
        ensures
            match r {
                Ok(p) => {
                    &&& p.splits(slice@)
                    &&& p.parsed.bytes() == slice@.take(p.consumed as int)
                    &&& decode_asset_name(slice@) == Ok::<(NameText, nat), ParseError>(
                        (p.parsed.texts(), p.consumed as nat),
                    )
                },
                Err(e) => decode_asset_name(slice@) == Err::<(NameText, nat), ParseError>(e),
            },
    {
        let slice_len = slice.len();
        let protocol = VarString::parse(slice)?;
        let type_ = VarString::parse(protocol.remaining)?;
        proof {
            assert(type_.remaining@ =~= slice@.skip((protocol.consumed + type_.consumed) as int));
        }
        let ticker = VarString::parse(type_.remaining)?;
        let total = protocol.consumed + type_.consumed + ticker.consumed;
        let own = vstd::slice::slice_subrange(slice, 0, total);
        proof {
            assert(slice_len == slice@.len());
            assert(ticker.remaining@ =~= slice@.skip(total as int));
            lemma_asset_name_take(slice@, total as nat);
            assert(own@ =~= slice@.take(total as int));
            let c1 = protocol.consumed as int;
            let c2 = c1 + type_.consumed;
            lemma_var_string_take(slice@, total as nat);
            assert(own@.skip(c1) =~= slice@.skip(c1).take(total - c1));
            lemma_var_string_take(slice@.skip(c1), (total - c1) as nat);
            assert(asset_name_cuts(own@) == (c1 as nat, c2 as nat));
            assert(protocol.parsed.bytes() =~= own@.take(c1));
            assert(type_.parsed.bytes() =~= own@.subrange(c1, c2));
            assert(ticker.parsed.bytes() =~= own@.skip(c2));
        }
        let parsed = AssetName {
            slice: own,
            protocol: protocol.parsed,
            type_: type_.parsed,
            ticker: ticker.parsed,
        };
        Ok(ParseResult { remaining: ticker.remaining, parsed, consumed: total })
    }

    /// The bytes the name was parsed from.
    pub fn as_ref(&self) -> (r: &'a [u8])
        ensures
            r@ == self.bytes(),
    {
        self.slice
    }

    /// The protocol's var string: the first sub-view of the name's bytes.
    pub fn protocol_var(&self) -> (r: &VarString<'a>)
        ensures
            r.bytes() == self.bytes().take(asset_name_cuts(self.bytes()).0 as int),
            r.payload() == self.texts().0,
    {
        proof {
            use_type_invariant(self);
        }
        &self.protocol
    }

    /// The type's var string: the second sub-view of the name's bytes.
    pub fn type_var(&self) -> (r: &VarString<'a>)
        ensures
            r.bytes() == self.bytes().subrange(
                asset_name_cuts(self.bytes()).0 as int,
                asset_name_cuts(self.bytes()).1 as int,
            ),
            r.payload() == self.texts().1,
    {
        proof {
            use_type_invariant(self);
        }
        &self.type_
    }

    /// The ticker's var string: the last sub-view of the name's bytes.
    pub fn ticker_var(&self) -> (r: &VarString<'a>)
        ensures
            r.bytes() == self.bytes().skip(asset_name_cuts(self.bytes()).1 as int),
            r.payload() == self.texts().2,
    {
        proof {
            use_type_invariant(self);
        }
        &self.ticker
    }

    /// The protocol as text, or `InvalidText` when it is not valid UTF-8.
    pub fn protocol(&self) -> (r: Result<String, ParseError>)
        ensures
            match r {
                Ok(s) => valid_utf8(self.texts().0) && s@ == decode_utf8(self.texts().0),
                Err(e) => !valid_utf8(self.texts().0) && e == ParseError::InvalidText,
            },
    {
        self.protocol.string()
    }

    /// The type as text, or `InvalidText` when it is not valid UTF-8.
    pub fn type_(&self) -> (r: Result<String, ParseError>)
        ensures
            match r {
                Ok(s) => valid_utf8(self.texts().1) && s@ == decode_utf8(self.texts().1),
                Err(e) => !valid_utf8(self.texts().1) && e == ParseError::InvalidText,
            },
    {
        self.type_.string()
    }

    /// The ticker as text, or `InvalidText` when it is not valid UTF-8.
    pub fn ticker(&self) -> (r: Result<String, ParseError>)
        ensures
            match r {
                Ok(s) => valid_utf8(self.texts().2) && s@ == decode_utf8(self.texts().2),
                Err(e) => !valid_utf8(self.texts().2) && e == ParseError::InvalidText,
            },
    {
        self.ticker.string()
    }
}

} // verus!
