use vstd::prelude::*;
use crate::asset_name::{AssetName, NameText, decode_asset_name, lemma_asset_name_take};
use crate::compact::{decode_compact, lemma_compact_take, parse_len};
use crate::error::ParseError;
use crate::parse::{Decoder, ParseResult, reads_within, truncation_exact};

verus! {

/// What an asset record holds: its name, its amount and its binding value.
pub type AssetValue = (NameText, i64, u16);

/// Decodes an asset name followed by two compact lengths, the amount and the binding value.
/// An amount beyond `i64::MAX` or a binding value beyond `u16::MAX` is `InvalidEncoding`.
pub open spec fn decode_asset_info(s: Seq<u8>) -> Result<(AssetValue, nat), ParseError> {
    match decode_asset_name(s) {
        Ok((name, c1)) => match decode_compact(s.skip(c1 as int)) {
            Ok((amount, c2)) => if amount > i64::MAX {
                Err(ParseError::InvalidEncoding)
            } else {
                match decode_compact(s.skip((c1 + c2) as int)) {
                    Ok((binding, c3)) => if binding > u16::MAX {
                        Err(ParseError::InvalidEncoding)
                    } else {
                        Ok(((name, amount as i64, binding as u16), c1 + c2 + c3))
                    },
                    Err(e) => Err(e),
                }
            },
            Err(e) => Err(e),
        },
        Err(e) => Err(e),
    }
}

/// `decode_asset_info` as a decoder value.
pub open spec fn asset_info_decoder() -> Decoder<AssetValue> {
    |s: Seq<u8>| decode_asset_info(s)
}

/// An asset record cut short of its encoding fails with `InsufficientBytes`, never with
/// `InvalidEncoding`; bytes after it do not change it.
pub proof fn lemma_asset_info_take(s: Seq<u8>, k: nat)
    requires
        decode_asset_info(s) is Ok,
        k <= s.len(),
    ensures
        decode_asset_info(s.take(k as int)) == (if k >= decode_asset_info(s)->Ok_0.1 {
            decode_asset_info(s)
        } else {
            Err(ParseError::InsufficientBytes)
        }),
{
    let t = s.take(k as int);
    lemma_asset_name_take(s, k);
    let c1 = decode_asset_name(s)->Ok_0.1;
    if k >= c1 {
        let s1 = s.skip(c1 as int);
        assert(t.skip(c1 as int) =~= s1.take((k - c1) as int));
        lemma_compact_take(s1, (k - c1) as nat);
        let c2 = decode_compact(s1)->Ok_0.1;
        if k >= c1 + c2 {
            let s2 = s.skip((c1 + c2) as int);
            assert(t.skip((c1 + c2) as int) =~= s2.take((k - c1 - c2) as int));
            lemma_compact_take(s2, (k - c1 - c2) as nat);
        }
    }
}

/// Asset records read at least one byte, within their input, and truncate exactly.
pub proof fn lemma_asset_info_decoder()
    ensures
        reads_within(asset_info_decoder()),
        truncation_exact(asset_info_decoder()),
{
    assert forall|s: Seq<u8>, k: nat|
        asset_info_decoder()(s) is Ok && k <= s.len() implies #[trigger] asset_info_decoder()(
        s.take(k as int),
    ) == (if k >= asset_info_decoder()(s)->Ok_0.1 {
        asset_info_decoder()(s)
    } else {
        Err(ParseError::InsufficientBytes)
    }) by {
        lemma_asset_info_take(s, k);
    }
}

/// An asset carried by an output: name, amount and binding value, kept as the bytes they were
/// parsed from.
#[derive(Debug, Clone, Copy, PartialEq, Eq)]
pub struct AssetInfo<'a> {
    slice: &'a [u8],
    name: AssetName<'a>,
    amount: i64,
    binding_sat: u16,
}

impl<'a> AssetInfo<'a> {
    #[verifier::type_invariant]
    spec fn inv(&self) -> bool {
        &&& decode_asset_info(self.slice@) == Ok::<(AssetValue, nat), ParseError>(
            ((self.name.texts(), self.amount, self.binding_sat), self.slice@.len()),
        )
        &&& self.name.bytes() == self.slice@.take(decode_asset_name(self.slice@)->Ok_0.1 as int)
    }

    /// The bytes the record was parsed from.
    pub closed spec fn bytes(&self) -> Seq<u8> {
        self.slice@
    }

    /// The name's payloads, the amount and the binding value.
    pub closed spec fn value(&self) -> AssetValue {
        (self.name.texts(), self.amount, self.binding_sat)
    }

    /// Parses an asset record at the front of `slice`.
    pub fn parse(slice: &'a [u8]) -> (r: Result<ParseResult<'a, AssetInfo<'a>>, ParseError>)
        ensures
            match r {
                Ok(p) => {
                    &&& p.splits(slice@)
                    &&& p.parsed.bytes() == slice@.take(p.consumed as int)
                    &&& decode_asset_info(slice@) == Ok::<(AssetValue, nat), ParseError>(
                        (p.parsed.value(), p.consumed as nat),
                    )
                },
                Err(e) => decode_asset_info(slice@) == Err::<(AssetValue, nat), ParseError>(e),
            },
    {
        let slice_len = slice.len();
        let name = AssetName::parse(slice)?;
        let amount = parse_len(name.remaining)?;
        if amount.n > 0x7fff_ffff_ffff_ffff {
            return Err(ParseError::InvalidEncoding);
        }
        let after_amount = vstd::slice::slice_subrange(
            name.remaining,
            amount.consumed,
            name.remaining.len(),
        );
        proof {
            assert(after_amount@ =~= slice@.skip((name.consumed + amount.consumed) as int));
        }
        let binding = parse_len(after_amount)?;
        if binding.n > 0xffff {
            return Err(ParseError::InvalidEncoding);
        }
        let total = name.consumed + amount.consumed + binding.consumed;
        let own = vstd::slice::slice_subrange(slice, 0, total);
        let remaining = vstd::slice::slice_subrange(slice, total, slice_len);
        proof {
            lemma_asset_info_take(slice@, total as nat);
            assert(own@ =~= slice@.take(total as int));
            assert(remaining@ =~= slice@.skip(total as int));
            lemma_asset_name_take(slice@, total as nat);
            assert(own@.take(name.consumed as int) =~= slice@.take(name.consumed as int));
        }
        let parsed = AssetInfo {
            slice: own,
            name: name.parsed,
            amount: amount.n as i64,
            binding_sat: binding.n as u16,
        };
        Ok(ParseResult { remaining, parsed, consumed: total })
    }

    /// The bytes the record was parsed from.
    pub fn as_ref(&self) -> (r: &'a [u8])
        ensures
            r@ == self.bytes(),
    {
        self.slice
    }

    /// The asset's name: the leading sub-view of the record's bytes.
    pub fn name(&self) -> (r: &AssetName<'a>)
        ensures
            r.texts() == self.value().0,
            r.bytes() == self.bytes().take(decode_asset_name(self.bytes())->Ok_0.1 as int),
    {
        proof {
            use_type_invariant(self);
        }
        &self.name
    }

    /// The amount of the asset.
    pub fn amount(&self) -> (r: i64)
        ensures
            r == self.value().1,
    {
        self.amount
    }

    /// The binding value of the asset.
    pub fn binding_sat(&self) -> (r: u16)
        ensures
            r == self.value().2,
    {
        self.binding_sat
    }
}

} // verus!
