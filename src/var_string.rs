use vstd::prelude::*;
use vstd::utf8::{decode_utf8, valid_utf8};
use crate::compact::{decode_compact, lemma_compact_take, parse_len};
use crate::error::ParseError;
use crate::parse::{Decoder, ParseResult, reads_within, truncation_exact};

verus! {

/// Decodes a compact length `n` followed by `n` payload bytes: the payload and the bytes read.
pub open spec fn decode_var_string(s: Seq<u8>) -> Result<(Seq<u8>, nat), ParseError> {
    match decode_compact(s) {
        Ok((n, c)) => if c + n <= s.len() {
            Ok((s.subrange(c as int, c + n), (c + n) as nat))
        } else {
            Err(ParseError::InsufficientBytes)
        },
        Err(e) => Err(e),
    }
}

/// `decode_var_string` as a decoder value.
pub open spec fn var_string_decoder() -> Decoder<Seq<u8>> {
    |s: Seq<u8>| decode_var_string(s)
}

/// A var string cut short of its encoding fails with `InsufficientBytes`; bytes after it do
/// not change it.
pub proof fn lemma_var_string_take(s: Seq<u8>, k: nat)
    requires
        decode_var_string(s) is Ok,
        k <= s.len(),
    ensures
        decode_var_string(s.take(k as int)) == (if k >= decode_var_string(s)->Ok_0.1 {
            decode_var_string(s)
        } else {
            Err(ParseError::InsufficientBytes)
        }),
{
    lemma_compact_take(s, k);
    let (n, c) = decode_compact(s)->Ok_0;
    if k >= c + n {
        assert(s.take(k as int).subrange(c as int, c + n) =~= s.subrange(c as int, c + n));
    }
}

/// Var strings read at least one byte, within their input, and truncate exactly.
pub proof fn lemma_var_string_decoder()
    ensures
        reads_within(var_string_decoder()),
        truncation_exact(var_string_decoder()),
{
    assert forall|s: Seq<u8>, k: nat|
        var_string_decoder()(s) is Ok && k <= s.len() implies #[trigger] var_string_decoder()(
        s.take(k as int),
    ) == (if k >= var_string_decoder()(s)->Ok_0.1 {
        var_string_decoder()(s)
    } else {
        Err(ParseError::InsufficientBytes)
    }) by {
        lemma_var_string_take(s, k);
    }
}

/// Relies on `String::from_utf8`: it succeeds exactly on valid UTF-8, and the string then
/// holds the characters that the bytes encode.
#[verifier::external_body]
fn utf8_to_string(bytes: Vec<u8>) -> (r: Option<String>)
    ensures
        r is Some <==> valid_utf8(bytes@),
        r is Some ==> r->Some_0@ == decode_utf8(bytes@),
{
    String::from_utf8(bytes).ok()
}

/// A length-prefixed byte string, kept as the bytes it was parsed from.
#[derive(Debug, Clone, Copy, PartialEq, Eq)]
pub struct VarString<'a> {
    str_index: usize,
    slice: &'a [u8],
}

impl<'a> VarString<'a> {
    #[verifier::type_invariant]
    spec fn inv(&self) -> bool {
        &&& self.str_index <= self.slice@.len()
        &&& decode_var_string(self.slice@) == Ok::<(Seq<u8>, nat), ParseError>(
            (self.slice@.skip(self.str_index as int), self.slice@.len()),
        )
    }

    /// The bytes the string was parsed from, length prefix included.
    pub closed spec fn bytes(&self) -> Seq<u8> {
        self.slice@
    }

    /// The payload bytes, after the length prefix.
    pub closed spec fn payload(&self) -> Seq<u8> {
        self.slice@.skip(self.str_index as int)
    }

    /// Parses a var string at the front of `slice`.
    pub fn parse(slice: &'a [u8]) -> (r: Result<ParseResult<'a, VarString<'a>>, ParseError>)
        ensures
            match r {
                Ok(p) => {
                    &&& p.splits(slice@)
                    &&& p.parsed.bytes() == slice@.take(p.consumed as int)
                    &&& decode_var_string(slice@) == Ok::<(Seq<u8>, nat), ParseError>(
                        (p.parsed.payload(), p.consumed as nat),
                    )
                },
                Err(e) => decode_var_string(slice@) == Err::<(Seq<u8>, nat), ParseError>(e),
            },
    {
        let len = parse_len(slice)?;
        let c = len.consumed;
        if len.n > (slice.len() - c) as u64 {
            return Err(ParseError::InsufficientBytes);
        }
        let total = c + len.n as usize;
        let own = vstd::slice::slice_subrange(slice, 0, total);
        let remaining = vstd::slice::slice_subrange(slice, total, slice.len());
        proof {
            lemma_var_string_take(slice@, total as nat);
            assert(own@ =~= slice@.take(total as int));
            assert(own@.skip(c as int) =~= slice@.subrange(c as int, total as int));
            assert(remaining@ =~= slice@.skip(total as int));
        }
        let parsed = VarString { str_index: c, slice: own };
        Ok(ParseResult { remaining, parsed, consumed: total })
    }

    /// The bytes the string was parsed from, length prefix included.
    pub fn as_ref(&self) -> (r: &'a [u8])
        ensures
            r@ == self.bytes(),
    {
        self.slice
    }

    /// The payload decoded as UTF-8 text, or `InvalidText` when it is not valid UTF-8.
    pub fn string(&self) -> (r: Result<String, ParseError>)
        ensures
            match r {
                Ok(s) => valid_utf8(self.payload()) && s@ == decode_utf8(self.payload()),
                Err(e) => !valid_utf8(self.payload()) && e == ParseError::InvalidText,
            },
    {
        proof {
            use_type_invariant(self);
        }
        let payload = vstd::slice::slice_subrange(self.slice, self.str_index, self.slice.len());
        let bytes = vstd::slice::slice_to_vec(payload);
        assert(bytes@ =~= self.payload());
        match utf8_to_string(bytes) {
            Some(s) => Ok(s),
            None => Err(ParseError::InvalidText),
        }
    }
}

} // verus!
