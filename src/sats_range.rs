use vstd::prelude::*;
use crate::compact::{decode_compact, lemma_compact_take, parse_len};
use crate::error::ParseError;
use crate::parse::{Decoder, ParseResult, reads_within, truncation_exact};

verus! {

/// Decodes two compact lengths in a row, the start and the size of a range of satoshis.
pub open spec fn decode_sats_range(s: Seq<u8>) -> Result<((u64, u64), nat), ParseError> {
    match decode_compact(s) {
        Ok((start, c1)) => match decode_compact(s.skip(c1 as int)) {
            Ok((size, c2)) => Ok(((start, size), c1 + c2)),
            Err(e) => Err(e),
        },
        Err(e) => Err(e),
    }
}

/// `decode_sats_range` as a decoder value.
pub open spec fn sats_range_decoder() -> Decoder<(u64, u64)> {
    |s: Seq<u8>| decode_sats_range(s)
}

/// A range cut short of its encoding fails with `InsufficientBytes`; bytes after it do not
/// change it.
pub proof fn lemma_sats_range_take(s: Seq<u8>, k: nat)
    requires
        decode_sats_range(s) is Ok,
        k <= s.len(),
    ensures
        decode_sats_range(s.take(k as int)) == (if k >= decode_sats_range(s)->Ok_0.1 {
            decode_sats_range(s)
        } else {
            Err(ParseError::InsufficientBytes)
        }),
{
    lemma_compact_take(s, k);
    let c1 = decode_compact(s)->Ok_0.1;
    if k >= c1 {
        let rest = s.skip(c1 as int);
        assert(s.take(k as int).skip(c1 as int) =~= rest.take((k - c1) as int));
        lemma_compact_take(rest, (k - c1) as nat);
    }
}

/// Ranges read at least one byte, within their input, and truncate exactly.
pub proof fn lemma_sats_range_decoder()
    ensures
        reads_within(sats_range_decoder()),
        truncation_exact(sats_range_decoder()),
{
    assert forall|s: Seq<u8>, k: nat|
        sats_range_decoder()(s) is Ok && k <= s.len() implies #[trigger] sats_range_decoder()(
        s.take(k as int),
    ) == (if k >= sats_range_decoder()(s)->Ok_0.1 {
        sats_range_decoder()(s)
    } else {
        Err(ParseError::InsufficientBytes)
    }) by {
        lemma_sats_range_take(s, k);
    }
}

/// A range of satoshis, kept as the bytes it was parsed from.
#[derive(Debug, Clone, Copy, PartialEq, Eq)]
pub struct SatsRange<'a> {
    slice: &'a [u8],
    start: u64,
    size: u64,
}

impl<'a> SatsRange<'a> {
    #[verifier::type_invariant]
    spec fn inv(&self) -> bool {
        decode_sats_range(self.slice@) == Ok::<((u64, u64), nat), ParseError>(
            ((self.start, self.size), self.slice@.len()),
        )
    }

    /// The bytes the range was parsed from.
    pub closed spec fn bytes(&self) -> Seq<u8> {
        self.slice@
    }

    /// The start and the size of the range.
    pub closed spec fn value(&self) -> (u64, u64) {
        (self.start, self.size)
    }

    /// Parses a range at the front of `slice`.
    pub fn parse(slice: &'a [u8]) -> (r: Result<ParseResult<'a, SatsRange<'a>>, ParseError>)
        ensures
            match r {
                Ok(p) => {
                    &&& p.splits(slice@)
                    &&& p.parsed.bytes() == slice@.take(p.consumed as int)
                    &&& decode_sats_range(slice@) == Ok::<((u64, u64), nat), ParseError>(
                        (p.parsed.value(), p.consumed as nat),
                    )
                },
                Err(e) => decode_sats_range(slice@) == Err::<((u64, u64), nat), ParseError>(e),
            },
    {
        let start = parse_len(slice)?;
        let after = vstd::slice::slice_subrange(slice, start.consumed, slice.len());
        proof {
            assert(after@ =~= slice@.skip(start.consumed as int));
        }
        let size = parse_len(after)?;
        let total = start.consumed + size.consumed;
        let own = vstd::slice::slice_subrange(slice, 0, total);
        let remaining = vstd::slice::slice_subrange(slice, total, slice.len());
        proof {
            lemma_sats_range_take(slice@, total as nat);
            assert(own@ =~= slice@.take(total as int));
            assert(remaining@ =~= slice@.skip(total as int));
        }
        let parsed = SatsRange { slice: own, start: start.n, size: size.n };
        Ok(ParseResult { remaining, parsed, consumed: total })
    }

    /// The bytes the range was parsed from.
    pub fn as_ref(&self) -> (r: &'a [u8])
        ensures
            r@ == self.bytes(),
    {
        self.slice
    }

    /// The first satoshi of the range.
    pub fn start(&self) -> (r: u64)
        ensures
            r == self.value().0,
    {
        self.start
    }

    /// The number of satoshis in the range.
    pub fn size(&self) -> (r: u64)
        ensures
            r == self.value().1,
    {
        self.size
    }
}

} // verus!
