use vstd::prelude::*;
use crate::compact::{decode_compact, parse_len};
use crate::error::ParseError;
use crate::parse::{
    ParseResult, decode_many, decode_seq, glue, lemma_many_bounds, lemma_many_step,
    lemma_seq_bounds, lemma_seq_take,
};
use crate::sats_range::{SatsRange, decode_sats_range, lemma_sats_range_decoder, sats_range_decoder};

verus! {

/// A count-prefixed sequence of satoshi ranges, kept as the bytes it was parsed from.
#[derive(Debug, Clone, Copy, PartialEq, Eq)]
pub struct SatsRanges<'a> {
    slice: &'a [u8],
    n: usize,
}

impl<'a> SatsRanges<'a> {
    #[verifier::type_invariant]
    spec fn inv(&self) -> bool {
        &&& decode_seq(self.slice@, sats_range_decoder()) is Ok
        &&& decode_seq(self.slice@, sats_range_decoder())->Ok_0.1 == self.slice@.len()
        &&& decode_seq(self.slice@, sats_range_decoder())->Ok_0.0.len() == self.n
    }

    /// The bytes the sequence was parsed from, count included.
    pub closed spec fn bytes(&self) -> Seq<u8> {
        self.slice@
    }

    /// The start and size of each range, in order.
    pub closed spec fn items(&self) -> Seq<(u64, u64)> {
        decode_seq(self.slice@, sats_range_decoder())->Ok_0.0
    }

    /// Parses a count `n` and then `n` ranges back to back at the front of `slice`; the first
    /// range that fails to parse fails the whole sequence.
    pub fn parse(slice: &'a [u8]) -> (r: Result<ParseResult<'a, SatsRanges<'a>>, ParseError>)
        ensures
            match r {
                Ok(p) => {
                    &&& p.splits(slice@)
                    &&& p.parsed.bytes() == slice@.take(p.consumed as int)
                    &&& decode_seq(slice@, sats_range_decoder()) == Ok::<
                        (Seq<(u64, u64)>, nat),
                        ParseError,
                    >((p.parsed.items(), p.consumed as nat))
                },
                Err(e) => decode_seq(slice@, sats_range_decoder()) == Err::<
                    (Seq<(u64, u64)>, nat),
                    ParseError,
                >(e),
            },
    {
        let len = parse_len(slice)?;
        let ghost f = sats_range_decoder();
        proof {
            lemma_sats_range_decoder();
        }
        let mut consumed: usize = len.consumed;
        let mut remaining = vstd::slice::slice_subrange(slice, consumed, slice.len());
        let ghost mut items: Seq<(u64, u64)> = seq![];
        let mut i: u64 = 0;
        let slice_len = slice.len();
        while i < len.n
            invariant
                slice_len == slice@.len(),
                f == sats_range_decoder(),
                len.consumed <= consumed <= slice@.len(),
                remaining@ == slice@.skip(consumed as int),
                i <= len.n,
                items.len() == i,
                decode_seq(slice@, f) == glue(
                    items,
                    consumed as nat,
                    decode_many(slice@.skip(consumed as int), (len.n - i) as nat, f),
                ),
            decreases len.n - i,
        {
            match SatsRange::parse(remaining) {
                Ok(p) => {
                    proof {
                        assert(remaining@.len() == slice@.len() - consumed);
                        assert(p.consumed <= remaining@.len());
                        lemma_many_step(slice@, items, consumed as nat, (len.n - i) as nat, f);
                        items = items.push(p.parsed.value());
                    }
                    consumed = consumed + p.consumed;
                    remaining = p.remaining;
                    i = i + 1;
                    proof {
                        assert(remaining@ =~= slice@.skip(consumed as int));
                    }
                },
                Err(e) => {
                    return Err(e);
                },
            }
        }
        proof {
            assert(items + Seq::<(u64, u64)>::empty() =~= items);
            lemma_seq_bounds(slice@, f);
            lemma_seq_take(slice@, f, consumed as nat);
        }
        let own = vstd::slice::slice_subrange(slice, 0, consumed);
        proof {
            assert(own@ =~= slice@.take(consumed as int));
        }
        let parsed = SatsRanges { slice: own, n: len.n as usize };
        Ok(ParseResult { remaining, parsed, consumed })
    }

    /// The sequence with no ranges, as its one-byte encoding: a count of zero.
    pub fn empty() -> (r: SatsRanges<'a>)
        ensures
            r.bytes() == seq![0u8],
            r.items().len() == 0,
    {
        let zero: &'a [u8; 1] = &[0u8];
        let slice = zero.as_slice();
        proof {
            assert(slice@ =~= seq![0u8]);
            assert(decode_many(slice@.skip(1), 0, sats_range_decoder()) == Ok::<
                (Seq<(u64, u64)>, nat),
                ParseError,
            >((seq![], 0)));
            assert(Seq::<(u64, u64)>::empty() + Seq::<(u64, u64)>::empty() =~= Seq::<
                (u64, u64),
            >::empty());
        }
        SatsRanges { slice, n: 0 }
    }

    /// The bytes the sequence was parsed from, count included.
    pub fn as_ref(&self) -> (r: &'a [u8])
        ensures
            r@ == self.bytes(),
    {
        self.slice
    }

    /// Whether the sequence holds no range.
    pub fn is_empty(&self) -> (r: bool)
        ensures
            r == (self.items().len() == 0),
    {
        proof {
            use_type_invariant(self);
        }
        self.n == 0
    }

    /// The number of ranges, as counted when the sequence was parsed; it equals the count that
    /// its bytes begin with.
    pub fn n(&self) -> (r: usize)
        ensures
            r == self.items().len(),
            r == decode_compact(self.bytes())->Ok_0.0,
    {
        proof {
            use_type_invariant(self);
            lemma_sats_range_decoder();
            lemma_seq_bounds(self.slice@, sats_range_decoder());
        }
        self.n
    }

    /// A fresh iterator over the ranges, which decodes each one again as it is reached.
    pub fn iter(&self) -> (r: TxOutIterator<'a>)
        ensures
            r.wf(),
            r.rest() == self.items(),
            r.rest_bytes() == self.bytes().skip(decode_compact(self.bytes())->Ok_0.1 as int),
            r.decodes_rest(),
    {
        proof {
            use_type_invariant(self);
            lemma_sats_range_decoder();
        }
        let ghost f = sats_range_decoder();
        match parse_len(self.slice) {
            Ok(len) => {
                proof {
                    let m = decode_many(self.slice@.skip(len.consumed as int), len.n as nat, f);
                    assert(m is Ok);
                    assert(Seq::<(u64, u64)>::empty() + m->Ok_0.0 =~= m->Ok_0.0);
                    lemma_many_bounds(self.slice@.skip(len.consumed as int), len.n as nat, f);
                }
                let r = TxOutIterator {
                    elements: len.n as usize,
                    offset: len.consumed,
                    slice: self.slice,
                };
                proof {
                    r.lemma_wf_decodes_rest();
                }
                r
            },
            Err(_) => {
                proof {
                    assert(false);
                }
                TxOutIterator { elements: 0, offset: 0, slice: self.slice }
            },
        }
    }
}

/// Walks the ranges of a [`SatsRanges`], decoding each one from the sequence's bytes.
pub struct TxOutIterator<'a> {
    elements: usize,
    offset: usize,
    slice: &'a [u8],
}

impl<'a> TxOutIterator<'a> {
    /// The bytes from `offset` on decode as exactly `elements` ranges.
    pub closed spec fn wf(&self) -> bool {
        &&& self.offset <= self.slice@.len()
        &&& decode_many(self.slice@.skip(self.offset as int), self.elements as nat, sats_range_decoder()) is Ok
        &&& decode_many(
            self.slice@.skip(self.offset as int),
            self.elements as nat,
            sats_range_decoder(),
        )->Ok_0.1 == self.slice@.len() - self.offset
    }

    /// The ranges not yet yielded, in order.
    pub closed spec fn rest(&self) -> Seq<(u64, u64)> {
        decode_many(
            self.slice@.skip(self.offset as int),
            self.elements as nat,
            sats_range_decoder(),
        )->Ok_0.0
    }

    /// The bytes of the sequence not yet walked.
    pub closed spec fn rest_bytes(&self) -> Seq<u8> {
        self.slice@.skip(self.offset as int)
    }

    /// The bytes not yet walked decode as exactly the ranges not yet yielded, and nothing is
    /// left over.
    pub open spec fn decodes_rest(&self) -> bool {
        decode_many(self.rest_bytes(), self.rest().len(), sats_range_decoder()) == Ok::<
            (Seq<(u64, u64)>, nat),
            ParseError,
        >((self.rest(), self.rest_bytes().len()))
    }

    proof fn lemma_wf_decodes_rest(&self)
        requires
            self.wf(),
        ensures
            self.decodes_rest(),
            self.rest().len() == self.elements,
            self.rest().len() == 0 <==> self.rest_bytes().len() == 0,
    {
        lemma_sats_range_decoder();
        lemma_many_bounds(self.rest_bytes(), self.elements as nat, sats_range_decoder());
    }

    /// Yields the next range, or `None` once the sequence's bytes are used up.
    pub fn next(&mut self) -> (r: Option<SatsRange<'a>>)
        requires
            old(self).wf(),
        ensures
            final(self).wf(),
            final(self).decodes_rest(),
            old(self).rest().len() == 0 <==> old(self).rest_bytes().len() == 0,
            old(self).rest().len() == 0 ==> {
                &&& r is None
                &&& final(self).rest() == old(self).rest()
                &&& final(self).rest_bytes() == old(self).rest_bytes()
            },
            old(self).rest().len() > 0 ==> {
                &&& r is Some
                &&& r->Some_0.value() == old(self).rest()[0]
                &&& r->Some_0.bytes() == old(self).rest_bytes().take(
                    decode_sats_range(old(self).rest_bytes())->Ok_0.1 as int,
                )
                &&& final(self).rest() == old(self).rest().drop_first()
                &&& final(self).rest_bytes() == old(self).rest_bytes().skip(
                    r->Some_0.bytes().len() as int,
                )
            },
    {
        let ghost f = sats_range_decoder();
        proof {
            self.lemma_wf_decodes_rest();
            lemma_sats_range_decoder();
            lemma_many_bounds(self.slice@.skip(self.offset as int), self.elements as nat, f);
        }
        if self.offset >= self.slice.len() {
            return None;
        }
        let sub = vstd::slice::slice_subrange(self.slice, self.offset, self.slice.len());
        proof {
            assert(sub@ =~= self.slice@.skip(self.offset as int));
        }
        match SatsRange::parse(sub) {
            Ok(p) => {
                let ghost old_rest = self.rest();
                proof {
                    let s = self.slice@.skip(self.offset as int);
                    let c1 = p.consumed as nat;
                    let tail = decode_many(s.skip(c1 as int), (self.elements - 1) as nat, f);
                    assert(tail is Ok);
                    assert(s.skip(c1 as int) =~= self.slice@.skip(self.offset + c1));
                    assert(old_rest =~= seq![p.parsed.value()] + tail->Ok_0.0);
                    assert(old_rest.drop_first() =~= tail->Ok_0.0);
                }
                self.offset = self.offset + p.consumed;
                self.elements = self.elements - 1;
                proof {
                    assert(self.rest_bytes() =~= sub@.skip(p.consumed as int));
                    self.lemma_wf_decodes_rest();
                }
                Some(p.parsed)
            },
            Err(_) => {
                proof {
                    assert(false);
                }
                None
            },
        }
    }

    /// The exact number of ranges still to come, as lower and upper bound.
    pub fn size_hint(&self) -> (r: (usize, Option<usize>))
        requires
            self.wf(),
        ensures
            r.0 == self.rest().len(),
            r.1 == Some(self.rest().len() as usize),
    {
        proof {
            lemma_sats_range_decoder();
            lemma_many_bounds(
                self.slice@.skip(self.offset as int),
                self.elements as nat,
                sats_range_decoder(),
            );
        }
        (self.elements, Some(self.elements))
    }

    /// The exact number of ranges still to come.
    pub fn len(&self) -> (r: usize)
        requires
            self.wf(),
        ensures
            r == self.rest().len(),
    {
        proof {
            self.lemma_wf_decodes_rest();
        }
        self.elements
    }

    /// Walks the iterator to its end and returns how many ranges it yielded.
    pub fn count(self) -> (r: usize)
        requires
            self.wf(),
        ensures
            r == self.rest().len(),
    {
        proof {
            self.lemma_wf_decodes_rest();
        }
        let ghost total = self.rest().len();
        let mut it = self;
        let mut k: usize = 0;
        loop
            invariant
                it.wf(),
                total == self.rest().len(),
                total <= usize::MAX,
                k + it.rest().len() == total,
            decreases it.rest().len(),
        {
            match it.next() {
                Some(_) => {
                    k = k + 1;
                },
                None => {
                    return k;
                },
            }
        }
    }
}

} // verus!
