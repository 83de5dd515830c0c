use vstd::prelude::*;
use crate::compact::decode_compact;
use crate::error::ParseError;

verus! {

/// A decoder over byte sequences: the value at the front and the bytes it occupies.
pub type Decoder<V> = spec_fn(Seq<u8>) -> Result<(V, nat), ParseError>;

/// A successful parse step: the value, how many bytes it read, and the bytes after them.
#[derive(Debug, Clone, Copy, PartialEq, Eq)]
pub struct ParseResult<'a, T> {
    pub remaining: &'a [u8],
    pub parsed: T,
    pub consumed: usize,
}

impl<'a, T> ParseResult<'a, T> {
    /// `remaining` is what is left of `input` after its first `consumed` bytes.
    pub open spec fn splits(&self, input: Seq<u8>) -> bool {
        &&& self.consumed <= input.len()
        &&& self.remaining@ == input.skip(self.consumed as int)
    }

    /// The bytes after the parsed value.
    pub fn remaining(&self) -> (r: &'a [u8])
        ensures
            r@ == self.remaining@,
    {
        self.remaining
    }

    /// How many bytes the parsed value occupied.
    pub fn consumed(&self) -> (r: usize)
        ensures
            r == self.consumed,
    {
        self.consumed
    }

    /// The parsed value.
    pub fn parsed(&self) -> (r: &T)
        ensures
            r == &self.parsed,
    {
        &self.parsed
    }

    /// The parsed value, taking the result apart.
    pub fn parsed_owned(self) -> (r: T)
        ensures
            r == self.parsed,
    {
        self.parsed
    }
}

/// Prepends already decoded `items`, which took `c` bytes, to the outcome `r` of what follows.
pub open spec fn glue<V>(items: Seq<V>, c: nat, r: Result<(Seq<V>, nat), ParseError>) -> Result<
    (Seq<V>, nat),
    ParseError,
> {
    match r {
        Ok((vs, c2)) => Ok((items + vs, c + c2)),
        Err(e) => Err(e),
    }
}

/// Decodes `k` values back to back with `f`, each starting where the previous one ended.
pub open spec fn decode_many<V>(s: Seq<u8>, k: nat, f: Decoder<V>) -> Result<
    (Seq<V>, nat),
    ParseError,
>
    decreases k,
{
    if k == 0 {
        Ok((seq![], 0))
    } else {
        match f(s) {
            Ok((v, c)) => glue(seq![v], c, decode_many(s.skip(c as int), (k - 1) as nat, f)),
            Err(e) => Err(e),
        }
    }
}

/// Decodes a compact-length count `n` followed by `n` values decoded with `f`.
pub open spec fn decode_seq<V>(s: Seq<u8>, f: Decoder<V>) -> Result<(Seq<V>, nat), ParseError> {
    match decode_compact(s) {
        Ok((n, c)) => glue(seq![], c, decode_many(s.skip(c as int), n as nat, f)),
        Err(e) => Err(e),
    }
}

/// Every successful decode by `f` reads at least one byte and no more than it was given.
pub open spec fn reads_within<V>(f: Decoder<V>) -> bool {
    forall|t: Seq<u8>| #[trigger] f(t) is Ok ==> 1 <= f(t)->Ok_0.1 <= t.len()
}

/// Nothing decoded before `r` leaves `r` as it is.
pub proof fn lemma_glue_empty<V>(r: Result<(Seq<V>, nat), ParseError>)
    ensures
        glue(seq![], 0, r) == r,
{
    match r {
        Ok((vs, c)) => {
            assert(Seq::<V>::empty() + vs =~= vs);
        },
        Err(_) => {},
    }
}

/// A successful run of `k` decodes yields `k` values and reads between `k` and all bytes.
pub proof fn lemma_many_bounds<V>(s: Seq<u8>, k: nat, f: Decoder<V>)
    requires
        reads_within(f),
        decode_many(s, k, f) is Ok,
    ensures
        decode_many(s, k, f)->Ok_0.0.len() == k,
        k <= decode_many(s, k, f)->Ok_0.1 <= s.len(),
    decreases k,
{
    if k > 0 {
        let c = f(s)->Ok_0.1;
        assert(f(s) is Ok);
        lemma_many_bounds(s.skip(c as int), (k - 1) as nat, f);
    }
}

/// Moves one decoded value from the outcome of what follows to the items already decoded.
pub proof fn lemma_many_step<V>(s: Seq<u8>, items: Seq<V>, c: nat, m: nat, f: Decoder<V>)
    requires
        reads_within(f),
        m >= 1,
        c <= s.len(),
        f(s.skip(c as int)) is Ok,
    ensures
        ({
            let (v, c1) = f(s.skip(c as int))->Ok_0;
            &&& c + c1 <= s.len()
            &&& glue(items, c, decode_many(s.skip(c as int), m, f)) == glue(
                items.push(v),
                c + c1,
                decode_many(s.skip((c + c1) as int), (m - 1) as nat, f),
            )
        }),
{
    let (v, c1) = f(s.skip(c as int))->Ok_0;
    assert(s.skip(c as int).skip(c1 as int) =~= s.skip((c + c1) as int));
    let rest = decode_many(s.skip((c + c1) as int), (m - 1) as nat, f);
    match rest {
        Ok((vs, c2)) => {
            assert(items + (seq![v] + vs) =~= items.push(v) + vs);
        },
        Err(_) => {},
    }
}

/// Decoding the first `k` bytes of a valid input gives the same result when the value fits in
/// them, and `InsufficientBytes` when it does not.
pub open spec fn truncation_exact<V>(f: Decoder<V>) -> bool {
    forall|s: Seq<u8>, k: nat|
        f(s) is Ok && k <= s.len() ==> #[trigger] f(s.take(k as int)) == (if k >= f(s)->Ok_0.1 {
            f(s)
        } else {
            Err(ParseError::InsufficientBytes)
        })
}

/// What `truncation_exact` says of one decoder carries over to a run of `m` of its values.
pub proof fn lemma_many_take<V>(s: Seq<u8>, m: nat, f: Decoder<V>, k: nat)
    requires
        reads_within(f),
        truncation_exact(f),
        decode_many(s, m, f) is Ok,
        k <= s.len(),
    ensures
        decode_many(s.take(k as int), m, f) == (if k >= decode_many(s, m, f)->Ok_0.1 {
            decode_many(s, m, f)
        } else {
            Err(ParseError::InsufficientBytes)
        }),
    decreases m,
{
    if m > 0 {
        assert(f(s) is Ok);
        let c1 = f(s)->Ok_0.1;
        let t = s.take(k as int);
        assert(f(t) == f(s.take(k as int)));
        if k >= c1 {
            let rest = s.skip(c1 as int);
            assert(t.skip(c1 as int) =~= rest.take((k - c1) as int));
            lemma_many_take(rest, (m - 1) as nat, f, (k - c1) as nat);
        }
    }
}

/// When each element's decoder truncates exactly, so does a count-prefixed sequence of them:
/// cut short of its encoding it fails with `InsufficientBytes`, and bytes after it do not
/// change it.
pub proof fn lemma_seq_take<V>(s: Seq<u8>, f: Decoder<V>, k: nat)
    requires
        reads_within(f),
        truncation_exact(f),
        decode_seq(s, f) is Ok,
        k <= s.len(),
    ensures
        decode_seq(s.take(k as int), f) == (if k >= decode_seq(s, f)->Ok_0.1 {
            decode_seq(s, f)
        } else {
            Err(ParseError::InsufficientBytes)
        }),
{
    let t = s.take(k as int);
    crate::compact::lemma_compact_take(s, k);
    let (n, c) = decode_compact(s)->Ok_0;
    if k >= c {
        let rest = s.skip(c as int);
        assert(t.skip(c as int) =~= rest.take((k - c) as int));
        lemma_many_take(rest, n as nat, f, (k - c) as nat);
    }
}

/// A successful sequence decode yields as many values as its count says and reads at most
/// its input.
pub proof fn lemma_seq_bounds<V>(s: Seq<u8>, f: Decoder<V>)
    requires
        reads_within(f),
        decode_seq(s, f) is Ok,
    ensures
        decode_seq(s, f)->Ok_0.0.len() == decode_compact(s)->Ok_0.0,
        decode_compact(s)->Ok_0.1 + decode_seq(s, f)->Ok_0.0.len() <= decode_seq(s, f)->Ok_0.1,
        decode_seq(s, f)->Ok_0.1 <= s.len(),
{
    let (n, c) = decode_compact(s)->Ok_0;
    lemma_many_bounds(s.skip(c as int), n as nat, f);
    lemma_glue_empty(decode_many(s.skip(c as int), n as nat, f));
}

} // verus!
