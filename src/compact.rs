use vstd::prelude::*;
use crate::error::ParseError;

verus! {

/// 256 raised to the power `k`.
pub open spec fn pow256(k: nat) -> nat
    decreases k,
{
    if k == 0 {
        1
    } else {
        256 * pow256((k - 1) as nat)
    }
}

/// The unsigned integer spelled by `s`, least significant byte first.
pub open spec fn le_value(s: Seq<u8>) -> nat
    decreases s.len(),
{
    if s.len() == 0 {
        0
    } else {
        s[0] as nat + 256 * le_value(s.drop_first())
    }
}

/// The `k` low bytes of `v`, least significant first.
pub open spec fn le_bytes(v: nat, k: nat) -> Seq<u8>
    decreases k,
{
    if k == 0 {
        seq![]
    } else {
        seq![(v % 256) as u8] + le_bytes(v / 256, (k - 1) as nat)
    }
}

/// Total width of a compact length whose first byte is `first`: the byte alone below
/// `0xfd`, else a marker followed by 2, 4 or 8 bytes.
pub open spec fn compact_width(first: u8) -> nat {
    if first < 0xfd {
        1
    } else if first == 0xfd {
        3
    } else if first == 0xfe {
        5
    } else {
        9
    }
}

/// Decodes a compact length at the front of `s`: its value and the bytes it occupies.
pub open spec fn decode_compact(s: Seq<u8>) -> Result<(u64, nat), ParseError> {
    if s.len() == 0 || s.len() < compact_width(s[0]) {
        Err(ParseError::InsufficientBytes)
    } else if s[0] < 0xfd {
        Ok((s[0] as u64, 1))
    } else {
        Ok((le_value(s.subrange(1, compact_width(s[0]) as int)) as u64, compact_width(s[0])))
    }
}

/// The shortest encoding of `n` as a compact length.
pub open spec fn encode_compact(n: u64) -> Seq<u8> {
    if n < 0xfd {
        seq![n as u8]
    } else if n <= 0xffff {
        seq![0xfdu8] + le_bytes(n as nat, 2)
    } else if n <= 0xffff_ffff {
        seq![0xfeu8] + le_bytes(n as nat, 4)
    } else {
        seq![0xffu8] + le_bytes(n as nat, 8)
    }
}

proof fn lemma_pow256_values()
    ensures
        pow256(2) == 0x1_0000,
        pow256(4) == 0x1_0000_0000,
        pow256(8) == 0x1_0000_0000_0000_0000,
{
    reveal_with_fuel(pow256, 9);
}

proof fn lemma_pow256_mono(a: nat, b: nat)
    requires
        a <= b,
    ensures
        pow256(a) <= pow256(b),
    decreases b,
{
    if a < b {
        lemma_pow256_mono(a, (b - 1) as nat);
    }
}

proof fn lemma_le_value_bound(s: Seq<u8>)
    ensures
        le_value(s) < pow256(s.len()),
    decreases s.len(),
{
    if s.len() > 0 {
        let t = s.drop_first();
        lemma_le_value_bound(t);
        let v = le_value(t);
        let p = pow256(t.len());
        let b = s[0] as nat;
        assert(b + 256 * v < 256 * p) by (nonlinear_arith)
            requires
                v < p,
                b < 256,
        ;
    }
}

/// Reading `k` little-endian bytes written from `v` gives `v` back, when `v` fits.
proof fn lemma_le_bytes_value(v: nat, k: nat)
    requires
        v < pow256(k),
    ensures
        le_bytes(v, k).len() == k,
        le_value(le_bytes(v, k)) == v,
    decreases k,
{
    if k > 0 {
        let p = pow256((k - 1) as nat);
        assert(v / 256 < p) by (nonlinear_arith)
            requires
                v < 256 * p,
        ;
        lemma_le_bytes_value(v / 256, (k - 1) as nat);
        let s = le_bytes(v, k);
        assert(s.drop_first() =~= le_bytes(v / 256, (k - 1) as nat));
        assert(v == v % 256 + 256 * (v / 256)) by (nonlinear_arith);
    }
}

/// Encoding a value and decoding the encoding gives the value, and the whole encoding is read.
pub proof fn lemma_encode_then_decode(n: u64)
    ensures
        decode_compact(encode_compact(n)) == Ok::<(u64, nat), ParseError>(
            (n, encode_compact(n).len()),
        ),
{
    lemma_pow256_values();
    let s = encode_compact(n);
    if n < 0xfd {
    } else if n <= 0xffff {
        lemma_le_bytes_value(n as nat, 2);
        assert(s.subrange(1, 3) =~= le_bytes(n as nat, 2));
    } else if n <= 0xffff_ffff {
        lemma_le_bytes_value(n as nat, 4);
        assert(s.subrange(1, 5) =~= le_bytes(n as nat, 4));
    } else {
        lemma_le_bytes_value(n as nat, 8);
        assert(s.subrange(1, 9) =~= le_bytes(n as nat, 8));
    }
}

/// Decoding a compact length, re-encoding its value and decoding again yields the same
/// value, whichever width the first encoding used.
pub proof fn lemma_compact_round_trip(s: Seq<u8>)
    requires
        decode_compact(s) is Ok,
    ensures
        decode_compact(encode_compact(decode_compact(s)->Ok_0.0))->Ok_0.0
            == decode_compact(s)->Ok_0.0,
{
    lemma_encode_then_decode(decode_compact(s)->Ok_0.0);
}

/// Decoding only the first `k` bytes of a valid compact length gives the same result when
/// the encoding fits in them, and `InsufficientBytes` when it does not.
pub proof fn lemma_compact_take(s: Seq<u8>, k: nat)
    requires
        decode_compact(s) is Ok,
        k <= s.len(),
    ensures
        decode_compact(s.take(k as int)) == (if k >= decode_compact(s)->Ok_0.1 {
            decode_compact(s)
        } else {
            Err(ParseError::InsufficientBytes)
        }),
{
    let t = s.take(k as int);
    if k > 0 {
        assert(t[0] == s[0]);
        let w = compact_width(s[0]);
        if k >= w && w > 1 {
            assert(t.subrange(1, w as int) =~= s.subrange(1, w as int));
        }
    }
}

/// A decoded compact length: its value and the number of bytes its encoding occupied.
#[derive(Debug, Clone, Copy, PartialEq, Eq, Structural)]
pub struct Len {
    pub consumed: usize,
    pub n: u64,
}

impl Len {
    /// The decoded value.
    pub fn n(&self) -> (r: u64)
        ensures
            r == self.n,
    {
        self.n
    }

    /// The number of bytes the encoding occupied.
    pub fn consumed(&self) -> (r: usize)
        ensures
            r == self.consumed,
    {
        self.consumed
    }
}

/// Reads the little-endian integer in `slice[start..end]`.
fn read_le(slice: &[u8], start: usize, end: usize) -> (v: u64)
    requires
        start <= end <= slice@.len(),
        end - start <= 8,
    ensures
        v as nat == le_value(slice@.subrange(start as int, end as int)),
{
    let mut v: u64 = 0;
    let mut i: usize = end;
    proof {
        assert(slice@.subrange(end as int, end as int).len() == 0);
    }
    while i > start
        invariant
            start <= i <= end,
            end <= slice@.len(),
            end - start <= 8,
            v as nat == le_value(slice@.subrange(i as int, end as int)),
            (v as nat) < pow256((end - i) as nat),
        decreases i,
    {
        i = i - 1;
        let b = slice[i];
        proof {
            let k = (end - i - 1) as nat;
            assert(slice@.subrange(i as int, end as int).drop_first() =~= slice@.subrange(
                i + 1,
                end as int,
            ));
            lemma_pow256_values();
            lemma_pow256_mono(k + 1, 8);
            let p = pow256(k);
            assert((v as nat) * 256 + (b as nat) < 256 * p) by (nonlinear_arith)
                requires
                    (v as nat) < p,
                    (b as nat) < 256,
            ;
        }
        v = v * 256 + b as u64;
    }
    v
}

/// Decodes the compact length at the front of `slice`.
pub fn parse_len(slice: &[u8]) -> (r: Result<Len, ParseError>)
    ensures
        match r {
            Ok(l) => decode_compact(slice@) == Ok::<(u64, nat), ParseError>(
                (l.n, l.consumed as nat),
            ),
            Err(e) => decode_compact(slice@) == Err::<(u64, nat), ParseError>(e),
        },
{
    if slice.len() == 0 {
        return Err(ParseError::InsufficientBytes);
    }
    let first = slice[0];
    let width: usize = if first < 0xfd {
        1
    } else if first == 0xfd {
        3
    } else if first == 0xfe {
        5
    } else {
        9
    };
    if slice.len() < width {
        return Err(ParseError::InsufficientBytes);
    }
    if first < 0xfd {
        Ok(Len { consumed: 1, n: first as u64 })
    } else {
        let n = read_le(slice, 1, width);
        proof {
            let s = slice@.subrange(1, width as int);
            lemma_le_value_bound(s);
            lemma_pow256_values();
            lemma_pow256_mono(s.len(), 8);
        }
        Ok(Len { consumed: width, n })
    }
}

/// Appends the `k` low bytes of `v` to `out`, least significant first.
fn push_le(out: &mut Vec<u8>, v: u64, k: usize)
    ensures
        final(out)@ == old(out)@ + le_bytes(v as nat, k as nat),
{
    let ghost target = old(out)@ + le_bytes(v as nat, k as nat);
    let mut x: u64 = v;
    let mut i: usize = 0;
    while i < k
        invariant
            i <= k,
            target == out@ + le_bytes(x as nat, (k - i) as nat),
        decreases k - i,
    {
        let ghost before = out@;
        let ghost rest = le_bytes((x / 256) as nat, (k - i - 1) as nat);
        out.push((x % 256) as u8);
        assert(before + (seq![(x % 256) as u8] + rest) =~= out@ + rest);
        x = x / 256;
        i = i + 1;
    }
    assert(out@ + le_bytes(x as nat, 0) =~= out@);
}

/// The shortest compact-length encoding of `n`.
pub fn encode_len(n: u64) -> (r: Vec<u8>)
    ensures
        r@ == encode_compact(n),
{
    let mut out: Vec<u8> = Vec::new();
    if n < 0xfd {
        out.push(n as u8);
    } else if n <= 0xffff {
        out.push(0xfd);
        push_le(&mut out, n, 2);
    } else if n <= 0xffff_ffff {
        out.push(0xfe);
        push_le(&mut out, n, 4);
    } else {
        out.push(0xff);
        push_le(&mut out, n, 8);
    }
    assert(out@ =~= encode_compact(n));
    out
}

} // verus!
