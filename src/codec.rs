//! Little-endian, fixed-width encoding of 64-bit offsets.

use vstd::prelude::*;

verus! {

/// `256^n`.
pub open spec fn pow256(n: nat) -> nat
    decreases n,
{
    if n == 0 {
        1
    } else {
        256 * pow256((n - 1) as nat)
    }
}

/// The low `w` bytes of `v`, least significant first.
pub open spec fn encode_value(v: nat, w: nat) -> Seq<u8>
    decreases w,
{
    if w == 0 {
        Seq::empty()
    } else {
        seq![(v % 256) as u8].add(encode_value(v / 256, (w - 1) as nat))
    }
}

/// The number whose little-endian bytes are `b`.
pub open spec fn decode_value(b: Seq<u8>) -> nat
    decreases b.len(),
{
    if b.len() == 0 {
        0
    } else {
        b[0] as nat + 256 * decode_value(b.drop_first())
    }
}

/// Every value of `vals`, each written as its low `w` bytes, one after another.
pub open spec fn encode_seq(vals: Seq<u64>, w: nat) -> Seq<u8>
    decreases vals.len(),
{
    if vals.len() == 0 {
        Seq::empty()
    } else {
        encode_seq(vals.drop_last(), w).add(encode_value(vals.last() as nat, w))
    }
}

/// The `len / w` values that `w`-byte groups of `b` stand for.
pub open spec fn decode_seq(b: Seq<u8>, w: nat) -> Seq<u64>
    recommends
        w > 0,
{
    Seq::new(b.len() / w, |i: int| decode_value(b.subrange(i * w, i * w + w)) as u64)
}

/// Every value of `vals` fits in `w` bytes.
pub open spec fn fits_width(vals: Seq<u64>, w: nat) -> bool {
    forall|i: int| 0 <= i < vals.len() ==> (vals[i] as nat) < pow256(w)
}

/// The least byte width able to address every offset `0..n`: the least `w`
/// with `n <= 256^w`, which is `ceil(log2(n) / 8)`.
pub open spec fn is_pointer_width(n: nat, w: nat) -> bool {
    &&& n <= pow256(w)
    &&& (w == 0 || pow256((w - 1) as nat) < n)
}

/// Why a byte buffer could not be read as a table of offsets.
#[derive(Debug, Clone, Copy, PartialEq, Eq, Structural)]
pub enum CodecError {
    /// The width is outside `1..=8`.
    BadWidth,
    /// The buffer's length is not a multiple of the width.
    Length,
}

pub proof fn lemma_pow256_positive(n: nat)
    ensures
        pow256(n) >= 1,
    decreases n,
{
    if n > 0 {
        lemma_pow256_positive((n - 1) as nat);
    }
}

pub proof fn lemma_pow256_monotone(a: nat, b: nat)
    requires
        a <= b,
    ensures
        pow256(a) <= pow256(b),
    decreases b,
{
    if a < b {
        lemma_pow256_monotone(a, (b - 1) as nat);
        lemma_pow256_positive((b - 1) as nat);
    }
}

pub proof fn lemma_pow256_8()
    ensures
        pow256(8) == 0x1_0000_0000_0000_0000,
{
    reveal_with_fuel(pow256, 9);
}

proof fn lemma_encode_value_len(v: nat, w: nat)
    ensures
        encode_value(v, w).len() == w,
    decreases w,
{
    if w > 0 {
        lemma_encode_value_len(v / 256, (w - 1) as nat);
    }
}

proof fn lemma_decode_encode_value(v: nat, w: nat)
    requires
        v < pow256(w),
    ensures
        decode_value(encode_value(v, w)) == v,
    decreases w,
{
    if w > 0 {
        let rest = encode_value(v / 256, (w - 1) as nat);
        let e = encode_value(v, w);
        assert(e.drop_first() =~= rest);
        assert(v / 256 < pow256((w - 1) as nat));
        lemma_decode_encode_value(v / 256, (w - 1) as nat);
    } else {
        assert(v == 0);
    }
}

proof fn lemma_decode_value_bound(b: Seq<u8>)
    ensures
        decode_value(b) < pow256(b.len()),
    decreases b.len(),
{
    if b.len() > 0 {
        lemma_decode_value_bound(b.drop_first());
    }
}

proof fn lemma_encode_seq_len(vals: Seq<u64>, w: nat)
    ensures
        encode_seq(vals, w).len() == vals.len() * w,
    decreases vals.len(),
{
    if vals.len() > 0 {
        lemma_encode_seq_len(vals.drop_last(), w);
        lemma_encode_value_len(vals.last() as nat, w);
        assert((vals.len() - 1) * w + w == vals.len() * w) by (nonlinear_arith);
    }
}

proof fn lemma_encode_seq_group(vals: Seq<u64>, w: nat, i: int)
    requires
        0 <= i < vals.len(),
    ensures
        i * w + w <= vals.len() * w,
        encode_seq(vals, w).subrange(i * w, i * w + w) == encode_value(vals[i] as nat, w),
    decreases vals.len(),
{
    lemma_encode_seq_len(vals, w);
    let init = vals.drop_last();
    lemma_encode_seq_len(init, w);
    lemma_encode_value_len(vals.last() as nat, w);
    assert(i * w + w <= vals.len() * w) by (nonlinear_arith)
        requires
            0 <= i < vals.len(),
    ;
    if i == vals.len() - 1 {
        assert(i * w == init.len() * w);
        assert(encode_seq(vals, w).subrange(i * w, i * w + w) =~= encode_value(vals[i] as nat, w));
    } else {
        lemma_encode_seq_group(init, w, i);
        assert(encode_seq(vals, w).subrange(i * w, i * w + w) =~= encode_seq(init, w).subrange(
            i * w,
            i * w + w,
        ));
    }
}

/// Decoding undoes encoding: for every width in `1..=8` and every sequence of
/// values that fit in that width, decoding the encoded bytes gives back the
/// values.
pub proof fn lemma_round_trip(vals: Seq<u64>, w: nat)
    requires
        1 <= w <= 8,
        fits_width(vals, w),
    ensures
        decode_seq(encode_seq(vals, w), w) == vals,
{
    let e = encode_seq(vals, w);
    lemma_encode_seq_len(vals, w);
    assert(e.len() / w == vals.len()) by (nonlinear_arith)
        requires
            e.len() == vals.len() * w,
            w >= 1,
    ;
    assert forall|i: int| 0 <= i < vals.len() implies decode_seq(e, w)[i] == vals[i] by {
        lemma_encode_seq_group(vals, w, i);
        lemma_decode_encode_value(vals[i] as nat, w);
    }
    assert(decode_seq(e, w) =~= vals);
}

/// The least width that addresses every offset `0..n`.
pub fn pointer_width(n: u64) -> (r: usize)
    ensures
        r <= 8,
        is_pointer_width(n as nat, r as nat),
{
    proof {
        lemma_pow256_8();
    }
    let mut w: usize = 0;
    let mut cap: u128 = 1;
    while (cap as u128) < (n as u128)
        invariant
            w <= 8,
            cap == pow256(w as nat),
            w == 0 || pow256((w - 1) as nat) < n,
            pow256(8) == 0x1_0000_0000_0000_0000,
        decreases 8 - w,
    {
        if w == 8 {
            assert(false);
        }
        proof {
            lemma_pow256_monotone(w as nat, 8);
        }
        cap = cap * 256;
        w = w + 1;
    }
    w
}

/// Writes each value little-endian, keeping its low `size_width` bytes.
/// A value that does not fit is silently truncated to those bytes.
pub fn to_bytes(input: &[u64], size_width: usize) -> (r: Vec<u8>)
    requires
        size_width <= 8,
        input@.len() * size_width <= usize::MAX,
    ensures
        r@ == encode_seq(input@, size_width as nat),
{
    let mut bytes: Vec<u8> = Vec::new();
    let mut i: usize = 0;
    while i < input.len()
        invariant
            i <= input@.len(),
            size_width <= 8,
            bytes@ == encode_seq(input@.subrange(0, i as int), size_width as nat),
        decreases input@.len() - i,
    {
        let ghost before = bytes@;
        let mut x: u64 = input[i];
        let mut k: usize = 0;
        while k < size_width
            invariant
                k <= size_width,
                bytes@ + encode_value(x as nat, (size_width - k) as nat) == before
                    + encode_value(input@[i as int] as nat, size_width as nat),
            decreases size_width - k,
        {
            let ghost xb = bytes@;
            bytes.push((x % 256) as u8);
            proof {
                let tail = encode_value(x as nat / 256, (size_width - k - 1) as nat);
                assert(encode_value(x as nat, (size_width - k) as nat) =~= seq![(x % 256) as u8]
                    + tail);
                assert(xb + (seq![(x % 256) as u8] + tail) =~= bytes@ + tail);
            }
            x = x / 256;
            k = k + 1;
        }
        assert(bytes@ =~= bytes@ + encode_value(x as nat, 0));
        proof {
            let s = input@.subrange(0, i as int + 1);
            assert(s.drop_last() =~= input@.subrange(0, i as int));
        }
        i = i + 1;
    }
    assert(input@.subrange(0, input@.len() as int) =~= input@);
    bytes
}

/// Reads `input` as consecutive little-endian values of `size_width` bytes.
/// Fails with `BadWidth` when the width is outside `1..=8`, and otherwise
/// with `Length` when the length is not a multiple of the width.
pub fn from_bytes(input: Vec<u8>, size_width: usize) -> (r: Result<Vec<u64>, CodecError>)
    ensures
        (size_width == 0 || size_width > 8) ==> r == Err::<Vec<u64>, CodecError>(
            CodecError::BadWidth,
        ),
        1 <= size_width <= 8 && input@.len() % (size_width as nat) != 0 ==> r == Err::<
            Vec<u64>,
            CodecError,
        >(CodecError::Length),
        1 <= size_width <= 8 && input@.len() % (size_width as nat) == 0 ==> (r matches Ok(v)
            && v@ == decode_seq(input@, size_width as nat)),
{
    if size_width == 0 || size_width > 8 {
        return Err(CodecError::BadWidth);
    }
    if input.len() % size_width != 0 {
        return Err(CodecError::Length);
    }
    proof {
        lemma_pow256_8();
        lemma_pow256_monotone(size_width as nat, 8);
    }
    let n = input.len() / size_width;
    let ghost w = size_width as nat;
    let mut out: Vec<u64> = Vec::new();
    let mut i: usize = 0;
    while i < n
        invariant
            1 <= size_width <= 8,
            n == input@.len() / w,
            w == size_width,
            i <= n,
            pow256(w) <= pow256(8),
            pow256(8) == 0x1_0000_0000_0000_0000,
            out@ =~= decode_seq(input@, w).subrange(0, i as int),
        decreases n - i,
    {
        assert((i as int) * (size_width as int) + (size_width as int) <= input@.len()) by (nonlinear_arith)
            requires
                i < n,
                n == input@.len() / w,
                w == size_width,
                w >= 1,
        ;
        assert(i * size_width <= input.len());
        let base = i * size_width;
        let ghost group = input@.subrange(base as int, base + w);
        let mut acc: u64 = 0;
        let mut k: usize = size_width;
        while k > 0
            invariant
                1 <= size_width <= 8,
                k <= size_width,
                base + size_width <= input.len(),
                group == input@.subrange(base as int, base + w),
                w == size_width,
                pow256(w) <= pow256(8),
                pow256(8) == 0x1_0000_0000_0000_0000,
                acc as nat == decode_value(group.subrange(k as int, w as int)),
            decreases k,
        {
            let ghost tail = group.subrange(k as int, w as int);
            let ghost t2 = group.subrange(k - 1, w as int);
            proof {
                assert(t2.drop_first() =~= tail);
                lemma_decode_value_bound(t2);
                lemma_pow256_monotone(t2.len(), 8);
            }
            acc = acc * 256 + input[base + k - 1] as u64;
            k = k - 1;
        }
        assert(group.subrange(0, w as int) =~= group);
        out.push(acc);
        i = i + 1;
    }
    Ok(out)
}

} // verus!
