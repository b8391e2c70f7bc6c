//! Portable Adler-32 reference algorithm.
//!
//! The checksum state packs two 16-bit sums, `s1` (byte sum plus one) and
//! `s2` (running sum of `s1` values), both reduced modulo 65521, as
//! `(s2 << 16) | s1`.  The mathematical definition is the canonical
//! per-byte fold `s1 += byte; s2 += s1`, each step reduced modulo 65521
//! (`adler_fold`).  The implementation defers the reduction to the end of
//! each bounded chunk and folds groups of 16 and 4 bytes with closed-form
//! weighted updates; it is proved to compute exactly the canonical fold.

use vstd::prelude::*;

verus! {

use vstd::arithmetic::div_mod::{
    lemma_add_mod_noop, lemma_add_mod_noop_right, lemma_mod_twice, lemma_mod_bound,
    lemma_small_mod,
};
use vstd::arithmetic::mul::{lemma_mul_inequality, lemma_mul_upper_bound};

/// Modulus of the Adler-32 checksum: the largest prime below 65536.
pub const ADLER_MOD: u32 = 65521;

/// Largest number of bytes that may be folded into the raw 32-bit
/// accumulators before the mandatory end-of-chunk reduction: with starting
/// sums of at most 65535 and byte values of at most 255, neither
/// accumulator can exceed `u32::MAX` within a chunk of this length.
pub const MAX_CHUNK_LEN: usize = 5552;

/// Canonical Adler-32 fold: one byte at a time, `s1 += byte; s2 += s1`,
/// both reduced modulo 65521 at every step.  This is the correctness
/// oracle for every implementation.
pub open spec fn adler_fold(s1: int, s2: int, data: Seq<u8>) -> (int, int)
    decreases data.len(),
{
    if data.len() == 0 {
        (s1, s2)
    } else {
        let n1 = (s1 + data[0]) % (ADLER_MOD as int);
        let n2 = (s2 + n1) % (ADLER_MOD as int);
        adler_fold(n1, n2, data.skip(1))
    }
}

/// The same fold without any modular reduction, over unbounded integers.
/// The implementation's in-chunk accumulators follow this function.
pub open spec fn raw_fold(s1: int, s2: int, data: Seq<u8>) -> (int, int)
    decreases data.len(),
{
    if data.len() == 0 {
        (s1, s2)
    } else {
        raw_fold(s1 + data[0], s2 + s1 + data[0], data.skip(1))
    }
}

/// The packed checksum that folding `data` into the packed state `state`
/// must produce.
pub open spec fn adler32_spec(state: u32, data: Seq<u8>) -> u32 {
    let f = adler_fold((state & 0xFFFF) as int, (state >> 16) as int, data);
    ((f.1 % (ADLER_MOD as int)) * 0x10000 + f.0 % (ADLER_MOD as int)) as u32
}

/// Sum of all byte values of `data`.
pub open spec fn byte_sum(data: Seq<u8>) -> int
    decreases data.len(),
{
    if data.len() == 0 {
        0
    } else {
        data[0] + byte_sum(data.skip(1))
    }
}

/// Weighted byte sum: each byte weighted by its distance from the end,
/// `data.len() * data[0] + ... + 1 * data[last]`.
pub open spec fn weighted_sum(data: Seq<u8>) -> int
    decreases data.len(),
{
    if data.len() == 0 {
        0
    } else {
        data.len() * data[0] + weighted_sum(data.skip(1))
    }
}

proof fn lemma_low_high_bounds()
    by (bit_vector)
    ensures
        forall|x: u32| #[trigger] (x & 0xFFFF) < 0x10000,
        forall|x: u32| #[trigger] (x >> 16) < 0x10000,
{
}

proof fn lemma_pack_fields(hi: u32, lo: u32)
    by (bit_vector)
    requires
        hi < 0x10000,
        lo < 0x10000,
    ensures
        ((hi << 16) | lo) as int == hi * 0x10000 + lo,
        ((hi * 0x10000 + lo) as u32) & 0xFFFF == lo,
        ((hi * 0x10000 + lo) as u32) >> 16 == hi,
{
}

/// The raw fold in closed form: `s1` grows by the byte sum, `s2` by
/// `len * s1` plus the weighted byte sum.
proof fn lemma_raw_fold_closed(s1: int, s2: int, data: Seq<u8>)
    ensures
        raw_fold(s1, s2, data).0 == s1 + byte_sum(data),
        raw_fold(s1, s2, data).1 == s2 + data.len() * s1 + weighted_sum(data),
    decreases data.len(),
{
    if data.len() == 0 {
    } else {
        let n = data.len() as int;
        lemma_raw_fold_closed(s1 + data[0], s2 + s1 + data[0], data.skip(1));
        assert((n - 1) * (s1 + data[0]) == n * s1 + n * data[0] - s1 - data[0])
            by (nonlinear_arith);
    }
}

proof fn lemma_byte_sum_bounds(data: Seq<u8>)
    ensures
        0 <= byte_sum(data) <= 255 * data.len(),
    decreases data.len(),
{
    if data.len() == 0 {
    } else {
        lemma_byte_sum_bounds(data.skip(1));
    }
}

proof fn lemma_weighted_sum_bounds(data: Seq<u8>)
    ensures
        0 <= weighted_sum(data),
        2 * weighted_sum(data) <= 255 * data.len() * (data.len() + 1),
    decreases data.len(),
{
    if data.len() == 0 {
    } else {
        let n = data.len() as int;
        lemma_weighted_sum_bounds(data.skip(1));
        assert(0 <= n * data[0] && n * data[0] <= n * 255) by (nonlinear_arith)
            requires 0 <= data[0] <= 255 && n >= 1;
        assert(510 * n + 255 * (n - 1) * n == 255 * n * (n + 1)) by (nonlinear_arith);
    }
}

/// Numeric bounds on the raw fold over at most `MAX_CHUNK_LEN` bytes from
/// 16-bit starting sums; both results fit in a `u32`.
proof fn lemma_raw_fold_in_range(s1: int, s2: int, data: Seq<u8>)
    requires
        0 <= s1 <= 0xFFFF,
        0 <= s2 <= 0xFFFF,
        data.len() <= MAX_CHUNK_LEN,
    ensures
        s1 <= raw_fold(s1, s2, data).0 <= 1481295,
        s2 <= raw_fold(s1, s2, data).1 <= 4294773495,
{
    let n = data.len() as int;
    lemma_raw_fold_closed(s1, s2, data);
    lemma_byte_sum_bounds(data);
    lemma_weighted_sum_bounds(data);
    lemma_mul_inequality(n, 5552, 255);
    lemma_mul_upper_bound(n, 5552, s1, 0xFFFF);
    assert(n * s1 >= 0) by (nonlinear_arith)
        requires n >= 0 && s1 >= 0;
    assert(255 * n * (n + 1) <= 255 * 5552 * 5553) by (nonlinear_arith)
        requires 0 <= n <= 5552;
}

/// The raw fold is congruent modulo 65521 in its starting sums.
proof fn lemma_raw_fold_congruent(x1: int, x2: int, y1: int, y2: int, data: Seq<u8>)
    requires
        x1 % (ADLER_MOD as int) == y1 % (ADLER_MOD as int),
        x2 % (ADLER_MOD as int) == y2 % (ADLER_MOD as int),
    ensures
        raw_fold(x1, x2, data).0 % (ADLER_MOD as int)
            == raw_fold(y1, y2, data).0 % (ADLER_MOD as int),
        raw_fold(x1, x2, data).1 % (ADLER_MOD as int)
            == raw_fold(y1, y2, data).1 % (ADLER_MOD as int),
    decreases data.len(),
{
    let m = ADLER_MOD as int;
    if data.len() == 0 {
    } else {
        let b = data[0] as int;
        lemma_add_mod_noop(x1, b, m);
        lemma_add_mod_noop(y1, b, m);
        lemma_add_mod_noop(x2, x1 + b, m);
        lemma_add_mod_noop(y2, y1 + b, m);
        lemma_raw_fold_congruent(x1 + b, x2 + x1 + b, y1 + b, y2 + y1 + b, data.skip(1));
    }
}

/// The canonical fold agrees with the raw fold modulo 65521, and its
/// results are reduced whenever at least one byte was folded.
proof fn lemma_adler_fold_is_raw(s1: int, s2: int, data: Seq<u8>)
    requires
        s1 >= 0,
        s2 >= 0,
    ensures
        adler_fold(s1, s2, data).0 % (ADLER_MOD as int)
            == raw_fold(s1, s2, data).0 % (ADLER_MOD as int),
        adler_fold(s1, s2, data).1 % (ADLER_MOD as int)
            == raw_fold(s1, s2, data).1 % (ADLER_MOD as int),
        adler_fold(s1, s2, data).0 >= 0,
        adler_fold(s1, s2, data).1 >= 0,
        data.len() > 0 ==> adler_fold(s1, s2, data).0 < ADLER_MOD as int,
        data.len() > 0 ==> adler_fold(s1, s2, data).1 < ADLER_MOD as int,
    decreases data.len(),
{
    let m = ADLER_MOD as int;
    if data.len() == 0 {
    } else {
        let b = data[0] as int;
        let n1 = (s1 + b) % m;
        let n2 = (s2 + n1) % m;
        lemma_mod_bound(s1 + b, m);
        lemma_mod_bound(s2 + n1, m);
        lemma_adler_fold_is_raw(n1, n2, data.skip(1));
        // n1 and s1 + b are congruent; n2 and s2 + s1 + b are congruent.
        lemma_mod_twice(s1 + b, m);
        lemma_add_mod_noop_right(s2, s1 + b, m);
        lemma_mod_twice(s2 + n1, m);
        assert(n2 % m == (s2 + s1 + b) % m);
        lemma_raw_fold_congruent(n1, n2, s1 + b, s2 + s1 + b, data.skip(1));
    }
}

/// Folding a concatenation folds the parts in sequence (raw form).
proof fn lemma_raw_fold_append(s1: int, s2: int, a: Seq<u8>, b: Seq<u8>)
    ensures
        raw_fold(s1, s2, a + b)
            == raw_fold(raw_fold(s1, s2, a).0, raw_fold(s1, s2, a).1, b),
    decreases a.len(),
{
    if a.len() == 0 {
        assert(a + b =~= b);
    } else {
        assert((a + b).skip(1) =~= a.skip(1) + b);
        lemma_raw_fold_append(s1 + a[0], s2 + s1 + a[0], a.skip(1), b);
    }
}

/// Folding a concatenation folds the parts in sequence (canonical form).
proof fn lemma_adler_fold_append(s1: int, s2: int, a: Seq<u8>, b: Seq<u8>)
    ensures
        adler_fold(s1, s2, a + b)
            == adler_fold(adler_fold(s1, s2, a).0, adler_fold(s1, s2, a).1, b),
    decreases a.len(),
{
    let m = ADLER_MOD as int;
    if a.len() == 0 {
        assert(a + b =~= b);
    } else {
        assert((a + b).skip(1) =~= a.skip(1) + b);
        let n1 = (s1 + a[0]) % m;
        let n2 = (s2 + n1) % m;
        lemma_adler_fold_append(n1, n2, a.skip(1), b);
    }
}

/// Splitting a byte sequence at any offset and folding the two parts in
/// sequence gives the same packed checksum as folding the whole sequence
/// at once.
pub proof fn lemma_adler32_split(state: u32, a: Seq<u8>, b: Seq<u8>)
    ensures
        adler32_spec(adler32_spec(state, a), b) == adler32_spec(state, a + b),
{
    let m = ADLER_MOD as int;
    lemma_low_high_bounds();
    let s1 = (state & 0xFFFF) as int;
    let s2 = (state >> 16) as int;
    let fa = adler_fold(s1, s2, a);
    lemma_adler_fold_is_raw(s1, s2, a);
    lemma_mod_bound(fa.0, m);
    lemma_mod_bound(fa.1, m);
    let hi = (fa.1 % m) as u32;
    let lo = (fa.0 % m) as u32;
    lemma_pack_fields(hi, lo);
    let mid = adler32_spec(state, a);
    assert((mid & 0xFFFF) as int == fa.0 % m);
    assert((mid >> 16) as int == fa.1 % m);
    // Left side folds b from the reduced sums, right side from the raw ones;
    // they agree modulo 65521.
    lemma_adler_fold_append(s1, s2, a, b);
    lemma_adler_fold_is_raw(fa.0 % m, fa.1 % m, b);
    lemma_adler_fold_is_raw(fa.0, fa.1, b);
    lemma_mod_twice(fa.0, m);
    lemma_mod_twice(fa.1, m);
    lemma_raw_fold_congruent(fa.0 % m, fa.1 % m, fa.0, fa.1, b);
    let fl = adler_fold(fa.0 % m, fa.1 % m, b);
    let fr = adler_fold(fa.0, fa.1, b);
    assert(fl.0 % m == fr.0 % m);
    assert(fl.1 % m == fr.1 % m);
}

proof fn lemma_sum_unfold(data: Seq<u8>, k: int)
    requires
        0 <= k < data.len(),
    ensures
        byte_sum(data.skip(k)) == data[k] + byte_sum(data.skip(k + 1)),
        weighted_sum(data.skip(k))
            == (data.len() - k) * data[k] + weighted_sum(data.skip(k + 1)),
{
    assert(data.skip(k).skip(1) =~= data.skip(k + 1));
    assert(data.skip(k)[0] == data[k]);
}

/// Closed form of the raw fold over exactly 16 bytes: the weighted group
/// update used by the implementation.
proof fn lemma_fold16(s1: int, s2: int, d: Seq<u8>)
    requires
        d.len() == 16,
    ensures
        raw_fold(s1, s2, d).0 == s1
            + (d[0] + d[1] + d[2] + d[3] + d[4] + d[5] + d[6] + d[7]
               + d[8] + d[9] + d[10] + d[11] + d[12] + d[13] + d[14] + d[15]),
        raw_fold(s1, s2, d).1 == s2 + 16 * s1
            + (16 * d[0] + 15 * d[1] + 14 * d[2] + 13 * d[3] + 12 * d[4] + 11 * d[5]
               + 10 * d[6] + 9 * d[7] + 8 * d[8] + 7 * d[9] + 6 * d[10] + 5 * d[11]
               + 4 * d[12] + 3 * d[13] + 2 * d[14] + 1 * d[15]),
{
    lemma_raw_fold_closed(s1, s2, d);
    assert(d.skip(0) =~= d);
    assert(byte_sum(d.skip(16)) == 0);
    assert(weighted_sum(d.skip(16)) == 0);
    lemma_sum_unfold(d, 0);
    lemma_sum_unfold(d, 1);
    lemma_sum_unfold(d, 2);
    lemma_sum_unfold(d, 3);
    lemma_sum_unfold(d, 4);
    lemma_sum_unfold(d, 5);
    lemma_sum_unfold(d, 6);
    lemma_sum_unfold(d, 7);
    lemma_sum_unfold(d, 8);
    lemma_sum_unfold(d, 9);
    lemma_sum_unfold(d, 10);
    lemma_sum_unfold(d, 11);
    lemma_sum_unfold(d, 12);
    lemma_sum_unfold(d, 13);
    lemma_sum_unfold(d, 14);
    lemma_sum_unfold(d, 15);
}

/// Closed form of the raw fold over exactly 4 bytes.
proof fn lemma_fold4(s1: int, s2: int, d: Seq<u8>)
    requires
        d.len() == 4,
    ensures
        raw_fold(s1, s2, d).0 == s1 + (d[0] + d[1] + d[2] + d[3]),
        raw_fold(s1, s2, d).1 == s2 + 4 * s1
            + (4 * d[0] + 3 * d[1] + 2 * d[2] + 1 * d[3]),
{
    lemma_raw_fold_closed(s1, s2, d);
    assert(d.skip(0) =~= d);
    assert(byte_sum(d.skip(4)) == 0);
    assert(weighted_sum(d.skip(4)) == 0);
    lemma_sum_unfold(d, 0);
    lemma_sum_unfold(d, 1);
    lemma_sum_unfold(d, 2);
    lemma_sum_unfold(d, 3);
}

/// One step of the raw fold.
proof fn lemma_fold1(s1: int, s2: int, d: Seq<u8>)
    requires
        d.len() == 1,
    ensures
        raw_fold(s1, s2, d).0 == s1 + d[0],
        raw_fold(s1, s2, d).1 == s2 + s1 + d[0],
{
    assert(d.skip(1).len() == 0);
    assert(raw_fold(s1 + d[0], s2 + s1 + d[0], d.skip(1)) == (s1 + d[0], s2 + s1 + d[0]));
}

/// Folds one chunk of at most `MAX_CHUNK_LEN` bytes into the two sums,
/// deferring the modular reduction to the end of the chunk.  Groups of 16
/// and of 4 bytes use the closed-form weighted update; the result equals
/// the canonical per-byte fold reduced modulo 65521.
#[verifier::rlimit(100)]
pub fn adler32_chunk(s1: &mut u32, s2: &mut u32, p: &[u8])
    requires
        *old(s1) <= 0xFFFF,
        *old(s2) <= 0xFFFF,
        p@.len() <= MAX_CHUNK_LEN,
    ensures
        *final(s1) < ADLER_MOD,
        *final(s2) < ADLER_MOD,
        *final(s1) as int
            == raw_fold(*old(s1) as int, *old(s2) as int, p@).0 % (ADLER_MOD as int),
        *final(s2) as int
            == raw_fold(*old(s1) as int, *old(s2) as int, p@).1 % (ADLER_MOD as int),
{
    let ghost c1: int = *s1 as int;
    let ghost c2: int = *s2 as int;
    let n: usize = p.len();
    let mut a: u32 = *s1;
    let mut b: u32 = *s2;
    let mut i: usize = 0;

    while i + 16 <= n
        invariant
            i <= n,
            n == p@.len(),
            n <= MAX_CHUNK_LEN,
            0 <= c1 <= 0xFFFF,
            0 <= c2 <= 0xFFFF,
            a as int == raw_fold(c1, c2, p@.take(i as int)).0,
            b as int == raw_fold(c1, c2, p@.take(i as int)).1,
        decreases n - i,
    {
        proof {
            let pre = p@.take(i as int);
            let grp = p@.subrange(i as int, i as int + 16);
            assert(pre + grp =~= p@.take(i as int + 16));
            lemma_raw_fold_append(c1, c2, pre, grp);
            lemma_fold16(a as int, b as int, grp);
            lemma_raw_fold_in_range(c1, c2, p@.take(i as int + 16));
            lemma_raw_fold_in_range(c1, c2, pre);
        }
        let b0 = p[i] as u32;
        let b1 = p[i + 1] as u32;
        let b2 = p[i + 2] as u32;
        let b3 = p[i + 3] as u32;
        let b4 = p[i + 4] as u32;
        let b5 = p[i + 5] as u32;
        let b6 = p[i + 6] as u32;
        let b7 = p[i + 7] as u32;
        let b8 = p[i + 8] as u32;
        let b9 = p[i + 9] as u32;
        let b10 = p[i + 10] as u32;
        let b11 = p[i + 11] as u32;
        let b12 = p[i + 12] as u32;
        let b13 = p[i + 13] as u32;
        let b14 = p[i + 14] as u32;
        let b15 = p[i + 15] as u32;

        b = b + (a * 16)
            + (b0 * 16) + (b1 * 15) + (b2 * 14) + (b3 * 13)
            + (b4 * 12) + (b5 * 11) + (b6 * 10) + (b7 * 9)
            + (b8 * 8) + (b9 * 7) + (b10 * 6) + (b11 * 5)
            + (b12 * 4) + (b13 * 3) + (b14 * 2) + (b15 * 1);
        a = a + b0 + b1 + b2 + b3 + b4 + b5 + b6 + b7
            + b8 + b9 + b10 + b11 + b12 + b13 + b14 + b15;
        i = i + 16;
    }

    while i + 4 <= n
        invariant
            i <= n,
            n == p@.len(),
            n <= MAX_CHUNK_LEN,
            0 <= c1 <= 0xFFFF,
            0 <= c2 <= 0xFFFF,
            a as int == raw_fold(c1, c2, p@.take(i as int)).0,
            b as int == raw_fold(c1, c2, p@.take(i as int)).1,
        decreases n - i,
    {
        proof {
            let pre = p@.take(i as int);
            let grp = p@.subrange(i as int, i as int + 4);
            assert(pre + grp =~= p@.take(i as int + 4));
            lemma_raw_fold_append(c1, c2, pre, grp);
            lemma_fold4(a as int, b as int, grp);
            lemma_raw_fold_in_range(c1, c2, p@.take(i as int + 4));
            lemma_raw_fold_in_range(c1, c2, pre);
        }
        let b0 = p[i] as u32;
        let b1 = p[i + 1] as u32;
        let b2 = p[i + 2] as u32;
        let b3 = p[i + 3] as u32;

        b = b + (a * 4) + (b0 * 4) + (b1 * 3) + (b2 * 2) + (b3 * 1);
        a = a + b0 + b1 + b2 + b3;
        i = i + 4;
    }

    while i < n
        invariant
            i <= n,
            n == p@.len(),
            n <= MAX_CHUNK_LEN,
            0 <= c1 <= 0xFFFF,
            0 <= c2 <= 0xFFFF,
            a as int == raw_fold(c1, c2, p@.take(i as int)).0,
            b as int == raw_fold(c1, c2, p@.take(i as int)).1,
        decreases n - i,
    {
        proof {
            let pre = p@.take(i as int);
            let grp = p@.subrange(i as int, i as int + 1);
            assert(pre + grp =~= p@.take(i as int + 1));
            lemma_raw_fold_append(c1, c2, pre, grp);
            lemma_fold1(a as int, b as int, grp);
            lemma_raw_fold_in_range(c1, c2, p@.take(i as int + 1));
            lemma_raw_fold_in_range(c1, c2, pre);
        }
        a = a + (p[i] as u32);
        b = b + a;
        i = i + 1;
    }

    proof {
        assert(p@.take(n as int) =~= p@);
    }
    *s1 = a % ADLER_MOD;
    *s2 = b % ADLER_MOD;
}

/// Folds `buffer` into the packed state `adler`, splitting the input into
/// chunks of at most `MAX_CHUNK_LEN` bytes so that the deferred modular
/// reduction cannot overflow.  Computes exactly the canonical per-byte
/// Adler-32 fold; an empty buffer leaves a reachable state unchanged.
pub fn adler32_generic(adler: u32, buffer: &[u8]) -> (r: u32)
    ensures
        r == adler32_spec(adler, buffer@),
{
    proof {
        lemma_low_high_bounds();
    }
    let ghost m: int = ADLER_MOD as int;
    let mut s1: u32 = adler & 0xFFFF;
    let mut s2: u32 = adler >> 16;
    let ghost c1: int = s1 as int;
    let ghost c2: int = s2 as int;
    let n: usize = buffer.len();
    let mut pos: usize = 0;

    while pos < n
        invariant
            pos <= n,
            n == buffer@.len(),
            0 <= c1 <= 0xFFFF,
            0 <= c2 <= 0xFFFF,
            s1 <= 0xFFFF,
            s2 <= 0xFFFF,
            s1 as int % m == raw_fold(c1, c2, buffer@.take(pos as int)).0 % m,
            s2 as int % m == raw_fold(c1, c2, buffer@.take(pos as int)).1 % m,
            m == ADLER_MOD as int,
        decreases n - pos,
    {
        let rem = n - pos;
        let k = if rem < MAX_CHUNK_LEN {
            rem
        } else {
            MAX_CHUNK_LEN
        };
        let chunk = vstd::slice::slice_subrange(buffer, pos, pos + k);
        let ghost pre = buffer@.take(pos as int);
        let ghost old_s1 = s1 as int;
        let ghost old_s2 = s2 as int;
        adler32_chunk(&mut s1, &mut s2, chunk);
        proof {
            assert(pre + chunk@ =~= buffer@.take(pos as int + k as int));
            lemma_raw_fold_append(c1, c2, pre, chunk@);
            let f = raw_fold(c1, c2, pre);
            lemma_raw_fold_congruent(f.0, f.1, old_s1, old_s2, chunk@);
            lemma_mod_twice(raw_fold(old_s1, old_s2, chunk@).0, m);
            lemma_mod_twice(raw_fold(old_s1, old_s2, chunk@).1, m);
            lemma_small_mod(s1 as nat, ADLER_MOD as nat);
            lemma_small_mod(s2 as nat, ADLER_MOD as nat);
        }
        pos = pos + k;
    }

    let x: u32 = s1 % ADLER_MOD;
    let y: u32 = s2 % ADLER_MOD;
    proof {
        assert(buffer@.take(n as int) =~= buffer@);
        lemma_adler_fold_is_raw(c1, c2, buffer@);
        lemma_mod_twice(raw_fold(c1, c2, buffer@).0, m);
        lemma_mod_twice(raw_fold(c1, c2, buffer@).1, m);
        let f = adler_fold(c1, c2, buffer@);
        lemma_mod_bound(f.0, m);
        lemma_mod_bound(f.1, m);
        lemma_pack_fields(y, x);
    }
    (y << 16) | x
}

/// Public Adler-32 entry point: folds `data` into the packed state
/// `adler` using the implementation chosen by the dispatcher.  With the
/// accelerated tier empty, that is always the portable reference
/// algorithm, so every invocation computes the same function.  Never
/// fails; empty `data` returns a reachable state unchanged.
pub fn adler32(adler: u32, data: &[u8]) -> (r: u32)
    ensures
        r == adler32_spec(adler, data@),
{
    let mut dispatcher = crate::dispatch::Dispatcher::new();
    match dispatcher.resolve() {
        crate::dispatch::Implementation::Reference => adler32_generic(adler, data),
    }
}

} // verus!
