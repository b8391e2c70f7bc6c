//! Portable CRC-32 (bit-reflected, IEEE 802.3 polynomial) reference
//! algorithms.
//!
//! The mathematical definition is bit-level: folding one byte xors it into
//! the low bits of the register and runs eight shift/conditional-xor rounds
//! (`crc_step`, `crc_fold`).  The implementations are table driven: a
//! 256-entry table for the byte-at-a-time loop, and an 8x256-entry table
//! for the slice-by-8 method, which consumes eight bytes per round of
//! lookups.  Both are proved to compute exactly the bit-level fold.
//! Every table index is masked to 8 bits before use; that mask is what
//! makes each access provably in bounds.

use vstd::prelude::*;

verus! {

use vstd::arithmetic::div_mod::{lemma_fundamental_div_mod, lemma_fundamental_div_mod_converse};

/// Bit-reflected form of the IEEE 802.3 generator polynomial.
pub const CRC32_POLY: u32 = 0xEDB88320;

/// One bit-level round of the reflected CRC register update: shift one bit
/// out; if it was set, fold the polynomial in.
pub open spec fn crc_round(x: u32) -> u32 {
    if x & 1 == 1 {
        (x >> 1) ^ CRC32_POLY
    } else {
        x >> 1
    }
}

/// `k` bit-level rounds.
pub open spec fn crc_rounds(x: u32, k: nat) -> u32
    decreases k,
{
    if k == 0 {
        x
    } else {
        crc_rounds(crc_round(x), (k - 1) as nat)
    }
}

/// Folding one byte into the (already complemented) register: xor it into
/// the low bits, then run eight bit rounds.
pub open spec fn crc_step(c: u32, b: u8) -> u32 {
    crc_rounds(c ^ (b as u32), 8)
}

/// Folding a byte sequence into the register, one byte at a time.  This is
/// the correctness oracle for every implementation.
pub open spec fn crc_fold(c: u32, data: Seq<u8>) -> u32
    decreases data.len(),
{
    if data.len() == 0 {
        c
    } else {
        crc_fold(crc_step(c, data[0]), data.skip(1))
    }
}

/// The public checksum: the register is one's-complemented on entry and on
/// exit, so that chained calls compose and an empty input is a no-op.
pub open spec fn crc32_spec(c: u32, data: Seq<u8>) -> u32 {
    !crc_fold(!c, data)
}

/// Entry `b` of sub-table `k` of the lookup tables: the register that
/// results from running `8 * (k + 1)` bit rounds on the bare byte value.
pub open spec fn table_entry(k: nat, b: u8) -> u32 {
    crc_rounds(b as u32, 8 * (k + 1))
}

/// Little-endian value of up to four bytes.
pub open spec fn le_bytes(d: Seq<u8>) -> u32
    recommends
        d.len() <= 4,
    decreases d.len(),
{
    if d.len() == 0 {
        0
    } else {
        (d[0] + 0x100 * le_bytes(d.skip(1))) as u32
    }
}

// ------------------------------------------------------------------
// Bit-vector facts
// ------------------------------------------------------------------

proof fn lemma_round_linear()
    by (bit_vector)
    ensures
        forall|x: u32, y: u32| #[trigger] crc_round(x ^ y) == crc_round(x) ^ crc_round(y),
{
}

/// Miscellaneous xor and mask facts; `b` must be a byte value.
proof fn lemma_xor_misc(x: u32, b: u32)
    by (bit_vector)
    requires
        b < 0x100,
    ensures
        x ^ 0 == x,
        0 ^ x == x,
        !(!x) == x,
        (x ^ b) & 0xFF == (x & 0xFF) ^ b,
        (x ^ b) >> 8 == x >> 8,
        x & 0xFF < 0x100,
        (x & 0xFF) ^ b < 0x100,
        ((x & 0xFF) as u8) as u32 == x & 0xFF,
{
}

proof fn lemma_low8_zero_shifts(x: u32)
    by (bit_vector)
    requires
        x & 0xFF == 0,
    ensures
        x & 1 == 0,
        (x >> 1) & 1 == 0,
        (x >> 2) & 1 == 0,
        (x >> 3) & 1 == 0,
        (x >> 4) & 1 == 0,
        (x >> 5) & 1 == 0,
        (x >> 6) & 1 == 0,
        (x >> 7) & 1 == 0,
        (x >> 1) >> 1 == x >> 2,
        (x >> 2) >> 1 == x >> 3,
        (x >> 3) >> 1 == x >> 4,
        (x >> 4) >> 1 == x >> 5,
        (x >> 5) >> 1 == x >> 6,
        (x >> 6) >> 1 == x >> 7,
        (x >> 7) >> 1 == x >> 8,
{
}

proof fn lemma_byte_split(x: u32)
    by (bit_vector)
    ensures
        x == (x & 0xFF) ^ (x & 0xFFFFFF00),
        (x & 0xFFFFFF00) & 0xFF == 0,
        (x & 0xFFFFFF00) >> 8 == x >> 8,
{
}

proof fn lemma_shr_compose(x: u32)
    by (bit_vector)
    ensures
        (x >> 8) >> 8 == x >> 16,
        (x >> 8) >> 16 == x >> 24,
        (x >> 8) >> 24 == 0,
        (x >> 16) >> 8 == x >> 24,
        (x >> 16) >> 16 == 0,
        (x >> 24) >> 8 == 0,
        (x >> 8) & 0xFFFF_FFFF == x >> 8,
{
}

proof fn lemma_le_pack(b0: u32, b1: u32, b2: u32, b3: u32)
    by (bit_vector)
    requires
        b0 < 0x100,
        b1 < 0x100,
        b2 < 0x100,
        b3 < 0x100,
    ensures
        b0 | (b1 << 8) | (b2 << 16) | (b3 << 24)
            == b0 + 0x100 * b1 + 0x10000 * b2 + 0x1000000 * b3,
{
}

proof fn lemma_le_step(c: u32, b: u32, t: u32)
    by (bit_vector)
    requires
        b < 0x100,
        t < 0x1000000,
    ensures
        c ^ ((b + 0x100 * t) as u32) == (c ^ b) ^ (t << 8),
        (t << 8) & 0xFF == 0,
        (t << 8) >> 8 == t,
{
}

// ------------------------------------------------------------------
// Structural lemmas about the bit-level fold
// ------------------------------------------------------------------

/// Rounds compose: running `a + b` rounds runs `a` rounds, then `b`.
proof fn lemma_rounds_add(x: u32, a: nat, b: nat)
    ensures
        crc_rounds(x, a + b) == crc_rounds(crc_rounds(x, a), b),
    decreases a,
{
    if a == 0 {
    } else {
        lemma_rounds_add(crc_round(x), (a - 1) as nat, b);
    }
}

/// One extra round may be run last instead of first.
proof fn lemma_rounds_snoc(x: u32, k: nat)
    ensures
        crc_rounds(x, k + 1) == crc_round(crc_rounds(x, k)),
{
    lemma_rounds_add(x, k, 1);
    let y = crc_rounds(x, k);
    assert(crc_rounds(y, 1) == crc_rounds(crc_round(y), 0));
}

/// The round function is linear over xor, hence so is any number of rounds.
proof fn lemma_rounds_linear(x: u32, y: u32, k: nat)
    ensures
        crc_rounds(x ^ y, k) == crc_rounds(x, k) ^ crc_rounds(y, k),
    decreases k,
{
    lemma_round_linear();
    if k == 0 {
    } else {
        lemma_rounds_linear(crc_round(x), crc_round(y), (k - 1) as nat);
    }
}

/// Eight rounds of a value with a clear low byte are a plain byte shift.
proof fn lemma_rounds8_shift(x: u32)
    requires
        x & 0xFF == 0,
    ensures
        crc_rounds(x, 8) == x >> 8,
{
    lemma_low8_zero_shifts(x);
    assert(crc_round(x) == x >> 1);
    assert(crc_round(x >> 1) == x >> 2);
    assert(crc_round(x >> 2) == x >> 3);
    assert(crc_round(x >> 3) == x >> 4);
    assert(crc_round(x >> 4) == x >> 5);
    assert(crc_round(x >> 5) == x >> 6);
    assert(crc_round(x >> 6) == x >> 7);
    assert(crc_round(x >> 7) == x >> 8);
    assert(crc_rounds(x, 8) == crc_rounds(x >> 1, 7));
    assert(crc_rounds(x >> 1, 7) == crc_rounds(x >> 2, 6));
    assert(crc_rounds(x >> 2, 6) == crc_rounds(x >> 3, 5));
    assert(crc_rounds(x >> 3, 5) == crc_rounds(x >> 4, 4));
    assert(crc_rounds(x >> 4, 4) == crc_rounds(x >> 5, 3));
    assert(crc_rounds(x >> 5, 3) == crc_rounds(x >> 6, 2));
    assert(crc_rounds(x >> 6, 2) == crc_rounds(x >> 7, 1));
    assert(crc_rounds(x >> 7, 1) == crc_rounds(x >> 8, 0));
}

/// Eight rounds split into a byte shift and one lookup in sub-table 0.
proof fn lemma_rounds8_decompose(x: u32)
    ensures
        crc_rounds(x, 8) == (x >> 8) ^ table_entry(0, (x & 0xFF) as u8),
{
    lemma_byte_split(x);
    lemma_xor_misc(x, 0);
    lemma_rounds_linear(x & 0xFF, x & 0xFFFFFF00, 8);
    assert(crc_rounds(x, 8) == crc_rounds(x & 0xFF, 8) ^ crc_rounds(x & 0xFFFFFF00, 8));
    lemma_rounds8_shift(x & 0xFFFFFF00);
    assert(crc_rounds(x & 0xFF, 8) == table_entry(0, (x & 0xFF) as u8));
    lemma_xor_comm(table_entry(0, (x & 0xFF) as u8), x >> 8);
}

/// One byte-fold step as the byte-at-a-time table update.
proof fn lemma_step_table(c: u32, b: u8)
    ensures
        crc_step(c, b) == (c >> 8) ^ table_entry(0, ((c & 0xFF) ^ (b as u32)) as u8),
{
    lemma_rounds8_decompose(c ^ (b as u32));
    lemma_xor_misc(c, b as u32);
}

/// Consecutive sub-tables are related by eight further rounds.
proof fn lemma_table_next(k: nat, b: u8)
    ensures
        table_entry(k + 1, b) == crc_rounds(table_entry(k, b), 8),
{
    lemma_rounds_add(b as u32, 8 * (k + 1), 8);
    assert(8 * (k + 2) == 8 * (k + 1) + 8);
}

/// Folding a concatenation folds the parts in sequence.
pub proof fn lemma_crc_fold_append(c: u32, a: Seq<u8>, b: Seq<u8>)
    ensures
        crc_fold(c, a + b) == crc_fold(crc_fold(c, a), b),
    decreases a.len(),
{
    if a.len() == 0 {
        assert(a + b =~= b);
    } else {
        assert((a + b).skip(1) =~= a.skip(1) + b);
        lemma_crc_fold_append(crc_step(c, a[0]), a.skip(1), b);
    }
}

/// Splitting a byte sequence at any offset and folding the two parts in
/// sequence gives the same checksum as folding the whole sequence at once.
pub proof fn lemma_crc32_split(c: u32, a: Seq<u8>, b: Seq<u8>)
    ensures
        crc32_spec(crc32_spec(c, a), b) == crc32_spec(c, a + b),
{
    lemma_crc_fold_append(!c, a, b);
    lemma_xor_misc(crc_fold(!c, a), 0);
    assert(!(!crc_fold(!c, a)) == crc_fold(!c, a));
}

// ------------------------------------------------------------------
// Little-endian words and the slice-by-8 decomposition
// ------------------------------------------------------------------

proof fn lemma_le_bytes_bound(d: Seq<u8>)
    ensures
        0 <= le_bytes(d),
        d.len() == 0 ==> le_bytes(d) == 0,
        d.len() <= 1 ==> le_bytes(d) < 0x100,
        d.len() <= 2 ==> le_bytes(d) < 0x10000,
        d.len() <= 3 ==> le_bytes(d) < 0x1000000,
    decreases d.len(),
{
    if d.len() == 0 {
    } else {
        lemma_le_bytes_bound(d.skip(1));
    }
}

proof fn lemma_le_bytes4(d: Seq<u8>)
    requires
        d.len() == 4,
    ensures
        le_bytes(d) == d[0] + 0x100 * d[1] + 0x10000 * d[2] + 0x1000000 * d[3],
{
    assert(d.skip(1).skip(1) =~= d.skip(2));
    assert(d.skip(2).skip(1) =~= d.skip(3));
    assert(d.skip(3).skip(1) =~= d.skip(4));
    assert(le_bytes(d.skip(4)) == 0);
    assert(le_bytes(d.skip(3)) == d[3]);
    assert(le_bytes(d.skip(2)) == d[2] + 0x100 * d[3]);
    assert(le_bytes(d.skip(1)) == d[1] + 0x100 * d[2] + 0x10000 * d[3]);
}

proof fn lemma_le_bytes3(d: Seq<u8>)
    requires
        d.len() == 3,
    ensures
        le_bytes(d) == d[0] + 0x100 * d[1] + 0x10000 * d[2],
{
    assert(d.skip(1).skip(1) =~= d.skip(2));
    assert(d.skip(2).skip(1) =~= d.skip(3));
    assert(le_bytes(d.skip(3)) == 0);
    assert(le_bytes(d.skip(2)) == d[2]);
    assert(le_bytes(d.skip(1)) == d[1] + 0x100 * d[2]);
}

proof fn lemma_le_bytes2(d: Seq<u8>)
    requires
        d.len() == 2,
    ensures
        le_bytes(d) == d[0] + 0x100 * d[1],
{
    assert(d.skip(1).skip(1) =~= d.skip(2));
    assert(le_bytes(d.skip(2)) == 0);
    assert(le_bytes(d.skip(1)) == d[1]);
}

/// Folding up to four bytes equals xoring their little-endian value into
/// the register and running eight rounds per byte.
proof fn lemma_fold_le(c: u32, d: Seq<u8>)
    requires
        d.len() <= 4,
    ensures
        crc_fold(c, d) == crc_rounds(c ^ le_bytes(d), (8 * d.len()) as nat),
    decreases d.len(),
{
    if d.len() == 0 {
        lemma_xor_misc(c, 0);
    } else {
        let b = d[0] as u32;
        let t = le_bytes(d.skip(1));
        lemma_le_bytes_bound(d.skip(1));
        lemma_fold_le(crc_step(c, d[0]), d.skip(1));
        lemma_le_step(c, b, t);
        lemma_rounds_linear(c ^ b, t << 8, 8);
        lemma_rounds8_shift(t << 8);
        assert(le_bytes(d) == (b + 0x100 * t) as u32);
        assert(crc_rounds(c ^ le_bytes(d), 8) == crc_step(c, d[0]) ^ t);
        lemma_rounds_add(c ^ le_bytes(d), 8, (8 * (d.len() - 1)) as nat);
    }
}

/// Sixteen rounds as two lookups and a 16-bit shift.
proof fn lemma_rounds16_tables(x: u32)
    ensures
        crc_rounds(x, 16) == ((x >> 16) ^ table_entry(1, (x & 0xFF) as u8))
            ^ table_entry(0, ((x >> 8) & 0xFF) as u8),
{
    lemma_rounds_add(x, 8, 8);
    lemma_rounds8_decompose(x);
    let e0 = table_entry(0, (x & 0xFF) as u8);
    lemma_rounds_linear(x >> 8, e0, 8);
    lemma_rounds8_decompose(x >> 8);
    lemma_table_next(0, (x & 0xFF) as u8);
    lemma_shr_compose(x);
    assert(crc_rounds((x >> 8) ^ e0, 8)
        == ((x >> 16) ^ table_entry(0, ((x >> 8) & 0xFF) as u8)) ^ table_entry(1, (x & 0xFF) as u8));
    lemma_xor_regroup3(x >> 16, table_entry(0, ((x >> 8) & 0xFF) as u8), table_entry(1, (x & 0xFF) as u8));
}

proof fn lemma_xor_comm(a: u32, b: u32)
    by (bit_vector)
    ensures
        a ^ b == b ^ a,
{
}

proof fn lemma_xor_regroup3(a: u32, b: u32, c: u32)
    by (bit_vector)
    ensures
        (a ^ b) ^ c == (a ^ c) ^ b,
        a ^ (b ^ c) == (a ^ b) ^ c,
{
}

/// Twenty-four rounds as three lookups and a 24-bit shift.
proof fn lemma_rounds24_tables(x: u32)
    ensures
        crc_rounds(x, 24) == (((x >> 24) ^ table_entry(2, (x & 0xFF) as u8))
            ^ table_entry(1, ((x >> 8) & 0xFF) as u8))
            ^ table_entry(0, ((x >> 16) & 0xFF) as u8),
{
    lemma_rounds_add(x, 8, 16);
    lemma_rounds8_decompose(x);
    let e0 = table_entry(0, (x & 0xFF) as u8);
    lemma_rounds_linear(x >> 8, e0, 16);
    lemma_rounds16_tables(x >> 8);
    lemma_table_next(0, (x & 0xFF) as u8);
    lemma_table_next(1, (x & 0xFF) as u8);
    lemma_rounds_add(e0, 8, 8);
    assert(crc_rounds(e0, 16) == table_entry(2, (x & 0xFF) as u8));
    lemma_shr_compose(x);
    let t1 = table_entry(1, ((x >> 8) & 0xFF) as u8);
    let t0 = table_entry(0, ((x >> 16) & 0xFF) as u8);
    let t2 = table_entry(2, (x & 0xFF) as u8);
    assert(crc_rounds(x, 24) == (((x >> 24) ^ t1) ^ t0) ^ t2);
    lemma_xor_regroup4(x >> 24, t1, t0, t2);
}

proof fn lemma_xor_regroup4(a: u32, b: u32, c: u32, d: u32)
    by (bit_vector)
    ensures
        ((a ^ b) ^ c) ^ d == ((a ^ d) ^ b) ^ c,
        ((a ^ b) ^ c) ^ d == (a ^ b) ^ (c ^ d),
{
}

/// Thirty-two rounds as four lookups; the shift term vanishes.
proof fn lemma_rounds32_tables(x: u32)
    ensures
        crc_rounds(x, 32) == ((table_entry(3, (x & 0xFF) as u8)
            ^ table_entry(2, ((x >> 8) & 0xFF) as u8))
            ^ table_entry(1, ((x >> 16) & 0xFF) as u8))
            ^ table_entry(0, ((x >> 24) & 0xFF) as u8),
{
    lemma_rounds_add(x, 8, 24);
    lemma_rounds8_decompose(x);
    let e0 = table_entry(0, (x & 0xFF) as u8);
    lemma_rounds_linear(x >> 8, e0, 24);
    lemma_rounds24_tables(x >> 8);
    lemma_table_next(0, (x & 0xFF) as u8);
    lemma_table_next(1, (x & 0xFF) as u8);
    lemma_table_next(2, (x & 0xFF) as u8);
    lemma_rounds_add(e0, 8, 16);
    lemma_rounds_add(crc_rounds(e0, 8), 8, 8);
    assert(crc_rounds(e0, 24) == table_entry(3, (x & 0xFF) as u8));
    lemma_shr_compose(x);
    let t3 = table_entry(3, (x & 0xFF) as u8);
    let t2 = table_entry(2, ((x >> 8) & 0xFF) as u8);
    let t1 = table_entry(1, ((x >> 16) & 0xFF) as u8);
    let t0 = table_entry(0, ((x >> 24) & 0xFF) as u8);
    // The high byte of `x >> 8` is clear, so its 24-round shift term is zero.
    assert(crc_rounds(x, 32) == ((((x >> 8) >> 24) ^ t2) ^ t1 ^ t0) ^ t3);
    lemma_xor_misc(t2, 0);
    assert((((x >> 8) >> 24) ^ t2) == t2);
    lemma_xor_regroup4(t2, t1, t0, t3);
    assert(((t2 ^ t1) ^ t0) ^ t3 == ((t2 ^ t3) ^ t1) ^ t0);
    lemma_xor_regroup3(t2, t3, t1);
    assert((t2 ^ t3) ^ t1 == (t3 ^ t2) ^ t1) by (bit_vector);
}

/// Sixty-four rounds as four lookups in sub-tables 4 through 7.
proof fn lemma_rounds64_tables(x: u32)
    ensures
        crc_rounds(x, 64) == ((table_entry(7, (x & 0xFF) as u8)
            ^ table_entry(6, ((x >> 8) & 0xFF) as u8))
            ^ table_entry(5, ((x >> 16) & 0xFF) as u8))
            ^ table_entry(4, ((x >> 24) & 0xFF) as u8),
{
    lemma_rounds_add(x, 32, 32);
    lemma_rounds32_tables(x);
    let t3 = table_entry(3, (x & 0xFF) as u8);
    let t2 = table_entry(2, ((x >> 8) & 0xFF) as u8);
    let t1 = table_entry(1, ((x >> 16) & 0xFF) as u8);
    let t0 = table_entry(0, ((x >> 24) & 0xFF) as u8);
    lemma_rounds_linear(((t3 ^ t2) ^ t1), t0, 32);
    lemma_rounds_linear((t3 ^ t2), t1, 32);
    lemma_rounds_linear(t3, t2, 32);
    lemma_rounds_to_table(3, (x & 0xFF) as u8);
    lemma_rounds_to_table(2, ((x >> 8) & 0xFF) as u8);
    lemma_rounds_to_table(1, ((x >> 16) & 0xFF) as u8);
    lemma_rounds_to_table(0, ((x >> 24) & 0xFF) as u8);
}

/// Thirty-two further rounds move a lookup four sub-tables up.
proof fn lemma_rounds_to_table(k: nat, b: u8)
    ensures
        crc_rounds(table_entry(k, b), 32) == table_entry(k + 4, b),
{
    lemma_rounds_add(b as u32, 8 * (k + 1), 32);
    assert(8 * (k + 5) == 8 * (k + 1) + 32);
}

/// Folding eight bytes equals eight lookups combined by xor: the first
/// four bytes are xored with the register, the last four stand alone.
proof fn lemma_fold8_tables(c: u32, d: Seq<u8>)
    requires
        d.len() == 8,
    ensures
        ({
            let x = c ^ le_bytes(d.take(4));
            let v = le_bytes(d.skip(4));
            crc_fold(c, d) == ((table_entry(7, (x & 0xFF) as u8)
                ^ table_entry(6, ((x >> 8) & 0xFF) as u8))
                ^ (table_entry(5, ((x >> 16) & 0xFF) as u8)
                ^ table_entry(4, ((x >> 24) & 0xFF) as u8)))
                ^ ((table_entry(3, (v & 0xFF) as u8)
                ^ table_entry(2, ((v >> 8) & 0xFF) as u8))
                ^ (table_entry(1, ((v >> 16) & 0xFF) as u8)
                ^ table_entry(0, ((v >> 24) & 0xFF) as u8)))
        }),
{
    let x = c ^ le_bytes(d.take(4));
    let v = le_bytes(d.skip(4));
    assert(d.take(4) + d.skip(4) =~= d);
    lemma_crc_fold_append(c, d.take(4), d.skip(4));
    lemma_fold_le(c, d.take(4));
    lemma_fold_le(crc_rounds(x, 32), d.skip(4));
    lemma_rounds_linear(crc_rounds(x, 32), v, 32);
    lemma_rounds_add(x, 32, 32);
    assert(crc_fold(c, d) == crc_rounds(x, 64) ^ crc_rounds(v, 32));
    lemma_rounds64_tables(x);
    lemma_rounds32_tables(v);
    lemma_xor_tree8(
        table_entry(7, (x & 0xFF) as u8),
        table_entry(6, ((x >> 8) & 0xFF) as u8),
        table_entry(5, ((x >> 16) & 0xFF) as u8),
        table_entry(4, ((x >> 24) & 0xFF) as u8),
        table_entry(3, (v & 0xFF) as u8),
        table_entry(2, ((v >> 8) & 0xFF) as u8),
        table_entry(1, ((v >> 16) & 0xFF) as u8),
        table_entry(0, ((v >> 24) & 0xFF) as u8),
    );
}

proof fn lemma_xor_tree8(a: u32, b: u32, c: u32, d: u32, e: u32, f: u32, g: u32, h: u32)
    by (bit_vector)
    ensures
        (((a ^ b) ^ c) ^ d) ^ (((e ^ f) ^ g) ^ h)
            == ((a ^ b) ^ (c ^ d)) ^ ((e ^ f) ^ (g ^ h)),
{
}

proof fn lemma_tail2_bridge(c: u32, b0: u32, b1: u32)
    by (bit_vector)
    requires
        b0 < 0x100,
        b1 < 0x100,
    ensures
        (c ^ ((b0 + 0x100 * b1) as u32)) & 0xFF == (c & 0xFF) ^ b0,
        ((c ^ ((b0 + 0x100 * b1) as u32)) >> 8) & 0xFF == ((c >> 8) & 0xFF) ^ b1,
        (c ^ ((b0 + 0x100 * b1) as u32)) >> 16 == c >> 16,
{
}

proof fn lemma_tail3_bridge(c: u32, b0: u32, b1: u32, b2: u32)
    by (bit_vector)
    requires
        b0 < 0x100,
        b1 < 0x100,
        b2 < 0x100,
    ensures
        (c ^ ((b0 + 0x100 * b1 + 0x10000 * b2) as u32)) & 0xFF == (c & 0xFF) ^ b0,
        ((c ^ ((b0 + 0x100 * b1 + 0x10000 * b2) as u32)) >> 8) & 0xFF == ((c >> 8) & 0xFF) ^ b1,
        ((c ^ ((b0 + 0x100 * b1 + 0x10000 * b2) as u32)) >> 16) & 0xFF == ((c >> 16) & 0xFF) ^ b2,
        (c ^ ((b0 + 0x100 * b1 + 0x10000 * b2) as u32)) >> 24 == c >> 24,
{
}

proof fn lemma_fold_step(c: u32, d: Seq<u8>)
    requires
        d.len() >= 1,
    ensures
        crc_fold(c, d) == crc_fold(crc_step(c, d[0]), d.skip(1)),
{
}

// ------------------------------------------------------------------
// Lookup tables
// ------------------------------------------------------------------

/// Well-formedness of the 256-entry byte-at-a-time table.
pub open spec fn table1_wf(t: Seq<u32>) -> bool {
    t.len() == 256 && forall|j: int| 0 <= j < 256 ==> t[j] == table_entry(0, j as u8)
}

/// Well-formedness of the 8x256-entry slice-by-8 table: sub-table `k`
/// occupies indices `k * 256 ..= k * 256 + 255`.
pub open spec fn table8_wf(t: Seq<u32>) -> bool {
    t.len() == 2048 && forall|j: int|
        0 <= j < 2048 ==> t[j] == table_entry((j / 256) as nat, (j % 256) as u8)
}

/// Runs the eight bit rounds that define entry `b` of sub-table 0.
fn crc_byte_entry(b: u8) -> (r: u32)
    ensures
        r == table_entry(0, b),
{
    let mut x: u32 = b as u32;
    let mut r: usize = 0;
    while r < 8
        invariant
            r <= 8,
            x == crc_rounds(b as u32, r as nat),
        decreases 8 - r,
    {
        proof {
            lemma_rounds_snoc(b as u32, r as nat);
        }
        if x & 1 == 1 {
            x = (x >> 1) ^ CRC32_POLY;
        } else {
            x = x >> 1;
        }
        r = r + 1;
    }
    x
}

/// Builds the 256-entry byte-at-a-time table.
fn build_table1() -> (t: Vec<u32>)
    ensures
        table1_wf(t@),
{
    let mut t: Vec<u32> = Vec::new();
    let mut i: usize = 0;
    while i < 256
        invariant
            i <= 256,
            t@.len() == i,
            forall|j: int| 0 <= j < i ==> t@[j] == table_entry(0, j as u8),
        decreases 256 - i,
    {
        let e = crc_byte_entry(i as u8);
        t.push(e);
        i = i + 1;
    }
    t
}

/// Builds the 8x256-entry slice-by-8 table.  Sub-table 0 is the
/// byte-at-a-time table; each further sub-table applies eight more bit
/// rounds to the previous one, expressed as one shift and one sub-table-0
/// lookup.
fn build_table8() -> (t: Vec<u32>)
    ensures
        table8_wf(t@),
{
    let mut t: Vec<u32> = Vec::new();
    let mut j: usize = 0;
    while j < 2048
        invariant
            j <= 2048,
            t@.len() == j,
            forall|jj: int|
                0 <= jj < j ==> t@[jj] == table_entry((jj / 256) as nat, (jj % 256) as u8),
        decreases 2048 - j,
    {
        if j < 256 {
            let e = crc_byte_entry(j as u8);
            proof {
                lemma_fundamental_div_mod_converse(j as int, 256, 0, j as int);
            }
            t.push(e);
        } else {
            let prev = t[j - 256];
            proof {
                lemma_fundamental_div_mod(j as int, 256);
                let q = j as int / 256;
                let r = j as int % 256;
                lemma_fundamental_div_mod_converse(j as int - 256, 256, q - 1, r);
                lemma_table_next((q - 1) as nat, r as u8);
                lemma_rounds8_decompose(prev);
                lemma_xor_misc(prev, 0);
            }
            let low = t[(prev & 0xFF) as usize];
            let e = (prev >> 8) ^ low;
            t.push(e);
        }
        j = j + 1;
    }
    t
}

/// Masked lookup: entry `i` of sub-table `k`.
fn tab(t: &Vec<u32>, k: usize, i: u32) -> (r: u32)
    requires
        table8_wf(t@),
        k < 8,
        i < 256,
    ensures
        r == table_entry(k as nat, i as u8),
{
    proof {
        lemma_fundamental_div_mod_converse((k * 256 + i) as int, 256, k as int, i as int);
    }
    t[k * 256 + (i as usize)]
}

// ------------------------------------------------------------------
// Executable checksum algorithms
// ------------------------------------------------------------------

/// Byte-at-a-time CRC-32 over the complemented register: the simplest
/// correctness oracle, `crc = (crc >> 8) ^ table[(crc ^ byte) & 0xFF]`.
pub fn crc32_slice1(crc: u32, p: &[u8]) -> (r: u32)
    ensures
        r == crc_fold(crc, p@),
{
    let t = build_table1();
    let n: usize = p.len();
    let mut c: u32 = crc;
    let mut i: usize = 0;
    while i < n
        invariant
            i <= n,
            n == p@.len(),
            table1_wf(t@),
            c == crc_fold(crc, p@.take(i as int)),
        decreases n - i,
    {
        let b = p[i];
        proof {
            let pre = p@.take(i as int);
            let one = p@.subrange(i as int, i as int + 1);
            assert(pre + one =~= p@.take(i as int + 1));
            lemma_crc_fold_append(crc, pre, one);
            lemma_fold_step(c, one);
            assert(one.skip(1).len() == 0);
            lemma_step_table(c, b);
            lemma_xor_misc(c, b as u32);
        }
        let idx = ((c & 0xFF) ^ (b as u32)) as usize;
        c = (c >> 8) ^ t[idx];
        i = i + 1;
    }
    proof {
        assert(p@.take(n as int) =~= p@);
    }
    c
}

/// Folds one 8-byte little-endian word: the four high bytes depend only on
/// the data and are looked up independently; the four low bytes are xored
/// with the register first.  The lookups are combined by a balanced tree
/// of xors.
fn crc32_process8(c: u32, t: &Vec<u32>, p: &[u8], i: usize) -> (r: u32)
    requires
        table8_wf(t@),
        i + 8 <= p@.len(),
    ensures
        r == crc_fold(c, p@.subrange(i as int, i as int + 8)),
{
    let b0 = p[i] as u32;
    let b1 = p[i + 1] as u32;
    let b2 = p[i + 2] as u32;
    let b3 = p[i + 3] as u32;
    let b4 = p[i + 4] as u32;
    let b5 = p[i + 5] as u32;
    let b6 = p[i + 6] as u32;
    let b7 = p[i + 7] as u32;
    let w = b0 | (b1 << 8) | (b2 << 16) | (b3 << 24);
    let v = b4 | (b5 << 8) | (b6 << 16) | (b7 << 24);
    let x = c ^ w;
    proof {
        let d = p@.subrange(i as int, i as int + 8);
        lemma_fold8_tables(c, d);
        lemma_le_bytes4(d.take(4));
        lemma_le_bytes4(d.skip(4));
        lemma_le_pack(b0, b1, b2, b3);
        lemma_le_pack(b4, b5, b6, b7);
        assert(w == le_bytes(d.take(4)));
        assert(v == le_bytes(d.skip(4)));
        lemma_xor_misc(x, 0);
        lemma_xor_misc(x >> 8, 0);
        lemma_xor_misc(x >> 16, 0);
        lemma_xor_misc(x >> 24, 0);
        lemma_xor_misc(v, 0);
        lemma_xor_misc(v >> 8, 0);
        lemma_xor_misc(v >> 16, 0);
        lemma_xor_misc(v >> 24, 0);
    }
    // High-half lookups: independent of the running register.
    let h0 = tab(t, 3, v & 0xFF);
    let h1 = tab(t, 2, (v >> 8) & 0xFF);
    let h2 = tab(t, 1, (v >> 16) & 0xFF);
    let h3 = tab(t, 0, (v >> 24) & 0xFF);
    // Low-half lookups: depend on the register through `x`.
    let l0 = tab(t, 7, x & 0xFF);
    let l1 = tab(t, 6, (x >> 8) & 0xFF);
    let l2 = tab(t, 5, (x >> 16) & 0xFF);
    let l3 = tab(t, 4, (x >> 24) & 0xFF);
    ((l0 ^ l1) ^ (l2 ^ l3)) ^ ((h0 ^ h1) ^ (h2 ^ h3))
}

/// Folds one 64-byte block as eight 8-byte words in sequence; each word's
/// internal lookups are independent, but the register after each word
/// feeds the next.
fn crc32_block64(c: u32, t: &Vec<u32>, p: &[u8], i: usize) -> (r: u32)
    requires
        table8_wf(t@),
        i + 64 <= p@.len(),
    ensures
        r == crc_fold(c, p@.subrange(i as int, i as int + 64)),
{
    let n: usize = p.len();
    let mut acc: u32 = c;
    let mut k: usize = 0;
    while k < 8
        invariant
            k <= 8,
            i + 64 <= n,
            n == p@.len(),
            table8_wf(t@),
            acc == crc_fold(c, p@.subrange(i as int, i as int + 8 * k as int)),
        decreases 8 - k,
    {
        proof {
            let a = p@.subrange(i as int, i as int + 8 * k as int);
            let b = p@.subrange(i as int + 8 * k as int, i as int + 8 * k as int + 8);
            assert(a + b =~= p@.subrange(i as int, i as int + 8 * (k + 1) as int));
            lemma_crc_fold_append(c, a, b);
        }
        acc = crc32_process8(acc, t, p, i + 8 * k);
        k = k + 1;
    }
    acc
}

/// Slice-by-8 CRC-32 over the complemented register.  Tiers: 64-byte
/// blocks, then 8-byte words, then 4 bytes, then closed-form branches for
/// a 1-, 2- or 3-byte trailing remainder.  Computes exactly the same fold
/// as `crc32_slice1`.
pub fn crc32_slice8(crc: u32, p: &[u8]) -> (r: u32)
    ensures
        r == crc_fold(crc, p@),
{
    let t = build_table8();
    let n: usize = p.len();
    let mut c: u32 = crc;
    let mut i: usize = 0;

    while n - i >= 64
        invariant
            i <= n,
            n == p@.len(),
            table8_wf(t@),
            c == crc_fold(crc, p@.take(i as int)),
        decreases n - i,
    {
        proof {
            assert(p@.take(i as int) + p@.subrange(i as int, i as int + 64)
                =~= p@.take(i as int + 64));
            lemma_crc_fold_append(crc, p@.take(i as int), p@.subrange(i as int, i as int + 64));
        }
        c = crc32_block64(c, &t, p, i);
        i = i + 64;
    }

    while n - i >= 8
        invariant
            i <= n,
            n == p@.len(),
            table8_wf(t@),
            c == crc_fold(crc, p@.take(i as int)),
        decreases n - i,
    {
        proof {
            assert(p@.take(i as int) + p@.subrange(i as int, i as int + 8)
                =~= p@.take(i as int + 8));
            lemma_crc_fold_append(crc, p@.take(i as int), p@.subrange(i as int, i as int + 8));
        }
        c = crc32_process8(c, &t, p, i);
        i = i + 8;
    }

    if n - i >= 4 {
        let c0 = c;
        let b0 = p[i] as u32;
        let b1 = p[i + 1] as u32;
        let b2 = p[i + 2] as u32;
        let b3 = p[i + 3] as u32;
        let w = b0 | (b1 << 8) | (b2 << 16) | (b3 << 24);
        let x = c0 ^ w;
        proof {
            let d = p@.subrange(i as int, i as int + 4);
            assert(p@.take(i as int) + d =~= p@.take(i as int + 4));
            lemma_crc_fold_append(crc, p@.take(i as int), d);
            lemma_fold_le(c0, d);
            lemma_le_bytes4(d);
            lemma_le_pack(b0, b1, b2, b3);
            assert(w == le_bytes(d));
            lemma_rounds32_tables(x);
            lemma_xor_misc(x, 0);
            lemma_xor_misc(x >> 8, 0);
            lemma_xor_misc(x >> 16, 0);
            lemma_xor_misc(x >> 24, 0);
        }
        c = tab(&t, 3, x & 0xFF)
            ^ tab(&t, 2, (x >> 8) & 0xFF)
            ^ tab(&t, 1, (x >> 16) & 0xFF)
            ^ tab(&t, 0, (x >> 24) & 0xFF);
        i = i + 4;
    }

    let rem = n - i;
    if rem == 3 {
        let c0 = c;
        let b0 = p[i] as u32;
        let b1 = p[i + 1] as u32;
        let b2 = p[i + 2] as u32;
        proof {
            let d = p@.subrange(i as int, i as int + 3);
            assert(p@.take(i as int) + d =~= p@.take(n as int));
            lemma_crc_fold_append(crc, p@.take(i as int), d);
            lemma_fold_le(c0, d);
            lemma_le_bytes3(d);
            lemma_rounds24_tables(c0 ^ le_bytes(d));
            lemma_tail3_bridge(c0, b0, b1, b2);
            lemma_xor_misc(c0, b0);
            lemma_xor_misc(c0 >> 8, b1);
            lemma_xor_misc(c0 >> 16, b2);
        }
        c = (c0 >> 24)
            ^ tab(&t, 2, (c0 & 0xFF) ^ b0)
            ^ tab(&t, 1, ((c0 >> 8) & 0xFF) ^ b1)
            ^ tab(&t, 0, ((c0 >> 16) & 0xFF) ^ b2);
    } else if rem == 2 {
        let c0 = c;
        let b0 = p[i] as u32;
        let b1 = p[i + 1] as u32;
        proof {
            let d = p@.subrange(i as int, i as int + 2);
            assert(p@.take(i as int) + d =~= p@.take(n as int));
            lemma_crc_fold_append(crc, p@.take(i as int), d);
            lemma_fold_le(c0, d);
            lemma_le_bytes2(d);
            lemma_rounds16_tables(c0 ^ le_bytes(d));
            lemma_tail2_bridge(c0, b0, b1);
            lemma_xor_misc(c0, b0);
            lemma_xor_misc(c0 >> 8, b1);
        }
        c = (c0 >> 16)
            ^ tab(&t, 1, (c0 & 0xFF) ^ b0)
            ^ tab(&t, 0, ((c0 >> 8) & 0xFF) ^ b1);
    } else if rem == 1 {
        let c0 = c;
        let b = p[i];
        proof {
            let d = p@.subrange(i as int, i as int + 1);
            assert(p@.take(i as int) + d =~= p@.take(n as int));
            lemma_crc_fold_append(crc, p@.take(i as int), d);
            lemma_fold_step(c0, d);
            assert(d.skip(1).len() == 0);
            lemma_step_table(c0, b);
            lemma_xor_misc(c0, b as u32);
        }
        c = (c0 >> 8) ^ tab(&t, 0, (c0 & 0xFF) ^ (b as u32));
    } else {
        proof {
            assert(p@.take(i as int) =~= p@.take(n as int));
        }
    }

    proof {
        assert(p@.take(n as int) =~= p@);
    }
    c
}

/// Public CRC-32 entry point: one's-complements the register on entry and
/// on exit so that chained calls compose and the externally visible
/// values follow the standard convention, and folds `data` with the
/// implementation chosen by the dispatcher.  With the accelerated tier
/// empty, that is always the slice-by-8 reference algorithm, so every
/// invocation computes the same function.  Never fails; empty `data` is a
/// no-op.
pub fn crc32(crc: u32, data: &[u8]) -> (r: u32)
    ensures
        r == crc32_spec(crc, data@),
{
    let mut dispatcher = crate::dispatch::Dispatcher::new();
    match dispatcher.resolve() {
        crate::dispatch::Implementation::Reference => !crc32_slice8(!crc, data),
    }
}

} // verus!
