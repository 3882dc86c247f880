//! Rank and select on a single 64-bit word, after Vigna, "Broadword
//! implementation of rank/select queries" (2008).
//!
//! A word is read as the set of the positions of its set bits. `select1`
//! counts the set bits of every byte in parallel, finds the byte that holds
//! the wanted bit with one bytewise comparison, and the bit inside that byte
//! with a second one: no loop over bits.
use vstd::prelude::*;

use crate::Bits;

verus! {

/// `0x01` in every byte.
const L8: u64 = 0x0101_0101_0101_0101;

/// `0x80` in every byte.
const H8: u64 = 0x8080_8080_8080_8080;

const X_AA: u64 = 0xAAAA_AAAA_AAAA_AAAA;

const X33: u64 = 0x3333_3333_3333_3333;

const X0F: u64 = 0x0F0F_0F0F_0F0F_0F0F;

/// Byte `j` holds `1 << j`.
const X8X: u64 = 0x8040_2010_0804_0201;

/// Whether bit `i` of `w` is set.
pub open spec fn bit_set(w: u64, i: int) -> bool {
    0 <= i < 64 && (w >> (i as u64)) & 1 == 1
}

/// Number of set bits of `w` at positions below `i`.
pub open spec fn word_rank(w: u64, i: int) -> nat
    decreases i,
{
    if i <= 0 {
        0
    } else {
        word_rank(w, i - 1) + if bit_set(w, i - 1) {
            1nat
        } else {
            0nat
        }
    }
}

/// Number of set bits of `w`.
pub open spec fn word_ones(w: u64) -> nat {
    word_rank(w, 64)
}

/// Byte `k` of `x`.
pub open spec fn byte_of(x: u64, k: u64) -> u64 {
    (x >> ((8 * k) as u64)) & 0xFF
}

/// Number of set bits among the low eight bits of `b`.
pub open spec fn pop8(b: u64) -> u64 {
    ((b & 1) + ((b >> 1u64) & 1) + ((b >> 2u64) & 1) + ((b >> 3u64) & 1) + ((b >> 4u64) & 1) + ((
    b >> 5u64) & 1) + ((b >> 6u64) & 1) + ((b >> 7u64) & 1)) as u64
}

/// The low `j` bits set.
pub open spec fn low_mask(j: u64) -> u64 {
    ((1u64 << j) - 1) as u64
}

/// Byte `k` holds the number of set bits of byte `k` of `x`.
spec fn byte_counts(x: u64) -> u64 {
    let s0 = (x - ((x & X_AA) >> 1u64)) as u64;
    let s1 = ((s0 & X33) + ((s0 >> 2u64) & X33)) as u64;
    ((s1 + (s1 >> 4u64)) as u64) & X0F
}

/// Byte `k` holds the number of set bits of bytes `0..=k` of `x`.
spec fn prefix_counts(x: u64) -> u64 {
    byte_counts(x).wrapping_mul(L8)
}

/// Compare the bytes of `x` and `y`, all below `0x80`: the high bit of byte
/// `k` of the result is set where byte `k` of `x` is at most byte `k` of
/// `y`, and every other bit is clear.
fn le8(x: u64, y: u64) -> (r: u64)
    requires
        x & H8 == 0,
        y & H8 == 0,
    ensures
        forall|k: u64|
            k < 8 ==> #[trigger] byte_of(r, k) == if byte_of(x, k) <= byte_of(y, k) {
                0x80u64
            } else {
                0u64
            },
{
    assert((y | H8) >= (x & !H8)) by (bit_vector);
    let r = (((y | H8) - (x & !H8)) ^ x ^ y) & H8;
    assert(forall|k: u64|
        k < 8 ==> #[trigger] byte_of(r, k) == if byte_of(x, k) <= byte_of(y, k) {
            0x80u64
        } else {
            0u64
        }) by (bit_vector)
        requires
            x & H8 == 0,
            y & H8 == 0,
            r == ((((y | H8) - (x & !H8)) as u64) ^ x ^ y) & H8,
    ;
    r
}

/// Compare the bytes of `x`, all below `0x80`, with those of `y`, all at
/// most `0x80`: the high bit of byte `k` of the result is set where byte `k`
/// of `x` is below byte `k` of `y`, and every other bit is clear.
fn lt8(x: u64, y: u64) -> (r: u64)
    requires
        x & H8 == 0,
        forall|k: u64| k < 8 ==> #[trigger] byte_of(y, k) <= 0x80,
    ensures
        forall|k: u64|
            k < 8 ==> #[trigger] byte_of(r, k) == if byte_of(x, k) < byte_of(y, k) {
                0x80u64
            } else {
                0u64
            },
{
    assert((x | H8) >= (y & !H8)) by (bit_vector);
    let r = (((x | H8) - (y & !H8)) ^ x ^ !y) & H8;
    assert(byte_of(y, 0) <= 0x80);
    assert(byte_of(y, 1) <= 0x80);
    assert(byte_of(y, 2) <= 0x80);
    assert(byte_of(y, 3) <= 0x80);
    assert(byte_of(y, 4) <= 0x80);
    assert(byte_of(y, 5) <= 0x80);
    assert(byte_of(y, 6) <= 0x80);
    assert(byte_of(y, 7) <= 0x80);
    assert(forall|k: u64|
        k < 8 ==> #[trigger] byte_of(r, k) == if byte_of(x, k) < byte_of(y, k) {
            0x80u64
        } else {
            0u64
        }) by (bit_vector)
        requires
            x & H8 == 0,
            byte_of(y, 0) <= 0x80,
            byte_of(y, 1) <= 0x80,
            byte_of(y, 2) <= 0x80,
            byte_of(y, 3) <= 0x80,
            byte_of(y, 4) <= 0x80,
            byte_of(y, 5) <= 0x80,
            byte_of(y, 6) <= 0x80,
            byte_of(y, 7) <= 0x80,
            r == ((((x | H8) - (y & !H8)) as u64) ^ x ^ !y) & H8,
    ;
    r
}

/// Every byte of `v` is below `0x80`.
proof fn lemma_high_clear(v: u64)
    requires
        forall|k: u64| k < 8 ==> #[trigger] byte_of(v, k) < 0x80,
    ensures
        v & H8 == 0,
{
    assert(byte_of(v, 0) < 0x80);
    assert(byte_of(v, 1) < 0x80);
    assert(byte_of(v, 2) < 0x80);
    assert(byte_of(v, 3) < 0x80);
    assert(byte_of(v, 4) < 0x80);
    assert(byte_of(v, 5) < 0x80);
    assert(byte_of(v, 6) < 0x80);
    assert(byte_of(v, 7) < 0x80);
    assert(v & H8 == 0) by (bit_vector)
        requires
            byte_of(v, 0) < 0x80,
            byte_of(v, 1) < 0x80,
            byte_of(v, 2) < 0x80,
            byte_of(v, 3) < 0x80,
            byte_of(v, 4) < 0x80,
            byte_of(v, 5) < 0x80,
            byte_of(v, 6) < 0x80,
            byte_of(v, 7) < 0x80,
    ;
}

/// Every byte of `c * L8` is `c`.
proof fn lemma_spread(c: u64)
    requires
        c < 0x80,
    ensures
        forall|k: u64| k < 8 ==> #[trigger] byte_of((c * L8) as u64, k) == c,
        ((c * L8) as u64) & H8 == 0,
{
    assert(forall|k: u64| k < 8 ==> #[trigger] byte_of((c * L8) as u64, k) == c) by (bit_vector)
        requires
            c < 0x80,
    ;
    assert(((c * L8) as u64) & H8 == 0) by (bit_vector)
        requires
            c < 0x80,
    ;
}

/// Flags in the high bits of the bytes, moved down to the low bits.
proof fn lemma_flags_down(r: u64)
    requires
        forall|k: u64| k < 8 ==> #[trigger] byte_of(r, k) == 0 || byte_of(r, k) == 0x80,
    ensures
        forall|k: u64|
            k < 8 ==> #[trigger] byte_of(r >> 7u64, k) == if byte_of(r, k) == 0x80 {
                1u64
            } else {
                0u64
            },
{
    assert(byte_of(r, 0) == 0 || byte_of(r, 0) == 0x80);
    assert(byte_of(r, 1) == 0 || byte_of(r, 1) == 0x80);
    assert(byte_of(r, 2) == 0 || byte_of(r, 2) == 0x80);
    assert(byte_of(r, 3) == 0 || byte_of(r, 3) == 0x80);
    assert(byte_of(r, 4) == 0 || byte_of(r, 4) == 0x80);
    assert(byte_of(r, 5) == 0 || byte_of(r, 5) == 0x80);
    assert(byte_of(r, 6) == 0 || byte_of(r, 6) == 0x80);
    assert(byte_of(r, 7) == 0 || byte_of(r, 7) == 0x80);
    assert(forall|k: u64|
        k < 8 ==> #[trigger] byte_of(r >> 7u64, k) == if byte_of(r, k) == 0x80 {
            1u64
        } else {
            0u64
        }) by (bit_vector)
        requires
            byte_of(r, 0) == 0 || byte_of(r, 0) == 0x80,
            byte_of(r, 1) == 0 || byte_of(r, 1) == 0x80,
            byte_of(r, 2) == 0 || byte_of(r, 2) == 0x80,
            byte_of(r, 3) == 0 || byte_of(r, 3) == 0x80,
            byte_of(r, 4) == 0 || byte_of(r, 4) == 0x80,
            byte_of(r, 5) == 0 || byte_of(r, 5) == 0x80,
            byte_of(r, 6) == 0 || byte_of(r, 6) == 0x80,
            byte_of(r, 7) == 0 || byte_of(r, 7) == 0x80,
    ;
}

/// One multiplication turns bytes of at most 8 into their prefix sums.
proof fn lemma_prefix_mul(t: u64)
    requires
        forall|k: u64| k < 8 ==> #[trigger] byte_of(t, k) <= 8,
    ensures
        byte_of(t.wrapping_mul(L8), 0) == byte_of(t, 0),
        forall|k: u64|
            0 < k < 8 ==> #[trigger] byte_of(t.wrapping_mul(L8), k) == byte_of(
                t.wrapping_mul(L8),
                (k - 1) as u64,
            ) + byte_of(t, k),
        t.wrapping_mul(L8) >> 56u64 == byte_of(t.wrapping_mul(L8), 7),
{
    assert(byte_of(t, 0) <= 8);
    assert(byte_of(t, 1) <= 8);
    assert(byte_of(t, 2) <= 8);
    assert(byte_of(t, 3) <= 8);
    assert(byte_of(t, 4) <= 8);
    assert(byte_of(t, 5) <= 8);
    assert(byte_of(t, 6) <= 8);
    assert(byte_of(t, 7) <= 8);
    let m = t.wrapping_mul(L8);
    assert(byte_of(m, 0) == byte_of(t, 0) && byte_of(m, 1) == byte_of(m, 0) + byte_of(t, 1)
        && byte_of(m, 2) == byte_of(m, 1) + byte_of(t, 2) && byte_of(m, 3) == byte_of(m, 2)
        + byte_of(t, 3) && byte_of(m, 4) == byte_of(m, 3) + byte_of(t, 4) && byte_of(m, 5)
        == byte_of(m, 4) + byte_of(t, 5) && byte_of(m, 6) == byte_of(m, 5) + byte_of(t, 6)
        && byte_of(m, 7) == byte_of(m, 6) + byte_of(t, 7) && m >> 56u64 == byte_of(m, 7))
        by (bit_vector)
        requires
            m == t.wrapping_mul(L8),
            byte_of(t, 0) <= 8,
            byte_of(t, 1) <= 8,
            byte_of(t, 2) <= 8,
            byte_of(t, 3) <= 8,
            byte_of(t, 4) <= 8,
            byte_of(t, 5) <= 8,
            byte_of(t, 6) <= 8,
            byte_of(t, 7) <= 8,
    ;
    assert forall|k: u64| 0 < k < 8 implies #[trigger] byte_of(m, k) == byte_of(m, (k - 1) as u64)
        + byte_of(t, k) by {
        assert(k == 1 || k == 2 || k == 3 || k == 4 || k == 5 || k == 6 || k == 7);
    }
}

pub proof fn lemma_bit_of_zero()
    ensures
        forall|i: int| !bit_set(0u64, i),
{
    assert forall|i: int| !bit_set(0u64, i) by {
        if 0 <= i < 64 {
            let j = i as u64;
            assert((0u64 >> j) & 1 != 1) by (bit_vector);
        }
    }
}

pub proof fn lemma_rank_of_zero(i: int)
    ensures
        word_rank(0, i) == 0,
    decreases i,
{
    lemma_bit_of_zero();
    if i > 0 {
        lemma_rank_of_zero(i - 1);
    }
}

/// A rank grows with the position and by at most one per position.
pub proof fn lemma_rank_monotone(w: u64, i: int, j: int)
    requires
        0 <= i <= j,
    ensures
        word_rank(w, i) <= word_rank(w, j),
        word_rank(w, j) <= word_rank(w, i) + (j - i),
    decreases j - i,
{
    if i < j {
        lemma_rank_monotone(w, i, j - 1);
    }
}

/// Beyond the last position the rank no longer grows.
pub proof fn lemma_rank_saturates(w: u64, i: int)
    requires
        i >= 64,
    ensures
        word_rank(w, i) == word_ones(w),
    decreases i,
{
    if i > 64 {
        lemma_rank_saturates(w, i - 1);
    }
}

proof fn lemma_masked_rank(w: u64, i: u64, j: int)
    requires
        i < 64,
        0 <= j <= 64,
    ensures
        word_rank(w & low_mask(i), j) == word_rank(w, if j < i { j } else { i as int }),
    decreases j,
{
    if j > 0 {
        lemma_masked_rank(w, i, j - 1);
        let k = (j - 1) as u64;
        assert(((w & (((1u64 << i) - 1) as u64)) >> k) & 1 == if k < i {
            (w >> k) & 1
        } else {
            0
        }) by (bit_vector)
            requires
                i < 64,
                k < 64,
        ;
    }
}

/// Bits `p..p + j` of `x` hold as many set bits as the low `j` bits of
/// byte `x >> p`.
proof fn lemma_rank_in_byte(x: u64, p: u64, j: u64)
    requires
        p + 8 <= 64,
        j <= 8,
    ensures
        word_rank(x, p + j) == word_rank(x, p as int) + pop8((x >> p) & 0xFF & low_mask(j)),
    decreases j,
{
    if j == 0 {
        assert(pop8((x >> p) & 0xFF & low_mask(0)) == 0) by (bit_vector);
    } else {
        let i = (j - 1) as u64;
        lemma_rank_in_byte(x, p, i);
        assert(pop8((x >> p) & 0xFF & low_mask(j)) == pop8((x >> p) & 0xFF & low_mask(i)) + if (x >> (
        p + i) as u64) & 1 == 1 {
            1u64
        } else {
            0u64
        }) by (bit_vector)
            requires
                j == i + 1,
                i < 8,
                p + 8 <= 64,
        ;
    }
}

/// Stage one of `select1`: per-byte counts, then prefix sums by one
/// multiplication.
proof fn lemma_prefix_counts(x: u64)
    ensures
        forall|k: u64| k < 8 ==> byte_of(byte_counts(x), k) == pop8(byte_of(x, k)),
        byte_of(prefix_counts(x), 0) == byte_of(byte_counts(x), 0),
        forall|k: u64|
            0 < k < 8 ==> byte_of(prefix_counts(x), k) == byte_of(prefix_counts(x), (k - 1) as u64)
                + byte_of(byte_counts(x), k),
        prefix_counts(x) >> 56u64 == byte_of(prefix_counts(x), 7),
{
    assert(forall|k: u64| k < 8 ==> byte_of(byte_counts(x), k) == pop8(byte_of(x, k)))
        by (bit_vector);
    let t = byte_counts(x);
    assert(forall|k: u64| k < 8 ==> byte_of(t, k) <= 8) by (bit_vector)
        requires
            t == byte_counts(x),
    ;
    lemma_prefix_mul(t);
}

proof fn lemma_prefix_is_rank(x: u64, k: u64)
    requires
        k < 8,
    ensures
        byte_of(prefix_counts(x), k) == word_rank(x, 8 * k + 8),
    decreases k,
{
    lemma_prefix_counts(x);
    lemma_rank_in_byte(x, (8 * k) as u64, 8);
    assert(byte_of(x, k) == (x >> (8 * k) as u64) & 0xFF & low_mask(8)) by (bit_vector);
    assert(byte_of(byte_counts(x), k) == pop8(byte_of(x, k)));
    if k > 0 {
        lemma_prefix_is_rank(x, (k - 1) as u64);
        assert(byte_of(prefix_counts(x), k) == byte_of(prefix_counts(x), (k - 1) as u64) + byte_of(
            byte_counts(x),
            k,
        ));
    }
}

/// Byte `k` of the result counts the set bits of bytes `0..=k` of `x`.
fn prefix_sums(x: u64) -> (s2: u64)
    ensures
        s2 == prefix_counts(x),
        forall|k: u64| k < 8 ==> #[trigger] byte_of(s2, k) == word_rank(x, 8 * k + 8),
        forall|k: u64| k < 8 ==> #[trigger] byte_of(s2, k) <= 64,
        s2 >> 56u64 == word_ones(x),
{
    assert(x >= (x & X_AA) >> 1u64) by (bit_vector);
    let s0 = x - ((x & X_AA) >> 1);
    assert((s0 & X33) <= X33 && ((s0 >> 2u64) & X33) <= X33) by (bit_vector);
    let s1 = (s0 & X33) + ((s0 >> 2) & X33);
    assert(s1 >> 4u64 <= s1) by (bit_vector);
    let s2 = ((s1 + (s1 >> 4)) & X0F).wrapping_mul(L8);
    proof {
        lemma_prefix_counts(x);
        assert forall|k: u64| k < 8 implies #[trigger] byte_of(s2, k) == word_rank(x, 8 * k + 8)
            && byte_of(s2, k) <= 64 by {
            lemma_prefix_is_rank(x, k);
            lemma_rank_monotone(x, 0, 8 * k + 8);
        }
        assert(byte_of(s2, 7) == word_rank(x, 64));
    }
    s2
}

/// Number of set bits: the top byte of the prefix sums.
fn count_ones(w: u64) -> (r: u32)
    ensures
        r == word_ones(w),
{
    let s2 = prefix_sums(w);
    proof {
        lemma_rank_monotone(w, 0, 64);
    }
    (s2 >> 56) as u32
}

/// Stage two of `select1`, the count: one multiplication adds up the flags
/// in the top byte.
proof fn lemma_flag_count(f: u64)
    requires
        forall|k: u64| k < 8 ==> byte_of(f, k) <= 1,
    ensures
        (f.wrapping_mul(L8) >> 53u64) & !7u64 == 8 * (byte_of(f, 0) + byte_of(f, 1) + byte_of(f, 2)
            + byte_of(f, 3) + byte_of(f, 4) + byte_of(f, 5) + byte_of(f, 6) + byte_of(f, 7)),
        f.wrapping_mul(L8) >> 56u64 == byte_of(f, 0) + byte_of(f, 1) + byte_of(f, 2) + byte_of(f, 3)
            + byte_of(f, 4) + byte_of(f, 5) + byte_of(f, 6) + byte_of(f, 7),
{
    assert(byte_of(f, 0) <= 1 && byte_of(f, 1) <= 1 && byte_of(f, 2) <= 1 && byte_of(f, 3) <= 1);
    assert(byte_of(f, 4) <= 1 && byte_of(f, 5) <= 1 && byte_of(f, 6) <= 1 && byte_of(f, 7) <= 1);
    assert((f.wrapping_mul(L8) >> 53u64) & !7u64 == 8 * (byte_of(f, 0) + byte_of(f, 1) + byte_of(
        f,
        2,
    ) + byte_of(f, 3) + byte_of(f, 4) + byte_of(f, 5) + byte_of(f, 6) + byte_of(f, 7))
        && f.wrapping_mul(L8) >> 56u64 == byte_of(f, 0) + byte_of(f, 1) + byte_of(f, 2) + byte_of(
        f,
        3,
    ) + byte_of(f, 4) + byte_of(f, 5) + byte_of(f, 6) + byte_of(f, 7)) by (bit_vector)
        requires
            byte_of(f, 0) <= 1,
            byte_of(f, 1) <= 1,
            byte_of(f, 2) <= 1,
            byte_of(f, 3) <= 1,
            byte_of(f, 4) <= 1,
            byte_of(f, 5) <= 1,
            byte_of(f, 6) <= 1,
            byte_of(f, 7) <= 1,
    ;
}

/// Stage two of `select1`, the lookup: shifting the prefix sums up by one
/// byte reads the sum of the bytes before byte `k`.
proof fn lemma_prefix_before(s2: u64, k: u64)
    requires
        k < 8,
    ensures
        (s2 >> ((8 * k) as u64)) & 0xFF == byte_of(s2, k),
        k == 0 ==> ((s2 << 8u64) >> ((8 * k) as u64)) & 0xFF == 0,
        k > 0 ==> ((s2 << 8u64) >> ((8 * k) as u64)) & 0xFF == byte_of(s2, (k - 1) as u64),
{
    assert(k == 0 ==> ((s2 << 8u64) >> ((8 * k) as u64)) & 0xFF == 0) by (bit_vector);
    assert(k > 0 && k < 8 ==> ((s2 << 8u64) >> ((8 * k) as u64)) & 0xFF == byte_of(
        s2,
        (k - 1) as u64,
    )) by (bit_vector);
}

/// Stage three of `select1`: byte `j` of `(b * L8) & X8X` holds bit `j` of
/// `b` in place.
proof fn lemma_spread_bits(b: u64)
    requires
        b < 256,
    ensures
        forall|j: u64|
            j < 8 ==> #[trigger] byte_of(((b * L8) as u64) & X8X, j) <= 0x80 && (byte_of(
                ((b * L8) as u64) & X8X,
                j,
            ) != 0 <==> (b >> j) & 1 == 1),
{
    assert(forall|j: u64|
        j < 8 ==> #[trigger] byte_of(((b * L8) as u64) & X8X, j) <= 0x80 && (byte_of(
            ((b * L8) as u64) & X8X,
            j,
        ) != 0 <==> (b >> j) & 1 == 1)) by (bit_vector)
        requires
            b < 256,
    ;
}

/// The set bits of `b` below `j + 1` are those below `j` and bit `j`.
proof fn lemma_pop8_step(b: u64, j: u64)
    requires
        j < 8,
    ensures
        pop8(b & low_mask((j + 1) as u64)) == pop8(b & low_mask(j)) + ((b >> j) & 1),
        (b >> j) & 1 <= 1,
        j == 0 ==> pop8(b & low_mask(j)) == 0,
{
    assert(pop8(b & low_mask((j + 1) as u64)) == pop8(b & low_mask(j)) + ((b >> j) & 1) && (b
        >> j) & 1 <= 1 && (j == 0 ==> pop8(b & low_mask(j)) == 0)) by (bit_vector)
        requires
            j < 8,
    ;
}

/// Stage three of `select1`: counting the positions `j` of byte `b` whose
/// inclusive prefix holds at most `r` set bits gives the position of the set
/// bit with `r` set bits below it.
proof fn lemma_select_in_byte(b: u64, r: u64, j: u64)
    requires
        b < 256,
        r < pop8(b),
        j == (if pop8(b & low_mask(1)) <= r { 1u64 } else { 0u64 }) + (if pop8(b & low_mask(2)) <= r { 1u64 } else { 0u64 }) + (if pop8(b & low_mask(3)) <= r { 1u64 } else { 0u64 }) + (if pop8(b & low_mask(4)) <= r { 1u64 } else { 0u64 }) + (if pop8(b & low_mask(5)) <= r { 1u64 } else { 0u64 }) + (if pop8(b & low_mask(6)) <= r { 1u64 } else { 0u64 }) + (if pop8(b & low_mask(7)) <= r { 1u64 } else { 0u64 }) + (if pop8(b & low_mask(8)) <= r { 1u64 } else { 0u64 }),
    ensures
        j < 8,
        (b >> j) & 1 == 1,
        pop8(b & low_mask(j)) == r,
{
    assert(j < 8 && (b >> j) & 1 == 1 && pop8(b & low_mask(j)) == r) by (bit_vector)
        requires
            b < 256,
            r < pop8(b),
            j == (if pop8(b & low_mask(1)) <= r { 1u64 } else { 0u64 }) + (if pop8(b & low_mask(2)) <= r { 1u64 } else { 0u64 }) + (if pop8(b & low_mask(3)) <= r { 1u64 } else { 0u64 }) + (if pop8(b & low_mask(4)) <= r { 1u64 } else { 0u64 }) + (if pop8(b & low_mask(5)) <= r { 1u64 } else { 0u64 }) + (if pop8(b & low_mask(6)) <= r { 1u64 } else { 0u64 }) + (if pop8(b & low_mask(7)) <= r { 1u64 } else { 0u64 }) + (if pop8(b & low_mask(8)) <= r { 1u64 } else { 0u64 }),
    ;
}

/// The position in byte `b` of the set bit with `r` set bits below it:
/// spread the byte's bits one per byte, take prefix sums, and count the
/// sums that are at most `r`.
fn select_in_byte(b: u64, rank_in_byte: u64) -> (j: u64)
    requires
        b < 256,
        rank_in_byte < pop8(b),
    ensures
        j < 8,
        (b >> j) & 1 == 1,
        pop8(b & low_mask(j)) == rank_in_byte,
{
    proof {
        lemma_spread_bits(b);
        assert(pop8(b) <= 8) by (bit_vector);
        assert(0u64 & H8 == 0) by (bit_vector);
        assert(forall|j: u64| #[trigger] byte_of(0u64, j) == 0) by (bit_vector);
    }
    let spread = (b * L8) & X8X;
    let bit_flags = lt8(0, spread);
    proof {
        assert forall|j: u64| j < 8 implies #[trigger] byte_of(bit_flags, j) == if (b >> j) & 1
            == 1 {
            0x80u64
        } else {
            0u64
        } by {
            assert(byte_of(0u64, j) == 0);
            assert(byte_of(spread, j) == byte_of(((b * L8) as u64) & X8X, j));
        }
        lemma_flags_down(bit_flags);
    }
    let t = bit_flags >> 7;
    proof {
        assert forall|j: u64| j < 8 implies #[trigger] byte_of(t, j) == (b >> j) & 1 by {
            assert(byte_of(bit_flags, j) == if (b >> j) & 1 == 1 { 0x80u64 } else { 0u64 });
            lemma_pop8_step(b, j);
        }
        assert forall|j: u64| j < 8 implies #[trigger] byte_of(t, j) <= 8 by {
            assert(byte_of(t, j) == (b >> j) & 1);
            lemma_pop8_step(b, j);
        }
        lemma_prefix_mul(t);
    }
    let bit_sums = t.wrapping_mul(L8);
    proof {
        let m = bit_sums;
        lemma_pop8_step(b, 0);
        assert(byte_of(t, 0) == (b >> 0u64) & 1);
        lemma_pop8_step(b, 1);
        assert(byte_of(t, 1) == (b >> 1u64) & 1);
        lemma_pop8_step(b, 2);
        assert(byte_of(t, 2) == (b >> 2u64) & 1);
        lemma_pop8_step(b, 3);
        assert(byte_of(t, 3) == (b >> 3u64) & 1);
        lemma_pop8_step(b, 4);
        assert(byte_of(t, 4) == (b >> 4u64) & 1);
        lemma_pop8_step(b, 5);
        assert(byte_of(t, 5) == (b >> 5u64) & 1);
        lemma_pop8_step(b, 6);
        assert(byte_of(t, 6) == (b >> 6u64) & 1);
        lemma_pop8_step(b, 7);
        assert(byte_of(t, 7) == (b >> 7u64) & 1);
        assert(byte_of(m, 1) == byte_of(m, 0) + byte_of(t, 1));
        assert(byte_of(m, 2) == byte_of(m, 1) + byte_of(t, 2));
        assert(byte_of(m, 3) == byte_of(m, 2) + byte_of(t, 3));
        assert(byte_of(m, 4) == byte_of(m, 3) + byte_of(t, 4));
        assert(byte_of(m, 5) == byte_of(m, 4) + byte_of(t, 5));
        assert(byte_of(m, 6) == byte_of(m, 5) + byte_of(t, 6));
        assert(byte_of(m, 7) == byte_of(m, 6) + byte_of(t, 7));
        assert(byte_of(m, 0) == pop8(b & low_mask(1)));
        assert(byte_of(m, 1) == pop8(b & low_mask(2)));
        assert(byte_of(m, 2) == pop8(b & low_mask(3)));
        assert(byte_of(m, 3) == pop8(b & low_mask(4)));
        assert(byte_of(m, 4) == pop8(b & low_mask(5)));
        assert(byte_of(m, 5) == pop8(b & low_mask(6)));
        assert(byte_of(m, 6) == pop8(b & low_mask(7)));
        assert(byte_of(m, 7) == pop8(b & low_mask(8)));
        assert forall|j: u64| j < 8 implies #[trigger] byte_of(m, j) < 0x80 by {
            assert(j == 0 || j == 1 || j == 2 || j == 3 || j == 4 || j == 5 || j == 6 || j == 7);
        }
        lemma_high_clear(m);
        lemma_spread(rank_in_byte);
    }
    let found = le8(bit_sums, rank_in_byte * L8);
    proof {
        assert forall|j: u64| j < 8 implies #[trigger] byte_of(found, j) == if byte_of(bit_sums, j)
            <= rank_in_byte {
            0x80u64
        } else {
            0u64
        } by {
            assert(byte_of((rank_in_byte * L8) as u64, j) == rank_in_byte);
        }
        lemma_flags_down(found);
    }
    let g = found >> 7;
    proof {
        assert forall|j: u64| j < 8 implies #[trigger] byte_of(g, j) == if byte_of(bit_sums, j)
            <= rank_in_byte {
            1u64
        } else {
            0u64
        } by {
            assert(byte_of(found, j) == if byte_of(bit_sums, j) <= rank_in_byte {
                0x80u64
            } else {
                0u64
            });
        }
        lemma_flag_count(g);
        assert(byte_of(g, 0) == if byte_of(bit_sums, 0) <= rank_in_byte { 1u64 } else { 0u64 });
        assert(byte_of(g, 1) == if byte_of(bit_sums, 1) <= rank_in_byte { 1u64 } else { 0u64 });
        assert(byte_of(g, 2) == if byte_of(bit_sums, 2) <= rank_in_byte { 1u64 } else { 0u64 });
        assert(byte_of(g, 3) == if byte_of(bit_sums, 3) <= rank_in_byte { 1u64 } else { 0u64 });
        assert(byte_of(g, 4) == if byte_of(bit_sums, 4) <= rank_in_byte { 1u64 } else { 0u64 });
        assert(byte_of(g, 5) == if byte_of(bit_sums, 5) <= rank_in_byte { 1u64 } else { 0u64 });
        assert(byte_of(g, 6) == if byte_of(bit_sums, 6) <= rank_in_byte { 1u64 } else { 0u64 });
        assert(byte_of(g, 7) == if byte_of(bit_sums, 7) <= rank_in_byte { 1u64 } else { 0u64 });
    }
    let bit_pos = g.wrapping_mul(L8) >> 56;
    proof {
    lemma_select_in_byte(b, rank_in_byte, bit_pos);
    }
    bit_pos
}

/// Count of members below a position.
pub trait Rank: Bits {
    /// Number of members at positions below `i`.
    spec fn rank_of(&self, i: int) -> nat;

    /// Count the members at positions below `i`.
    fn rank1(&self, i: usize) -> (r: usize)
        ensures
            r == self.rank_of(i as int),
            r <= i,
    ;

    /// Count the non-members at positions below `i`.
    fn rank0(&self, i: usize) -> (r: usize)
        ensures
            r == i - self.rank_of(i as int),
    ;
}

/// Position of the member, or non-member, of a given rank.
pub trait Select: Rank {
    /// The position `p` of the member with `c` members below it, if there
    /// are more than `c` members.
    fn select1(&self, c: usize) -> (r: Option<usize>)
        ensures
            r is None <==> c >= self.popcount(),
            r matches Some(p) ==> self.has(p as int) && self.rank_of(p as int) == c,
    ;

    /// The position `p` of the non-member with `c` non-members below it, if
    /// there are more than `c` non-members among the `width()` positions.
    fn select0(&self, c: usize) -> (r: Option<usize>)
        ensures
            r is None <==> c >= Self::width() - self.popcount(),
            r matches Some(p) ==> p < Self::width() && !self.has(p as int) && p - self.rank_of(p as int)
                == c,
    ;
}

impl Bits for u64 {
    const SIZE: usize = 64;

    open spec fn width() -> nat {
        64
    }

    open spec fn has(&self, i: int) -> bool {
        bit_set(*self, i)
    }

    open spec fn popcount(&self) -> nat {
        word_ones(*self)
    }

    fn zero() -> (r: u64) {
        proof {
            lemma_bit_of_zero();
            lemma_rank_of_zero(64);
        }
        0
    }

    fn ones(&self) -> (r: usize) {
        count_ones(*self) as usize
    }
}

impl Rank for u64 {
    open spec fn rank_of(&self, i: int) -> nat {
        word_rank(*self, i)
    }

    fn rank1(&self, i: usize) -> (r: usize) {
        proof {
            lemma_rank_monotone(*self, 0, i as int);
        }
        if i >= 64 {
            proof {
                lemma_rank_saturates(*self, i as int);
            }
            count_ones(*self) as usize
        } else {
            let j = i as u64;
            assert(1u64 << j >= 1) by (bit_vector)
                requires
                    j < 64,
            ;
            let mask = (1u64 << j) - 1;
            proof {
                lemma_masked_rank(*self, j, 64);
            }
            count_ones(*self & mask) as usize
        }
    }

    fn rank0(&self, i: usize) -> (r: usize) {
        let r1 = self.rank1(i);
        i - r1
    }
}

proof fn lemma_rank_of_complement(w: u64, i: int)
    requires
        0 <= i <= 64,
    ensures
        word_rank(!w, i) == i - word_rank(w, i),
        forall|j: int| bit_set(!w, j) <==> 0 <= j < 64 && !bit_set(w, j),
    decreases i,
{
    assert forall|j: int| bit_set(!w, j) <==> 0 <= j < 64 && !bit_set(w, j) by {
        if 0 <= j < 64 {
            let k = j as u64;
            assert(((!w) >> k) & 1 == 1 <==> !((w >> k) & 1 == 1)) by (bit_vector)
                requires
                    k < 64,
            ;
        }
    }
    if i > 0 {
        lemma_rank_of_complement(w, i - 1);
    }
}

impl Select for u64 {
    fn select1(&self, c: usize) -> (r: Option<usize>) {
        let x = *self;
        let s2 = prefix_sums(x);
        proof {
            lemma_rank_monotone(x, 0, 64);
        }
        let total = s2 >> 56;
        if c as u64 >= total {
            return None;
        }
        let c = c as u64;
        proof {
            lemma_spread(c);
            lemma_high_clear(s2);
            assert forall|k: u64| k < 7 implies #[trigger] byte_of(s2, k) <= byte_of(s2, (k + 1) as u64) by {
                lemma_rank_monotone(x, 8 * k + 8, 8 * k + 16);
            }
        }
        // Which byte: count the bytes whose prefix sum is at most `c`.
        let flags = le8(s2, c * L8);
        proof {
            assert forall|k: u64| k < 8 implies #[trigger] byte_of(flags, k) == if byte_of(s2, k)
                <= c {
                0x80u64
            } else {
                0u64
            } by {
                assert(byte_of((c * L8) as u64, k) == c);
            }
            lemma_flags_down(flags);
        }
        let f = flags >> 7;
        proof {
            assert forall|k: u64| k < 8 implies #[trigger] byte_of(f, k) == if byte_of(s2, k) <= c {
                1u64
            } else {
                0u64
            } by {
                assert(byte_of(flags, k) == if byte_of(s2, k) <= c { 0x80u64 } else { 0u64 });
            }
            lemma_flag_count(f);
        }
        let byte_pos = (f.wrapping_mul(L8) >> 53) & !7;
        let ghost k = byte_pos / 8;
        proof {
            assert(byte_of(s2, 0) <= byte_of(s2, 1) <= byte_of(s2, 2) <= byte_of(s2, 3) <= byte_of(
                s2,
                4,
            ) <= byte_of(s2, 5) <= byte_of(s2, 6) <= byte_of(s2, 7));
            assert(byte_of(f, 0) == if byte_of(s2, 0) <= c { 1u64 } else { 0u64 });
            assert(byte_of(f, 1) == if byte_of(s2, 1) <= c { 1u64 } else { 0u64 });
            assert(byte_of(f, 2) == if byte_of(s2, 2) <= c { 1u64 } else { 0u64 });
            assert(byte_of(f, 3) == if byte_of(s2, 3) <= c { 1u64 } else { 0u64 });
            assert(byte_of(f, 4) == if byte_of(s2, 4) <= c { 1u64 } else { 0u64 });
            assert(byte_of(f, 5) == if byte_of(s2, 5) <= c { 1u64 } else { 0u64 });
            assert(byte_of(f, 6) == if byte_of(s2, 6) <= c { 1u64 } else { 0u64 });
            assert(byte_of(f, 7) == if byte_of(s2, 7) <= c { 1u64 } else { 0u64 });
            assert(k < 8 && byte_pos == 8 * k);
            assert(c < byte_of(s2, k as u64));
            assert(k > 0 ==> byte_of(s2, (k - 1) as u64) <= c);
            lemma_prefix_before(s2, k as u64);
        }
        // Set bits before that byte, and the rank wanted inside it.
        let before = (s2 << 8) >> byte_pos;
        let rank_in_byte = c - (before & 0xFF);
        let b = (x >> byte_pos) & 0xFF;
        proof {
            lemma_rank_in_byte(x, byte_pos, 8);
            assert(b < 256 && b & low_mask(8) == b) by (bit_vector)
                requires
                    b == (x >> byte_pos) & 0xFF,
            ;
            assert(word_rank(x, byte_pos as int) == before & 0xFF) by {
                if k > 0 {
                    assert(byte_of(s2, (k - 1) as u64) == word_rank(x, 8 * (k - 1) + 8));
                }
            }
            assert(word_rank(x, byte_pos + 8) == byte_of(s2, k as u64));
            assert(rank_in_byte < pop8(b));
        }
        let bit_pos = select_in_byte(b, rank_in_byte);
        proof {
            lemma_rank_in_byte(x, byte_pos, bit_pos);
            assert((x >> (byte_pos + bit_pos) as u64) & 1 == 1) by (bit_vector)
                requires
                    b == (x >> byte_pos) & 0xFF,
                    (b >> bit_pos) & 1 == 1,
                    byte_pos <= 56,
                    bit_pos < 8,
            ;
        }
        Some((byte_pos + bit_pos) as usize)
    }

    fn select0(&self, c: usize) -> (r: Option<usize>) {
        proof {
            lemma_rank_of_complement(*self, 64);
            lemma_rank_monotone(*self, 0, 64);
        }
        let r = (!*self).select1(c);
        proof {
            if let Some(p) = r {
                lemma_rank_of_complement(*self, p as int);
            }
        }
        r
    }
}

/// A word whose bits from `n` up are clear keeps its rank from `n` on.
proof fn lemma_rank_above(w: u64, n: int, i: int)
    requires
        0 <= n <= i,
        forall|j: int| n <= j ==> !bit_set(w, j),
    ensures
        word_rank(w, i) == word_rank(w, n),
    decreases i - n,
{
    if i > n {
        lemma_rank_above(w, n, i - 1);
    }
}

/// The complement of an `n`-bit word, read as a 64-bit word.
proof fn lemma_narrow_complement(x: u64, y: u64, n: u64)
    requires
        n == 8 || n == 16 || n == 32,
        x >> n == 0,
        y == !x & low_mask(n),
    ensures
        forall|j: int| #[trigger] bit_set(y, j) <==> 0 <= j < n && !bit_set(x, j),
        forall|j: int| n <= j ==> !#[trigger] bit_set(x, j),
        forall|i: int| 0 <= i <= n ==> #[trigger] word_rank(y, i) == i - word_rank(x, i),
        word_ones(x) == word_rank(x, n as int),
        word_ones(y) == n - word_ones(x),
{
    assert forall|j: int| #[trigger] bit_set(y, j) <==> 0 <= j < n && !bit_set(x, j) by {
        if 0 <= j < 64 {
            let k = j as u64;
            assert((y >> k) & 1 == 1 <==> k < n && !((x >> k) & 1 == 1)) by (bit_vector)
                requires
                    n == 8 || n == 16 || n == 32,
                    x >> n == 0,
                    y == !x & low_mask(n),
                    k < 64,
            ;
        }
    }
    assert forall|j: int| n <= j implies !#[trigger] bit_set(x, j) by {
        if j < 64 {
            let k = j as u64;
            assert((x >> k) & 1 == 0) by (bit_vector)
                requires
                    n == 8 || n == 16 || n == 32,
                    x >> n == 0,
                    n <= k < 64,
            ;
        }
    }
    assert forall|i: int| 0 <= i <= n implies #[trigger] word_rank(y, i) == i - word_rank(x, i) by {
        lemma_complement_rank(x, y, n as int, i);
    }
    lemma_rank_above(x, n as int, 64);
    lemma_rank_above(y, n as int, 64);
}

proof fn lemma_complement_rank(x: u64, y: u64, n: int, i: int)
    requires
        0 <= i <= n <= 64,
        forall|j: int| #[trigger] bit_set(y, j) <==> 0 <= j < n && !bit_set(x, j),
    ensures
        word_rank(y, i) == i - word_rank(x, i),
    decreases i,
{
    if i > 0 {
        lemma_complement_rank(x, y, n, i - 1);
    }
}

impl Bits for u32 {
    const SIZE: usize = 32;

    open spec fn width() -> nat {
        32
    }

    open spec fn has(&self, i: int) -> bool {
        bit_set(*self as u64, i)
    }

    open spec fn popcount(&self) -> nat {
        word_ones(*self as u64)
    }

    fn zero() -> (r: u32) {
        proof {
            lemma_bit_of_zero();
            lemma_rank_of_zero(64);
        }
        0
    }

    fn ones(&self) -> (r: usize) {
        count_ones(*self as u64) as usize
    }
}

impl Rank for u32 {
    open spec fn rank_of(&self, i: int) -> nat {
        word_rank(*self as u64, i)
    }

    fn rank1(&self, i: usize) -> (r: usize) {
        (*self as u64).rank1(i)
    }

    fn rank0(&self, i: usize) -> (r: usize) {
        (*self as u64).rank0(i)
    }
}

impl Select for u32 {
    fn select1(&self, c: usize) -> (r: Option<usize>) {
        (*self as u64).select1(c)
    }

    fn select0(&self, c: usize) -> (r: Option<usize>) {
        let v = *self;
        let x = v as u64;
        let y = (!v) as u64;
        assert(x >> 32u64 == 0 && y == !x & low_mask(32)) by (bit_vector)
            requires
                x == v as u64,
                y == (!v) as u64,
        ;
        proof {
            lemma_narrow_complement(x, y, 32);
        }
        let r = y.select1(c);
        proof {
            if let Some(p) = r {
                assert(bit_set(y, p as int));
            }
        }
        r
    }
}

impl Bits for u16 {
    const SIZE: usize = 16;

    open spec fn width() -> nat {
        16
    }

    open spec fn has(&self, i: int) -> bool {
        bit_set(*self as u64, i)
    }

    open spec fn popcount(&self) -> nat {
        word_ones(*self as u64)
    }

    fn zero() -> (r: u16) {
        proof {
            lemma_bit_of_zero();
            lemma_rank_of_zero(64);
        }
        0
    }

    fn ones(&self) -> (r: usize) {
        count_ones(*self as u64) as usize
    }
}

impl Rank for u16 {
    open spec fn rank_of(&self, i: int) -> nat {
        word_rank(*self as u64, i)
    }

    fn rank1(&self, i: usize) -> (r: usize) {
        (*self as u64).rank1(i)
    }

    fn rank0(&self, i: usize) -> (r: usize) {
        (*self as u64).rank0(i)
    }
}

impl Select for u16 {
    fn select1(&self, c: usize) -> (r: Option<usize>) {
        (*self as u64).select1(c)
    }

    fn select0(&self, c: usize) -> (r: Option<usize>) {
        let v = *self;
        let x = v as u64;
        let y = (!v) as u64;
        assert(x >> 16u64 == 0 && y == !x & low_mask(16)) by (bit_vector)
            requires
                x == v as u64,
                y == (!v) as u64,
        ;
        proof {
            lemma_narrow_complement(x, y, 16);
        }
        let r = y.select1(c);
        proof {
            if let Some(p) = r {
                assert(bit_set(y, p as int));
            }
        }
        r
    }
}

impl Bits for u8 {
    const SIZE: usize = 8;

    open spec fn width() -> nat {
        8
    }

    open spec fn has(&self, i: int) -> bool {
        bit_set(*self as u64, i)
    }

    open spec fn popcount(&self) -> nat {
        word_ones(*self as u64)
    }

    fn zero() -> (r: u8) {
        proof {
            lemma_bit_of_zero();
            lemma_rank_of_zero(64);
        }
        0
    }

    fn ones(&self) -> (r: usize) {
        count_ones(*self as u64) as usize
    }
}

impl Rank for u8 {
    open spec fn rank_of(&self, i: int) -> nat {
        word_rank(*self as u64, i)
    }

    fn rank1(&self, i: usize) -> (r: usize) {
        (*self as u64).rank1(i)
    }

    fn rank0(&self, i: usize) -> (r: usize) {
        (*self as u64).rank0(i)
    }
}

impl Select for u8 {
    fn select1(&self, c: usize) -> (r: Option<usize>) {
        (*self as u64).select1(c)
    }

    fn select0(&self, c: usize) -> (r: Option<usize>) {
        let v = *self;
        let x = v as u64;
        let y = (!v) as u64;
        assert(x >> 8u64 == 0 && y == !x & low_mask(8)) by (bit_vector)
            requires
                x == v as u64,
                y == (!v) as u64,
        ;
        proof {
            lemma_narrow_complement(x, y, 8);
        }
        let r = y.select1(c);
        proof {
            if let Some(p) = r {
                assert(bit_set(y, p as int));
            }
        }
        r
    }
}

} // verus!
