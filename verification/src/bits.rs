use vstd::prelude::*;
use vstd::arithmetic::power2::{lemma_pow2_pos, lemma_pow2_strictly_increases, lemma_pow2_unfold, pow2};
use vstd::bits::lemma_u64_shr_is_div;
use vstd::std_specs::bits::{axiom_u64_leading_zeros, u64_leading_zeros};
use crate::counting::{count, lemma_count_concat, lemma_count_negate, lemma_count_uniform};

verus! {

/// Whether bit `j` of the word `w` is set, bit 0 being the least significant.
pub open spec fn bit(w: u64, j: int) -> bool {
    (w >> (j as u64)) & 1 == 1
}

/// The 64 bits of a word, least significant first.
pub open spec fn word_bits(w: u64) -> Seq<bool> {
    Seq::new(64, |j: int| bit(w, j))
}

/// The bits of a sequence of words laid end to end: position `p` is bit
/// `p % 64` of word `p / 64`.
pub open spec fn stream(words: Seq<u64>) -> Seq<bool> {
    Seq::new(64 * words.len(), |p: int| bit(words[p / 64], p % 64))
}

/// Bit `j` of `w >> a` is bit `j + a` of `w`, and clear where that is past
/// the top of the word.
pub proof fn lemma_bit_shr(w: u64, a: u64, j: u64)
    requires
        a < 64,
        j < 64,
    ensures
        bit(w >> a, j as int) == (j + a < 64 && bit(w, j + a)),
{
    let k: u64 = (j + a) as u64;
    assert(((w >> a) >> j) & 1 == 1 <==> (k < 64 && (w >> k) & 1 == 1)) by (bit_vector)
        requires
            a < 64,
            j < 64,
            k == j + a,
    ;
}

/// Bit `j` of `w << a` is bit `j - a` of `w`, and clear below position `a`.
pub proof fn lemma_bit_shl(w: u64, a: u64, j: u64)
    requires
        a < 64,
        j < 64,
    ensures
        bit(w << a, j as int) == (j >= a && bit(w, j - a)),
{
    if j >= a {
        let k: u64 = (j - a) as u64;
        assert(((w << a) >> j) & 1 == 1 <==> (w >> k) & 1 == 1) by (bit_vector)
            requires
                a < 64,
                j < 64,
                j >= a,
                k == j - a,
        ;
    } else {
        assert(((w << a) >> j) & 1 == 0) by (bit_vector)
            requires
                a < 64,
                j < a,
        ;
    }
}

/// A bit of `x & y` is set where it is set in both.
pub proof fn lemma_bit_and(x: u64, y: u64, j: u64)
    requires
        j < 64,
    ensures
        bit(x & y, j as int) == (bit(x, j as int) && bit(y, j as int)),
{
    assert((((x & y) >> j) & 1 == 1) <==> ((x >> j) & 1 == 1 && (y >> j) & 1 == 1))
        by (bit_vector);
}

/// A bit of `x | y` is set where it is set in either.
pub proof fn lemma_bit_or(x: u64, y: u64, j: u64)
    requires
        j < 64,
    ensures
        bit(x | y, j as int) == (bit(x, j as int) || bit(y, j as int)),
{
    assert((((x | y) >> j) & 1 == 1) <==> ((x >> j) & 1 == 1 || (y >> j) & 1 == 1))
        by (bit_vector);
}

/// Every bit of `!x` is the opposite of that of `x`.
pub proof fn lemma_bit_not(x: u64, j: u64)
    requires
        j < 64,
    ensures
        bit(!x, j as int) == !bit(x, j as int),
{
    assert((((!x) >> j) & 1 == 1) <==> !((x >> j) & 1 == 1)) by (bit_vector)
        requires
            j < 64,
    ;
}

/// The bits of the words 0, 1 and `u64::MAX`.
pub proof fn lemma_bit_const(j: u64)
    requires
        j < 64,
    ensures
        !bit(0, j as int),
        bit(1, j as int) == (j == 0),
        bit(u64::MAX, j as int),
{
    assert((0u64 >> j) & 1 == 0) by (bit_vector);
    assert(((1u64 >> j) & 1 == 1) <==> j == 0) by (bit_vector)
        requires
            j < 64,
    ;
    assert((0xffff_ffff_ffff_ffffu64 >> j) & 1 == 1) by (bit_vector)
        requires
            j < 64,
    ;
}

/// The word with exactly the `len` lowest bits set.
pub open spec fn low_mask(len: int) -> u64 {
    if len >= 64 {
        u64::MAX
    } else {
        (((1u64 << (len as u64)) - 1) as u64)
    }
}

/// Bit `j` of the mask of `len` low bits is set exactly when `j < len`.
pub proof fn lemma_bit_low_mask(len: u64, j: u64)
    requires
        len <= 64,
        j < 64,
    ensures
        bit(low_mask(len as int), j as int) == (j < len),
{
    if len >= 64 {
        lemma_bit_const(j);
    } else {
        assert(1 <= (1u64 << len) && ((((((1u64 << len) - 1) as u64) >> j) & 1 == 1) <==> j
            < len)) by (bit_vector)
            requires
                len < 64,
                j < 64,
        ;
    }
}

/// `u64::count_ones` returns the number of ones in the binary representation
/// of its argument: the number of positions `0..64` at which the bit is set.
pub assume_specification[ u64::count_ones ](w: u64) -> (r: u32)
    ensures
        r == count(word_bits(w), true),
;

/// Computes the word whose `len` lowest bits are set.
pub fn low_mask_word(len: u32) -> (m: u64)
    requires
        len <= 64,
    ensures
        m == low_mask(len as int),
{
    if len >= 64 {
        u64::MAX
    } else {
        assert(1u64 << len >= 1) by (bit_vector)
            requires
                len < 64,
        ;
        (1u64 << len) - 1
    }
}

/// Counts the bits of `w` at positions `lo..=hi` that equal `kind`.
pub fn count_in_word(w: u64, lo: u32, hi: u32, kind: bool) -> (c: u64)
    requires
        lo <= hi < 64,
    ensures
        c == count(word_bits(w).subrange(lo as int, hi + 1), kind),
        c <= hi - lo + 1,
{
    let len: u32 = hi - lo + 1;
    let v: u64 = if kind {
        w
    } else {
        !w
    };
    let m: u64 = (v >> lo) & low_mask_word(len);
    proof {
        let window = word_bits(w).subrange(lo as int, hi + 1);
        let kept = word_bits(v).subrange(lo as int, hi + 1);
        let rest = Seq::new((64 - len) as nat, |j: int| false);
        assert forall|j: int| 0 <= j < 64 implies #[trigger] word_bits(m)[j] == (kept + rest)[j] by {
            lemma_bit_and(v >> lo, low_mask(len as int), j as u64);
            lemma_bit_shr(v, lo as u64, j as u64);
            lemma_bit_low_mask(len as u64, j as u64);
        }
        assert(word_bits(m) =~= kept + rest);
        lemma_count_concat(kept, rest, true);
        lemma_count_uniform(rest, false);
        if !kind {
            assert forall|j: int| 0 <= j < window.len() implies kept[j] == !#[trigger] window[j] by {
                lemma_bit_not(w, (lo + j) as u64);
            }
            lemma_count_negate(kept, window);
        }
        crate::counting::lemma_count_bound(window, kind);
    }
    m.count_ones() as u64
}

/// A stretch of the stream that lies within word `k` is the matching stretch
/// of that word's bits.
pub proof fn lemma_stream_word(words: Seq<u64>, k: int, lo: int, hi: int)
    requires
        0 <= k < words.len(),
        0 <= lo <= hi <= 64,
    ensures
        stream(words).subrange(64 * k + lo, 64 * k + hi) == word_bits(words[k]).subrange(lo, hi),
{
    assert(stream(words).subrange(64 * k + lo, 64 * k + hi) =~= word_bits(words[k]).subrange(
        lo,
        hi,
    ));
}

/// The number that a sequence of bits spells, least significant bit first.
pub open spec fn value(s: Seq<bool>) -> nat
    decreases s.len(),
{
    if s.len() == 0 {
        0
    } else {
        2 * value(s.drop_first()) + if s[0] {
            1nat
        } else {
            0nat
        }
    }
}

/// Clear bits at the high end add nothing to the value.
pub proof fn lemma_value_high_clear(s: Seq<bool>, len: int)
    requires
        0 <= len <= s.len(),
        forall|j: int| len <= j < s.len() ==> !s[j],
    ensures
        value(s) == value(s.take(len)),
    decreases s.len(),
{
    if s.len() > 0 {
        if len == 0 {
            lemma_value_high_clear(s.drop_first(), 0);
            assert(s.drop_first().take(0) =~= s.take(0));
        } else {
            lemma_value_high_clear(s.drop_first(), len - 1);
            assert(s.drop_first().take(len - 1) =~= s.take(len).drop_first());
        }
    }
}

/// `len` bits spell a number below `2^len`.
pub proof fn lemma_value_bound(s: Seq<bool>)
    ensures
        value(s) < pow2(s.len()),
    decreases s.len(),
{
    if s.len() == 0 {
        lemma_pow2_pos(0);
    } else {
        lemma_value_bound(s.drop_first());
        lemma_pow2_unfold(s.len());
    }
}

/// Bit sequences of one length that spell the same number are the same.
pub proof fn lemma_value_injective(a: Seq<bool>, b: Seq<bool>)
    requires
        a.len() == b.len(),
        value(a) == value(b),
    ensures
        a == b,
    decreases a.len(),
{
    if a.len() > 0 {
        lemma_value_injective(a.drop_first(), b.drop_first());
        assert(a =~= seq![a[0]] + a.drop_first());
        assert(b =~= seq![b[0]] + b.drop_first());
    } else {
        assert(a =~= b);
    }
}

/// The bits of a word from position `k` up spell the word shifted right by
/// `k`.
pub proof fn lemma_value_shr(w: u64, k: int)
    requires
        0 <= k < 64,
    ensures
        value(word_bits(w).subrange(k, 64)) == w >> (k as u64),
    decreases 64 - k,
{
    let s = word_bits(w).subrange(k, 64);
    let a: u64 = k as u64;
    if k == 63 {
        assert(s.drop_first() =~= Seq::<bool>::empty());
        assert(value(s.drop_first()) == 0);
        assert((w >> a) == (w >> a) & 1) by (bit_vector)
            requires
                a == 63,
        ;
        assert((w >> a) & 1 == 0 || (w >> a) & 1 == 1) by (bit_vector);
    } else {
        let b: u64 = (k + 1) as u64;
        lemma_value_shr(w, k + 1);
        assert(s.drop_first() =~= word_bits(w).subrange(k + 1, 64));
        assert((w >> a) == 2 * (w >> b) + ((w >> a) & 1) && ((w >> a) & 1 == 0 || (w >> a) & 1
            == 1)) by (bit_vector)
            requires
                a < 63,
                b == a + 1,
        ;
    }
}

/// The bits of a word spell the word.
pub proof fn lemma_value_word(w: u64)
    ensures
        value(word_bits(w)) == w,
{
    lemma_value_shr(w, 0);
    assert(word_bits(w).subrange(0, 64) =~= word_bits(w));
    assert(w >> 0u64 == w) by (bit_vector);
}

/// A word below `2^len` has no bit set at position `len` or above.
pub proof fn lemma_small_word(w: u64, len: nat, j: int)
    requires
        w < pow2(len),
        len <= j < 64,
    ensures
        !bit(w, j),
{
    let a: u64 = j as u64;
    lemma_u64_shr_is_div(w, a);
    if len < j {
        lemma_pow2_strictly_increases(len, j as nat);
    }
    vstd::arithmetic::div_mod::lemma_basic_div(w as int, pow2(j as nat) as int);
    assert(0u64 & 1 == 0) by (bit_vector);
}

/// The number of bits that it takes to write `x` in binary: the position of
/// its highest set bit plus one, and 0 for 0.
pub open spec fn bit_length(x: nat) -> nat
    decreases x,
{
    if x == 0 {
        0
    } else {
        1 + bit_length(x / 2)
    }
}

/// The base 2 logarithm of `n`, rounded down; 0 for `n == 0`.
pub open spec fn floor_log2(n: nat) -> nat {
    if n == 0 {
        0
    } else {
        (bit_length(n) - 1) as nat
    }
}

/// A number lies between the powers of two that its bit length names.
pub proof fn lemma_bit_length_bounds(x: nat)
    ensures
        x < pow2(bit_length(x)),
        x > 0 ==> pow2((bit_length(x) - 1) as nat) <= x,
    decreases x,
{
    if x == 0 {
        lemma_pow2_pos(0);
    } else {
        lemma_bit_length_bounds(x / 2);
        lemma_pow2_unfold(bit_length(x));
        if x / 2 > 0 {
            lemma_pow2_unfold(bit_length(x / 2));
        } else {
            vstd::arithmetic::power2::lemma2_to64();
        }
    }
}

/// `floor_log2(n)` is the exponent of the largest power of two that is not
/// above `n`.
pub proof fn lemma_floor_log2_bounds(n: nat)
    requires
        n > 0,
    ensures
        pow2(floor_log2(n)) <= n < pow2(floor_log2(n) + 1),
{
    lemma_bit_length_bounds(n);
}

/// A larger number is not shorter.
pub proof fn lemma_bit_length_monotone(x: nat, y: nat)
    requires
        x <= y,
    ensures
        bit_length(x) <= bit_length(y),
    decreases y,
{
    if x > 0 {
        lemma_bit_length_monotone(x / 2, y / 2);
    }
}

/// The bit length of a word is 64 less its leading zeros.
pub proof fn lemma_bit_length_word(x: u64)
    ensures
        bit_length(x as nat) == 64 - u64_leading_zeros(x),
        bit_length(x as nat) <= 64,
    decreases x,
{
    reveal(u64_leading_zeros);
    axiom_u64_leading_zeros(x);
    if x != 0 {
        lemma_bit_length_word(x / 2);
    }
}

/// Computes the bit length of a word.
pub fn bit_length_word(x: u64) -> (r: u32)
    ensures
        r == bit_length(x as nat),
        r <= 64,
{
    proof {
        lemma_bit_length_word(x);
    }
    64 - x.leading_zeros()
}

} // verus!
