use vstd::prelude::*;
use vstd::arithmetic::power2::pow2;
use vstd::std_specs::cmp::PartialEqSpecImpl;
use vstd::string::StringExecFns;
use crate::bits::{
    bit, lemma_bit_and, lemma_bit_const, lemma_bit_low_mask, lemma_bit_not, lemma_bit_or,
    lemma_bit_shl, lemma_bit_shr, lemma_small_word, lemma_value_bound, lemma_value_high_clear,
    lemma_value_injective, lemma_value_word, low_mask, low_mask_word, stream, value, word_bits,
};

use crate::error::Error;

verus! {

/// The bits of slot `i` when every slot is `l` bits wide.
pub open spec fn slot(st: Seq<bool>, l: int, i: int) -> Seq<bool> {
    st.subrange(i * l, i * l + l)
}

/// The stream `st` with the `l` lowest bits of `v` written into slot `i`.
pub open spec fn write_slot(st: Seq<bool>, l: int, i: int, v: u64) -> Seq<bool> {
    Seq::new(
        st.len(),
        |q: int|
            if i * l <= q < i * l + l {
                bit(v, q - i * l)
            } else {
                st[q]
            },
    )
}

/// Slot `i` of `n` slots lies inside the first `n * l` bits.
pub proof fn lemma_slot_range(n: int, l: int, i: int)
    requires
        0 <= i < n,
        0 < l,
    ensures
        0 <= i * l,
        i * l + l <= n * l,
        l <= 64 ==> i * l + l <= 64 * n,
{
    assert(0 <= i * l && i * l + l <= n * l && (l <= 64 ==> n * l <= 64 * n)) by (nonlinear_arith)
        requires
            0 <= i < n,
            0 < l,
    ;
}

/// Two different slots share no bit.
pub proof fn lemma_slots_apart(l: int, i: int, m: int)
    requires
        0 <= i,
        0 <= m,
        i != m,
        0 < l,
    ensures
        m * l + l <= i * l || i * l + l <= m * l,
{
    assert(m * l + l <= i * l || i * l + l <= m * l) by (nonlinear_arith)
        requires
            0 <= i,
            0 <= m,
            i != m,
            0 < l,
    ;
}

/// A value written into a slot is the value read back from it, for every
/// width from 1 to 64 and every value that fits the width, wherever the slot
/// lies relative to word boundaries.
pub proof fn lemma_slot_written(st: Seq<bool>, l: int, i: int, v: u64)
    requires
        1 <= l <= 64,
        0 <= i,
        i * l + l <= st.len(),
        v < pow2(l as nat),
    ensures
        value(slot(write_slot(st, l, i, v), l, i)) == v,
{
    lemma_slot_range(i + 1, l, i);
    let written = slot(write_slot(st, l, i, v), l, i);
    assert(written =~= word_bits(v).take(l));
    assert forall|j: int| l <= j < 64 implies !#[trigger] word_bits(v)[j] by {
        lemma_small_word(v, l as nat, j);
    }
    lemma_value_high_clear(word_bits(v), l);
    lemma_value_word(v);
}

/// Writing into one slot leaves every other slot as it was.
pub proof fn lemma_slot_kept(st: Seq<bool>, l: int, i: int, m: int, v: u64)
    requires
        1 <= l <= 64,
        0 <= i,
        0 <= m,
        i != m,
        i * l + l <= st.len(),
        m * l + l <= st.len(),
    ensures
        slot(write_slot(st, l, i, v), l, m) == slot(st, l, m),
{
    lemma_slots_apart(l, i, m);
    lemma_slot_range(m + 1, l, m);
    assert(slot(write_slot(st, l, i, v), l, m) =~= slot(st, l, m));
}

/// A fixed-length sequence of integers of `width()` bits each, packed end to
/// end into 64-bit words: value `i` occupies bits `i * width()` to
/// `(i + 1) * width() - 1` of the stream that the words form.
#[derive(Debug)]
pub struct IntVector {
    l: usize,
    data: Vec<u64>,
    n: usize,
}

impl View for IntVector {
    type V = Seq<u64>;

    /// The values, in order.
    open spec fn view(&self) -> Seq<u64> {
        Seq::new(
            self.len() as nat,
            |i: int| value(slot(stream(self.words()), self.width() as int, i)) as u64,
        )
    }
}

impl IntVector {
    /// The words that hold the values.
    pub closed spec fn words(&self) -> Seq<u64> {
        self.data@
    }

    /// The number of values.
    pub closed spec fn spec_len(&self) -> usize {
        self.n
    }

    /// The number of bits per value.
    pub closed spec fn spec_width(&self) -> usize {
        self.l
    }

    /// The number of words that `n` values of `l` bits take.
    pub open spec fn word_count(n: int, l: int) -> int {
        (n * l + 63) / 64
    }

    /// The width is between 1 and 64, there are exactly as many words as the
    /// values need, and the bits past the last value are clear.
    pub open spec fn wf(&self) -> bool {
        &&& 1 <= self.width() <= 64
        &&& self.words().len() == Self::word_count(self.len() as int, self.width() as int)
        &&& forall|q: int|
            self.len() * self.width() <= q < 64 * self.words().len() ==> !#[trigger] stream(
                self.words(),
            )[q]
    }

    /// Every value fits the width.
    pub proof fn lemma_values_fit(&self, i: int)
        requires
            self.wf(),
            0 <= i < self.len(),
        ensures
            self@[i] == value(slot(stream(self.words()), self.width() as int, i)),
            self@[i] < pow2(self.width() as nat),
    {
        lemma_slot_range(self.len() as int, self.width() as int, i);
        lemma_value_bound(slot(stream(self.words()), self.width() as int, i));
        if self.width() < 64 {
            vstd::arithmetic::power2::lemma_pow2_strictly_increases(self.width() as nat, 64);
        }
        vstd::arithmetic::power2::lemma2_to64_rest();
    }

    /// Vectors of one width that hold the same values are made of the same
    /// words, so equality by words is equality by width and values.
    pub proof fn lemma_equal_by_values(&self, other: &IntVector)
        requires
            self.wf(),
            other.wf(),
            self.width() == other.width(),
            self@ == other@,
        ensures
            self.len() == other.len(),
            self.words() == other.words(),
    {
        let l = self.width() as int;
        let n = self.len() as int;
        assert(self@.len() == self.len() && other@.len() == other.len());
        assert(self.words().len() == other.words().len());
        let a = stream(self.words());
        let b = stream(other.words());
        assert forall|q: int| 0 <= q < a.len() implies #[trigger] a[q] == b[q] by {
            if q < n * l {
                let i = q / l;
                let j = q % l;
                vstd::arithmetic::div_mod::lemma_fundamental_div_mod(q, l);
                vstd::arithmetic::div_mod::lemma_mod_bound(q, l);
                vstd::arithmetic::div_mod::lemma_div_pos_is_pos(q, l);
                assert(i < n) by (nonlinear_arith)
                    requires
                        q == l * i + j,
                        0 <= j,
                        q < n * l,
                        0 < l,
                ;
                assert(q == i * l + j) by (nonlinear_arith)
                    requires
                        q == l * i + j,
                ;
                lemma_slot_range(n, l, i);
                self.lemma_values_fit(i);
                other.lemma_values_fit(i);
                assert(self@[i] == other@[i]);
                lemma_value_injective(slot(a, l, i), slot(b, l, i));
                assert(a[q] == slot(a, l, i)[j]);
                assert(b[q] == slot(b, l, i)[j]);
            }
        }
        assert forall|k: int| 0 <= k < self.words().len() implies #[trigger] self.words()[k]
            == other.words()[k] by {
            assert forall|j: int| 0 <= j < 64 implies #[trigger] word_bits(self.words()[k])[j]
                == word_bits(other.words()[k])[j] by {
                assert(a[64 * k + j] == b[64 * k + j]);
            }
            assert(word_bits(self.words()[k]) =~= word_bits(other.words()[k]));
            lemma_value_word(self.words()[k]);
            lemma_value_word(other.words()[k]);
        }
        assert(self.words() =~= other.words());
    }

    /// Creates a vector of `n` values of `l` bits each, all zero.
    pub fn new(n: usize, l: usize) -> (iv: IntVector)
        requires
            1 <= l <= 64,
        ensures
            iv.wf(),
            iv.len() == n,
            iv.width() == l,
            iv@ == Seq::new(n as nat, |i: int| 0u64),
            iv.words() == Seq::new(Self::word_count(n as int, l as int) as nat, |k: int| 0u64),
    {
        assert(n * l <= 64 * n) by (nonlinear_arith)
            requires
                l <= 64,
        ;
        let total: u128 = (n as u128) * (l as u128);
        let count: usize = if total % 64 != 0 {
            (total / 64) as usize + 1
        } else {
            (total / 64) as usize
        };
        let iv = IntVector { l, data: vec![0u64; count], n };
        proof {
            assert(iv.words() =~= Seq::new(count as nat, |k: int| 0u64));
            let st = stream(iv.words());
            assert forall|q: int| 0 <= q < st.len() implies !#[trigger] st[q] by {
                lemma_bit_const((q % 64) as u64);
            }
            assert forall|i: int| 0 <= i < n implies #[trigger] iv@[i] == 0 by {
                lemma_slot_range(n as int, l as int, i);
                lemma_value_high_clear(slot(st, l as int, i), 0);
            }
            assert(iv@ =~= Seq::new(n as nat, |i: int| 0u64));
        }
        iv
    }

    /// The number of values.
    #[verifier::when_used_as_spec(spec_len)]
    pub fn len(&self) -> (n: usize)
        ensures
            n == self.spec_len(),
    {
        self.n
    }

    /// The number of bits per value.
    #[verifier::when_used_as_spec(spec_width)]
    pub fn width(&self) -> (l: usize)
        ensures
            l == self.spec_width(),
    {
        self.l
    }

    /// The words that hold the values.
    pub fn get_data(&self) -> (data: &Vec<u64>)
        ensures
            data@ == self.words(),
    {
        &self.data
    }

    /// Creates a vector of `n` values of `l` bits each, all zero, or refuses
    /// a width that is not between 1 and 64.
    pub fn try_new(n: usize, l: usize) -> (r: Result<IntVector, Error>)
        ensures
            match r {
                Ok(iv) => {
                    &&& 1 <= l <= 64
                    &&& iv.wf()
                    &&& iv.len() == n
                    &&& iv.width() == l
                    &&& iv@ == Seq::new(n as nat, |i: int| 0u64)
                    &&& iv.words() == Seq::new(
                        Self::word_count(n as int, l as int) as nat,
                        |k: int| 0u64,
                    )
                },
                Err(e) => (l == 0 || l > 64) && e == Error::InvalidWidth,
            },
    {
        if l == 0 || l > 64 {
            Err(Error::InvalidWidth)
        } else {
            Ok(IntVector::new(n, l))
        }
    }

    /// Tells whether `value` fits the width: whether it is below
    /// `2^width()`.
    pub fn fits(&self, value: u64) -> (b: bool)
        requires
            self.wf(),
        ensures
            b == (value < pow2(self.width() as nat)),
    {
        if self.l >= 64 {
            proof {
                vstd::arithmetic::power2::lemma2_to64_rest();
            }
            true
        } else {
            proof {
                let d = pow2(self.l as nat) as int;
                vstd::arithmetic::power2::lemma_pow2_pos(self.l as nat);
                vstd::bits::lemma_u64_shr_is_div(value, self.l as u64);
                if value < d {
                    vstd::arithmetic::div_mod::lemma_basic_div(value as int, d);
                } else {
                    vstd::arithmetic::div_mod::lemma_div_is_ordered(d, value as int, d);
                    vstd::arithmetic::div_mod::lemma_div_by_self(d);
                }
            }
            (value >> self.l) == 0
        }
    }

    /// Returns value `i`, or refuses a position that is not below the
    /// length.
    pub fn try_get(&self, i: usize) -> (r: Result<u64, Error>)
        requires
            self.wf(),
        ensures
            match r {
                Ok(v) => i < self.len() && v == self@[i as int],
                Err(e) => i >= self.len() && e == Error::IndexOutOfRange,
            },
    {
        if i < self.n {
            Ok(self.get(i))
        } else {
            Err(Error::IndexOutOfRange)
        }
    }

    /// Sets value `i` to `new_val`, or refuses and changes nothing: a value
    /// that does not fit the width first, then a position that is not below
    /// the length.
    pub fn try_set(&mut self, i: usize, new_val: u64) -> (r: Result<(), Error>)
        requires
            old(self).wf(),
        ensures
            final(self).wf(),
            final(self).len() == old(self).len(),
            final(self).width() == old(self).width(),
            final(self).words().len() == old(self).words().len(),
            match r {
                Ok(_) => {
                    &&& new_val < pow2(old(self).width() as nat)
                    &&& i < old(self).len()
                    &&& final(self)@ == old(self)@.update(i as int, new_val)
                    &&& stream(final(self).words()) == write_slot(
                        stream(old(self).words()),
                        old(self).width() as int,
                        i as int,
                        new_val,
                    )
                },
                Err(e) => {
                    &&& final(self).words() == old(self).words()
                    &&& if new_val >= pow2(old(self).width() as nat) {
                        e == Error::ValueTooWide
                    } else {
                        i >= old(self).len() && e == Error::IndexOutOfRange
                    }
                },
            },
    {
        if !self.fits(new_val) {
            Err(Error::ValueTooWide)
        } else if i >= self.n {
            Err(Error::IndexOutOfRange)
        } else {
            self.set(i, new_val);
            Ok(())
        }
    }

    /// Returns value `i`.
    pub fn get(&self, i: usize) -> (r: u64)
        requires
            self.wf(),
            i < self.len(),
        ensures
            r == self@[i as int],
    {
        proof {
            lemma_slot_range(self.n as int, self.l as int, i as int);
        }
        let p: u128 = (i as u128) * (self.l as u128);
        let k: usize = (p / 64) as usize;
        let s: usize = (p % 64) as usize;
        let ghost st = stream(self.words());
        let r: u64 = if s + self.l <= 64 {
            let w: u64 = self.data[k];
            let r: u64 = (w >> s) & low_mask_word(self.l as u32);
            proof {
                assert forall|j: int| 0 <= j < 64 implies #[trigger] bit(r, j) == (j < self.l
                    && st[p + j]) by {
                    lemma_bit_and(w >> s, low_mask(self.l as int), j as u64);
                    lemma_bit_shr(w, s as u64, j as u64);
                    lemma_bit_low_mask(self.l as u64, j as u64);
                }
            }
            r
        } else {
            let rem: usize = s + self.l - 64;
            let w0: u64 = self.data[k];
            let w1: u64 = self.data[k + 1];
            let high: u64 = w1 & low_mask_word(rem as u32);
            let r: u64 = (w0 >> s) | (high << (64 - s));
            proof {
                assert forall|j: int| 0 <= j < 64 implies #[trigger] bit(r, j) == (j < self.l
                    && st[p + j]) by {
                    lemma_bit_or(w0 >> s, high << (64 - s), j as u64);
                    lemma_bit_shr(w0, s as u64, j as u64);
                    lemma_bit_shl(high, (64 - s) as u64, j as u64);
                    if j >= 64 - s {
                        lemma_bit_and(w1, low_mask(rem as int), (j - (64 - s)) as u64);
                        lemma_bit_low_mask(rem as u64, (j - (64 - s)) as u64);
                    }
                }
            }
            r
        };
        proof {
            assert(word_bits(r).take(self.l as int) =~= slot(st, self.l as int, i as int));
            lemma_value_high_clear(word_bits(r), self.l as int);
            lemma_value_word(r);
        }
        r
    }

    /// Sets value `i` to `new_val` and leaves every other value as it was.
    /// The value has to fit the width: `new_val < 2^width()`.
    pub fn set(&mut self, i: usize, new_val: u64)
        requires
            old(self).wf(),
            i < old(self).len(),
            new_val < pow2(old(self).width() as nat),
        ensures
            final(self).wf(),
            final(self).len() == old(self).len(),
            final(self).width() == old(self).width(),
            final(self)@ == old(self)@.update(i as int, new_val),
            final(self).words().len() == old(self).words().len(),
            stream(final(self).words()) == write_slot(
                stream(old(self).words()),
                old(self).width() as int,
                i as int,
                new_val,
            ),
    {
        proof {
            lemma_slot_range(self.n as int, self.l as int, i as int);
        }
        let l: usize = self.l;
        let p: u128 = (i as u128) * (l as u128);
        let k: usize = (p / 64) as usize;
        let s: usize = (p % 64) as usize;
        let ghost st = stream(self.words());
        if s + l <= 64 {
            let w: u64 = self.data[k];
            let mask: u64 = low_mask_word(l as u32) << s;
            let updated: u64 = (w & !mask) | (new_val << s);
            self.data[k] = updated;
            proof {
                assert forall|j: int| 0 <= j < 64 implies #[trigger] bit(updated, j) == if s <= j
                    < s + l {
                    bit(new_val, j - s)
                } else {
                    bit(w, j)
                } by {
                    lemma_bit_or(w & !mask, new_val << s, j as u64);
                    lemma_bit_and(w, !mask, j as u64);
                    lemma_bit_not(mask, j as u64);
                    lemma_bit_shl(low_mask(l as int), s as u64, j as u64);
                    lemma_bit_shl(new_val, s as u64, j as u64);
                    if j >= s {
                        lemma_bit_low_mask(l as u64, (j - s) as u64);
                        if j - s >= l {
                            lemma_small_word(new_val, l as nat, j - s);
                        }
                    }
                }
            }
        } else {
            let rem: usize = s + l - 64;
            let w0: u64 = self.data[k];
            let w1: u64 = self.data[k + 1];
            let first: u64 = (w0 & low_mask_word(s as u32)) | (new_val << s);
            let second: u64 = (w1 & !low_mask_word(rem as u32)) | (new_val >> (64 - s));
            self.data[k] = first;
            self.data[k + 1] = second;
            proof {
                assert forall|j: int| 0 <= j < 64 implies #[trigger] bit(first, j) == if s <= j {
                    bit(new_val, j - s)
                } else {
                    bit(w0, j)
                } by {
                    lemma_bit_or(w0 & low_mask(s as int), new_val << s, j as u64);
                    lemma_bit_and(w0, low_mask(s as int), j as u64);
                    lemma_bit_low_mask(s as u64, j as u64);
                    lemma_bit_shl(new_val, s as u64, j as u64);
                }
                assert forall|j: int| 0 <= j < 64 implies #[trigger] bit(second, j) == if j
                    < rem {
                    bit(new_val, j + 64 - s)
                } else {
                    bit(w1, j)
                } by {
                    lemma_bit_or(w1 & !low_mask(rem as int), new_val >> (64 - s), j as u64);
                    lemma_bit_and(w1, !low_mask(rem as int), j as u64);
                    lemma_bit_not(low_mask(rem as int), j as u64);
                    lemma_bit_low_mask(rem as u64, j as u64);
                    lemma_bit_shr(new_val, (64 - s) as u64, j as u64);
                    if j >= rem && j + 64 - s < 64 {
                        lemma_small_word(new_val, l as nat, j + 64 - s);
                    }
                }
            }
        }
        proof {
            let after = stream(self.words());
            let target = write_slot(st, l as int, i as int, new_val);
            assert forall|q: int| 0 <= q < after.len() implies #[trigger] after[q] == target[q] by {
                assert(bit(self.words()[q / 64], q % 64) == target[q]);
            }
            assert(after =~= target);
            assert forall|m: int| 0 <= m < self.n implies #[trigger] self@[m] == old(self)@.update(
                i as int,
                new_val,
            )[m] by {
                lemma_slot_range(self.n as int, l as int, m);
                if m == i {
                    lemma_slot_written(st, l as int, i as int, new_val);
                } else {
                    lemma_slot_kept(st, l as int, i as int, m, new_val);
                }
            }
            assert(self@ =~= old(self)@.update(i as int, new_val));
        }
    }
}

impl Clone for IntVector {
    /// Copies the vector: the copy has the same width, length and words.
    fn clone(&self) -> (copy: IntVector)
        ensures
            copy.width() == self.width(),
            copy.len() == self.len(),
            copy.words() == self.words(),
    {
        let copy = IntVector { l: self.l, data: self.data.clone(), n: self.n };
        proof {
            assert(copy.words() =~= self.words());
        }
        copy
    }
}

impl PartialEqSpecImpl for IntVector {
    /// `==` on vectors is what `eq_spec` says.
    open spec fn obeys_eq_spec() -> bool {
        true
    }

    /// Two vectors are equal when they have the same width, the same length
    /// and the same words.
    open spec fn eq_spec(&self, other: &IntVector) -> bool {
        &&& self.width() == other.width()
        &&& self.len() == other.len()
        &&& self.words() == other.words()
    }
}

impl PartialEq for IntVector {
    /// Compares width, length and words.
    fn eq(&self, other: &IntVector) -> (equal: bool) {
        if self.l != other.l || self.n != other.n || self.data.len() != other.data.len() {
            return false;
        }
        let mut k: usize = 0;
        while k < self.data.len()
            invariant
                k <= self.data.len(),
                self.data.len() == other.data.len(),
                forall|j: int| 0 <= j < k ==> self.data@[j] == other.data@[j],
            decreases self.data.len() - k,
        {
            if self.data[k] != other.data[k] {
                return false;
            }
            k = k + 1;
        }
        proof {
            assert(self.words() =~= other.words());
        }
        true
    }
}

/// The character that stands for a digit `0..=9`.
pub open spec fn digit_char(d: nat) -> char {
    seq!['0', '1', '2', '3', '4', '5', '6', '7', '8', '9'][d as int]
}

/// The decimal digits of `x`, most significant first.
pub open spec fn decimal(x: nat) -> Seq<char>
    decreases x,
{
    if x < 10 {
        seq![digit_char(x)]
    } else {
        decimal(x / 10).push(digit_char(x % 10))
    }
}

/// The values in decimal, each followed by a comma.
pub open spec fn listing(values: Seq<u64>) -> Seq<char>
    decreases values.len(),
{
    if values.len() == 0 {
        Seq::empty()
    } else {
        listing(values.drop_last()) + decimal(values.last() as nat).push(',')
    }
}

/// The digit `d` as a string of one character.
fn digit_str(d: u64) -> (text: &'static str)
    requires
        d < 10,
    ensures
        text@ == seq![digit_char(d as nat)],
{
    proof {
        reveal_strlit("0");
        reveal_strlit("1");
        reveal_strlit("2");
        reveal_strlit("3");
        reveal_strlit("4");
        reveal_strlit("5");
        reveal_strlit("6");
        reveal_strlit("7");
        reveal_strlit("8");
        reveal_strlit("9");
    }
    let text = if d == 0 {
        "0"
    } else if d == 1 {
        "1"
    } else if d == 2 {
        "2"
    } else if d == 3 {
        "3"
    } else if d == 4 {
        "4"
    } else if d == 5 {
        "5"
    } else if d == 6 {
        "6"
    } else if d == 7 {
        "7"
    } else if d == 8 {
        "8"
    } else {
        "9"
    };
    assert(text@ =~= seq![digit_char(d as nat)]);
    text
}

/// Appends the decimal digits of `x` to `out`.
fn push_decimal(out: &mut String, x: u64)
    ensures
        final(out)@ == old(out)@ + decimal(x as nat),
    decreases x,
{
    if x >= 10 {
        push_decimal(out, x / 10);
    }
    out.append(digit_str(x % 10));
}

impl IntVector {
    /// Renders the vector as text: an opening bracket, every value in
    /// decimal followed by a comma, and a closing bracket.
    pub fn to_string(&self) -> (text: String)
        requires
            self.wf(),
        ensures
            text@ == seq!['['] + listing(self@).push(']'),
    {
        proof {
            reveal_strlit("[");
            reveal_strlit(",");
            reveal_strlit("]");
        }
        let mut text = String::from_str("[");
        let mut i: usize = 0;
        while i < self.n
            invariant
                self.wf(),
                i <= self.len(),
                ","@ == seq![','],
                text@ == seq!['['] + listing(self@.take(i as int)),
            decreases self.len() - i,
        {
            proof {
                assert(self@.take(i + 1).drop_last() =~= self@.take(i as int));
            }
            push_decimal(&mut text, self.get(i));
            text.append(",");
            i = i + 1;
        }
        proof {
            assert(self@.take(self.len() as int) =~= self@);
        }
        text.append("]");
        text
    }
}

} // verus!
