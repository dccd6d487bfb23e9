use vstd::prelude::*;
use crate::bits::{
    bit, count_in_word, lemma_bit_and, lemma_bit_const, lemma_bit_not, lemma_bit_or, lemma_bit_shl,
    lemma_stream_word, stream, word_bits,
};
use crate::counting::{
    count, lemma_count_bound, lemma_count_push, lemma_count_split, lemma_rank_complement,
    lemma_scan_resume, lemma_select_rank, lemma_select_unique, rank, scan, select,
};

use crate::error::Error;

verus! {

/// The value of a single bit.
#[derive(Clone, Copy, Debug)]
pub enum Bit {
    ZERO,
    ONE,
}

impl Bit {
    /// The bit as a truth value: `ONE` is `true`.
    pub open spec fn as_bool(self) -> bool {
        self is ONE
    }

    /// The bit as a number, 0 or 1.
    pub fn value(&self) -> (r: u32)
        ensures
            r == if self.as_bool() {
                1u32
            } else {
                0u32
            },
    {
        match *self {
            Bit::ZERO => 0,
            Bit::ONE => 1,
        }
    }

    /// The bit as a truth value.
    pub fn is_one(&self) -> (b: bool)
        ensures
            b == self.as_bool(),
    {
        match *self {
            Bit::ZERO => false,
            Bit::ONE => true,
        }
    }
}

/// The word `w` with bit `j` set to `b`.
pub open spec fn with_bit(w: u64, j: int, b: bool) -> u64 {
    if b {
        w | (1u64 << (j as u64))
    } else {
        w & !(1u64 << (j as u64))
    }
}

/// Only bit `j` changes.
pub proof fn lemma_with_bit(w: u64, j: int, b: bool, i: int)
    requires
        0 <= j < 64,
        0 <= i < 64,
    ensures
        bit(with_bit(w, j, b), i) == if i == j {
            b
        } else {
            bit(w, i)
        },
{
    let one: u64 = 1;
    lemma_bit_shl(one, j as u64, i as u64);
    if i >= j {
        lemma_bit_const((i - j) as u64);
    }
    if b {
        lemma_bit_or(w, one << (j as u64), i as u64);
    } else {
        lemma_bit_not(one << (j as u64), i as u64);
        lemma_bit_and(w, !(one << (j as u64)), i as u64);
    }
}

/// A fixed-length sequence of bits, packed into 64-bit words: bit `i` is bit
/// `i % 64` of word `i / 64`.
#[derive(Debug)]
pub struct Bitvector {
    data: Vec<u64>,
    n: usize,
}

impl View for Bitvector {
    type V = Seq<bool>;

    /// The bits, in order.
    open spec fn view(&self) -> Seq<bool> {
        stream(self.words()).take(self.len() as int)
    }
}

impl Bitvector {
    /// The words that hold the bits.
    pub closed spec fn words(&self) -> Seq<u64> {
        self.data@
    }

    /// The number of bits.
    pub closed spec fn spec_len(&self) -> usize {
        self.n
    }

    /// The words have room for every bit.
    pub open spec fn wf(&self) -> bool {
        self.len() <= 64 * self.words().len()
    }

    /// A stretch of the vector that lies within word `k` is the matching
    /// stretch of that word's bits.
    pub proof fn lemma_word_window(&self, k: int, lo: int, hi: int)
        requires
            self.wf(),
            0 <= k,
            0 <= lo <= hi <= 64,
            64 * k + hi <= self.len(),
        ensures
            self@.subrange(64 * k + lo, 64 * k + hi) == word_bits(self.words()[k]).subrange(
                lo,
                hi,
            ),
    {
        if lo < hi {
            lemma_stream_word(self.words(), k, lo, hi);
        }
        assert(self@.subrange(64 * k + lo, 64 * k + hi) =~= stream(self.words()).subrange(
            64 * k + lo,
            64 * k + hi,
        ));
        assert(self@.subrange(64 * k + lo, 64 * k + hi) =~= word_bits(self.words()[k]).subrange(
            lo,
            hi,
        ));
    }

    /// The number of words that `build_empty` and `build` allocate for `n`
    /// bits: one word per 64 bits, rounded up, and at least one.
    pub open spec fn word_count(n: nat) -> nat {
        if n <= 64 {
            1nat
        } else {
            ((n + 63) / 64) as nat
        }
    }

    /// Builds a vector of `n` bits, all zero, in `word_count(n)` words.
    pub fn build_empty(n: usize) -> (bv: Bitvector)
        ensures
            bv.wf(),
            bv.len() == n,
            bv@ == Seq::new(n as nat, |i: int| false),
            bv.words() == Seq::new(Bitvector::word_count(n as nat), |k: int| 0u64),
    {
        let full: usize = n / 64;
        let len: usize = if n % 64 != 0 {
            full + 1
        } else if full == 0 {
            1
        } else {
            full
        };
        let bv = Bitvector { data: vec![0u64; len], n };
        proof {
            assert(bv.words() =~= Seq::new(len as nat, |k: int| 0u64));
            assert forall|i: int| 0 <= i < n implies !#[trigger] bv@[i] by {
                lemma_bit_const((i % 64) as u64);
            }
            assert(bv@ =~= Seq::new(n as nat, |i: int| false));
        }
        bv
    }

    /// Builds a vector from words: bit `j` of word `k` becomes bit
    /// `64 * k + j`.
    pub fn build_from_vec(v: &Vec<u64>) -> (bv: Bitvector)
        requires
            64 * v.len() <= usize::MAX,
        ensures
            bv.wf(),
            bv.len() == 64 * v.len(),
            bv.words() == v@,
            bv@ == stream(v@),
    {
        let bv = Bitvector { data: v.clone(), n: v.len() * 64 };
        proof {
            assert(bv.words() =~= v@);
            assert(bv@ =~= stream(v@));
        }
        bv
    }

    /// The number of bits.
    #[verifier::when_used_as_spec(spec_len)]
    pub fn len(&self) -> (n: usize)
        ensures
            n == self.spec_len(),
    {
        self.n
    }

    /// Returns bit `i`, as 0 or 1.
    pub fn get(&self, i: usize) -> (r: u32)
        requires
            self.wf(),
            i < self.len(),
        ensures
            r == if self@[i as int] {
                1u32
            } else {
                0u32
            },
    {
        let w: u64 = self.data[i / 64];
        let s: usize = i % 64;
        let b: u64 = (w >> s) & 1;
        assert(b == 0 || b == 1) by (bit_vector)
            requires
                b == (w >> s) & 1,
        ;
        b as u32
    }

    /// Sets bit `i` to `val` and leaves every other bit as it was.
    pub fn set(&mut self, i: usize, val: Bit)
        requires
            old(self).wf(),
            i < old(self).len(),
        ensures
            final(self).wf(),
            final(self).len() == old(self).len(),
            final(self)@ == old(self)@.update(i as int, val.as_bool()),
            final(self).words() == old(self).words().update(
                i as int / 64,
                with_bit(old(self).words()[i as int / 64], i as int % 64, val.as_bool()),
            ),
    {
        let k: usize = i / 64;
        let s: usize = i % 64;
        let w: u64 = self.data[k];
        let one: u64 = 1;
        let updated: u64 = match val {
            Bit::ZERO => w & !(one << s),
            Bit::ONE => w | (one << s),
        };
        self.data[k] = updated;
        proof {
            assert forall|p: int| 0 <= p < self.len() implies #[trigger] self@[p] == old(
                self,
            )@.update(i as int, val.as_bool())[p] by {
                if p / 64 == k {
                    lemma_with_bit(w, s as int, val.as_bool(), p % 64);
                }
            }
            assert(self@ =~= old(self)@.update(i as int, val.as_bool()));
        }
    }

    /// Builds a vector with one bit per entry of `arr`: bit `i` is set exactly
    /// when `arr[i]` is not zero. The unused high bits of the last word are
    /// clear.
    pub fn build(arr: &[u32]) -> (bv: Bitvector)
        ensures
            bv.wf(),
            bv.len() == arr@.len(),
            forall|i: int| 0 <= i < arr@.len() ==> bv@[i] == (arr@[i] != 0),
            bv.words().len() == Bitvector::word_count(arr@.len()),
            forall|p: int| arr@.len() <= p < 64 * bv.words().len() ==> !stream(bv.words())[p],
    {
        let n: usize = arr.len();
        let mut bv = Bitvector::build_empty(n);
        proof {
            assert forall|p: int| 0 <= p < 64 * bv.words().len() implies !#[trigger] stream(
                bv.words(),
            )[p] by {
                lemma_bit_const((p % 64) as u64);
            }
        }
        let mut i: usize = 0;
        while i < n
            invariant
                i <= n,
                n == arr@.len(),
                bv.wf(),
                bv.len() == n,
                bv.words().len() == Bitvector::word_count(arr@.len()),
                forall|p: int| 0 <= p < i ==> stream(bv.words())[p] == (arr@[p] != 0),
                forall|p: int| i <= p < 64 * bv.words().len() ==> !#[trigger] stream(bv.words())[p],
            decreases n - i,
        {
            let ghost before = bv.words();
            if arr[i] == 0 {
                bv.set(i, Bit::ZERO);
            } else {
                bv.set(i, Bit::ONE);
            }
            proof {
                assert forall|p: int| 0 <= p < 64 * bv.words().len() implies #[trigger] stream(
                    bv.words(),
                )[p] == if p == i {
                    arr@[p] != 0
                } else {
                    stream(before)[p]
                } by {
                    if p / 64 == i as int / 64 {
                        lemma_with_bit(before[i as int / 64], i as int % 64, arr@[i as int] != 0, p % 64);
                    }
                }
            }
            i += 1;
        }
        bv
    }

    /// Builds a vector with one bit per entry of `v`, as `build` does.
    pub fn build_from_vec2(v: &Vec<u32>) -> (bv: Bitvector)
        ensures
            bv.wf(),
            bv.len() == v@.len(),
            forall|i: int| 0 <= i < v@.len() ==> bv@[i] == (v@[i] != 0),
            bv.words().len() == Bitvector::word_count(v@.len()),
            forall|p: int| v@.len() <= p < 64 * bv.words().len() ==> !stream(bv.words())[p],
    {
        Bitvector::build(v.as_slice())
    }

    /// Counts the set bits at positions `0..=i`.
    pub fn rank1(&self, i: usize) -> (r: u64)
        requires
            self.wf(),
            i < self.len(),
        ensures
            r == rank(self@, true, i as int),
    {
        let last: usize = i / 64;
        let mut ones: u64 = 0;
        let mut k: usize = 0;
        while k < last
            invariant
                self.wf(),
                i < self.len(),
                last == i / 64,
                k <= last,
                ones == count(self@.take(64 * k), true),
            decreases last - k,
        {
            proof {
                self.lemma_word_window(k as int, 0, 64);
                assert(word_bits(self.words()[k as int]).subrange(0, 64) =~= word_bits(
                    self.words()[k as int],
                ));
                lemma_count_split(self@, 0, 64 * k, 64 * k + 64, true);
                lemma_count_bound(self@.take(64 * k), true);
                lemma_count_bound(word_bits(self.words()[k as int]), true);
            }
            ones = ones + self.data[k].count_ones() as u64;
            k += 1;
        }
        let c: u64 = count_in_word(self.data[last], 0, (i % 64) as u32, true);
        proof {
            self.lemma_word_window(last as int, 0, i % 64 + 1);
            lemma_count_split(self@, 0, 64 * last, i + 1, true);
            lemma_count_bound(self@.take(64 * last), true);
        }
        ones + c
    }

    /// Counts the clear bits at positions `0..=i`: what `rank1` leaves of
    /// the `i + 1` positions.
    pub fn rank0(&self, i: usize) -> (r: u64)
        requires
            self.wf(),
            i < self.len(),
        ensures
            r == rank(self@, false, i as int),
            r + rank(self@, true, i as int) == i + 1,
    {
        proof {
            lemma_rank_complement(self@, i as int);
        }
        (i as u64 + 1) - self.rank1(i)
    }

    /// Counts the bits equal to `bit_type` in the closed range
    /// `[start, stop]`, one position at a time, and stops at the `limit`-th
    /// match. A limit of zero never stops the count.
    pub fn scan_bits(&self, start: usize, stop: usize, bit_type: Bit, limit: u64) -> (r: (
        u64,
        usize,
    ))
        requires
            self.wf(),
            start <= stop < self.len(),
        ensures
            r.0 == scan(self@, start as int, stop as int, bit_type.as_bool(), limit as nat).0,
            r.1 == scan(self@, start as int, stop as int, bit_type.as_bool(), limit as nat).1,
    {
        let ghost kind = bit_type.as_bool();
        let ghost window = self@.subrange(start as int, stop + 1);
        let mut found: u64 = 0;
        let mut i: usize = start;
        while i <= stop
            invariant
                self.wf(),
                start <= i <= stop + 1,
                stop < self.len(),
                kind == bit_type.as_bool(),
                window == self@.subrange(start as int, stop + 1),
                found == count(self@.subrange(start as int, i as int), kind),
                limit == 0 || found < limit,
            decreases stop + 1 - i,
        {
            proof {
                lemma_count_bound(self@.subrange(start as int, i as int), kind);
                assert(self@.subrange(start as int, i + 1) =~= self@.subrange(
                    start as int,
                    i as int,
                ).push(self@[i as int]));
                lemma_count_push(self@.subrange(start as int, i as int), self@[i as int], kind);
            }
            if self.get(i) == bit_type.value() {
                found = found + 1;
                if found == limit {
                    proof {
                        assert(window.take(i - start + 1) =~= self@.subrange(start as int, i + 1));
                        lemma_select_unique(window, kind, limit as nat, i - start);
                        lemma_count_split(self@, start as int, i + 1, stop + 1, kind);
                    }
                    return (found, i);
                }
            }
            i += 1;
        }
        (found, stop)
    }

    /// Counts the bits equal to `bit_type` in the closed range
    /// `[start, stop]` a word at a time, and stops at the `limit`-th match.
    /// A word that lies wholly inside the range is counted in one step, a
    /// word at either end is masked first, and only the word that holds the
    /// `limit`-th match is walked bit by bit. The result is that of
    /// `scan_bits`.
    pub fn scan_blocks(&self, start: usize, stop: usize, bit_type: Bit, limit: u64) -> (r: (
        u64,
        usize,
    ))
        requires
            self.wf(),
            start <= stop < self.len(),
        ensures
            r.0 == scan(self@, start as int, stop as int, bit_type.as_bool(), limit as nat).0,
            r.1 == scan(self@, start as int, stop as int, bit_type.as_bool(), limit as nat).1,
    {
        let kind: bool = bit_type.is_one();
        let last: usize = stop / 64;
        let mut found: u64 = 0;
        let mut pos: usize = start;
        while pos <= stop
            invariant
                self.wf(),
                start <= pos <= stop + 1,
                stop < self.len(),
                last == stop / 64,
                kind == bit_type.as_bool(),
                found == count(self@.subrange(start as int, pos as int), kind),
                limit == 0 || found < limit,
            decreases stop + 1 - pos,
        {
            let k: usize = pos / 64;
            let lo: usize = pos % 64;
            let hi: usize = if k == last {
                stop % 64
            } else {
                63
            };
            let end: usize = pos - lo + hi;
            let c: u64 = count_in_word(self.data[k], lo as u32, hi as u32, kind);
            proof {
                assert(end == 64 * k + hi && pos == 64 * k + lo);
                self.lemma_word_window(k as int, lo as int, hi + 1);
                lemma_count_split(self@, start as int, pos as int, end + 1, kind);
                lemma_count_bound(self@.subrange(start as int, pos as int), kind);
            }
            if limit > 0 && limit - found <= c {
                let r = self.scan_bits(pos, end, bit_type, limit - found);
                proof {
                    lemma_scan_resume(
                        self@,
                        start as int,
                        pos as int,
                        end as int,
                        stop as int,
                        kind,
                        limit as nat,
                        found as nat,
                    );
                }
                return (limit, r.1);
            }
            found = found + c;
            pos = end + 1;
        }
        (found, stop)
    }

    /// Returns the position of the `i`-th set bit, counting from one: the
    /// position that holds a set bit and has rank `i`.
    pub fn select1(&self, i: usize) -> (idx: usize)
        requires
            self.wf(),
            1 <= i <= count(self@, true),
        ensures
            idx == select(self@, true, i as nat),
            idx < self.len(),
            self@[idx as int] == true,
            rank(self@, true, idx as int) == i,
    {
        proof {
            lemma_count_bound(self@, true);
            lemma_select_rank(self@, true, i as nat);
            assert(self@.subrange(0, self.len() as int) =~= self@);
        }
        let r = self.scan_blocks(0, self.n - 1, Bit::ONE, i as u64);
        r.1
    }

    /// Returns the position of the `i`-th clear bit, counting from one: the
    /// position that holds a clear bit and has `i` clear bits up to it. Only
    /// the `len()` bits of the vector are looked at, not the unused high bits
    /// of the last word.
    pub fn select0(&self, i: usize) -> (idx: usize)
        requires
            self.wf(),
            1 <= i <= count(self@, false),
        ensures
            idx == select(self@, false, i as nat),
            idx < self.len(),
            self@[idx as int] == false,
            rank(self@, false, idx as int) == i,
    {
        proof {
            lemma_count_bound(self@, false);
            lemma_select_rank(self@, false, i as nat);
            assert(self@.subrange(0, self.len() as int) =~= self@);
        }
        let r = self.scan_blocks(0, self.n - 1, Bit::ZERO, i as u64);
        r.1
    }

    /// Returns bit `i`, or refuses a position that is not below the length.
    pub fn try_get(&self, i: usize) -> (r: Result<u32, Error>)
        requires
            self.wf(),
        ensures
            match r {
                Ok(b) => i < self.len() && b == if self@[i as int] {
                    1u32
                } else {
                    0u32
                },
                Err(e) => i >= self.len() && e == Error::IndexOutOfRange,
            },
    {
        if i < self.n {
            Ok(self.get(i))
        } else {
            Err(Error::IndexOutOfRange)
        }
    }

    /// Sets bit `i` to `val`, or refuses a position that is not below the
    /// length and changes nothing.
    pub fn try_set(&mut self, i: usize, val: Bit) -> (r: Result<(), Error>)
        requires
            old(self).wf(),
        ensures
            final(self).wf(),
            final(self).len() == old(self).len(),
            match r {
                Ok(_) => {
                    &&& i < old(self).len()
                    &&& final(self)@ == old(self)@.update(i as int, val.as_bool())
                    &&& final(self).words() == old(self).words().update(
                        i as int / 64,
                        with_bit(old(self).words()[i as int / 64], i as int % 64, val.as_bool()),
                    )
                },
                Err(e) => {
                    &&& i >= old(self).len()
                    &&& e == Error::IndexOutOfRange
                    &&& final(self).words() == old(self).words()
                },
            },
    {
        if i < self.n {
            self.set(i, val);
            Ok(())
        } else {
            Err(Error::IndexOutOfRange)
        }
    }

    /// Counts the set bits at positions `0..=i`, or refuses a position that
    /// is not below the length.
    pub fn try_rank1(&self, i: usize) -> (r: Result<u64, Error>)
        requires
            self.wf(),
        ensures
            match r {
                Ok(ones) => i < self.len() && ones == rank(self@, true, i as int),
                Err(e) => i >= self.len() && e == Error::IndexOutOfRange,
            },
    {
        if i < self.n {
            Ok(self.rank1(i))
        } else {
            Err(Error::IndexOutOfRange)
        }
    }

    /// Counts the clear bits at positions `0..=i`, or refuses a position
    /// that is not below the length.
    pub fn try_rank0(&self, i: usize) -> (r: Result<u64, Error>)
        requires
            self.wf(),
        ensures
            match r {
                Ok(zeros) => i < self.len() && zeros == rank(self@, false, i as int),
                Err(e) => i >= self.len() && e == Error::IndexOutOfRange,
            },
    {
        if i < self.n {
            Ok(self.rank0(i))
        } else {
            Err(Error::IndexOutOfRange)
        }
    }

    /// Returns the position of the `i`-th bit equal to `bit_type`, or
    /// refuses an `i` that is zero or above the number of such bits. The
    /// scan itself tells whether there are `i` of them.
    pub fn try_select(&self, bit_type: Bit, i: usize) -> (r: Result<usize, Error>)
        requires
            self.wf(),
        ensures
            match r {
                Ok(idx) => {
                    &&& 1 <= i <= count(self@, bit_type.as_bool())
                    &&& idx == select(self@, bit_type.as_bool(), i as nat)
                    &&& idx < self.len()
                    &&& self@[idx as int] == bit_type.as_bool()
                    &&& rank(self@, bit_type.as_bool(), idx as int) == i
                },
                Err(e) => {
                    &&& i == 0 || i > count(self@, bit_type.as_bool())
                    &&& e == Error::SelectOutOfRange
                },
            },
    {
        proof {
            lemma_count_bound(self@, bit_type.as_bool());
            assert(self@.subrange(0, self.len() as int) =~= self@);
        }
        if i == 0 || self.n == 0 {
            return Err(Error::SelectOutOfRange);
        }
        let found = self.scan_blocks(0, self.n - 1, bit_type, i as u64);
        if found.0 == i as u64 {
            proof {
                lemma_select_rank(self@, bit_type.as_bool(), i as nat);
            }
            Ok(found.1)
        } else {
            Err(Error::SelectOutOfRange)
        }
    }

    /// Returns the position of the `i`-th set bit, or refuses an `i` that
    /// is zero or above the number of set bits.
    pub fn try_select1(&self, i: usize) -> (r: Result<usize, Error>)
        requires
            self.wf(),
        ensures
            match r {
                Ok(idx) => 1 <= i <= count(self@, true) && idx == select(self@, true, i as nat),
                Err(e) => (i == 0 || i > count(self@, true)) && e == Error::SelectOutOfRange,
            },
    {
        self.try_select(Bit::ONE, i)
    }

    /// Returns the position of the `i`-th clear bit, or refuses an `i` that
    /// is zero or above the number of clear bits.
    pub fn try_select0(&self, i: usize) -> (r: Result<usize, Error>)
        requires
            self.wf(),
        ensures
            match r {
                Ok(idx) => 1 <= i <= count(self@, false) && idx == select(self@, false, i as nat),
                Err(e) => (i == 0 || i > count(self@, false)) && e == Error::SelectOutOfRange,
            },
    {
        self.try_select(Bit::ZERO, i)
    }

    /// Scans as `scan_bits` does, or refuses a range that is not
    /// `start <= stop < len()`.
    pub fn try_scan_bits(&self, start: usize, stop: usize, bit_type: Bit, limit: u64) -> (r: Result<
        (u64, usize),
        Error,
    >)
        requires
            self.wf(),
        ensures
            match r {
                Ok(found) => {
                    &&& start <= stop < self.len()
                    &&& found.0 == scan(
                        self@,
                        start as int,
                        stop as int,
                        bit_type.as_bool(),
                        limit as nat,
                    ).0
                    &&& found.1 == scan(
                        self@,
                        start as int,
                        stop as int,
                        bit_type.as_bool(),
                        limit as nat,
                    ).1
                },
                Err(e) => !(start <= stop < self.len()) && e == Error::IndexOutOfRange,
            },
    {
        if start <= stop && stop < self.n {
            Ok(self.scan_bits(start, stop, bit_type, limit))
        } else {
            Err(Error::IndexOutOfRange)
        }
    }

    /// Scans as `scan_blocks` does, or refuses a range that is not
    /// `start <= stop < len()`.
    pub fn try_scan_blocks(&self, start: usize, stop: usize, bit_type: Bit, limit: u64) -> (r:
        Result<(u64, usize), Error>)
        requires
            self.wf(),
        ensures
            match r {
                Ok(found) => {
                    &&& start <= stop < self.len()
                    &&& found.0 == scan(
                        self@,
                        start as int,
                        stop as int,
                        bit_type.as_bool(),
                        limit as nat,
                    ).0
                    &&& found.1 == scan(
                        self@,
                        start as int,
                        stop as int,
                        bit_type.as_bool(),
                        limit as nat,
                    ).1
                },
                Err(e) => !(start <= stop < self.len()) && e == Error::IndexOutOfRange,
            },
    {
        if start <= stop && stop < self.n {
            Ok(self.scan_blocks(start, stop, bit_type, limit))
        } else {
            Err(Error::IndexOutOfRange)
        }
    }
}

impl vstd::std_specs::core::IndexSpecImpl<usize> for Bitvector {
    /// A word can be read at any index below the number of words.
    open spec fn index_req(&self, index: &usize) -> bool {
        *index < self.words().len()
    }
}

impl core::ops::Index<usize> for Bitvector {
    type Output = u64;

    /// Returns word `i`, which holds bits `64 * i` to `64 * i + 63`.
    fn index(&self, i: usize) -> (w: &u64)
        ensures
            *w == self.words()[i as int],
    {
        &self.data[i]
    }
}

} // verus!
