use vstd::prelude::*;
use vstd::arithmetic::div_mod::{
    lemma_div_denominator, lemma_div_is_ordered, lemma_div_multiples_vanish_quotient,
    lemma_div_pos_is_pos, lemma_fundamental_div_mod, lemma_fundamental_div_mod_converse,
    lemma_mod_bound, lemma_truncate_middle,
};
use vstd::arithmetic::mul::{lemma_mul_inequality, lemma_mul_is_commutative};
use crate::bits::{
    bit_length, bit_length_word, floor_log2, lemma_bit_length_bounds, lemma_bit_length_monotone,
};
use crate::bitvectors::{Bit, Bitvector};
use crate::counting::{count, lemma_count_bound, lemma_count_split, rank, scan};
use crate::error::Error;
use crate::int_vector::IntVector;

verus! {

/// The size of a fine block for `n` bits: the base 2 logarithm of `n`,
/// rounded down. Zero stands for no blocking.
pub open spec fn fine_block(n: nat) -> nat {
    floor_log2(n)
}

/// The size of a coarse block for `n` bits: the square of the fine block
/// size, or zero, for no blocking, where the square is larger than `n`.
pub open spec fn coarse_block(n: nat) -> nat {
    let b = floor_log2(n);
    if b * b > n {
        0
    } else {
        b * b
    }
}

/// The number of blocks of `block` bits that it takes to cover `n` bits; one
/// where there is no blocking.
pub open spec fn block_count(n: nat, block: nat) -> nat {
    if block == 0 {
        1
    } else if n % block == 0 {
        n / block
    } else {
        n / block + 1
    }
}

/// The start of the block of `reset` bits that holds position `p`; zero where
/// there is no blocking.
pub open spec fn block_start(p: int, reset: nat) -> int {
    if reset == 0 {
        0
    } else {
        (p / (reset as int)) * reset
    }
}

/// The number of set bits between the start of the enclosing block of
/// `reset` bits and position `k * block`.
pub open spec fn block_sum(s: Seq<bool>, block: nat, reset: nat, k: int) -> nat {
    count(s.subrange(block_start(k * block, reset), k * block), true)
}

/// The table of block sums over `s`, one entry per block of `block` bits.
pub open spec fn block_sums(s: Seq<bool>, block: nat, reset: nat) -> Seq<u64> {
    Seq::new(block_count(s.len(), block), |k: int| block_sum(s, block, reset, k) as u64)
}

/// The largest entry of a table; zero for an empty one.
pub open spec fn seq_max(t: Seq<u64>) -> nat
    decreases t.len(),
{
    if t.len() == 0 {
        0
    } else if seq_max(t.drop_last()) >= t.last() {
        seq_max(t.drop_last())
    } else {
        t.last() as nat
    }
}

/// The number of bits per entry that a packed table takes: as many as its
/// largest entry needs, and one where every entry is zero.
pub open spec fn table_width(t: Seq<u64>) -> nat {
    if seq_max(t) == 0 {
        1
    } else {
        bit_length(seq_max(t))
    }
}

/// No entry of a table is above its largest.
pub proof fn lemma_seq_max_bounds(t: Seq<u64>, i: int)
    requires
        0 <= i < t.len(),
    ensures
        t[i] <= seq_max(t),
    decreases t.len(),
{
    if i < t.len() - 1 {
        lemma_seq_max_bounds(t.drop_last(), i);
    }
}

/// The start of a block is at or before every position in it.
pub proof fn lemma_block_start_below(p: int, reset: nat)
    requires
        0 <= p,
    ensures
        0 <= block_start(p, reset) <= p,
        reset > 0 && p % (reset as int) == 0 ==> block_start(p, reset) == p,
{
    if reset > 0 {
        let d = reset as int;
        lemma_fundamental_div_mod(p, d);
        lemma_mod_bound(p, d);
        lemma_div_pos_is_pos(p, d);
        lemma_mul_is_commutative(d, p / d);
        assert(0 <= (p / d) * d) by (nonlinear_arith)
            requires
                0 <= p / d,
                0 < d,
        ;
    }
}

/// The first entry of a table is zero, and so is every entry whose block
/// starts a block of `reset` bits.
pub proof fn lemma_block_sum_at_start(s: Seq<bool>, block: nat, reset: nat, k: int)
    requires
        0 <= k,
        k * block <= s.len(),
        k == 0 || (reset > 0 && (k * block) % (reset as int) == 0),
    ensures
        block_sum(s, block, reset, k) == 0,
{
    let p = k * block;
    lemma_block_start_below(p, reset);
    if k == 0 {
        assert(p == 0) by (nonlinear_arith)
            requires
                p == k * block,
                k == 0,
        ;
    }
    assert(s.subrange(p, p) =~= Seq::<bool>::empty());
}

/// Every block but the last lies wholly inside the `n` bits, and the last
/// one starts inside them.
pub proof fn lemma_block_inside(n: nat, block: nat, k: int)
    requires
        block > 0,
        0 <= k < block_count(n, block),
    ensures
        0 <= k * block < n,
        (k + 1) * block == k * block + block,
        k + 1 < block_count(n, block) ==> (k + 1) * block < n,
{
    let d = block as int;
    let q = n as int / d;
    lemma_fundamental_div_mod(n as int, d);
    lemma_mod_bound(n as int, d);
    assert((k + 1) * d == k * d + d) by (nonlinear_arith);
    assert(0 <= k * d) by (nonlinear_arith)
        requires
            0 <= k,
            0 < d,
    ;
    if n % block == 0 {
        lemma_mul_inequality(k, q - 1, d);
        assert((q - 1) * d == d * q - d) by (nonlinear_arith);
    } else {
        lemma_mul_inequality(k, q, d);
        lemma_mul_is_commutative(d, q);
    }
    if k + 1 < block_count(n, block) {
        if n % block == 0 {
            lemma_mul_inequality(k + 1, q - 1, d);
        } else {
            lemma_mul_inequality(k + 1, q, d);
        }
    }
}

/// The block that holds a position within the `n` bits has an entry in the
/// table.
pub proof fn lemma_block_index(n: nat, block: nat, i: int)
    requires
        block > 0,
        0 <= i < n,
    ensures
        0 <= i / (block as int) < block_count(n, block),
        0 <= (i / (block as int)) * block <= i,
{
    let d = block as int;
    let q = n as int / d;
    lemma_fundamental_div_mod(n as int, d);
    lemma_mod_bound(n as int, d);
    lemma_div_pos_is_pos(i, d);
    lemma_div_is_ordered(i, n - 1, d);
    if n % block == 0 {
        assert(n - 1 == (q - 1) * d + (d - 1)) by (nonlinear_arith)
            requires
                n == d * q,
        ;
        lemma_fundamental_div_mod_converse(n - 1, d, q - 1, d - 1);
    } else {
        lemma_div_is_ordered(n - 1, n as int, d);
    }
    lemma_block_start_below(i, block);
}

/// Where fine blocks tile the coarse ones, a fine block that does not start
/// a coarse block lies in the same coarse block as the one before it.
pub proof fn lemma_same_block(k: int, block: nat, reset: nat)
    requires
        1 <= k,
        block > 0,
        reset > 0,
        reset % block == 0,
        (k * block) % (reset as int) != 0,
    ensures
        block_start((k - 1) * block, reset) == block_start(k * block, reset),
{
    let b = block as int;
    let m = reset as int / b;
    lemma_fundamental_div_mod(reset as int, b);
    assert(reset == b * m);
    assert(m >= 1) by (nonlinear_arith)
        requires
            reset == b * m,
            reset > 0,
            b > 0,
    ;
    lemma_truncate_middle(k, b, m);
    lemma_mul_is_commutative(k, b);
    lemma_mul_is_commutative(k - 1, b);
    assert(k % m != 0) by (nonlinear_arith)
        requires
            b * (k % m) != 0,
    ;
    lemma_div_multiples_vanish_quotient(b, k, m);
    lemma_div_multiples_vanish_quotient(b, k - 1, m);
    lemma_fundamental_div_mod(k, m);
    lemma_mod_bound(k, m);
    lemma_mul_is_commutative(m, k / m);
    lemma_fundamental_div_mod_converse(k - 1, m, k / m, k % m - 1);
}

/// A position and the start of its fine block lie in the same coarse block,
/// the coarse block being the square of the fine one.
pub proof fn lemma_fine_in_coarse(i: int, b: nat)
    requires
        0 <= i,
        b > 0,
    ensures
        ((i / (b as int)) * b) / ((b * b) as int) == i / ((b * b) as int),
{
    let d = b as int;
    lemma_div_pos_is_pos(i, d);
    lemma_div_multiples_vanish_quotient(d, i / d, d);
    lemma_div_denominator(i, d, d);
    lemma_mul_is_commutative(i / d, d);
}

/// The two table entries for a position and the bits from the start of its
/// fine block up to it add up to its rank: the index gives what counting
/// bit by bit gives.
pub proof fn lemma_rank_from_tables(s: Seq<bool>, i: int)
    requires
        0 <= i < s.len(),
    ensures
        ({
            let b1 = coarse_block(s.len());
            let b2 = fine_block(s.len());
            let k1 = if b1 == 0 {
                0
            } else {
                i / (b1 as int)
            };
            let k2 = if b2 == 0 {
                0
            } else {
                i / (b2 as int)
            };
            &&& 0 <= k1 < block_count(s.len(), b1)
            &&& 0 <= k2 < block_count(s.len(), b2)
            &&& 0 <= k2 * b2 <= i
            &&& block_sum(s, b1, 0, k1) + block_sum(s, b2, b1, k2) + count(
                s.subrange(k2 * b2, i + 1),
                true,
            ) == rank(s, true, i)
        }),
{
    let n = s.len();
    let b1 = coarse_block(n);
    let b2 = fine_block(n);
    let k1 = if b1 == 0 {
        0
    } else {
        i / (b1 as int)
    };
    let k2 = if b2 == 0 {
        0
    } else {
        i / (b2 as int)
    };
    if b2 > 0 {
        lemma_block_index(n, b2, i);
    } else {
        assert(k2 * b2 == 0) by (nonlinear_arith)
            requires
                b2 == 0,
        ;
    }
    if b1 > 0 {
        assert(b2 > 0 && b1 == b2 * b2) by (nonlinear_arith)
            requires
                b1 > 0,
                b1 == 0 || b1 == b2 * b2,
        ;
        lemma_block_index(n, b1, i);
        lemma_fine_in_coarse(i, b2);
    } else {
        assert(k1 * b1 == 0) by (nonlinear_arith)
            requires
                b1 == 0,
        ;
    }
    let fine = k2 * b2;
    let coarse = k1 * b1;
    assert(block_start(fine, b1) == coarse);
    assert(block_start(coarse, 0) == 0);
    lemma_block_start_below(fine, b1);
    lemma_count_split(s, 0, coarse, fine, true);
    lemma_count_split(s, 0, fine, i + 1, true);
}

/// A rank index over a bit vector: two tables of block sums that turn a
/// rank query into two lookups and a scan of at most one fine block.
///
/// The first table holds, for every coarse block, the number of set bits
/// before it. The second holds, for every fine block, the number of set bits
/// between the start of the enclosing coarse block and the fine block.
pub struct RankSupport {
    bv: Bitvector,
    block_level1: IntVector,
    block_level2: IntVector,
    b1: usize,
    b2: usize,
}

impl RankSupport {
    /// The indexed bit vector.
    pub closed spec fn bits(&self) -> Bitvector {
        self.bv
    }

    /// The table of the coarse blocks.
    pub closed spec fn level1(&self) -> IntVector {
        self.block_level1
    }

    /// The table of the fine blocks.
    pub closed spec fn level2(&self) -> IntVector {
        self.block_level2
    }

    /// The size of a coarse block, zero for no blocking.
    pub closed spec fn coarse(&self) -> usize {
        self.b1
    }

    /// The size of a fine block, zero for no blocking.
    pub closed spec fn fine(&self) -> usize {
        self.b2
    }

    /// The block sizes are those that the length calls for, the tables hold
    /// the block sums of the bits, and each table is packed with the width
    /// that its largest entry needs.
    pub open spec fn wf(&self) -> bool {
        let s = self.bits()@;
        &&& self.bits().wf()
        &&& self.level1().wf()
        &&& self.level2().wf()
        &&& self.coarse() == coarse_block(s.len())
        &&& self.fine() == fine_block(s.len())
        &&& self.level1()@ == block_sums(s, self.coarse() as nat, 0)
        &&& self.level2()@ == block_sums(s, self.fine() as nat, self.coarse() as nat)
        &&& self.level1().width() == table_width(self.level1()@)
        &&& self.level2().width() == table_width(self.level2()@)
    }

    /// Computes the block sizes for `n` bits.
    fn block_sizes(n: usize) -> (r: (usize, usize))
        ensures
            r.0 == coarse_block(n as nat),
            r.1 == fine_block(n as nat),
    {
        let b2: usize = if n == 0 {
            0
        } else {
            proof {
                lemma_bit_length_bounds(n as nat);
            }
            (bit_length_word(n as u64) - 1) as usize
        };
        assert(b2 * b2 <= 63 * 63) by (nonlinear_arith)
            requires
                b2 <= 63,
        ;
        let square: usize = b2 * b2;
        if square > n {
            (0, b2)
        } else {
            (square, b2)
        }
    }

    /// Computes the table of block sums over `bv`: entry `k` is the number
    /// of set bits between the start of the block of `reset` bits that holds
    /// position `k * block`, and that position.
    fn sum_blocks(bv: &Bitvector, block: usize, reset: usize) -> (sums: Vec<u64>)
        requires
            bv.wf(),
            reset > 0 ==> block > 0 && reset % block == 0,
        ensures
            sums@ == block_sums(bv@, block as nat, reset as nat),
    {
        let n: usize = bv.len();
        let ghost s = bv@;
        proof {
            if block > 0 {
                lemma_fundamental_div_mod(n as int, block as int);
                lemma_mod_bound(n as int, block as int);
                lemma_div_pos_is_pos(n as int, block as int);
                assert(n / block <= block * (n / block)) by (nonlinear_arith)
                    requires
                        block >= 1,
                        n / block >= 0,
                ;
            }
        }
        let entries: usize = if block == 0 {
            1
        } else if n % block == 0 {
            n / block
        } else {
            n / block + 1
        };
        let mut sums: Vec<u64> = Vec::new();
        let mut k: usize = 0;
        let mut pos: usize = 0;
        while k < entries
            invariant
                bv.wf(),
                s == bv@,
                n == bv.len(),
                reset > 0 ==> block > 0 && reset % block == 0,
                entries == block_count(n as nat, block as nat),
                k <= entries,
                k < entries ==> pos == k * block && pos < n + 1,
                k < entries && block > 0 ==> pos < n,
                sums@.len() == k,
                forall|j: int| 0 <= j < k ==> sums@[j] == block_sum(s, block as nat, reset as nat, j),
            decreases entries - k,
        {
            let aligned: bool = k == 0 || (reset > 0 && pos % reset == 0);
            let entry: u64 = if aligned {
                proof {
                    lemma_block_sum_at_start(s, block as nat, reset as nat, k as int);
                }
                0
            } else {
                proof {
                    lemma_block_inside(n as nat, block as nat, k - 1);
                    lemma_block_start_below(pos - block, reset as nat);
                    if reset > 0 {
                        lemma_same_block(k as int, block as nat, reset as nat);
                    }
                    lemma_count_split(
                        s,
                        block_start(pos as int, reset as nat),
                        pos - block,
                        pos as int,
                        true,
                    );
                    lemma_count_bound(
                        s.subrange(block_start(pos as int, reset as nat), pos as int),
                        true,
                    );
                }
                let found = bv.scan_blocks(pos - block, pos - 1, Bit::ONE, 0);
                sums[k - 1] + found.0
            };
            sums.push(entry);
            proof {
                if block > 0 {
                    lemma_block_inside(n as nat, block as nat, k as int);
                }
            }
            k = k + 1;
            if k < entries {
                pos = pos + block;
            }
        }
        proof {
            assert(sums@ =~= block_sums(s, block as nat, reset as nat));
        }
        sums
    }

    /// Packs a table into an integer vector whose width is what the largest
    /// entry needs.
    fn pack(table: &Vec<u64>) -> (iv: IntVector)
        ensures
            iv.wf(),
            iv@ == table@,
            iv.width() == table_width(table@),
    {
        let mut largest: u64 = 0;
        let mut i: usize = 0;
        while i < table.len()
            invariant
                i <= table.len(),
                largest == seq_max(table@.take(i as int)),
            decreases table.len() - i,
        {
            proof {
                assert(table@.take(i + 1).drop_last() =~= table@.take(i as int));
            }
            if table[i] > largest {
                largest = table[i];
            }
            i = i + 1;
        }
        proof {
            assert(table@.take(table.len() as int) =~= table@);
        }
        let width: usize = if largest == 0 {
            1
        } else {
            proof {
                lemma_bit_length_bounds(largest as nat);
            }
            bit_length_word(largest) as usize
        };
        let mut iv = IntVector::new(table.len(), width);
        let mut i: usize = 0;
        while i < table.len()
            invariant
                i <= table.len(),
                iv.wf(),
                iv.len() == table.len(),
                iv.width() == width,
                width == table_width(table@),
                largest == seq_max(table@),
                forall|j: int| 0 <= j < i ==> iv@[j] == table@[j],
                forall|j: int| i <= j < table.len() ==> iv@[j] == 0,
            decreases table.len() - i,
        {
            proof {
                lemma_seq_max_bounds(table@, i as int);
                lemma_bit_length_bounds(table@[i as int] as nat);
                lemma_bit_length_monotone(table@[i as int] as nat, largest as nat);
                if bit_length(table@[i as int] as nat) < width {
                    vstd::arithmetic::power2::lemma_pow2_strictly_increases(
                        bit_length(table@[i as int] as nat),
                        width as nat,
                    );
                }
            }
            iv.set(i, table[i]);
            i = i + 1;
        }
        proof {
            assert(iv@ =~= table@);
        }
        iv
    }

    /// Builds the index over `bv`, which it takes over for good.
    pub fn new(bv: Bitvector) -> (rs: RankSupport)
        requires
            bv.wf(),
        ensures
            rs.wf(),
            rs.bits() == bv,
    {
        let (b1, b2) = Self::block_sizes(bv.len());
        proof {
            if b1 > 0 {
                assert(b2 > 0 && b1 == b2 * b2) by (nonlinear_arith)
                    requires
                        b1 > 0,
                        b1 == 0 || b1 == b2 * b2,
                ;
                vstd::arithmetic::div_mod::lemma_mod_multiples_basic(b2 as int, b2 as int);
            }
        }
        let coarse_sums = Self::sum_blocks(&bv, b1, 0);
        let fine_sums = Self::sum_blocks(&bv, b2, b1);
        let block_level1 = Self::pack(&coarse_sums);
        let block_level2 = Self::pack(&fine_sums);
        RankSupport { bv, block_level1, block_level2, b1, b2 }
    }

    /// The indexed bit vector.
    pub fn get_bv(&self) -> (bv: &Bitvector)
        ensures
            *bv == self.bits(),
    {
        &self.bv
    }

    /// The table of the coarse blocks.
    pub fn get_block_level1(&self) -> (table: &IntVector)
        ensures
            *table == self.level1(),
    {
        &self.block_level1
    }

    /// The table of the fine blocks.
    pub fn get_block_level2(&self) -> (table: &IntVector)
        ensures
            *table == self.level2(),
    {
        &self.block_level2
    }

    /// Counts the set bits at positions `0..=i` with two table lookups and a
    /// scan that stays inside one fine block.
    pub fn rank1(&self, i: usize) -> (r: u64)
        requires
            self.wf(),
            i < self.bits().len(),
        ensures
            r == rank(self.bits()@, true, i as int),
    {
        proof {
            lemma_rank_from_tables(self.bits()@, i as int);
            lemma_count_bound(self.bits()@.take(i + 1), true);
        }
        let k1: usize = if self.b1 == 0 {
            0
        } else {
            i / self.b1
        };
        let b1_sum: u64 = self.block_level1.get(k1);
        let k2: usize = if self.b2 == 0 {
            0
        } else {
            i / self.b2
        };
        let b2_sum: u64 = self.block_level2.get(k2);
        let from: usize = k2 * self.b2;
        proof {
            lemma_count_bound(self.bits()@.subrange(from as int, i + 1), true);
        }
        let scan_sum: u64 = self.bv.scan_blocks(from, i, Bit::ONE, u64::MAX).0;
        b1_sum + b2_sum + scan_sum
    }

    /// Counts the clear bits at positions `0..=i`: what `rank1` leaves of
    /// the `i + 1` positions.
    pub fn rank0(&self, i: usize) -> (r: u64)
        requires
            self.wf(),
            i < self.bits().len(),
        ensures
            r == rank(self.bits()@, false, i as int),
            r + rank(self.bits()@, true, i as int) == i + 1,
    {
        proof {
            crate::counting::lemma_rank_complement(self.bits()@, i as int);
        }
        (i as u64 + 1) - self.rank1(i)
    }

    /// Counts the set bits at positions `0..=i`, or refuses a position that
    /// is not below the length of the bit vector.
    pub fn try_rank1(&self, i: usize) -> (r: Result<u64, Error>)
        requires
            self.wf(),
        ensures
            match r {
                Ok(ones) => i < self.bits().len() && ones == rank(self.bits()@, true, i as int),
                Err(e) => i >= self.bits().len() && e == Error::IndexOutOfRange,
            },
    {
        if i < self.bv.len() {
            Ok(self.rank1(i))
        } else {
            Err(Error::IndexOutOfRange)
        }
    }

    /// Counts the clear bits at positions `0..=i`, or refuses a position
    /// that is not below the length of the bit vector.
    pub fn try_rank0(&self, i: usize) -> (r: Result<u64, Error>)
        requires
            self.wf(),
        ensures
            match r {
                Ok(zeros) => i < self.bits().len() && zeros == rank(self.bits()@, false, i as int),
                Err(e) => i >= self.bits().len() && e == Error::IndexOutOfRange,
            },
    {
        if i < self.bv.len() {
            Ok(self.rank0(i))
        } else {
            Err(Error::IndexOutOfRange)
        }
    }
}

} // verus!
