use vstd::prelude::*;

verus! {

/// How many entries of `s` equal `kind`.
pub open spec fn count(s: Seq<bool>, kind: bool) -> nat
    decreases s.len(),
{
    if s.len() == 0 {
        0
    } else {
        count(s.drop_last(), kind) + if s.last() == kind {
            1nat
        } else {
            0nat
        }
    }
}

/// How many entries of `s` at positions `0..=i` equal `kind`.
pub open spec fn rank(s: Seq<bool>, kind: bool, i: int) -> nat {
    count(s.take(i + 1), kind)
}

/// The position of the `k`-th entry of `s` that equals `kind`, counting from
/// one. It is meaningful when `1 <= k <= count(s, kind)`.
pub open spec fn select(s: Seq<bool>, kind: bool, k: nat) -> int
    decreases s.len(),
{
    if s.len() == 0 {
        0
    } else if count(s.drop_last(), kind) >= k {
        select(s.drop_last(), kind, k)
    } else {
        s.len() - 1
    }
}

/// What a bounded scan of the closed range `[start, stop]` reports: the
/// number of entries equal to `kind`, capped at `limit`, and the position
/// where counting ended. That position is the `limit`-th match when the range
/// holds at least `limit >= 1` matches, and `stop` otherwise.
pub open spec fn scan(s: Seq<bool>, start: int, stop: int, kind: bool, limit: nat) -> (nat, int) {
    let window = s.subrange(start, stop + 1);
    let total = count(window, kind);
    if 1 <= limit <= total {
        (limit, start + select(window, kind, limit))
    } else {
        (total, stop)
    }
}

/// No more entries match than there are.
pub proof fn lemma_count_bound(s: Seq<bool>, kind: bool)
    ensures
        count(s, kind) <= s.len(),
    decreases s.len(),
{
    if s.len() > 0 {
        lemma_count_bound(s.drop_last(), kind);
    }
}

/// Every entry is either set or clear.
pub proof fn lemma_count_complement(s: Seq<bool>)
    ensures
        count(s, true) + count(s, false) == s.len(),
    decreases s.len(),
{
    if s.len() > 0 {
        lemma_count_complement(s.drop_last());
    }
}

/// Appending one entry adds one to the count exactly when it matches.
pub proof fn lemma_count_push(s: Seq<bool>, b: bool, kind: bool)
    ensures
        count(s.push(b), kind) == count(s, kind) + if b == kind {
            1nat
        } else {
            0nat
        },
{
    assert(s.push(b).drop_last() =~= s);
}

/// The count over two sequences joined is the sum of their counts.
pub proof fn lemma_count_concat(a: Seq<bool>, b: Seq<bool>, kind: bool)
    ensures
        count(a + b, kind) == count(a, kind) + count(b, kind),
    decreases b.len(),
{
    if b.len() == 0 {
        assert(a + b =~= a);
    } else {
        assert((a + b).drop_last() =~= a + b.drop_last());
        lemma_count_concat(a, b.drop_last(), kind);
    }
}

/// Counting over `[lo, hi)` splits at any `mid` in between.
pub proof fn lemma_count_split(s: Seq<bool>, lo: int, mid: int, hi: int, kind: bool)
    requires
        0 <= lo <= mid <= hi <= s.len(),
    ensures
        count(s.subrange(lo, hi), kind) == count(s.subrange(lo, mid), kind) + count(
            s.subrange(mid, hi),
            kind,
        ),
{
    assert(s.subrange(lo, hi) =~= s.subrange(lo, mid) + s.subrange(mid, hi));
    lemma_count_concat(s.subrange(lo, mid), s.subrange(mid, hi), kind);
}

/// Where every entry equals `kind`, all of them count for `kind` and none
/// for the other.
pub proof fn lemma_count_uniform(s: Seq<bool>, kind: bool)
    requires
        forall|i: int| 0 <= i < s.len() ==> s[i] == kind,
    ensures
        count(s, kind) == s.len(),
        count(s, !kind) == 0,
    decreases s.len(),
{
    if s.len() > 0 {
        lemma_count_uniform(s.drop_last(), kind);
    }
}

/// Extending a prefix by one position adds one exactly when the new entry
/// matches, so ranks never decrease and grow by at most one per step.
pub proof fn lemma_rank_step(s: Seq<bool>, kind: bool, i: int)
    requires
        0 <= i,
        i + 1 < s.len(),
    ensures
        rank(s, kind, i + 1) == rank(s, kind, i) + if s[i + 1] == kind {
            1nat
        } else {
            0nat
        },
        rank(s, kind, i) <= rank(s, kind, i + 1) <= rank(s, kind, i) + 1,
{
    assert(s.take(i + 2).drop_last() =~= s.take(i + 1));
}

/// The ranks of the two kinds at a position add up to the length of the
/// prefix.
pub proof fn lemma_rank_complement(s: Seq<bool>, i: int)
    requires
        0 <= i < s.len(),
    ensures
        rank(s, false, i) + rank(s, true, i) == i + 1,
{
    lemma_count_complement(s.take(i + 1));
}

/// A longer prefix holds at least as many matches.
pub proof fn lemma_count_prefix_monotone(s: Seq<bool>, kind: bool, i: int, j: int)
    requires
        0 <= i <= j <= s.len(),
    ensures
        count(s.take(i), kind) <= count(s.take(j), kind),
{
    lemma_count_split(s, 0, i, j, kind);
}

/// Select inverts rank: the `k`-th match holds `kind`, and exactly `k`
/// matches lie at or before it.
pub proof fn lemma_select_rank(s: Seq<bool>, kind: bool, k: nat)
    requires
        1 <= k <= count(s, kind),
    ensures
        0 <= select(s, kind, k) < s.len(),
        s[select(s, kind, k)] == kind,
        rank(s, kind, select(s, kind, k)) == k,
    decreases s.len(),
{
    if count(s.drop_last(), kind) >= k {
        lemma_select_rank(s.drop_last(), kind, k);
        let idx = select(s.drop_last(), kind, k);
        assert(s.drop_last().take(idx + 1) =~= s.take(idx + 1));
    } else {
        assert(s.take(s.len() as int) =~= s);
    }
}

/// A position that holds `kind` and has rank `k` is the `k`-th match.
pub proof fn lemma_select_unique(s: Seq<bool>, kind: bool, k: nat, idx: int)
    requires
        0 <= idx < s.len(),
        s[idx] == kind,
        rank(s, kind, idx) == k,
    ensures
        select(s, kind, k) == idx,
    decreases s.len(),
{
    if idx == s.len() - 1 {
        assert(s.take(idx + 1) =~= s);
    } else {
        assert(s.drop_last() =~= s.take(s.len() - 1));
        lemma_count_prefix_monotone(s, kind, idx + 1, s.len() - 1);
        assert(s.drop_last().take(idx + 1) =~= s.take(idx + 1));
        lemma_select_unique(s.drop_last(), kind, k, idx);
    }
}

/// Flipping every entry swaps the two counts.
pub proof fn lemma_count_negate(a: Seq<bool>, b: Seq<bool>)
    requires
        a.len() == b.len(),
        forall|i: int| 0 <= i < a.len() ==> a[i] == !b[i],
    ensures
        count(a, true) == count(b, false),
        count(a, false) == count(b, true),
    decreases a.len(),
{
    if a.len() > 0 {
        lemma_count_negate(a.drop_last(), b.drop_last());
    }
}

/// A scan that has counted `found` matches before `pos` and meets the
/// `limit`-th match in `[pos, end]` ends where a scan of `[pos, end]` for
/// the matches still missing ends.
pub proof fn lemma_scan_resume(
    s: Seq<bool>,
    start: int,
    pos: int,
    end: int,
    stop: int,
    kind: bool,
    limit: nat,
    found: nat,
)
    requires
        0 <= start <= pos <= end <= stop < s.len(),
        found == count(s.subrange(start, pos), kind),
        found < limit,
        limit - found <= count(s.subrange(pos, end + 1), kind),
    ensures
        scan(s, start, stop, kind, limit) == (
            limit,
            scan(s, pos, end, kind, (limit - found) as nat).1,
        ),
{
    let window = s.subrange(start, stop + 1);
    let part = s.subrange(pos, end + 1);
    let missing = (limit - found) as nat;
    let idx = pos + select(part, kind, missing);
    lemma_select_rank(part, kind, missing);
    assert(part.take(idx - pos + 1) =~= s.subrange(pos, idx + 1));
    lemma_count_split(s, start, pos, idx + 1, kind);
    assert(window.take(idx - start + 1) =~= s.subrange(start, idx + 1));
    lemma_select_unique(window, kind, limit, idx - start);
    lemma_count_split(s, start, idx + 1, stop + 1, kind);
}

} // verus!
