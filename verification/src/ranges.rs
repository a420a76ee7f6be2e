//! Days as integer sequences, and sums over ranges of days.

use vstd::prelude::*;

verus! {

/// The capacities of a run of days.
pub open spec fn capacities(days: Seq<(u32, u32)>) -> Seq<int> {
    Seq::new(days.len(), |i: int| days[i].0 as int)
}

/// The amounts of a run of days.
pub open spec fn amounts(days: Seq<(u32, u32)>) -> Seq<int> {
    Seq::new(days.len(), |i: int| days[i].1 as int)
}

/// No entry of `v` is negative.
pub open spec fn non_negative(v: Seq<int>) -> bool {
    forall|i: int| 0 <= i < v.len() ==> 0 <= #[trigger] v[i]
}

/// The sum of `v[lo]`, ..., `v[hi - 1]`; zero for an empty range.
pub open spec fn range_sum(v: Seq<int>, lo: int, hi: int) -> int
    decreases hi - lo,
{
    if hi <= lo {
        0
    } else {
        range_sum(v, lo, hi - 1) + v[hi - 1]
    }
}

/// The sum of all of `v`.
pub open spec fn total(v: Seq<int>) -> int {
    range_sum(v, 0, v.len() as int)
}

/// A range splits at any point inside it.
pub proof fn lemma_range_sum_split(v: Seq<int>, lo: int, mid: int, hi: int)
    requires
        lo <= mid <= hi,
    ensures
        range_sum(v, lo, hi) == range_sum(v, lo, mid) + range_sum(v, mid, hi),
    decreases hi - mid,
{
    if mid < hi {
        lemma_range_sum_split(v, lo, mid, hi - 1);
    }
}

/// Sums of non-negative entries are non-negative, and grow with the range.
pub proof fn lemma_range_sum_grows(v: Seq<int>, lo: int, mid: int, hi: int)
    requires
        non_negative(v),
        0 <= lo <= mid <= hi <= v.len(),
    ensures
        0 <= range_sum(v, lo, mid) <= range_sum(v, lo, hi),
        0 <= range_sum(v, mid, hi) <= range_sum(v, lo, hi),
{
    lemma_range_sum_split(v, lo, mid, hi);
    lemma_range_sum_non_negative(v, lo, mid);
    lemma_range_sum_non_negative(v, mid, hi);
}

/// Sums of non-negative entries are non-negative.
pub proof fn lemma_range_sum_non_negative(v: Seq<int>, lo: int, hi: int)
    requires
        non_negative(v),
        0 <= lo <= hi <= v.len(),
    ensures
        0 <= range_sum(v, lo, hi),
    decreases hi - lo,
{
    if lo < hi {
        lemma_range_sum_non_negative(v, lo, hi - 1);
    }
}

/// An entry of a non-negative range is at most the range's sum.
pub proof fn lemma_entry_at_most_sum(v: Seq<int>, lo: int, hi: int, x: int)
    requires
        non_negative(v),
        0 <= lo <= x < hi <= v.len(),
    ensures
        v[x] <= range_sum(v, lo, hi),
{
    lemma_range_sum_split(v, lo, x, hi);
    lemma_range_sum_split(v, x, x + 1, hi);
    lemma_range_sum_non_negative(v, lo, x);
    lemma_range_sum_non_negative(v, x + 1, hi);
    assert(range_sum(v, x, x + 1) == v[x]) by {
        assert(range_sum(v, x, x) == 0);
    }
}

/// Two sequences that agree on a range have the same sum over it.
pub proof fn lemma_range_sum_agrees(u: Seq<int>, v: Seq<int>, lo: int, hi: int)
    requires
        forall|i: int| lo <= i < hi ==> u[i] == v[i],
    ensures
        range_sum(u, lo, hi) == range_sum(v, lo, hi),
    decreases hi - lo,
{
    if lo < hi {
        lemma_range_sum_agrees(u, v, lo, hi - 1);
    }
}

/// Replacing one entry of a range changes the sum by the difference.
pub proof fn lemma_range_sum_update(v: Seq<int>, lo: int, hi: int, x: int, y: int)
    requires
        0 <= lo <= x < hi <= v.len(),
    ensures
        range_sum(v.update(x, y), lo, hi) == range_sum(v, lo, hi) - v[x] + y,
{
    let u = v.update(x, y);
    lemma_range_sum_split(v, lo, x, hi);
    lemma_range_sum_split(v, x, x + 1, hi);
    lemma_range_sum_split(u, lo, x, hi);
    lemma_range_sum_split(u, x, x + 1, hi);
    lemma_range_sum_agrees(u, v, lo, x);
    lemma_range_sum_agrees(u, v, x + 1, hi);
    assert(range_sum(v, x, x) == 0);
    assert(range_sum(u, x, x) == 0);
    assert(range_sum(v, x, x + 1) == v[x]);
    assert(range_sum(u, x, x + 1) == y);
}

/// Where one sequence is nowhere above another on a range, its sum over the
/// range is not above the other's.
pub proof fn lemma_range_sum_ordered(u: Seq<int>, v: Seq<int>, lo: int, hi: int)
    requires
        forall|i: int| lo <= i < hi ==> u[i] <= v[i],
    ensures
        range_sum(u, lo, hi) <= range_sum(v, lo, hi),
    decreases hi - lo,
{
    if lo < hi {
        lemma_range_sum_ordered(u, v, lo, hi - 1);
    }
}

/// Where one sequence is nowhere above another on a range and yet sums to
/// as much, the two agree on the range.
pub proof fn lemma_equal_sums(u: Seq<int>, v: Seq<int>, lo: int, hi: int)
    requires
        forall|i: int| lo <= i < hi ==> u[i] <= v[i],
        range_sum(v, lo, hi) <= range_sum(u, lo, hi),
    ensures
        forall|i: int| lo <= i < hi ==> u[i] == v[i],
    decreases hi - lo,
{
    if lo < hi {
        lemma_range_sum_ordered(u, v, lo, hi - 1);
        lemma_equal_sums(u, v, lo, hi - 1);
    }
}

/// Sum of the capacities of the days `lo..hi`.
pub fn sum_capacities(work: &Vec<(u32, u32)>, lo: usize, hi: usize) -> (sum: u32)
    requires
        lo <= hi <= work.len(),
        range_sum(capacities(work@), lo as int, hi as int) <= u32::MAX,
    ensures
        sum == range_sum(capacities(work@), lo as int, hi as int),
{
    let mut sum: u32 = 0;
    let mut i: usize = lo;
    while i < hi
        invariant
            lo <= i <= hi <= work.len(),
            range_sum(capacities(work@), lo as int, hi as int) <= u32::MAX,
            sum == range_sum(capacities(work@), lo as int, i as int),
        decreases hi - i,
    {
        proof {
            lemma_range_sum_grows(capacities(work@), lo as int, i as int + 1, hi as int);
        }
        sum = sum + work[i].0;
        i = i + 1;
    }
    sum
}

/// Sum of the amounts of the days `lo..hi`.
pub fn sum_amounts(work: &Vec<(u32, u32)>, lo: usize, hi: usize) -> (sum: u32)
    requires
        lo <= hi <= work.len(),
        range_sum(amounts(work@), lo as int, hi as int) <= u32::MAX,
    ensures
        sum == range_sum(amounts(work@), lo as int, hi as int),
{
    let mut sum: u32 = 0;
    let mut i: usize = lo;
    while i < hi
        invariant
            lo <= i <= hi <= work.len(),
            range_sum(amounts(work@), lo as int, hi as int) <= u32::MAX,
            sum == range_sum(amounts(work@), lo as int, i as int),
        decreases hi - i,
    {
        proof {
            lemma_range_sum_grows(amounts(work@), lo as int, i as int + 1, hi as int);
        }
        sum = sum + work[i].1;
        i = i + 1;
    }
    sum
}

} // verus!
