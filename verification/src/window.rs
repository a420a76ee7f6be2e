//! Choosing the window of a due event: the first day of the range over which
//! the work is spread, and how many of that day's slots stay frozen.

use vstd::prelude::*;
use vstd::math::max;
use crate::ranges::{amounts, capacities, non_negative, range_sum, sum_amounts, sum_capacities,
    lemma_range_sum_grows, lemma_range_sum_split};
use crate::slots::{ceil_rate, free_load, head_rate, free_part, head_floor, rate_ceiling,
    lemma_free_load};

verus! {

/// The highest rounded-up rate among the days `lo..hi`; zero for an empty
/// range.
pub open spec fn max_rate(caps: Seq<int>, amts: Seq<int>, lo: int, hi: int) -> int
    decreases hi - lo,
{
    if hi <= lo {
        0
    } else {
        max(max_rate(caps, amts, lo, hi - 1), ceil_rate(caps[hi - 1], amts[hi - 1]))
    }
}

/// The work to place over the window `s..=d` when `due` falls due on day `d`
/// and the first `p` slots of day `s` stay frozen: the new work, the free part
/// of day `s`, and all that the later days of the window hold.
pub open spec fn total_load(caps: Seq<int>, amts: Seq<int>, s: int, d: int, p: int, due: int) -> int {
    due + free_load(caps[s], amts[s], p) + range_sum(amts, s + 1, d + 1)
}

/// The slots of the window `s..=d` that are not frozen.
pub open spec fn free_slots(caps: Seq<int>, s: int, d: int, p: int) -> int {
    range_sum(caps, s, d + 1) - p
}

/// The rate per slot that the window `s..=d` yields.
pub open spec fn window_rate(caps: Seq<int>, amts: Seq<int>, s: int, d: int, p: int, due: int) -> int {
    total_load(caps, amts, s, d, p, due) / free_slots(caps, s, d, p)
}

/// The rate below which the window `s..=d` may not be filled: no later day of
/// it may fall under its rounded-up rate, nor the free slots of day `s` under
/// theirs.
pub open spec fn required_floor(caps: Seq<int>, amts: Seq<int>, s: int, d: int, p: int) -> int {
    max(max_rate(caps, amts, s + 1, d + 1), head_rate(caps[s], amts[s], p))
}

/// Whether `due` can be spread over the window `s..=d` with the first `p`
/// slots of day `s` frozen.
pub open spec fn feasible(caps: Seq<int>, amts: Seq<int>, s: int, d: int, p: int, due: int) -> bool {
    &&& 0 <= s <= d
    &&& 0 <= p < caps[s]
    &&& free_slots(caps, s, d, p) > 0
    &&& window_rate(caps, amts, s, d, p, due) >= required_floor(caps, amts, s, d, p)
}

/// The first feasible pair `(s, p)` at or after the given one, going through
/// the starts `s` upward to `d` and, for each start, through the frozen
/// counts `p` upward to the last slot of day `s` but one.
pub open spec fn first_window(caps: Seq<int>, amts: Seq<int>, d: int, due: int, s: int, p: int) -> Option<(int, int)>
    decreases d + 1 - s, caps[s] - p,
{
    if s < 0 || s > d || p < 0 {
        None
    } else if p >= caps[s] {
        first_window(caps, amts, d, due, s + 1, 0)
    } else if feasible(caps, amts, s, d, p, due) {
        Some((s, p))
    } else {
        first_window(caps, amts, d, due, s, p + 1)
    }
}

/// The pair `(s, p)` comes before `(t, q)` in the order of the search.
pub open spec fn precedes(s: int, p: int, t: int, q: int) -> bool {
    s < t || (s == t && p < q)
}

/// No day of a range has a rounded-up rate above the highest of the range.
pub proof fn lemma_max_rate_bounds(caps: Seq<int>, amts: Seq<int>, lo: int, hi: int, x: int)
    requires
        lo <= x < hi,
    ensures
        ceil_rate(caps[x], amts[x]) <= max_rate(caps, amts, lo, hi),
    decreases hi - lo,
{
    if x < hi - 1 {
        lemma_max_rate_bounds(caps, amts, lo, hi - 1, x);
    }
}

/// The search returns the least feasible pair: what it returns is feasible,
/// every pair that it passed over is not, and where it returns nothing no
/// pair at or after its starting point is feasible.
pub proof fn lemma_first_window_is_least(
    caps: Seq<int>,
    amts: Seq<int>,
    d: int,
    due: int,
    from_s: int,
    from_p: int,
)
    requires
        0 <= from_s,
        0 <= from_p,
    ensures
        match first_window(caps, amts, d, due, from_s, from_p) {
            Some((s, p)) => {
                &&& !precedes(s, p, from_s, from_p)
                &&& feasible(caps, amts, s, d, p, due)
                &&& forall|t: int, q: int|
                    !precedes(t, q, from_s, from_p) && precedes(t, q, s, p) ==> !#[trigger] feasible(
                        caps,
                        amts,
                        t,
                        d,
                        q,
                        due,
                    )
            },
            None => forall|t: int, q: int|
                !precedes(t, q, from_s, from_p) ==> !#[trigger] feasible(caps, amts, t, d, q, due),
        },
    decreases d + 1 - from_s, caps[from_s] - from_p,
{
    if from_s > d {
    } else if from_p >= caps[from_s] {
        lemma_first_window_is_least(caps, amts, d, due, from_s + 1, 0);
    } else if feasible(caps, amts, from_s, d, from_p, due) {
    } else {
        lemma_first_window_is_least(caps, amts, d, due, from_s, from_p + 1);
    }
}

/// A range of days without capacity has no slots and no rate.
pub proof fn lemma_empty_days(caps: Seq<int>, amts: Seq<int>, lo: int, hi: int)
    requires
        forall|x: int| lo <= x < hi ==> caps[x] == 0,
    ensures
        range_sum(caps, lo, hi) == 0,
        max_rate(caps, amts, lo, hi) == 0,
    decreases hi - lo,
{
    if lo < hi {
        lemma_empty_days(caps, amts, lo, hi - 1);
    }
}

/// The last day with capacity among the days `0..=d`, where there is one.
pub open spec fn last_open_day(caps: Seq<int>, d: int) -> int
    decreases d + 1,
{
    if d < 0 || d >= caps.len() || caps[d] > 0 {
        d
    } else {
        last_open_day(caps, d - 1)
    }
}

/// Where the days `0..=d` have any capacity, the last of them that has some
/// is found, and every day after it up to `d` has none.
pub proof fn lemma_last_open_day(caps: Seq<int>, d: int)
    requires
        non_negative(caps),
        0 <= d < caps.len(),
        range_sum(caps, 0, d + 1) > 0,
    ensures
        0 <= last_open_day(caps, d) <= d,
        caps[last_open_day(caps, d)] > 0,
        forall|x: int| last_open_day(caps, d) < x <= d ==> caps[x] == 0,
    decreases d,
{
    if caps[d] > 0 {
    } else {
        assert(range_sum(caps, 0, 0) == 0);
        lemma_last_open_day(caps, d - 1);
    }
}

/// Where the days `0..=d` have any capacity, some window is feasible: the
/// search then finds one.
pub proof fn lemma_window_exists(caps: Seq<int>, amts: Seq<int>, d: int, due: int)
    requires
        caps.len() == amts.len(),
        non_negative(caps),
        non_negative(amts),
        0 <= d < caps.len(),
        due >= 0,
        range_sum(caps, 0, d + 1) > 0,
    ensures
        first_window(caps, amts, d, due, 0, 0) is Some,
{
    lemma_last_open_day(caps, d);
    let s = last_open_day(caps, d);
    let w = caps[s];
    let a = amts[s];
    let p = w - 1;
    lemma_empty_days(caps, amts, s + 1, d + 1);
    lemma_range_sum_split(caps, s, s + 1, d + 1);
    assert(range_sum(caps, s, s + 1) == w) by {
        assert(range_sum(caps, s, s) == 0);
    }
    lemma_free_load(w, a, p);
    crate::slots::lemma_quotient_remainder(w, a);
    lemma_range_sum_grows(amts, s + 1, s + 1, d + 1);
    assert(free_slots(caps, s, d, p) == 1);
    assert((w - p) * (a / w) == a / w) by (nonlinear_arith)
        requires
            w - p == 1,
    ;
    assert(total_load(caps, amts, s, d, p, due) >= a / w);
    assert(feasible(caps, amts, s, d, p, due));
    lemma_first_window_is_least(caps, amts, d, due, 0, 0);
}

/// The highest rounded-up rate of the days `lo..hi`.
pub fn max_rate_in(work: &Vec<(u32, u32)>, lo: usize, hi: usize) -> (rate: u32)
    requires
        lo <= hi <= work.len(),
    ensures
        rate == max_rate(capacities(work@), amounts(work@), lo as int, hi as int),
{
    let mut rate: u32 = 0;
    let mut i: usize = lo;
    while i < hi
        invariant
            lo <= i <= hi <= work.len(),
            rate == max_rate(capacities(work@), amounts(work@), lo as int, i as int),
        decreases hi - i,
    {
        let here: u32 = rate_ceiling(work[i].0, work[i].1);
        if here > rate {
            rate = here;
        }
        i = i + 1;
    }
    rate
}

/// Finds the window for `due` falling due on day `d`: the least start `s`,
/// and for it the least frozen count `p`, that are feasible. `None` when no
/// pair is.
pub fn find_window(work: &Vec<(u32, u32)>, d: usize, due: u32) -> (found: Option<(usize, u32)>)
    requires
        d < work.len(),
        range_sum(capacities(work@), 0, d + 1) <= u32::MAX,
        due + range_sum(amounts(work@), 0, d + 1) <= u32::MAX,
    ensures
        match found {
            Some((s, p)) => s <= d && p < work[s as int].0 && first_window(
                capacities(work@),
                amounts(work@),
                d as int,
                due as int,
                0,
                0,
            ) == Some((s as int, p as int)),
            None => first_window(capacities(work@), amounts(work@), d as int, due as int, 0, 0)
                is None,
        },
        match found {
            Some((s, p)) => {
                &&& feasible(capacities(work@), amounts(work@), s as int, d as int, p as int, due as int)
                &&& forall|t: int, q: int|
                    precedes(t, q, s as int, p as int) ==> !#[trigger] feasible(
                        capacities(work@),
                        amounts(work@),
                        t,
                        d as int,
                        q,
                        due as int,
                    )
            },
            None => forall|t: int, q: int|
                !#[trigger] feasible(capacities(work@), amounts(work@), t, d as int, q, due as int),
        },
{
    let ghost caps = capacities(work@);
    let ghost amts = amounts(work@);
    let mut s: usize = 0;
    while s <= d
        invariant
            0 <= s <= d + 1,
            d < work.len(),
            caps == capacities(work@),
            amts == amounts(work@),
            range_sum(caps, 0, d + 1) <= u32::MAX,
            due + range_sum(amts, 0, d + 1) <= u32::MAX,
            first_window(caps, amts, d as int, due as int, s as int, 0)
                == first_window(caps, amts, d as int, due as int, 0, 0),
        decreases d + 1 - s,
    {
        let w: u32 = work[s].0;
        let a: u32 = work[s].1;
        proof {
            lemma_range_sum_grows(amts, 0, s as int, d + 1);
            lemma_range_sum_grows(amts, s as int, s + 1, d + 1);
            lemma_range_sum_grows(caps, s as int, s + 1, d + 1);
            lemma_range_sum_grows(caps, 0, s as int, d + 1);
            assert(range_sum(caps, s as int, s + 1) == caps[s as int]) by {
                assert(range_sum(caps, s as int, s as int) == 0);
            }
            assert(range_sum(amts, s as int, s + 1) == amts[s as int]) by {
                assert(range_sum(amts, s as int, s as int) == 0);
            }
            lemma_range_sum_split(amts, s as int, s + 1, d + 1);
        }
        let slots: u32 = sum_capacities(work, s, d + 1);
        let rest: u32 = sum_amounts(work, s + 1, d + 1);
        let top: u32 = max_rate_in(work, s + 1, d + 1);
        let mut p: u32 = 0;
        while p < w
            invariant
                0 <= s <= d < work.len(),
                0 <= p <= w,
                caps == capacities(work@),
                amts == amounts(work@),
                w == caps[s as int],
                a == amts[s as int],
                w <= slots,
                slots == range_sum(caps, s as int, d + 1),
                rest == range_sum(amts, s + 1, d + 1),
                top == max_rate(caps, amts, s + 1, d + 1),
                due + a + rest <= u32::MAX,
                first_window(caps, amts, d as int, due as int, s as int, p as int)
                    == first_window(caps, amts, d as int, due as int, 0, 0),
            decreases w - p,
        {
            proof {
                lemma_free_load(w as int, a as int, p as int);
            }
            let load: u32 = due + free_part(w, a, p) + rest;
            let len: u32 = slots - p;
            let head: u32 = head_floor(w, a, p);
            let floor: u32 = if head > top { head } else { top };
            if load / len >= floor {
                proof {
                    lemma_first_window_is_least(caps, amts, d as int, due as int, 0, 0);
                }
                return Some((s, p));
            }
            p = p + 1;
        }
        s = s + 1;
    }
    proof {
        lemma_first_window_is_least(caps, amts, d as int, due as int, 0, 0);
    }
    None
}

} // verus!
