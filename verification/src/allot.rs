//! Filling a chosen window: every free slot gets the window's rate, and the
//! units that do not divide go, one per slot, to the earliest days.

use vstd::prelude::*;
use vstd::math::{max, min};
use crate::ranges::{amounts, capacities, non_negative, range_sum, sum_amounts, sum_capacities,
    lemma_range_sum_split, lemma_range_sum_non_negative,
    lemma_entry_at_most_sum};
use crate::slots::{ceil_rate, frozen_load, head_rate, free_part, lemma_free_load,
    lemma_quotient_remainder};
use crate::window::{feasible, free_slots, total_load, window_rate, lemma_max_rate_bounds};

verus! {

/// Capacities and amounts of the same days, none of them negative.
pub open spec fn well_formed(caps: Seq<int>, amts: Seq<int>) -> bool {
    &&& caps.len() == amts.len()
    &&& non_negative(caps)
    &&& non_negative(amts)
}

/// The units that do not divide over the free slots of the window.
pub open spec fn window_excess(caps: Seq<int>, amts: Seq<int>, s: int, d: int, p: int, due: int) -> int {
    total_load(caps, amts, s, d, p, due) % free_slots(caps, s, d, p)
}

/// The share of day `x` in `excess` units handed out from day `s` onward,
/// each day taking as many as it has slots until none is left.
pub open spec fn extra(caps: Seq<int>, s: int, x: int, excess: int) -> int {
    min(caps[x], max(0, excess - range_sum(caps, s, x)))
}

/// The amount of day `x` once `due` is spread over the window `s..=d` with
/// the first `p` slots of day `s` frozen.
pub open spec fn allotted(caps: Seq<int>, amts: Seq<int>, s: int, d: int, p: int, due: int, x: int) -> int {
    let rate = window_rate(caps, amts, s, d, p, due);
    let excess = window_excess(caps, amts, s, d, p, due);
    if x < s || x > d {
        amts[x]
    } else if x == s {
        frozen_load(caps[s], amts[s], p) + rate * (caps[s] - p) + extra(caps, s, x, excess)
    } else {
        caps[x] * rate + extra(caps, s, x, excess)
    }
}

/// The amounts of all days once `due` is spread over the window `s..=d`.
pub open spec fn allot(caps: Seq<int>, amts: Seq<int>, s: int, d: int, p: int, due: int) -> Seq<int> {
    Seq::new(amts.len(), |x: int| allotted(caps, amts, s, d, p, due, x))
}

/// A window that a search may propose: inside the days, with a frozen count
/// below the capacity of its first day.
pub open spec fn is_window(caps: Seq<int>, s: int, d: int, p: int) -> bool {
    &&& 0 <= s <= d < caps.len()
    &&& 0 <= p < caps[s]
}

/// Rate and excess of a window are the quotient and remainder of its load by
/// its free slots, and none of them is negative.
pub proof fn lemma_rate_and_excess(caps: Seq<int>, amts: Seq<int>, s: int, d: int, p: int, due: int)
    requires
        well_formed(caps, amts),
        is_window(caps, s, d, p),
        due >= 0,
    ensures
        free_slots(caps, s, d, p) > 0,
        caps[s] - p <= free_slots(caps, s, d, p),
        total_load(caps, amts, s, d, p, due) >= 0,
        total_load(caps, amts, s, d, p, due) == free_slots(caps, s, d, p) * window_rate(
            caps,
            amts,
            s,
            d,
            p,
            due,
        ) + window_excess(caps, amts, s, d, p, due),
        0 <= window_rate(caps, amts, s, d, p, due),
        0 <= window_excess(caps, amts, s, d, p, due) < free_slots(caps, s, d, p),
        frozen_load(caps[s], amts[s], p) + total_load(caps, amts, s, d, p, due) == due + range_sum(
            amts,
            s,
            d + 1,
        ),
{
    lemma_range_sum_split(caps, s, s + 1, d + 1);
    lemma_range_sum_split(amts, s, s + 1, d + 1);
    assert(range_sum(caps, s, s + 1) == caps[s]) by {
        assert(range_sum(caps, s, s) == 0);
    }
    assert(range_sum(amts, s, s + 1) == amts[s]) by {
        assert(range_sum(amts, s, s) == 0);
    }
    lemma_range_sum_non_negative(caps, s + 1, d + 1);
    lemma_range_sum_non_negative(amts, s + 1, d + 1);
    lemma_free_load(caps[s], amts[s], p);
    lemma_quotient_remainder(free_slots(caps, s, d, p), total_load(caps, amts, s, d, p, due));
}

/// What the days `s..k` of a filled window hold together.
proof fn lemma_allot_prefix(caps: Seq<int>, amts: Seq<int>, s: int, d: int, p: int, due: int, k: int)
    requires
        well_formed(caps, amts),
        is_window(caps, s, d, p),
        due >= 0,
        s < k <= d + 1,
    ensures
        range_sum(allot(caps, amts, s, d, p, due), s, k) == frozen_load(caps[s], amts[s], p)
            + window_rate(caps, amts, s, d, p, due) * (range_sum(caps, s, k) - p) + min(
            window_excess(caps, amts, s, d, p, due),
            range_sum(caps, s, k),
        ),
    decreases k - s,
{
    let out = allot(caps, amts, s, d, p, due);
    let rate = window_rate(caps, amts, s, d, p, due);
    let excess = window_excess(caps, amts, s, d, p, due);
    lemma_rate_and_excess(caps, amts, s, d, p, due);
    assert(range_sum(caps, s, s) == 0);
    if k == s + 1 {
        assert(range_sum(out, s, s) == 0);
        assert(range_sum(out, s, k) == out[s]);
        assert(range_sum(caps, s, k) == caps[s]);
    } else {
        lemma_allot_prefix(caps, amts, s, d, p, due, k - 1);
        let before = range_sum(caps, s, k - 1);
        lemma_range_sum_non_negative(caps, s, k - 1);
        assert(range_sum(caps, s, k) == before + caps[k - 1]);
        assert(out[k - 1] == caps[k - 1] * rate + extra(caps, s, k - 1, excess));
        assert(rate * (before + caps[k - 1] - p) == rate * (before - p) + caps[k - 1] * rate)
            by (nonlinear_arith);
    }
}

/// Filling a window keeps what lies outside it, leaves no amount negative,
/// and places exactly the new work on top of what the window held.
pub proof fn lemma_allot_conserves(caps: Seq<int>, amts: Seq<int>, s: int, d: int, p: int, due: int)
    requires
        well_formed(caps, amts),
        is_window(caps, s, d, p),
        due >= 0,
    ensures
        well_formed(caps, allot(caps, amts, s, d, p, due)),
        range_sum(allot(caps, amts, s, d, p, due), s, d + 1) == due + range_sum(amts, s, d + 1),
        forall|x: int|
            0 <= x < amts.len() && !(s <= x <= d) ==> allot(caps, amts, s, d, p, due)[x]
                == amts[x],
{
    let out = allot(caps, amts, s, d, p, due);
    let rate = window_rate(caps, amts, s, d, p, due);
    let excess = window_excess(caps, amts, s, d, p, due);
    lemma_rate_and_excess(caps, amts, s, d, p, due);
    lemma_allot_prefix(caps, amts, s, d, p, due, d + 1);
    lemma_free_load(caps[s], amts[s], p);
    assert forall|x: int| 0 <= x < out.len() implies 0 <= #[trigger] out[x] by {
        if s <= x <= d {
            lemma_range_sum_non_negative(caps, s, x);
            assert(0 <= extra(caps, s, x, excess));
            assert(0 <= rate * (caps[s] - p)) by (nonlinear_arith)
                requires
                    0 <= rate,
                    0 <= caps[s] - p,
            ;
            assert(0 <= caps[x] * rate) by (nonlinear_arith)
                requires
                    0 <= rate,
                    0 <= caps[x],
            ;
        }
    }
}

/// Among the days `lo..hi`, one without capacity holds nothing.
pub open spec fn settled(caps: Seq<int>, amts: Seq<int>, lo: int, hi: int) -> bool {
    forall|x: int| lo <= x < hi && caps[x] == 0 ==> #[trigger] amts[x] == 0
}

/// A day holds no more than its capacity times its rounded-up rate.
pub proof fn lemma_ceil_rate_covers(w: int, a: int)
    requires
        w > 0,
        a >= 0,
    ensures
        a <= w * ceil_rate(w, a),
        0 <= ceil_rate(w, a),
{
    lemma_quotient_remainder(w, a);
    let q = a / w;
    assert(w * (q + 1) == w * q + w) by (nonlinear_arith);
}

/// Every day of a feasible window after its first gets, for each unit of its
/// capacity, at least the highest rounded-up rate that any such day had
/// before; and the free slots of the first day get at least their own.
pub proof fn lemma_rate_keeps_commitments(
    caps: Seq<int>,
    amts: Seq<int>,
    s: int,
    d: int,
    p: int,
    due: int,
    i: int,
    j: int,
)
    requires
        well_formed(caps, amts),
        d < caps.len(),
        due >= 0,
        feasible(caps, amts, s, d, p, due),
        s < i <= d,
        s < j <= d,
    ensures
        caps[i] * ceil_rate(caps[j], amts[j]) <= allot(caps, amts, s, d, p, due)[i],
        ceil_rate(caps[j], amts[j]) <= window_rate(caps, amts, s, d, p, due),
        head_rate(caps[s], amts[s], p) <= window_rate(caps, amts, s, d, p, due),
{
    let rate = window_rate(caps, amts, s, d, p, due);
    let excess = window_excess(caps, amts, s, d, p, due);
    let c = ceil_rate(caps[j], amts[j]);
    lemma_rate_and_excess(caps, amts, s, d, p, due);
    lemma_max_rate_bounds(caps, amts, s + 1, d + 1, j);
    lemma_range_sum_non_negative(caps, s, i);
    assert(0 <= extra(caps, s, i, excess));
    assert(caps[i] * c <= caps[i] * rate) by (nonlinear_arith)
        requires
            0 <= caps[i],
            c <= rate,
    ;
}

/// In a filled window, of two days after its first the earlier carries, per
/// unit of capacity, at least what the later one carries: the units left
/// over reach a day only once every day before it is full.
pub proof fn lemma_earlier_days_carry_more(
    caps: Seq<int>,
    amts: Seq<int>,
    s: int,
    d: int,
    p: int,
    due: int,
    i: int,
    j: int,
)
    requires
        well_formed(caps, amts),
        is_window(caps, s, d, p),
        due >= 0,
        s < i < j <= d,
    ensures
        allot(caps, amts, s, d, p, due)[j] * caps[i] <= allot(caps, amts, s, d, p, due)[i] * caps[j],
{
    let rate = window_rate(caps, amts, s, d, p, due);
    let excess = window_excess(caps, amts, s, d, p, due);
    let early = extra(caps, s, i, excess);
    let late = extra(caps, s, j, excess);
    lemma_rate_and_excess(caps, amts, s, d, p, due);
    lemma_range_sum_non_negative(caps, s, i);
    lemma_range_sum_split(caps, s, i + 1, j);
    lemma_range_sum_non_negative(caps, i + 1, j);
    assert(range_sum(caps, s, i + 1) == range_sum(caps, s, i) + caps[i]);
    assert(late > 0 ==> early == caps[i]);
    assert(late * caps[i] <= early * caps[j]) by (nonlinear_arith)
        requires
            0 <= late <= caps[j],
            0 <= early <= caps[i],
            late > 0 ==> early == caps[i],
    ;
    assert((caps[j] * rate + late) * caps[i] <= (caps[i] * rate + early) * caps[j])
        by (nonlinear_arith)
        requires
            late * caps[i] <= early * caps[j],
    ;
}

/// Filling a feasible window lowers no day, as long as the days of the
/// window without capacity hold nothing.
pub proof fn lemma_allot_never_lowers(caps: Seq<int>, amts: Seq<int>, s: int, d: int, p: int, due: int)
    requires
        well_formed(caps, amts),
        d < caps.len(),
        due >= 0,
        feasible(caps, amts, s, d, p, due),
        settled(caps, amts, s, d + 1),
    ensures
        forall|x: int|
            0 <= x < amts.len() ==> amts[x] <= #[trigger] allot(caps, amts, s, d, p, due)[x],
{
    let out = allot(caps, amts, s, d, p, due);
    let rate = window_rate(caps, amts, s, d, p, due);
    let excess = window_excess(caps, amts, s, d, p, due);
    lemma_rate_and_excess(caps, amts, s, d, p, due);
    assert forall|x: int| 0 <= x < amts.len() implies amts[x] <= #[trigger] out[x] by {
        if x == s {
            let w = caps[s];
            let a = amts[s];
            let head = head_rate(w, a, p);
            let odd = max(a % w - p, 0);
            lemma_free_load(w, a, p);
            assert(range_sum(caps, s, s) == 0);
            assert(0 <= extra(caps, s, s, excess));
            assert((w - p) * (a / w) + odd <= rate * (w - p)) by (nonlinear_arith)
                requires
                    a / w + odd <= rate,
                    0 <= odd,
                    1 <= w - p,
                    0 <= a / w,
            ;
        } else if s < x <= d {
            lemma_range_sum_non_negative(caps, s, x);
            assert(0 <= extra(caps, s, x, excess));
            if caps[x] > 0 {
                lemma_ceil_rate_covers(caps[x], amts[x]);
                lemma_rate_keeps_commitments(caps, amts, s, d, p, due, x, x);
            } else {
                assert(amts[x] == 0);
                assert(caps[x] * rate == 0) by (nonlinear_arith)
                    requires
                        caps[x] == 0,
                ;
            }
        }
    }
}

/// A day without capacity gets nothing when a window is filled.
pub proof fn lemma_allot_skips_empty_days(
    caps: Seq<int>,
    amts: Seq<int>,
    s: int,
    d: int,
    p: int,
    due: int,
    x: int,
)
    requires
        well_formed(caps, amts),
        is_window(caps, s, d, p),
        due >= 0,
        s <= x <= d,
        caps[x] == 0,
    ensures
        allot(caps, amts, s, d, p, due)[x] == 0,
{
    let rate = window_rate(caps, amts, s, d, p, due);
    lemma_rate_and_excess(caps, amts, s, d, p, due);
    lemma_range_sum_non_negative(caps, s, x);
    assert(caps[x] * rate == 0) by (nonlinear_arith)
        requires
            caps[x] == 0,
    ;
}

/// Spreads `due` over the days `s..=d`, the first `p` slots of day `s` kept
/// as they are: every other slot of the window gets the window's rate, and
/// the units left over go to the earliest days, each day taking at most one
/// per slot.
pub fn apply_window(work: &mut Vec<(u32, u32)>, s: usize, d: usize, p: u32, due: u32)
    requires
        s <= d < old(work).len(),
        p < old(work)[s as int].0,
        range_sum(capacities(old(work)@), s as int, d + 1) <= u32::MAX,
        due + range_sum(amounts(old(work)@), s as int, d + 1) <= u32::MAX,
    ensures
        final(work).len() == old(work).len(),
        capacities(final(work)@) == capacities(old(work)@),
        amounts(final(work)@) == allot(
            capacities(old(work)@),
            amounts(old(work)@),
            s as int,
            d as int,
            p as int,
            due as int,
        ),
{
    let ghost caps = capacities(work@);
    let ghost amts = amounts(work@);
    let ghost out = allot(caps, amts, s as int, d as int, p as int, due as int);
    let ghost spare = window_excess(caps, amts, s as int, d as int, p as int, due as int);
    let w: u32 = work[s].0;
    let a: u32 = work[s].1;
    proof {
        lemma_rate_and_excess(caps, amts, s as int, d as int, p as int, due as int);
        lemma_allot_conserves(caps, amts, s as int, d as int, p as int, due as int);
        lemma_free_load(w as int, a as int, p as int);
        lemma_range_sum_split(amts, s as int, s + 1, d + 1);
        lemma_range_sum_non_negative(amts, s + 1, d + 1);
        assert(range_sum(amts, s as int, s + 1) == amts[s as int]) by {
            assert(range_sum(amts, s as int, s as int) == 0);
        }
        assert(range_sum(caps, s as int, s as int) == 0);
        assert forall|x: int| s <= x <= d implies #[trigger] out[x] <= u32::MAX by {
            lemma_entry_at_most_sum(out, s as int, d + 1, x);
        }
    }
    let slots: u32 = sum_capacities(work, s, d + 1);
    let rest: u32 = sum_amounts(work, s + 1, d + 1);
    let free: u32 = free_part(w, a, p);
    let load: u32 = due + free + rest;
    let len: u32 = slots - p;
    let rate: u32 = load / len;
    let mut excess: u32 = load % len;
    let first: u32 = if excess < w { excess } else { w };
    proof {
        assert(0 <= rate * (w - p)) by (nonlinear_arith)
            requires
                0 <= rate,
                0 <= w - p,
        ;
        assert(out[s as int] == (a - free) + rate * (w - p) + first);
    }
    work.set(s, (w, a - free + rate * (w - p) + first));
    excess = excess - first;
    let mut x: usize = s + 1;
    while x <= d
        invariant
            s < x <= d + 1,
            d < work.len(),
            work.len() == caps.len(),
            caps.len() == amts.len(),
            capacities(work@) == caps,
            non_negative(caps),
            out == allot(caps, amts, s as int, d as int, p as int, due as int),
            spare == window_excess(caps, amts, s as int, d as int, p as int, due as int),
            rate == window_rate(caps, amts, s as int, d as int, p as int, due as int),
            excess == max(0, spare - range_sum(caps, s as int, x as int)),
            forall|y: int| s <= y <= d ==> 0 <= #[trigger] out[y] <= u32::MAX,
            forall|y: int| 0 <= y < work.len() && (y < s || y >= x) ==> amounts(work@)[y] == amts[y],
            forall|y: int| s <= y < x ==> amounts(work@)[y] == out[y],
        decreases d + 1 - x,
    {
        let c: u32 = work[x].0;
        let bump: u32 = if excess < c { excess } else { c };
        proof {
            assert(caps[x as int] == c);
            assert(bump == extra(caps, s as int, x as int, spare));
            assert(out[x as int] == c * rate + bump);
            assert(0 <= c * rate) by (nonlinear_arith)
                requires
                    0 <= rate,
                    0 <= c,
            ;
            lemma_range_sum_non_negative(caps, s as int, x as int);
        }
        work.set(x, (c, c * rate + bump));
        excess = excess - bump;
        x = x + 1;
    }
    proof {
        assert(amounts(work@) =~= out);
    }
}

} // verus!
