//! What holds of every schedule: no work that capacity can serve is lost and
//! none is added, nothing once scheduled is taken back, days without
//! capacity stay empty, and a day on which nothing is due changes nothing.

use vstd::prelude::*;
use crate::ranges::{range_sum, total, lemma_entry_at_most_sum, lemma_equal_sums,
    lemma_range_sum_agrees, lemma_range_sum_split, lemma_range_sum_update};
use crate::allot::{allot, settled, well_formed, lemma_allot_conserves, lemma_allot_never_lowers,
    lemma_allot_skips_empty_days};
use crate::window::{first_window, lemma_first_window_is_least, lemma_window_exists};
use crate::engine::{leveled, leveled_to, place, visit, lemma_place_total};

verus! {

/// Work is due only on days that have capacity at or before them.
pub open spec fn placeable(caps: Seq<int>, due: Seq<int>) -> bool {
    forall|d: int| 0 <= d < due.len() && #[trigger] due[d] > 0 ==> range_sum(caps, 0, d + 1) > 0
}

/// The part of the work due on the first `n` days that some capacity can
/// serve: what is due on a day counts where that day or one before it has
/// capacity.
pub open spec fn served(caps: Seq<int>, due: Seq<int>, n: nat) -> int
    decreases n,
{
    if n == 0 {
        0
    } else if range_sum(caps, 0, n as int) > 0 {
        served(caps, due, (n - 1) as nat) + due[n - 1]
    } else {
        served(caps, due, (n - 1) as nat)
    }
}

/// One visit, of day `d`, on amounts whose earlier days are settled.
///
/// The visit keeps the days after `d`, lowers no day before `d`, leaves the
/// days without capacity empty, and never adds work. It loses none where
/// some day up to `d` has capacity, and loses what is due on day `d` where
/// none has; and it changes nothing at all where nothing is due on day `d`.
pub proof fn lemma_visit(caps: Seq<int>, amts: Seq<int>, d: int)
    requires
        well_formed(caps, amts),
        0 <= d < amts.len(),
        settled(caps, amts, 0, d),
    ensures
        well_formed(caps, visit(caps, amts, d)),
        settled(caps, visit(caps, amts, d), 0, d + 1),
        forall|x: int| d < x < amts.len() ==> visit(caps, amts, d)[x] == amts[x],
        forall|x: int| 0 <= x < d ==> amts[x] <= visit(caps, amts, d)[x],
        range_sum(visit(caps, amts, d), 0, d + 1) <= range_sum(amts, 0, d + 1),
        range_sum(caps, 0, d + 1) > 0 ==> range_sum(visit(caps, amts, d), 0, d + 1) == range_sum(
            amts,
            0,
            d + 1,
        ),
        range_sum(caps, 0, d + 1) <= 0 ==> range_sum(visit(caps, amts, d), 0, d + 1) == range_sum(
            amts,
            0,
            d + 1,
        ) - amts[d],
        amts[d] == 0 ==> visit(caps, amts, d) == amts,
{
    let due = amts[d];
    let cleared = amts.update(d, 0);
    let out = place(caps, cleared, d, due);
    assert(well_formed(caps, cleared));
    assert(settled(caps, cleared, 0, d + 1));
    lemma_range_sum_update(amts, 0, d + 1, d, 0);
    lemma_place_total(caps, cleared, d, due);
    if due == 0 {
        assert(cleared =~= amts);
    }
    match first_window(caps, cleared, d, due, 0, 0) {
        Some((s, p)) => {
            lemma_first_window_is_least(caps, cleared, d, due, 0, 0);
            lemma_entry_at_most_sum(caps, 0, d + 1, s);
            lemma_allot_conserves(caps, cleared, s, d, p, due);
            lemma_allot_never_lowers(caps, cleared, s, d, p, due);
            assert forall|x: int| 0 <= x < d + 1 && caps[x] == 0 implies #[trigger] out[x] == 0 by {
                if s <= x {
                    lemma_allot_skips_empty_days(caps, cleared, s, d, p, due, x);
                }
            }
            assert forall|x: int| 0 <= x < d implies amts[x] <= out[x] by {
                assert(cleared[x] <= allot(caps, cleared, s, d, p, due)[x]);
            }
            if due == 0 {
                assert forall|x: int| 0 <= x < d + 1 implies cleared[x] <= out[x] by {
                    assert(cleared[x] <= allot(caps, cleared, s, d, p, due)[x]);
                }
                lemma_equal_sums(cleared, out, 0, d + 1);
                assert(out =~= amts);
            }
        },
        None => {
            if range_sum(caps, 0, d + 1) > 0 {
                lemma_window_exists(caps, cleared, d, due);
            }
        },
    }
}

/// The state after the first `n` visits: the visited days are settled, the
/// others still hold what is due on them, and no work was added.
pub proof fn lemma_leveled_to(caps: Seq<int>, due: Seq<int>, n: nat)
    requires
        well_formed(caps, due),
        n <= due.len(),
    ensures
        well_formed(caps, leveled_to(caps, due, n)),
        settled(caps, leveled_to(caps, due, n), 0, n as int),
        forall|x: int| n <= x < due.len() ==> leveled_to(caps, due, n)[x] == due[x],
        range_sum(leveled_to(caps, due, n), 0, n as int) <= range_sum(due, 0, n as int),
        total(leveled_to(caps, due, n)) <= total(due),
    decreases n,
{
    if n > 0 {
        let d = n - 1;
        let before = leveled_to(caps, due, d as nat);
        let after = leveled_to(caps, due, n);
        lemma_leveled_to(caps, due, d as nat);
        lemma_visit(caps, before, d);
        let len = due.len() as int;
        lemma_range_sum_split(before, 0, n as int, len);
        lemma_range_sum_split(after, 0, n as int, len);
        lemma_range_sum_agrees(after, before, n as int, len);
    }
}

/// What is scheduled on the first `n` days, once they are visited, adds up
/// to the work due on them that some capacity can serve: that much is
/// placed, and nothing else is lost or added.
pub proof fn law_served_work_is_scheduled(caps: Seq<int>, due: Seq<int>, n: nat)
    requires
        well_formed(caps, due),
        n <= due.len(),
    ensures
        range_sum(leveled_to(caps, due, n), 0, n as int) == served(caps, due, n),
    decreases n,
{
    if n > 0 {
        let d = n - 1;
        let before = leveled_to(caps, due, d as nat);
        law_served_work_is_scheduled(caps, due, d as nat);
        lemma_leveled_to(caps, due, d as nat);
        lemma_visit(caps, before, d);
        assert(before[d] == due[d]);
    } else {
        assert(range_sum(due, 0, 0) == 0);
    }
}

/// Where work is due only on days that some capacity can serve, all of it
/// can be served.
pub proof fn lemma_served_all(caps: Seq<int>, due: Seq<int>, n: nat)
    requires
        well_formed(caps, due),
        placeable(caps, due),
        n <= due.len(),
    ensures
        served(caps, due, n) == range_sum(due, 0, n as int),
    decreases n,
{
    if n > 0 {
        lemma_served_all(caps, due, (n - 1) as nat);
        assert(due[n - 1] >= 0);
    }
}

/// Conservation: where work is due only on days that some capacity can
/// serve, the amounts scheduled on the first `n` days add up to what is due
/// on them; and so the whole schedule adds up to all that is due.
pub proof fn law_conservation(caps: Seq<int>, due: Seq<int>, n: nat)
    requires
        well_formed(caps, due),
        placeable(caps, due),
        n <= due.len(),
    ensures
        range_sum(leveled_to(caps, due, n), 0, n as int) == range_sum(due, 0, n as int),
        total(leveled(caps, due)) == total(due),
{
    law_served_work_is_scheduled(caps, due, n);
    lemma_served_all(caps, due, n);
    law_served_work_is_scheduled(caps, due, due.len());
    lemma_served_all(caps, due, due.len());
    lemma_leveled_to(caps, due, due.len());
}

/// No work is ever added: the schedule adds up to at most what is due.
pub proof fn law_no_work_added(caps: Seq<int>, due: Seq<int>)
    requires
        well_formed(caps, due),
    ensures
        total(leveled(caps, due)) <= total(due),
{
    lemma_leveled_to(caps, due, due.len());
}

/// Commitments never shrink: the amount of a day that has been visited is
/// not lowered by any later visit.
pub proof fn law_never_lowered(caps: Seq<int>, due: Seq<int>, n: nat, m: nat, x: int)
    requires
        well_formed(caps, due),
        n <= m <= due.len(),
        0 <= x < n,
    ensures
        leveled_to(caps, due, n)[x] <= leveled_to(caps, due, m)[x],
    decreases m,
{
    if n < m {
        let d = m - 1;
        law_never_lowered(caps, due, n, d as nat, x);
        lemma_leveled_to(caps, due, d as nat);
        lemma_visit(caps, leveled_to(caps, due, d as nat), d);
    }
}

/// A day without capacity holds nothing once it has been visited, and so
/// holds nothing in the schedule.
pub proof fn law_empty_days_stay_empty(caps: Seq<int>, due: Seq<int>, n: nat, x: int)
    requires
        well_formed(caps, due),
        n <= due.len(),
        0 <= x < n,
        caps[x] == 0,
    ensures
        leveled_to(caps, due, n)[x] == 0,
        leveled(caps, due)[x] == 0,
{
    lemma_leveled_to(caps, due, n);
    lemma_leveled_to(caps, due, due.len());
}

/// The visit of a day on which nothing is due changes no amount.
pub proof fn law_nothing_due_changes_nothing(caps: Seq<int>, due: Seq<int>, d: int)
    requires
        well_formed(caps, due),
        0 <= d < due.len(),
        due[d] == 0,
    ensures
        leveled_to(caps, due, (d + 1) as nat) == leveled_to(caps, due, d as nat),
{
    lemma_leveled_to(caps, due, d as nat);
    lemma_visit(caps, leveled_to(caps, due, d as nat), d);
}

} // verus!
