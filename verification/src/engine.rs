//! The pass over the days: each day's due work is taken off the day and
//! spread over the days up to it.

use vstd::prelude::*;
use crate::ranges::{amounts, capacities, range_sum, total, lemma_range_sum_agrees,
    lemma_range_sum_grows, lemma_range_sum_split, lemma_range_sum_update};
use crate::allot::{allot, apply_window, settled, well_formed, lemma_allot_conserves};
use crate::laws::{placeable, served, law_conservation, law_served_work_is_scheduled,
    lemma_leveled_to};
use crate::window::{find_window, first_window, lemma_first_window_is_least};

verus! {

/// The amounts once `due`, falling due on day `d`, is spread over the first
/// feasible window that ends on day `d`. Where no window is feasible the
/// amounts stay as they are and the work is placed nowhere.
pub open spec fn place(caps: Seq<int>, amts: Seq<int>, d: int, due: int) -> Seq<int> {
    match first_window(caps, amts, d, due, 0, 0) {
        Some((s, p)) => allot(caps, amts, s, d, p, due),
        None => amts,
    }
}

/// The amounts once day `d` is visited: what the day held was due on it, so
/// it is taken off the day and placed over the days up to it.
pub open spec fn visit(caps: Seq<int>, amts: Seq<int>, d: int) -> Seq<int> {
    place(caps, amts.update(d, 0), d, amts[d])
}

/// The amounts once the first `n` days are visited in order, starting from
/// the due amounts.
pub open spec fn leveled_to(caps: Seq<int>, due: Seq<int>, n: nat) -> Seq<int>
    decreases n,
{
    if n == 0 {
        due
    } else {
        visit(caps, leveled_to(caps, due, (n - 1) as nat), n - 1)
    }
}

/// The schedule: the amounts once every day is visited.
pub open spec fn leveled(caps: Seq<int>, due: Seq<int>) -> Seq<int> {
    leveled_to(caps, due, due.len())
}

/// The sums of capacities and of amounts both fit the machine's integers.
pub open spec fn in_limits(days: Seq<(u32, u32)>) -> bool {
    &&& total(capacities(days)) <= u32::MAX
    &&& total(amounts(days)) <= u32::MAX
}

/// Placing work never yields more than was there and came due, changes no
/// day after `d`, and loses nothing where a window is found.
pub proof fn lemma_place_total(caps: Seq<int>, amts: Seq<int>, d: int, due: int)
    requires
        well_formed(caps, amts),
        0 <= d < amts.len(),
        due >= 0,
    ensures
        well_formed(caps, place(caps, amts, d, due)),
        range_sum(place(caps, amts, d, due), 0, d + 1) <= range_sum(amts, 0, d + 1) + due,
        first_window(caps, amts, d, due, 0, 0) is Some ==> range_sum(
            place(caps, amts, d, due),
            0,
            d + 1,
        ) == range_sum(amts, 0, d + 1) + due,
        first_window(caps, amts, d, due, 0, 0) is None ==> place(caps, amts, d, due) == amts,
        forall|x: int| d < x < amts.len() ==> place(caps, amts, d, due)[x] == amts[x],
{
    match first_window(caps, amts, d, due, 0, 0) {
        Some((s, p)) => {
            lemma_first_window_is_least(caps, amts, d, due, 0, 0);
            lemma_allot_conserves(caps, amts, s, d, p, due);
            let out = allot(caps, amts, s, d, p, due);
            lemma_range_sum_split(out, 0, s, d + 1);
            lemma_range_sum_split(amts, 0, s, d + 1);
            lemma_range_sum_agrees(out, amts, 0, s);
        },
        None => {},
    }
}

/// Places `due`, which falls due on day `d`, on the days up to `d`.
pub fn place_due(work: &mut Vec<(u32, u32)>, d: usize, due: u32)
    requires
        d < old(work).len(),
        range_sum(capacities(old(work)@), 0, d + 1) <= u32::MAX,
        due + range_sum(amounts(old(work)@), 0, d + 1) <= u32::MAX,
    ensures
        final(work).len() == old(work).len(),
        capacities(final(work)@) == capacities(old(work)@),
        amounts(final(work)@) == place(
            capacities(old(work)@),
            amounts(old(work)@),
            d as int,
            due as int,
        ),
{
    match find_window(work, d, due) {
        Some((s, p)) => {
            proof {
                lemma_range_sum_grows(amounts(work@), 0, s as int, d + 1);
                lemma_range_sum_grows(capacities(work@), 0, s as int, d + 1);
            }
            apply_window(work, s, d, p, due);
        },
        None => {},
    }
}

/// Levels the work: visits the days in order and replaces each day's due
/// amount by the amount to do on that day.
pub fn distribute(work: &mut Vec<(u32, u32)>)
    requires
        in_limits(old(work)@),
    ensures
        final(work).len() == old(work).len(),
        capacities(final(work)@) == capacities(old(work)@),
        amounts(final(work)@) == leveled(capacities(old(work)@), amounts(old(work)@)),
        settled(capacities(final(work)@), amounts(final(work)@), 0, final(work).len() as int),
        total(amounts(final(work)@)) == served(
            capacities(old(work)@),
            amounts(old(work)@),
            old(work).len() as nat,
        ),
        total(amounts(final(work)@)) <= total(amounts(old(work)@)),
        placeable(capacities(old(work)@), amounts(old(work)@)) ==> total(amounts(final(work)@))
            == total(amounts(old(work)@)),
{
    let ghost caps = capacities(work@);
    let ghost due = amounts(work@);
    proof {
        lemma_leveled_to(caps, due, due.len());
        law_served_work_is_scheduled(caps, due, due.len());
        if placeable(caps, due) {
            law_conservation(caps, due, due.len());
        }
    }
    let n: usize = work.len();
    let mut d: usize = 0;
    while d < n
        invariant
            d <= n,
            n == work.len(),
            n == due.len(),
            capacities(work@) == caps,
            total(caps) <= u32::MAX,
            total(amounts(work@)) <= u32::MAX,
            amounts(work@) == leveled_to(caps, due, d as nat),
        decreases n - d,
    {
        let ghost before = amounts(work@);
        let day: (u32, u32) = work[d];
        work.set(d, (day.0, 0));
        proof {
            assert(capacities(work@) =~= caps);
            assert(amounts(work@) =~= before.update(d as int, 0));
            let cleared = before.update(d as int, 0);
            lemma_range_sum_update(before, 0, d + 1, d as int, 0);
            lemma_range_sum_update(before, 0, n as int, d as int, 0);
            lemma_range_sum_grows(before, 0, d + 1, n as int);
            lemma_range_sum_grows(caps, 0, d + 1, n as int);
            lemma_place_total(caps, cleared, d as int, day.1 as int);
            let after = place(caps, cleared, d as int, day.1 as int);
            lemma_range_sum_split(after, 0, d + 1, n as int);
            lemma_range_sum_split(cleared, 0, d + 1, n as int);
            lemma_range_sum_agrees(after, cleared, d + 1, n as int);
        }
        place_due(work, d, day.1);
        d = d + 1;
    }
}

/// Whether the sums of the capacities and of the amounts fit, so that the
/// days can be leveled.
pub fn within_limits(work: &Vec<(u32, u32)>) -> (fits: bool)
    ensures
        fits == in_limits(work@),
{
    let mut slots: u32 = 0;
    let mut load: u32 = 0;
    let mut i: usize = 0;
    while i < work.len()
        invariant
            i <= work.len(),
            slots == range_sum(capacities(work@), 0, i as int),
            load == range_sum(amounts(work@), 0, i as int),
        decreases work.len() - i,
    {
        proof {
            lemma_range_sum_grows(capacities(work@), 0, i + 1, work.len() as int);
            lemma_range_sum_grows(amounts(work@), 0, i + 1, work.len() as int);
        }
        let day: (u32, u32) = work[i];
        if day.0 > u32::MAX - slots || day.1 > u32::MAX - load {
            return false;
        }
        slots = slots + day.0;
        load = load + day.1;
        i = i + 1;
    }
    true
}

/// Levels the days given as pairs of capacity and due amount, and returns
/// them with each due amount replaced by the amount to do on that day.
pub fn run_algorithm(a: Vec<(u32, u32)>) -> (list: Vec<(u32, u32)>)
    requires
        in_limits(a@),
    ensures
        list.len() == a.len(),
        capacities(list@) == capacities(a@),
        amounts(list@) == leveled(capacities(a@), amounts(a@)),
        settled(capacities(list@), amounts(list@), 0, list.len() as int),
        total(amounts(list@)) == served(capacities(a@), amounts(a@), a.len() as nat),
        total(amounts(list@)) <= total(amounts(a@)),
        placeable(capacities(a@), amounts(a@)) ==> total(amounts(list@)) == total(amounts(a@)),
{
    let mut list = a;
    distribute(&mut list);
    list
}

} // verus!
