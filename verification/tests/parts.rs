use leveling::allot::apply_window;
use leveling::ranges::{sum_amounts, sum_capacities};
use leveling::slots::{free_part, head_floor, rate_ceiling};
use leveling::window::{find_window, max_rate_in};

#[test]
fn the_free_part_of_a_day() {
    assert_eq!(free_part(3, 5, 0), 5);
    assert_eq!(free_part(3, 5, 1), 3);
    assert_eq!(free_part(3, 5, 2), 1);
    assert_eq!(free_part(2, 3, 1), 1);
    assert_eq!(free_part(4, 0, 3), 0);
    assert_eq!(free_part(1, 9, 0), 9);
}

#[test]
fn the_floor_of_a_first_day() {
    assert_eq!(head_floor(3, 5, 0), 3);
    assert_eq!(head_floor(3, 5, 1), 2);
    assert_eq!(head_floor(3, 5, 2), 1);
    assert_eq!(head_floor(1, 2, 0), 2);
    assert_eq!(head_floor(4, 0, 0), 0);
}

#[test]
fn the_rounded_up_rate_of_a_day() {
    assert_eq!(rate_ceiling(3, 5), 2);
    assert_eq!(rate_ceiling(3, 6), 2);
    assert_eq!(rate_ceiling(3, 7), 3);
    assert_eq!(rate_ceiling(4, 0), 0);
    assert_eq!(rate_ceiling(0, 5), 0);
    assert_eq!(rate_ceiling(1, u32::MAX), u32::MAX);
}

#[test]
fn sums_over_ranges_of_days() {
    let days = vec![(4, 13), (1, 3), (2, 6), (3, 9), (1, 0)];
    assert_eq!(sum_capacities(&days, 0, 5), 11);
    assert_eq!(sum_capacities(&days, 1, 4), 6);
    assert_eq!(sum_capacities(&days, 2, 2), 0);
    assert_eq!(sum_amounts(&days, 0, 5), 31);
    assert_eq!(sum_amounts(&days, 1, 3), 9);
    assert_eq!(sum_amounts(&days, 5, 5), 0);
}

#[test]
fn the_highest_rate_of_a_range() {
    let days = vec![(4, 13), (1, 3), (2, 7), (0, 9), (3, 1)];
    assert_eq!(max_rate_in(&days, 0, 5), 4);
    assert_eq!(max_rate_in(&days, 1, 2), 3);
    assert_eq!(max_rate_in(&days, 3, 5), 1);
    assert_eq!(max_rate_in(&days, 3, 4), 0);
    assert_eq!(max_rate_in(&days, 2, 2), 0);
}

#[test]
fn the_widest_window_is_found_first() {
    assert_eq!(find_window(&vec![(2, 0), (1, 0), (1, 0)], 2, 3), Some((0, 0)));
    assert_eq!(find_window(&vec![(1, 0), (1, 0)], 1, 4), Some((0, 0)));
}

#[test]
fn the_window_narrows_past_a_committed_day() {
    assert_eq!(find_window(&vec![(1, 2), (1, 2), (1, 0)], 2, 0), Some((2, 0)));
    assert_eq!(find_window(&vec![(1, 5), (1, 0)], 1, 0), Some((1, 0)));
}

#[test]
fn the_window_freezes_slots_of_its_first_day() {
    assert_eq!(find_window(&vec![(2, 3), (3, 0)], 1, 4), Some((0, 1)));
    assert_eq!(find_window(&vec![(3, 5), (3, 0), (3, 1)], 1, 3), Some((0, 2)));
    assert_eq!(find_window(&vec![(0, 0), (3, 2), (2, 0)], 2, 1), Some((1, 2)));
}

#[test]
fn the_window_depends_on_what_is_due() {
    let days = vec![(4, 13), (1, 3), (2, 6), (3, 0), (1, 0)];
    assert_eq!(find_window(&days, 3, 0), Some((3, 0)));
    assert_eq!(find_window(&days, 3, 5), Some((3, 0)));
    assert_eq!(find_window(&days, 3, 9), Some((0, 1)));
    assert_eq!(find_window(&days, 3, 20), Some((0, 0)));
}

#[test]
fn no_window_without_capacity() {
    assert_eq!(find_window(&vec![(0, 0)], 0, 5), None);
    assert_eq!(find_window(&vec![(0, 0), (0, 0), (4, 0)], 1, 2), None);
}

#[test]
fn a_window_is_filled_at_its_rate() {
    let mut days = vec![(2, 0), (1, 0), (1, 0)];
    apply_window(&mut days, 0, 2, 0, 3);
    assert_eq!(days, vec![(2, 2), (1, 1), (1, 0)]);

    let mut days = vec![(3, 5), (1, 0)];
    apply_window(&mut days, 0, 1, 0, 7);
    assert_eq!(days, vec![(3, 9), (1, 3)]);
}

#[test]
fn frozen_slots_keep_their_load() {
    let mut days = vec![(2, 3), (3, 0)];
    apply_window(&mut days, 0, 1, 1, 4);
    assert_eq!(days, vec![(2, 4), (3, 3)]);
}

#[test]
fn a_window_leaves_the_days_outside_it() {
    let mut days = vec![(5, 9), (1, 2), (1, 0), (7, 4)];
    apply_window(&mut days, 1, 2, 0, 0);
    assert_eq!(days, vec![(5, 9), (1, 1), (1, 1), (7, 4)]);
}
