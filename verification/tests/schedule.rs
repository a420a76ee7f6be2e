use leveling::engine::{distribute, place_due, run_algorithm, within_limits};

fn amounts(days: &[(u32, u32)]) -> Vec<u32> {
    days.iter().map(|day| day.1).collect()
}

fn total(days: &[(u32, u32)]) -> u64 {
    days.iter().map(|day| u64::from(day.1)).sum()
}

#[test]
fn work_due_late_is_done_as_early_as_possible() {
    let days = run_algorithm(vec![(2, 0), (1, 0), (1, 3)]);
    assert_eq!(days, vec![(2, 2), (1, 1), (1, 0)]);
}

#[test]
fn work_due_on_the_first_day_stays_there() {
    let days = run_algorithm(vec![(1, 5), (1, 0)]);
    assert_eq!(days, vec![(1, 5), (1, 0)]);
}

#[test]
fn a_later_empty_day_does_not_dilute_a_commitment() {
    let days = run_algorithm(vec![(1, 0), (1, 4), (1, 0)]);
    assert_eq!(days, vec![(1, 2), (1, 2), (1, 0)]);
}

#[test]
fn an_empty_event_blocked_by_a_high_rate_changes_nothing() {
    let mut days = vec![(1, 2), (1, 2), (1, 0)];
    place_due(&mut days, 2, 0);
    assert_eq!(days, vec![(1, 2), (1, 2), (1, 0)]);
}

#[test]
fn no_days_give_no_days() {
    assert_eq!(run_algorithm(Vec::new()), Vec::new());
}

#[test]
fn a_single_day_keeps_its_own_work() {
    assert_eq!(run_algorithm(vec![(3, 7)]), vec![(3, 7)]);
    assert_eq!(run_algorithm(vec![(5, 0)]), vec![(5, 0)]);
}

#[test]
fn distribute_changes_the_days_in_place() {
    let mut days = vec![(3, 5), (1, 7)];
    distribute(&mut days);
    assert_eq!(days, vec![(3, 9), (1, 3)]);
}

#[test]
fn the_schedule_conserves_the_work() {
    let due = vec![(4, 10), (1, 1), (2, 0), (3, 20), (1, 0)];
    let days = run_algorithm(due.clone());
    assert_eq!(days, vec![(4, 13), (1, 3), (2, 6), (3, 9), (1, 0)]);
    assert_eq!(total(&days), total(&due));
    assert_eq!(total(&days), 31);
}

#[test]
fn capacities_are_kept() {
    let due = vec![(2, 1), (3, 0), (1, 4), (0, 2), (2, 9)];
    let days = run_algorithm(due.clone());
    assert_eq!(days, vec![(2, 4), (3, 6), (1, 2), (0, 0), (2, 4)]);
    for x in 0..due.len() {
        assert_eq!(days[x].0, due[x].0);
    }
    assert_eq!(total(&days), total(&due));
}

#[test]
fn a_visited_day_is_never_lowered() {
    let due = vec![(3, 5), (2, 0), (1, 9)];
    let mut days = due.clone();
    let mut earlier: Vec<u32> = Vec::new();
    for d in 0..days.len() {
        let newly = days[d].1;
        days[d].1 = 0;
        place_due(&mut days, d, newly);
        let now = amounts(&days);
        for x in 0..earlier.len() {
            assert!(earlier[x] <= now[x]);
        }
        earlier = now[..=d].to_vec();
    }
    assert_eq!(days, vec![(3, 8), (2, 4), (1, 2)]);
    assert_eq!(days, run_algorithm(due));
}

#[test]
fn the_steps_of_a_run() {
    let mut days = vec![(3, 5), (2, 0), (1, 9)];
    days[0].1 = 0;
    place_due(&mut days, 0, 5);
    assert_eq!(days, vec![(3, 5), (2, 0), (1, 9)]);
    days[1].1 = 0;
    place_due(&mut days, 1, 0);
    assert_eq!(days, vec![(3, 5), (2, 0), (1, 9)]);
    days[2].1 = 0;
    place_due(&mut days, 2, 9);
    assert_eq!(days, vec![(3, 8), (2, 4), (1, 2)]);
}

#[test]
fn a_day_without_capacity_ends_empty() {
    let days = run_algorithm(vec![(2, 3), (0, 4), (1, 0), (2, 6)]);
    assert_eq!(days, vec![(2, 7), (0, 0), (1, 2), (2, 4)]);
    assert_eq!(days[1].1, 0);
}

#[test]
fn work_due_on_a_day_without_capacity_moves_back() {
    let days = run_algorithm(vec![(1, 0), (0, 0), (0, 3)]);
    assert_eq!(days, vec![(1, 3), (0, 0), (0, 0)]);
}

#[test]
fn work_that_no_capacity_can_serve_is_dropped() {
    assert_eq!(run_algorithm(vec![(0, 5)]), vec![(0, 0)]);
    assert_eq!(run_algorithm(vec![(0, 0), (0, 7), (2, 3)]), vec![(0, 0), (0, 0), (2, 3)]);
}

#[test]
fn nothing_due_changes_nothing() {
    let mut days = vec![(4, 13), (1, 3), (2, 6), (3, 0), (1, 0)];
    let before = days.clone();
    place_due(&mut days, 3, 0);
    assert_eq!(days, before);
    place_due(&mut days, 4, 0);
    assert_eq!(days, before);
}

#[test]
fn leftover_units_pass_over_days_without_capacity() {
    let days = run_algorithm(vec![(1, 0), (0, 0), (0, 0), (3, 7)]);
    assert_eq!(days, vec![(1, 2), (0, 0), (0, 0), (3, 5)]);
    assert_eq!(total(&days), 7);
}

#[test]
fn an_even_spread_over_equal_days() {
    let days = run_algorithm(vec![(1, 0), (1, 0), (1, 0), (1, 10)]);
    assert_eq!(days, vec![(1, 3), (1, 3), (1, 2), (1, 2)]);
}

#[test]
fn frozen_slots_protect_an_earlier_commitment() {
    assert_eq!(run_algorithm(vec![(2, 3), (3, 4)]), vec![(2, 4), (3, 3)]);
    assert_eq!(run_algorithm(vec![(3, 4), (1, 2)]), vec![(3, 5), (1, 1)]);
    assert_eq!(run_algorithm(vec![(3, 0), (2, 6), (0, 3)]), vec![(3, 7), (2, 2), (0, 0)]);
}

#[test]
fn the_largest_amounts_fit() {
    assert_eq!(run_algorithm(vec![(1, u32::MAX)]), vec![(1, u32::MAX)]);
    assert_eq!(run_algorithm(vec![(u32::MAX, u32::MAX)]), vec![(u32::MAX, u32::MAX)]);
    assert_eq!(run_algorithm(vec![(65536, u32::MAX)]), vec![(65536, u32::MAX)]);
    assert_eq!(
        run_algorithm(vec![(1, 0), (1, u32::MAX)]),
        vec![(1, 2147483648), (1, 2147483647)]
    );
}

#[test]
fn limits_are_told_apart() {
    assert!(within_limits(&Vec::new()));
    assert!(within_limits(&vec![(2, 0), (1, 0), (1, 3)]));
    assert!(within_limits(&vec![(u32::MAX, u32::MAX)]));
    assert!(within_limits(&vec![(u32::MAX - 1, 7), (1, u32::MAX - 7)]));
    assert!(!within_limits(&vec![(u32::MAX, 0), (1, 0)]));
    assert!(!within_limits(&vec![(1, u32::MAX), (1, 1)]));
    assert!(!within_limits(&vec![(1, 1), (u32::MAX, 0), (0, u32::MAX)]));
}

#[test]
fn a_new_rate_is_not_below_the_rates_already_given() {
    let before = vec![(4, 13), (1, 3), (2, 6), (3, 0), (1, 0)];
    let mut days = before.clone();
    place_due(&mut days, 3, 20);
    assert_eq!(days, vec![(4, 18), (1, 4), (2, 8), (3, 12), (1, 0)]);
    let mut highest: u32 = 0;
    for j in 1..=3 {
        let (w, a) = before[j];
        highest = highest.max((a + w - 1) / w);
    }
    assert_eq!(highest, 3);
    for i in 1..=3 {
        assert!(days[i].1 >= days[i].0 * highest);
    }
}
