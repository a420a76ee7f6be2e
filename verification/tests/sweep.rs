use leveling::engine::{place_due, run_algorithm};
use leveling::window::find_window;

struct Dice(u64);

impl Dice {
    fn roll(&mut self, sides: u32) -> u32 {
        self.0 = self.0.wrapping_mul(6364136223846793005).wrapping_add(1442695040888963407);
        ((self.0 >> 33) % u64::from(sides)) as u32
    }

    fn days(&mut self) -> Vec<(u32, u32)> {
        let n = 1 + self.roll(6);
        (0..n).map(|_| (self.roll(4), self.roll(9))).collect()
    }
}

fn total(days: &[(u32, u32)]) -> u32 {
    days.iter().map(|day| day.1).sum()
}

#[test]
fn many_schedules_conserve_what_capacity_can_serve() {
    let mut dice = Dice(7);
    for _ in 0..3000 {
        let due = dice.days();
        let days = run_algorithm(due.clone());
        assert_eq!(days.len(), due.len());
        let mut slots: u32 = 0;
        let mut served: u32 = 0;
        for d in 0..due.len() {
            assert_eq!(days[d].0, due[d].0);
            slots += due[d].0;
            if slots > 0 {
                served += due[d].1;
            }
        }
        assert_eq!(total(&days), served);
    }
}

#[test]
fn many_schedules_leave_days_without_capacity_empty() {
    let mut dice = Dice(11);
    for _ in 0..3000 {
        let days = run_algorithm(dice.days());
        for day in &days {
            if day.0 == 0 {
                assert_eq!(day.1, 0);
            }
        }
    }
}

#[test]
fn many_runs_never_lower_a_visited_day() {
    let mut dice = Dice(13);
    for _ in 0..3000 {
        let due = dice.days();
        let mut days = due.clone();
        for d in 0..days.len() {
            let before = days.clone();
            let newly = days[d].1;
            days[d].1 = 0;
            place_due(&mut days, d, newly);
            for x in 0..d {
                assert!(before[x].1 <= days[x].1);
            }
            for x in d + 1..days.len() {
                assert_eq!(before[x], days[x]);
            }
            if newly == 0 {
                assert_eq!(before, days);
            }
        }
        assert_eq!(days, run_algorithm(due));
    }
}

#[test]
fn many_searches_find_a_window_where_there_is_capacity() {
    let mut dice = Dice(17);
    for _ in 0..3000 {
        let mut days = dice.days();
        let d = days.len() - 1;
        let newly = days[d].1;
        days[d].1 = 0;
        let slots: u32 = days.iter().map(|day| day.0).sum();
        match find_window(&days, d, newly) {
            Some((s, p)) => {
                assert!(s <= d);
                assert!(p < days[s].0);
            }
            None => assert_eq!(slots, 0),
        }
    }
}

#[test]
fn many_filled_windows_keep_rates_in_order() {
    let mut dice = Dice(19);
    for _ in 0..3000 {
        let mut days = run_algorithm(dice.days());
        let d = days.len() - 1;
        let newly = dice.roll(12);
        let before = days.clone();
        if let Some((s, _)) = find_window(&days, d, newly) {
            place_due(&mut days, d, newly);
            for i in s + 1..=d {
                for j in s + 1..=d {
                    let (w, a) = before[j];
                    let committed = if w == 0 { 0 } else { (a + w - 1) / w };
                    assert!(days[i].0 * committed <= days[i].1);
                    if i < j {
                        assert!(days[j].1 * days[i].0 <= days[i].1 * days[j].0);
                    }
                }
            }
        }
    }
}
