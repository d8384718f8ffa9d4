use roster::config::{Config, Human};
use roster::constraints::{check_constraints, Constraint};
use roster::solver::Scheduler;
use roster::time::{
    is_valid_timestamp, ClockTime, Date, Weekday, MAX_DAY, MAX_DURATION, MAX_TIMESTAMP,
    MIN_TIMESTAMP,
};
use roster::timerange::TimeRange;

#[test]
fn human_builders() {
    let human = Human::default();
    assert!(human.constraints.is_empty());
    assert_eq!(human.prior_workload, 0);
    let human = human
        .with_constraints(vec![Constraint::DayOfWeek(vec![Weekday::Mon])])
        .with_prior_workload(7_200);
    assert_eq!(human.constraints.len(), 1);
    assert_eq!(human.prior_workload, 7_200);
    assert!(human.check());
    let copy = human.clone();
    assert_eq!(copy.prior_workload, 7_200);
    assert!(matches!(&copy.constraints[0], Constraint::DayOfWeek(days) if days == &vec![Weekday::Mon]));
}

#[test]
fn config_checks_its_values() {
    let mut config = Config {
        shift_length: 86_400,
        constraints: vec![Constraint::Unconstrained],
        humans: vec![("amy".to_string(), Human::default())],
    };
    assert!(config.check());
    assert!(Scheduler::new(&config).check());
    assert!(Scheduler::new(&config).has_room(MAX_TIMESTAMP - MIN_TIMESTAMP));
    assert!(!Scheduler::new(&config).with_debug().has_room(i64::MAX));
    let copy = config.clone();
    assert_eq!(copy.shift_length, 86_400);
    assert_eq!(copy.humans[0].0, "amy");

    config.humans[0].1.prior_workload = -1;
    assert!(!config.check());
    config.humans[0].1.prior_workload = MAX_DURATION + 1;
    assert!(!config.check());
    config.humans[0].1.prior_workload = MAX_DURATION;
    assert!(config.check());
    assert!(Scheduler::new(&config).has_room(MAX_TIMESTAMP - MIN_TIMESTAMP));

    config.shift_length = MAX_DURATION + 1;
    assert!(!config.check());
    config.shift_length = -MAX_DURATION;
    assert!(config.check());
    assert_eq!(config.rotation_days(), 106_751_991_167);

    config.constraints.push(Constraint::TimeOfDay {
        start: ClockTime { secs: 86_400 },
        end: ClockTime { secs: 0 },
    });
    assert!(!config.check());
}

#[test]
fn constraints_check_their_values() {
    let day = |days: i64| Date { days };
    assert!(Constraint::Unconstrained.check());
    assert!(Constraint::DayOfWeek(vec![]).check());
    assert!(Constraint::Unavailable { start: day(3), end: day(3) }.check());
    assert!(!Constraint::Unavailable { start: day(4), end: day(3) }.check());
    assert!(!Constraint::Unavailable { start: day(3), end: day(MAX_DAY + 1) }.check());
    assert!(Constraint::TimeOfDay { start: ClockTime { secs: 86_399 }, end: ClockTime { secs: 0 } }.check());
    assert!(!Constraint::TimeOfDay { start: ClockTime { secs: 0 }, end: ClockTime { secs: 90_000 } }.check());
    assert!(check_constraints(&vec![]));
    assert!(!check_constraints(&vec![
        Constraint::Unconstrained,
        Constraint::Unavailable { start: day(4), end: day(3) },
    ]));
}

#[test]
fn ranges_check_their_values() {
    assert!(TimeRange::new(0, 0).check());
    assert!(TimeRange::new(MIN_TIMESTAMP, MAX_TIMESTAMP).check());
    assert!(!TimeRange::new(MIN_TIMESTAMP - 1, 0).check());
    assert!(!TimeRange::new(0, MAX_TIMESTAMP + 1).check());
    assert!(!TimeRange::new(5, 4).check());
    assert!(is_valid_timestamp(MAX_TIMESTAMP));
    assert!(!is_valid_timestamp(MAX_TIMESTAMP + 1));
}

#[test]
fn ranges_sort_by_start_then_end() {
    let a = TimeRange::new(1, 5);
    assert!(a.precedes(&TimeRange::new(2, 3)));
    assert!(a.precedes(&TimeRange::new(1, 6)));
    assert!(!a.precedes(&TimeRange::new(1, 5)));
    assert!(!a.precedes(&TimeRange::new(0, 9)));
    assert!(a < TimeRange::new(1, 6));
    assert!(a < TimeRange::new(2, 3));
}

#[test]
fn schedule_at_the_ends_of_the_calendar() {
    let config = Config {
        shift_length: 86_400,
        constraints: vec![
            Constraint::DayOfWeek(vec![Weekday::Sat, Weekday::Sun]),
            Constraint::TimeOfDay { start: ClockTime { secs: 61_200 }, end: ClockTime { secs: 32_400 } },
        ],
        humans: vec![("amy".to_string(), Human::default())],
    };
    let late = Scheduler::new(&config).schedule(MAX_TIMESTAMP - 14 * 86_400, MAX_TIMESTAMP);
    assert!(!late.is_empty());
    assert!(late.iter().all(|slot| slot.time.check() && slot.human.is_some()));
    let early = Scheduler::new(&config).schedule(MIN_TIMESTAMP, MIN_TIMESTAMP + 14 * 86_400);
    assert!(!early.is_empty());
    assert!(early.iter().all(|slot| slot.time.check() && slot.human.is_some()));
}
