use roster::config::{Config, Human};
use roster::constraints::Constraint;
use roster::factors::{Candidate, Cost, COST_SCALE};
use roster::solver::{assign, possible_coverage, ScheduleSlot, Scheduler};
use roster::summary::Summary;
use roster::time::{timestamp, ClockTime, Date, Weekday};
use roster::timerange::TimeRange;

fn midnight(year: i32, month: u32, day: u32) -> i64 {
    timestamp(year, month, day, 0, 0, 0).unwrap()
}

fn person(name: &str, constraints: Vec<Constraint>) -> (String, Human) {
    (name.to_string(), Human::default().with_constraints(constraints))
}

fn year_config() -> Config {
    Config {
        shift_length: 86_400,
        constraints: vec![
            Constraint::DayOfWeek(vec![
                Weekday::Mon,
                Weekday::Tue,
                Weekday::Wed,
                Weekday::Thu,
                Weekday::Fri,
            ]),
            Constraint::TimeOfDay {
                start: ClockTime::from_hms(9, 0, 0).unwrap(),
                end: ClockTime::from_hms(17, 0, 0).unwrap(),
            },
        ],
        humans: vec![
            person(
                "alice@example.com",
                vec![Constraint::DayOfWeek(vec![Weekday::Mon, Weekday::Wed, Weekday::Fri])],
            ),
            person(
                "bob@example.com",
                vec![Constraint::Unavailable {
                    start: Date::from_ymd(2022, 12, 23).unwrap(),
                    end: Date::from_ymd(2023, 1, 2).unwrap(),
                }],
            ),
            person("claire@example.com", vec![Constraint::Unconstrained]),
        ],
    }
}

#[test]
fn test_schedule() {
    let config = year_config();

    let schedule = Scheduler::new(&config).schedule(midnight(2023, 1, 1), midnight(2023, 12, 31));

    assert!(
        schedule.iter().all(|slot| slot.human.is_some()),
        "all slots must be filled"
    );

    let summary = Summary::from(&schedule);

    let (min, _, max) = summary.workload_stats();
    assert!(
        (max - min) <= 16,
        "assignments should be within 2 shifts of each other"
    );

    let (_, _, max) = summary.longest_shift_stats();
    assert_eq!(max, 8, "the longest shift should be 8 hours",);
}

#[test]
fn schedule_is_the_same_on_every_run() {
    let config = year_config();
    let first = Scheduler::new(&config).schedule(midnight(2023, 1, 1), midnight(2023, 12, 31));
    let second = Scheduler::new(&config).schedule(midnight(2023, 1, 1), midnight(2023, 12, 31));
    assert_eq!(first.len(), 260);
    assert_eq!(first, second);
}

#[test]
fn schedule_does_not_depend_on_the_order_of_people() {
    let config = year_config();
    let mut reversed = year_config();
    reversed.humans.reverse();
    let first = Scheduler::new(&config).schedule(midnight(2023, 1, 1), midnight(2023, 3, 1));
    let second = Scheduler::new(&reversed).schedule(midnight(2023, 1, 1), midnight(2023, 3, 1));
    assert_eq!(first, second);
}

#[test]
fn schedule_starts_as_expected() {
    let config = year_config();
    let schedule = Scheduler::new(&config).schedule(midnight(2023, 1, 1), midnight(2023, 1, 8));
    let slot = |day: u32, name: &str| ScheduleSlot {
        time: TimeRange::new(
            timestamp(2023, 1, day, 9, 0, 0).unwrap(),
            timestamp(2023, 1, day, 17, 0, 0).unwrap(),
        ),
        human: Some(name.to_string()),
    };
    // Bob is away on the first Monday; on Tuesday Alice is not available and
    // the tie between Bob and Claire goes to the first identifier.
    let expected = vec![
        slot(2, "alice@example.com"),
        slot(3, "bob@example.com"),
        slot(4, "claire@example.com"),
        slot(5, "bob@example.com"),
        slot(6, "alice@example.com"),
    ];
    assert_eq!(schedule, expected);
}

#[test]
fn empty_constraints_yield_one_slot() {
    let config = Config {
        shift_length: 86_400,
        constraints: vec![],
        humans: vec![person("dora", vec![])],
    };
    let start = midnight(2023, 1, 1);
    let end = midnight(2023, 2, 1);
    let schedule = Scheduler::new(&config).schedule(start, end);
    assert_eq!(
        schedule,
        vec![ScheduleSlot { time: TimeRange::new(start, end), human: Some("dora".to_string()) }]
    );
}

#[test]
fn nobody_configured_leaves_slots_unassigned() {
    let config = Config {
        shift_length: 86_400,
        constraints: vec![Constraint::TimeOfDay {
            start: ClockTime::from_hms(9, 0, 0).unwrap(),
            end: ClockTime::from_hms(17, 0, 0).unwrap(),
        }],
        humans: vec![],
    };
    let schedule = Scheduler::new(&config).schedule(midnight(2023, 1, 1), midnight(2023, 1, 4));
    assert_eq!(schedule.len(), 3);
    assert!(schedule.iter().all(|slot| slot.human.is_none()));
}

#[test]
fn everybody_unavailable_leaves_slot_unassigned() {
    let away = Constraint::Unavailable {
        start: Date::from_ymd(2023, 1, 2).unwrap(),
        end: Date::from_ymd(2023, 1, 2).unwrap(),
    };
    let config = Config {
        shift_length: 86_400,
        constraints: vec![Constraint::TimeOfDay {
            start: ClockTime::from_hms(9, 0, 0).unwrap(),
            end: ClockTime::from_hms(17, 0, 0).unwrap(),
        }],
        humans: vec![person("ed", vec![away.clone()]), person("flo", vec![away])],
    };
    let schedule = Scheduler::new(&config).schedule(midnight(2023, 1, 1), midnight(2023, 1, 4));
    let humans: Vec<Option<String>> = schedule.iter().map(|slot| slot.human.clone()).collect();
    // After the gap nobody holds a run, and Flo has worked less than Ed.
    assert_eq!(humans, vec![Some("ed".to_string()), None, Some("flo".to_string())]);
}

#[test]
fn shift_length_below_a_day_counts_as_one_day() {
    for shift_length in [0, -5, 3_600, -86_400] {
        let mut config = year_config();
        config.shift_length = shift_length;
        assert_eq!(config.rotation_days(), 1);
        let schedule = Scheduler::new(&config).schedule(midnight(2023, 1, 1), midnight(2023, 1, 8));
        assert_eq!(schedule.len(), 5);
    }
}

#[test]
fn rotation_groups_ranges_by_count() {
    let mut config = year_config();
    config.shift_length = 2 * 86_400;
    assert_eq!(config.rotation_days(), 2);
    config.humans = vec![person("gil", vec![]), person("hal", vec![])];
    let schedule = Scheduler::new(&config).schedule(midnight(2023, 1, 1), midnight(2023, 1, 8));
    let humans: Vec<&str> = schedule.iter().map(|slot| slot.human.as_deref().unwrap()).collect();
    // Two slots to a rotation; the fifth slot is a rotation of its own.
    assert_eq!(humans, vec!["gil", "gil", "hal", "hal", "gil"]);
}

#[test]
fn availability_is_exact_membership() {
    let slots = vec![
        TimeRange::new(midnight(2023, 1, 2), midnight(2023, 1, 3)),
        TimeRange::new(midnight(2023, 1, 3), midnight(2023, 1, 5)),
    ];
    // 2023-01-02 is a Monday. The second slot spans Tuesday and Wednesday,
    // so Wednesday alone does not leave it unchanged.
    let constraints = vec![Constraint::DayOfWeek(vec![Weekday::Mon, Weekday::Wed])];
    assert_eq!(possible_coverage(&constraints, &slots), vec![true, false]);
    assert_eq!(possible_coverage(&vec![], &slots), vec![true, true]);
}

fn candidate<'a>(name: &'a str, available: Vec<bool>, cost: u128) -> Candidate<'a> {
    let mut candidate = Candidate::new(name, available);
    candidate.add_factor("test", Cost { cost, weight: 1 });
    candidate
}

#[test]
fn greedy_assignment_respects_availability() {
    let slots = vec![TimeRange::new(0, 10), TimeRange::new(10, 20), TimeRange::new(20, 30)];
    let candidates = vec![
        candidate("zed", vec![true, true, false], 10),
        candidate("amy", vec![false, true, false], 20),
    ];
    let out = assign(&candidates, &slots);
    let humans: Vec<Option<String>> = out.iter().map(|slot| slot.human.clone()).collect();
    assert_eq!(humans, vec![Some("zed".to_string()), Some("zed".to_string()), None]);
    let times: Vec<TimeRange> = out.iter().map(|slot| slot.time).collect();
    assert_eq!(times, slots);
}

#[test]
fn greedy_assignment_prefers_lower_cost_then_name() {
    let slots = vec![TimeRange::new(0, 10), TimeRange::new(10, 20)];
    let candidates = vec![
        candidate("zed", vec![true, true], 30),
        candidate("bea", vec![false, true], 20),
        candidate("amy", vec![false, true], 20),
    ];
    let out = assign(&candidates, &slots);
    let humans: Vec<Option<String>> = out.iter().map(|slot| slot.human.clone()).collect();
    assert_eq!(humans, vec![Some("zed".to_string()), Some("amy".to_string())]);
}

#[test]
fn short_availability_vector_counts_as_unavailable() {
    let slots = vec![TimeRange::new(0, 10), TimeRange::new(10, 20)];
    let candidates = vec![candidate("amy", vec![true], 0)];
    let out = assign(&candidates, &slots);
    let humans: Vec<Option<String>> = out.iter().map(|slot| slot.human.clone()).collect();
    assert_eq!(humans, vec![Some("amy".to_string()), None]);
}

#[test]
fn candidate_cost_is_weighted_average() {
    let mut candidate = Candidate::new("amy", vec![true]);
    assert!(candidate.is_available());
    assert_eq!(candidate.cost(), 0);
    candidate.add_factor("a", Cost { cost: COST_SCALE, weight: 1 });
    candidate.add_factor("b", Cost { cost: 0, weight: 3 });
    assert_eq!(candidate.cost(), COST_SCALE / 4);
    candidate.add_factor("a", Cost { cost: COST_SCALE / 2, weight: 5 });
    assert_eq!(candidate.factors.len(), 2);
    assert_eq!(candidate.cost(), COST_SCALE * 5 / 16);
    assert!(!Candidate::new("bob", vec![false, false]).is_available());
}

#[test]
fn scheduling_step_by_step_agrees_with_schedule() {
    let config = year_config();
    let (start, end) = (midnight(2023, 1, 1), midnight(2023, 4, 1));
    let whole = Scheduler::new(&config).schedule(start, end);

    let mut scheduler = Scheduler::new(&config).with_debug();
    assert!(scheduler.debug);
    let eligible = scheduler.eligible(start, end);
    assert_eq!(eligible.len(), 65);
    let mut steps = Vec::new();
    for rotation in eligible.chunks(1) {
        let candidates = scheduler.candidates(rotation);
        assert!(candidates.len() == 2 || candidates.len() == 3);
        let assignments = assign(&candidates, rotation);
        assert_eq!(assignments, scheduler.schedule_rotation(rotation));
        assert!(scheduler.has_room(rotation[0].len()));
        scheduler.record(&assignments);
        steps.extend(assignments);
    }
    assert_eq!(steps, whole);
}

#[test]
fn scheduling_again_goes_on_from_what_is_remembered() {
    let config = year_config();
    let (start, middle, end) = (midnight(2023, 1, 1), midnight(2023, 2, 5), midnight(2023, 4, 1));
    let whole = Scheduler::new(&config).schedule(start, end);
    let mut scheduler = Scheduler::new(&config);
    // 2023-02-05 is a Sunday: no slot spans the middle.
    let mut halves = scheduler.schedule(start, middle);
    halves.extend(scheduler.schedule(middle, end));
    assert_eq!(halves, whole);
}
