use roster::config::{Config, Human};
use roster::factors::coverage::Coverage;
use roster::factors::length::Length;
use roster::factors::recency::Recency;
use roster::factors::workload::Workload;
use roster::factors::{all, standing_cost, Candidate, Cost, Optimizer, COST_SCALE};
use roster::ledger::Ledger;
use roster::solver::ScheduleSlot;
use roster::timerange::TimeRange;

const HOUR: i64 = 3_600;

fn config() -> Config {
    Config {
        shift_length: 86_400,
        constraints: vec![],
        humans: vec![
            ("amy".to_string(), Human::default().with_prior_workload(HOUR)),
            ("bob".to_string(), Human::default()),
        ],
    }
}

fn slot(start: i64, end: i64, human: Option<&str>) -> ScheduleSlot {
    ScheduleSlot { time: TimeRange::new(start, end), human: human.map(|name| name.to_string()) }
}

#[test]
fn factor_names_and_weights() {
    let config = config();
    assert_eq!(Coverage::init(&config).name(), "coverage");
    assert_eq!(Coverage::init(&config).weight(), 5);
    assert_eq!(Length::init(&config).name(), "length");
    assert_eq!(Length::init(&config).weight(), 100);
    assert_eq!(Recency::init(&config).name(), "recency");
    assert_eq!(Recency::init(&config).weight(), 1);
    assert_eq!(Workload::init(&config).name(), "workload");
    assert_eq!(Workload::init(&config).weight(), 5);
}

#[test]
fn coverage_is_the_share_not_covered() {
    let config = config();
    let factor = Coverage::init(&config);
    let slots = vec![TimeRange::new(0, 10), TimeRange::new(10, 40)];
    let first = Candidate::new("amy", vec![true, false]);
    assert_eq!(factor.cost(&config, &slots, &first), Some(COST_SCALE * 3 / 4));
    let second = Candidate::new("amy", vec![false, true]);
    assert_eq!(factor.cost(&config, &slots, &second), Some(COST_SCALE / 4));
    let both = Candidate::new("amy", vec![true, true]);
    assert_eq!(factor.cost(&config, &slots, &both), Some(0));
    let third = Candidate::new("amy", vec![true, true, true]);
    assert_eq!(factor.cost(&config, &slots, &third), Some(0));
}

#[test]
fn coverage_abstains_without_cover() {
    let config = config();
    let factor = Coverage::init(&config);
    let slots = vec![TimeRange::new(0, 10), TimeRange::new(10, 40)];
    assert_eq!(factor.cost(&config, &slots, &Candidate::new("amy", vec![false, false])), None);
    assert_eq!(factor.cost(&config, &slots, &Candidate::new("amy", vec![])), None);
    assert_eq!(factor.cost(&config, &[], &Candidate::new("amy", vec![true])), None);
    let empty = vec![TimeRange::new(5, 5)];
    assert_eq!(factor.cost(&config, &empty, &Candidate::new("amy", vec![true])), None);
}

#[test]
fn length_holds_the_run_to_the_shift_length() {
    let config = config();
    let mut factor = Length::init(&config);
    assert_eq!(factor.limit, 86_400);
    let amy = Candidate::new("amy", vec![true]);
    let bob = Candidate::new("bob", vec![true]);
    assert_eq!(factor.cost(&config, &[], &amy), None);

    factor.update(&slot(0, 8 * HOUR, Some("amy")));
    assert_eq!(factor.cost(&config, &[], &amy), Some(COST_SCALE / 3));
    assert_eq!(factor.cost(&config, &[], &bob), Some(0));

    factor.update(&slot(8 * HOUR, 16 * HOUR, Some("amy")));
    assert_eq!(factor.cost(&config, &[], &amy), Some(COST_SCALE * 2 / 3));

    factor.update(&slot(16 * HOUR, 32 * HOUR, Some("amy")));
    // The run of 32 hours exceeds the shift of 24: the cost goes above 1.
    assert_eq!(factor.cost(&config, &[], &amy), Some(COST_SCALE * 32 / 24));

    factor.update(&slot(32 * HOUR, 40 * HOUR, Some("bob")));
    assert_eq!(factor.cost(&config, &[], &amy), Some(0));
    assert_eq!(factor.cost(&config, &[], &bob), Some(COST_SCALE / 3));

    factor.update(&slot(40 * HOUR, 48 * HOUR, None));
    assert_eq!(factor.cost(&config, &[], &amy), None);
    assert_eq!(factor.cost(&config, &[], &bob), None);
}

#[test]
fn length_limit_is_at_least_a_day() {
    let mut config = config();
    config.shift_length = 0;
    assert_eq!(Length::init(&config).limit, 86_400);
    config.shift_length = -3 * 86_400;
    assert_eq!(Length::init(&config).limit, 3 * 86_400);
    config.shift_length = 2 * 86_400 + 5;
    assert_eq!(Length::init(&config).limit, 2 * 86_400);
}

#[test]
fn recency_prefers_who_was_assigned_longer_ago() {
    let config = config();
    let mut factor = Recency::init(&config);
    let amy = Candidate::new("amy", vec![true]);
    let bob = Candidate::new("bob", vec![true]);
    let zed = Candidate::new("zed", vec![true]);
    assert_eq!(factor.cost(&config, &[], &amy), None);

    factor.update(&slot(100, 400, Some("amy")));
    assert_eq!(factor.cost(&config, &[], &amy), Some(COST_SCALE));
    assert_eq!(factor.cost(&config, &[], &bob), Some(0));
    assert_eq!(factor.cost(&config, &[], &zed), None);

    factor.update(&slot(400, 500, None));
    factor.update(&slot(500, 1_600, Some("zed")));
    assert_eq!(factor.cost(&config, &[], &amy), Some(COST_SCALE / 4));
    assert_eq!(factor.cost(&config, &[], &bob), Some(0));
    assert_eq!(factor.cost(&config, &[], &zed), Some(COST_SCALE));
}

#[test]
fn workload_starts_from_prior_workload() {
    let config = config();
    let mut factor = Workload::init(&config);
    let amy = Candidate::new("amy", vec![true]);
    let bob = Candidate::new("bob", vec![true]);
    assert_eq!(factor.cost(&config, &[], &amy), Some(COST_SCALE));
    assert_eq!(factor.cost(&config, &[], &bob), Some(0));

    factor.update(&slot(0, HOUR / 2, Some("bob")));
    assert_eq!(factor.cost(&config, &[], &amy), Some(COST_SCALE));
    assert_eq!(factor.cost(&config, &[], &bob), Some(0));

    // A person not seen before starts from nothing.
    factor.update(&slot(HOUR / 2, HOUR * 3 / 4, Some("cat")));
    assert_eq!(factor.workload.get("cat"), Some(HOUR / 4));
    assert_eq!(factor.cost(&config, &[], &bob), Some(COST_SCALE / 3));

    factor.update(&slot(HOUR, 2 * HOUR, None));
    assert_eq!(factor.cost(&config, &[], &bob), Some(COST_SCALE / 3));

    factor.update(&slot(2 * HOUR, 2 * HOUR + HOUR / 2, Some("bob")));
    factor.update(&slot(3 * HOUR, 3 * HOUR + HOUR * 3 / 4, Some("cat")));
    assert_eq!(factor.workload.get("cat"), Some(HOUR));
    assert_eq!(factor.workload.get("amy"), Some(HOUR));
    assert_eq!(factor.workload.get("bob"), Some(HOUR));
    assert_eq!(factor.cost(&config, &[], &amy), None);
}

#[test]
fn populate_files_the_cost_unless_abstaining() {
    let config = config();
    let slots = vec![TimeRange::new(0, 10)];
    let mut candidate = Candidate::new("amy", vec![true]);
    Length::init(&config).populate(&config, &slots, &mut candidate);
    assert!(candidate.factors.is_empty());
    Coverage::init(&config).populate(&config, &slots, &mut candidate);
    assert_eq!(candidate.factors, vec![("coverage", Cost { cost: 0, weight: 5 })]);
}

#[test]
fn all_factors_score_in_order() {
    let config = config();
    let mut factors = all(&config);
    assert!(factors.check());
    let slots = vec![TimeRange::new(0, 8 * HOUR)];
    let mut amy = Candidate::new("amy", vec![true]);
    factors.populate(&config, &slots, &mut amy);
    assert_eq!(
        amy.factors,
        vec![
            ("coverage", Cost { cost: 0, weight: 5 }),
            ("workload", Cost { cost: COST_SCALE, weight: 5 }),
        ]
    );
    assert_eq!(amy.cost(), COST_SCALE / 2);

    factors.update(&slot(0, 8 * HOUR, Some("bob")));
    let mut bob = Candidate::new("bob", vec![true]);
    factors.populate(&config, &slots, &mut bob);
    assert_eq!(
        bob.factors,
        vec![
            ("coverage", Cost { cost: 0, weight: 5 }),
            ("length", Cost { cost: COST_SCALE / 3, weight: 100 }),
            ("recency", Cost { cost: COST_SCALE, weight: 1 }),
            ("workload", Cost { cost: COST_SCALE, weight: 5 }),
        ]
    );
    assert_eq!(bob.cost(), (COST_SCALE / 3 * 100 + COST_SCALE * 6) / 111);
}

#[test]
fn standing_between_least_and_greatest() {
    let mut ledger = Ledger::new();
    assert_eq!(standing_cost(&ledger, "a"), None);
    ledger.set("a", -10);
    assert_eq!(standing_cost(&ledger, "a"), None);
    ledger.set("b", 30);
    ledger.set("c", 0);
    assert_eq!(standing_cost(&ledger, "a"), Some(0));
    assert_eq!(standing_cost(&ledger, "b"), Some(COST_SCALE));
    assert_eq!(standing_cost(&ledger, "c"), Some(COST_SCALE / 4));
    assert_eq!(standing_cost(&ledger, "d"), None);
    ledger.set("e", i64::MAX);
    ledger.set("f", i64::MIN);
    assert_eq!(standing_cost(&ledger, "e"), Some(COST_SCALE));
    assert_eq!(standing_cost(&ledger, "f"), Some(0));
}
