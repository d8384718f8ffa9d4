use roster::ledger::Ledger;
use roster::output::OutputFormat;
use roster::solver::ScheduleSlot;
use roster::summary::Summary;
use roster::text::{same_text, text_before};
use roster::timerange::TimeRange;

const HOUR: i64 = 3_600;

fn slot(start: i64, end: i64, human: Option<&str>) -> ScheduleSlot {
    ScheduleSlot { time: TimeRange::new(start, end), human: human.map(|name| name.to_string()) }
}

fn entries(ledger: &Ledger) -> Vec<(&str, i64)> {
    ledger.entries.iter().map(|entry| (entry.name.as_str(), entry.value)).collect()
}

#[test]
fn summary_counts_workload_runs_and_ended_runs() {
    let schedule = vec![
        slot(0, 2 * HOUR, Some("amy")),
        slot(2 * HOUR, 5 * HOUR, Some("amy")),
        slot(5 * HOUR, 6 * HOUR, None),
        slot(6 * HOUR, 10 * HOUR, Some("bob")),
        slot(10 * HOUR, 11 * HOUR, Some("amy")),
    ];
    let summary = Summary::from(&schedule);
    assert_eq!(
        entries(&summary.workload),
        vec![("amy", 6 * HOUR), ("UNASSIGNED", HOUR), ("bob", 4 * HOUR)]
    );
    assert_eq!(
        entries(&summary.longest_shift),
        vec![("amy", 5 * HOUR), ("UNASSIGNED", HOUR), ("bob", 4 * HOUR)]
    );
    // The run that the schedule ends with is not counted.
    assert_eq!(summary.shift_length_histogram, vec![(5, 1), (1, 1), (4, 1)]);
    assert_eq!(summary.workload_stats(), (1, 3, 6));
    assert_eq!(summary.longest_shift_stats(), (1, 3, 5));
    assert_eq!(Summary::stats(&summary.workload), (1, 6, 3));
}

#[test]
fn summary_counts_equal_runs_together() {
    let schedule = vec![
        slot(0, HOUR, Some("amy")),
        slot(HOUR, 2 * HOUR, Some("bob")),
        slot(2 * HOUR, 3 * HOUR + 1_800, Some("amy")),
        slot(4 * HOUR, 5 * HOUR, Some("bob")),
    ];
    let summary = Summary::from(&schedule);
    assert_eq!(summary.shift_length_histogram, vec![(1, 3)]);
    assert_eq!(entries(&summary.longest_shift), vec![("amy", HOUR + 1_800), ("bob", HOUR)]);
}

#[test]
fn summary_of_nothing_is_empty() {
    let summary = Summary::from(&[]);
    assert_eq!(summary.workload.len(), 0);
    assert_eq!(summary.longest_shift.len(), 0);
    assert!(summary.shift_length_histogram.is_empty());
}

#[test]
fn ledger_keeps_one_amount_for_each_name() {
    let mut ledger = Ledger::new();
    assert_eq!(ledger.len(), 0);
    assert_eq!(ledger.min_value(), 0);
    assert_eq!(ledger.max_value(), 0);
    assert_eq!(ledger.get("a"), None);
    ledger.set("a", 5);
    ledger.set("b", -7);
    ledger.set("a", 9);
    assert_eq!(ledger.len(), 2);
    assert_eq!(ledger.get("a"), Some(9));
    assert_eq!(ledger.get("b"), Some(-7));
    assert_eq!(ledger.get("c"), None);
    assert_eq!(ledger.min_value(), -7);
    assert_eq!(ledger.max_value(), 9);
    assert_eq!(entries(&ledger), vec![("a", 9), ("b", -7)]);
    assert!(ledger.check());
}

#[test]
fn identifiers_are_ordered_as_strings() {
    assert!(same_text("amy", "amy"));
    assert!(!same_text("amy", "amz"));
    assert!(!same_text("amy", "am"));
    assert!(same_text("", ""));
    let names = ["", "a", "ab", "b", "alice@example.com", "Zed", "zed", "é", "日本", "z\u{10000}", "zz"];
    for a in names {
        for b in names {
            assert_eq!(text_before(a, b), a < b, "{a:?} before {b:?}");
            assert_eq!(same_text(a, b), a == b);
        }
    }
}

#[test]
fn output_formats() {
    assert_eq!(OutputFormat::default(), OutputFormat::Human);
    assert_eq!(OutputFormat::Silent.name(), "none");
    assert_eq!(OutputFormat::Human.name(), "human");
    assert_eq!(OutputFormat::Json.name(), "json");
    assert_eq!(OutputFormat::Csv.name(), "csv");
}

#[test]
fn entries_listed_by_hours() {
    let mut ledger = Ledger::new();
    ledger.set("a", 2 * HOUR);
    ledger.set("b", 5 * HOUR);
    ledger.set("c", 2 * HOUR + 59);
    ledger.set("d", 7 * HOUR);
    ledger.set("e", 5 * HOUR + 1);
    assert_eq!(Summary::by_hours(&ledger), vec![3, 1, 4, 0, 2]);
    assert_eq!(Summary::by_hours(&Ledger::new()), Vec::<usize>::new());
}
