use roster::constraints::{apply_constraints, Constraint};
use roster::time::{timestamp, ClockTime, Date, Weekday};
use roster::timerange::TimeRange;

fn date_time(year: i32, month: u32, day: u32, hour: u32, min: u32, sec: u32) -> i64 {
    timestamp(year, month, day, hour, min, sec).unwrap()
}

fn midnight(year: i32, month: u32, day: u32) -> i64 {
    date_time(year, month, day, 0, 0, 0)
}

fn date(year: i32, month: u32, day: u32) -> Date {
    Date::from_ymd(year, month, day).unwrap()
}

fn time(hour: u32, min: u32) -> ClockTime {
    ClockTime::from_hms(hour, min, 0).unwrap()
}

fn all_week() -> Vec<Weekday> {
    vec![
        Weekday::Mon,
        Weekday::Tue,
        Weekday::Wed,
        Weekday::Thu,
        Weekday::Fri,
        Weekday::Sat,
        Weekday::Sun,
    ]
}

#[test]
fn constraints_test_time_of_day_constraint() {
    let constraint = Constraint::TimeOfDay {
        start: ClockTime::from_hms(9, 0, 0).unwrap(),
        end: ClockTime::from_hms(17, 0, 0).unwrap(),
    };

    let range = TimeRange::new(midnight(2020, 1, 1), midnight(2020, 1, 2));

    let ranges = constraint.suitable_ranges(range);
    assert_eq!(ranges.len(), 1);

    assert_eq!(ranges[0].start, date_time(2020, 1, 1, 9, 0, 0));
    assert_eq!(ranges[0].end, date_time(2020, 1, 1, 17, 0, 0));
}

#[test]
fn constraints_test_day_of_week_constraint() {
    let constraint = Constraint::DayOfWeek(vec![
        Weekday::Mon,
        Weekday::Tue,
        Weekday::Wed,
        Weekday::Thu,
        Weekday::Fri,
    ]);

    let range = TimeRange::new(midnight(2020, 1, 1), midnight(2020, 1, 2));

    let ranges = constraint.suitable_ranges(range);
    assert_eq!(ranges.len(), 1);

    assert_eq!(ranges[0].start, midnight(2020, 1, 1));
    assert_eq!(ranges[0].end, midnight(2020, 1, 2));
}

#[test]
fn constraints_test_unavailable_constraint() {
    let constraint = Constraint::Unavailable {
        start: Date::from_ymd(2020, 1, 2).expect("a valid start time"),
        end: Date::from_ymd(2020, 1, 4).expect("a valid end time"),
    };

    let range = TimeRange::new(midnight(2020, 1, 1), midnight(2020, 1, 7));

    let ranges = constraint.suitable_ranges(range);
    assert_eq!(ranges.len(), 2);

    assert_eq!(ranges[0].start, midnight(2020, 1, 1));
    assert_eq!(ranges[0].end, midnight(2020, 1, 2));

    assert_eq!(ranges[1].start, date_time(2020, 1, 4, 23, 59, 59));
    assert_eq!(ranges[1].end, midnight(2020, 1, 7));
}

#[test]
fn test_alternating_days() {
    let output: Vec<TimeRange> = Constraint::DayOfWeek(vec![Weekday::Mon, Weekday::Wed, Weekday::Fri])
        .flat_map(&vec![TimeRange::new(midnight(2020, 1, 1), midnight(2020, 1, 8))]);

    let expected = vec![
        TimeRange::new(midnight(2020, 1, 1), midnight(2020, 1, 2)),
        TimeRange::new(midnight(2020, 1, 3), midnight(2020, 1, 4)),
        TimeRange::new(midnight(2020, 1, 6), midnight(2020, 1, 7)),
    ];

    assert_eq!(
        output, expected,
        "The iterator should generate the correct sequence of ranges"
    );
}

#[test]
fn test_contiguous_days() {
    let output: Vec<TimeRange> = Constraint::DayOfWeek(vec![Weekday::Sat, Weekday::Sun])
        .flat_map(&vec![TimeRange::new(midnight(2020, 1, 1), midnight(2020, 1, 8))]);

    let expected = vec![TimeRange::new(midnight(2020, 1, 4), midnight(2020, 1, 6))];

    assert_eq!(
        output, expected,
        "The iterator should generate the correct sequence of ranges"
    );
}

#[test]
fn mod_test_time_of_day_constraint() {
    let constraint = Constraint::TimeOfDay {
        start: ClockTime::from_hms(9, 0, 0).unwrap(),
        end: ClockTime::from_hms(17, 0, 0).unwrap(),
    };

    let output: Vec<TimeRange> =
        constraint.flat_map(&vec![TimeRange::new(midnight(2020, 1, 1), midnight(2020, 1, 2))]);

    let expected = vec![TimeRange::new(
        date_time(2020, 1, 1, 9, 0, 0),
        date_time(2020, 1, 1, 17, 0, 0),
    )];

    assert_eq!(output, expected);
}

#[test]
fn mod_test_day_of_week_constraint() {
    let constraint = Constraint::DayOfWeek(vec![
        Weekday::Mon,
        Weekday::Tue,
        Weekday::Wed,
        Weekday::Thu,
        Weekday::Fri,
    ]);

    let output: Vec<TimeRange> =
        constraint.flat_map(&vec![TimeRange::new(midnight(2020, 1, 1), midnight(2020, 1, 2))]);

    let expected = vec![TimeRange::new(midnight(2020, 1, 1), midnight(2020, 1, 2))];

    assert_eq!(output, expected);
}

#[test]
fn mod_test_unavailable_constraint() {
    let constraint = Constraint::Unavailable {
        start: date(2020, 1, 2),
        end: date(2020, 1, 4),
    };

    let output: Vec<TimeRange> =
        constraint.flat_map(&vec![TimeRange::new(midnight(2020, 1, 1), midnight(2020, 1, 7))]);

    // The last excluded day ends at 23:59:59, so what is left starts there.
    let expected = vec![
        TimeRange::new(midnight(2020, 1, 1), midnight(2020, 1, 2)),
        TimeRange::new(date_time(2020, 1, 4, 23, 59, 59), midnight(2020, 1, 7)),
    ];

    assert_eq!(output, expected);
}

#[test]
fn test_same_day() {
    let output: Vec<TimeRange> = Constraint::TimeOfDay { start: time(9, 00), end: time(17, 00) }
        .flat_map(&vec![TimeRange::new(midnight(2020, 1, 1), midnight(2020, 1, 3))]);

    let expected = vec![
        TimeRange::new(date_time(2020, 1, 1, 9, 0, 0), date_time(2020, 1, 1, 17, 0, 0)),
        TimeRange::new(date_time(2020, 1, 2, 9, 0, 0), date_time(2020, 1, 2, 17, 0, 0)),
    ];

    assert_eq!(output, expected);
}

#[test]
fn test_day_wrap() {
    let output: Vec<TimeRange> = Constraint::TimeOfDay { start: time(17, 00), end: time(9, 00) }
        .flat_map(&vec![TimeRange::new(midnight(2020, 1, 1), midnight(2020, 1, 3))]);

    let expected = vec![
        TimeRange::new(date_time(2020, 1, 1, 17, 0, 0), date_time(2020, 1, 2, 9, 0, 0)),
        TimeRange::new(date_time(2020, 1, 2, 17, 0, 0), date_time(2020, 1, 3, 0, 0, 0)),
    ];

    assert_eq!(output, expected);
}

#[test]
fn test_unavailable() {
    let output: Vec<TimeRange> = Constraint::Unavailable { start: date(2020, 1, 1), end: date(2020, 1, 2) }
        .flat_map(&vec![TimeRange::new(midnight(2020, 1, 1), midnight(2020, 1, 3))]);

    // The last excluded day ends at 23:59:59, so what is left starts there.
    let expected = vec![TimeRange::new(date_time(2020, 1, 2, 23, 59, 59), midnight(2020, 1, 3))];

    assert_eq!(output, expected);
}

#[test]
fn unconstrained_leaves_range_whole() {
    let range = TimeRange::new(midnight(2021, 3, 4), date_time(2021, 3, 9, 12, 30, 0));
    assert_eq!(Constraint::Unconstrained.suitable_ranges(range), vec![range]);
    let empty = TimeRange::new(midnight(2021, 3, 4), midnight(2021, 3, 4));
    assert_eq!(Constraint::Unconstrained.suitable_ranges(empty), vec![empty]);
}

#[test]
fn all_weekdays_leave_range_whole() {
    let range = TimeRange::new(date_time(2021, 3, 4, 7, 15, 0), date_time(2021, 4, 9, 12, 30, 0));
    assert_eq!(Constraint::DayOfWeek(all_week()).suitable_ranges(range), vec![range]);
    let to_midnight = TimeRange::new(date_time(2021, 3, 4, 7, 15, 0), midnight(2021, 3, 20));
    assert_eq!(Constraint::DayOfWeek(all_week()).suitable_ranges(to_midnight), vec![to_midnight]);
}

#[test]
fn all_weekdays_drop_empty_range() {
    let empty = TimeRange::new(midnight(2021, 3, 4), midnight(2021, 3, 4));
    assert_eq!(Constraint::DayOfWeek(all_week()).suitable_ranges(empty), vec![]);
}

#[test]
fn no_weekday_leaves_nothing() {
    let range = TimeRange::new(midnight(2020, 1, 1), midnight(2020, 1, 8));
    assert_eq!(Constraint::DayOfWeek(vec![]).suitable_ranges(range), vec![]);
}

#[test]
fn day_of_week_clips_to_range() {
    // 2020-01-01 is a Wednesday.
    let range = TimeRange::new(date_time(2020, 1, 1, 12, 0, 0), date_time(2020, 1, 3, 6, 0, 0));
    let output = Constraint::DayOfWeek(vec![Weekday::Wed, Weekday::Fri]).suitable_ranges(range);
    let expected = vec![
        TimeRange::new(date_time(2020, 1, 1, 12, 0, 0), midnight(2020, 1, 2)),
        TimeRange::new(midnight(2020, 1, 3), date_time(2020, 1, 3, 6, 0, 0)),
    ];
    assert_eq!(output, expected);
}

#[test]
fn wraparound_window_with_equal_ends_spans_a_day() {
    let range = TimeRange::new(midnight(2020, 1, 1), midnight(2020, 1, 3));
    let output = Constraint::TimeOfDay { start: time(9, 0), end: time(9, 0) }.suitable_ranges(range);
    let expected = vec![
        TimeRange::new(date_time(2020, 1, 1, 9, 0, 0), date_time(2020, 1, 2, 9, 0, 0)),
        TimeRange::new(date_time(2020, 1, 2, 9, 0, 0), midnight(2020, 1, 3)),
    ];
    assert_eq!(output, expected);
}

#[test]
fn time_of_day_before_1970() {
    let range = TimeRange::new(date_time(1969, 12, 30, 10, 0, 0), date_time(1969, 12, 31, 10, 0, 0));
    let output = Constraint::TimeOfDay { start: time(9, 0), end: time(17, 0) }.suitable_ranges(range);
    let expected = vec![
        TimeRange::new(date_time(1969, 12, 30, 10, 0, 0), date_time(1969, 12, 30, 17, 0, 0)),
        TimeRange::new(date_time(1969, 12, 31, 9, 0, 0), date_time(1969, 12, 31, 10, 0, 0)),
    ];
    assert_eq!(output, expected);
}

#[test]
fn unavailable_without_conflict_leaves_range_whole() {
    let range = TimeRange::new(midnight(2020, 1, 1), midnight(2020, 1, 7));
    let later = Constraint::Unavailable { start: date(2020, 2, 1), end: date(2020, 2, 3) };
    assert_eq!(later.suitable_ranges(range), vec![range]);
    // The excluded span starts where the range ends: they share one point.
    let touching = Constraint::Unavailable { start: date(2020, 1, 7), end: date(2020, 1, 9) };
    assert_eq!(touching.suitable_ranges(range), vec![range]);
}

#[test]
fn unavailable_covering_range_leaves_nothing() {
    let range = TimeRange::new(date_time(2020, 1, 2, 9, 0, 0), date_time(2020, 1, 2, 17, 0, 0));
    let constraint = Constraint::Unavailable { start: date(2020, 1, 1), end: date(2020, 1, 3) };
    assert_eq!(constraint.suitable_ranges(range), vec![]);
}

#[test]
fn unavailable_covering_the_end_leaves_the_start() {
    let range = TimeRange::new(midnight(2020, 1, 1), midnight(2020, 1, 3));
    let constraint = Constraint::Unavailable { start: date(2020, 1, 2), end: date(2020, 1, 5) };
    assert_eq!(
        constraint.suitable_ranges(range),
        vec![TimeRange::new(midnight(2020, 1, 1), midnight(2020, 1, 2))]
    );
}

#[test]
fn constraints_apply_in_turn() {
    let constraints = vec![
        Constraint::DayOfWeek(vec![
            Weekday::Mon,
            Weekday::Tue,
            Weekday::Wed,
            Weekday::Thu,
            Weekday::Fri,
        ]),
        Constraint::TimeOfDay { start: time(9, 0), end: time(17, 0) },
    ];
    // 2020-01-03 is a Friday.
    let period = vec![TimeRange::new(midnight(2020, 1, 3), midnight(2020, 1, 7))];
    let expected = vec![
        TimeRange::new(date_time(2020, 1, 3, 9, 0, 0), date_time(2020, 1, 3, 17, 0, 0)),
        TimeRange::new(date_time(2020, 1, 6, 9, 0, 0), date_time(2020, 1, 6, 17, 0, 0)),
    ];
    assert_eq!(apply_constraints(&constraints, period.clone()), expected);
    assert_eq!(apply_constraints(&vec![], period.clone()), period);
}

#[test]
fn window_past_midnight_depends_on_what_was_left_before() {
    // 2020-01-05 is a Sunday. A window past midnight opens on the days of
    // the range that it is applied to, so it matters whether the range has
    // been narrowed to Monday before.
    let period = vec![TimeRange::new(midnight(2020, 1, 5), midnight(2020, 1, 8))];
    let monday = Constraint::DayOfWeek(vec![Weekday::Mon]);
    let night = Constraint::TimeOfDay { start: time(17, 0), end: time(9, 0) };
    assert_eq!(
        apply_constraints(&vec![monday.clone(), night.clone()], period.clone()),
        vec![TimeRange::new(date_time(2020, 1, 6, 17, 0, 0), midnight(2020, 1, 7))]
    );
    assert_eq!(
        apply_constraints(&vec![night, monday], period),
        vec![
            TimeRange::new(midnight(2020, 1, 6), date_time(2020, 1, 6, 9, 0, 0)),
            TimeRange::new(date_time(2020, 1, 6, 17, 0, 0), midnight(2020, 1, 7)),
        ]
    );
}

#[test]
fn zero_length_period_is_scheduled_without_slots() {
    let start = midnight(2020, 1, 6);
    let period = vec![TimeRange::new(start, start)];
    let weekdays = Constraint::DayOfWeek(all_week());
    assert_eq!(apply_constraints(&vec![weekdays], period), vec![]);
}
