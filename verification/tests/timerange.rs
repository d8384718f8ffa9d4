use roster::time::{
    day_index, timestamp, ClockTime, Date, Weekday, MAX_DAY, MAX_TIMESTAMP, MIN_DAY, MIN_TIMESTAMP,
};
use roster::timerange::TimeRange;

#[test]
fn intersection_of_overlapping_ranges() {
    let a = TimeRange::new(10, 20);
    let b = TimeRange::new(15, 30);
    assert_eq!(a.intersection(&b), Some(TimeRange::new(15, 20)));
    assert_eq!(b.intersection(&a), Some(TimeRange::new(15, 20)));
}

#[test]
fn intersection_of_touching_ranges_is_empty_range() {
    let a = TimeRange::new(10, 20);
    let b = TimeRange::new(20, 30);
    let shared = a.intersection(&b).unwrap();
    assert_eq!(shared, TimeRange::new(20, 20));
    assert!(shared.is_zero());
    assert_eq!(b.intersection(&a), Some(shared));
}

#[test]
fn intersection_of_disjoint_ranges_is_none() {
    let a = TimeRange::new(10, 20);
    let b = TimeRange::new(21, 30);
    assert_eq!(a.intersection(&b), None);
    assert_eq!(b.intersection(&a), None);
}

#[test]
fn intersection_lies_in_both() {
    let a = TimeRange::new(-50, 40);
    let b = TimeRange::new(-10, 90);
    let shared = a.intersection(&b).unwrap();
    assert!(a.contains(shared.start) && a.contains(shared.end));
    assert!(b.contains(shared.start) && b.contains(shared.end));
}

#[test]
fn union_of_ranges() {
    let a = TimeRange::new(10, 20);
    assert_eq!(a.union(&TimeRange::new(15, 30)), Some(TimeRange::new(10, 30)));
    assert_eq!(a.union(&TimeRange::new(20, 30)), Some(TimeRange::new(10, 30)));
    assert_eq!(a.union(&TimeRange::new(21, 30)), None);
    assert_eq!(TimeRange::new(21, 30).union(&a), None);
}

#[test]
fn contains_includes_both_ends() {
    let a = TimeRange::new(10, 20);
    assert!(a.contains(10));
    assert!(a.contains(20));
    assert!(a.contains(15));
    assert!(!a.contains(9));
    assert!(!a.contains(21));
}

#[test]
fn length_and_contiguity() {
    let a = TimeRange::new(10, 25);
    assert_eq!(a.len(), 15);
    assert!(!a.is_zero());
    assert_eq!(TimeRange::new(7, 7).len(), 0);
    assert!(a.contiguous(&TimeRange::new(25, 30)));
    assert!(!a.contiguous(&TimeRange::new(26, 30)));
}

#[test]
fn timestamps_of_civil_dates() {
    assert_eq!(timestamp(1970, 1, 1, 0, 0, 0), Some(0));
    assert_eq!(timestamp(1970, 1, 2, 0, 0, 1), Some(86_401));
    assert_eq!(timestamp(1969, 12, 31, 23, 59, 59), Some(-1));
    assert_eq!(timestamp(2020, 1, 1, 9, 0, 0), Some(1_577_869_200));
    assert_eq!(timestamp(2020, 2, 29, 0, 0, 0), Some(1_582_934_400));
    assert_eq!(timestamp(2021, 2, 29, 0, 0, 0), None);
    assert_eq!(timestamp(2021, 13, 1, 0, 0, 0), None);
    assert_eq!(timestamp(2021, 1, 1, 24, 0, 0), None);
    assert_eq!(timestamp(2021, 1, 1, 0, 60, 0), None);
    assert_eq!(timestamp(2021, 1, 1, 0, 0, 60), None);
}

#[test]
fn dates_and_clock_times() {
    assert_eq!(Date::from_ymd(1970, 1, 1), Some(Date { days: 0 }));
    assert_eq!(Date::from_ymd(2020, 1, 1), Some(Date { days: 18_262 }));
    assert_eq!(Date::from_ymd(2020, 4, 31), None);
    let date = Date::from_ymd(2020, 1, 1).unwrap();
    assert_eq!(date.midnight(), 1_577_836_800);
    assert_eq!(date.and_time(ClockTime::from_hms(9, 30, 15).unwrap()), 1_577_836_800 + 34_215);
    assert_eq!(ClockTime::from_hms(23, 59, 59), Some(ClockTime { secs: 86_399 }));
    assert_eq!(ClockTime::from_hms(24, 0, 0), None);
}

#[test]
fn supported_range_is_that_of_the_calendar() {
    assert_eq!(Date::from_ymd(-262_143, 1, 1), Some(Date { days: MIN_DAY }));
    assert_eq!(Date::from_ymd(262_142, 12, 31), Some(Date { days: MAX_DAY }));
    assert_eq!(Date::from_ymd(-262_144, 12, 31), None);
    assert_eq!(Date::from_ymd(262_143, 1, 1), None);
    assert_eq!(timestamp(-262_143, 1, 1, 0, 0, 0), Some(MIN_TIMESTAMP));
    assert_eq!(timestamp(262_142, 12, 31, 23, 59, 59), Some(MAX_TIMESTAMP));
}

#[test]
fn weekdays_of_days() {
    assert_eq!(Weekday::of_day(0), Weekday::Thu);
    assert_eq!(Weekday::of_day(-1), Weekday::Wed);
    assert_eq!(Weekday::of_day(3), Weekday::Sun);
    assert_eq!(Weekday::of_day(4), Weekday::Mon);
    assert_eq!(Date::from_ymd(2015, 9, 8).unwrap().weekday(), Weekday::Tue);
    assert_eq!(Date::from_ymd(-308, 3, 14).unwrap().weekday(), Weekday::Fri);
    assert_eq!(Weekday::of_day(MIN_DAY).num_days_from_monday(), ((MIN_DAY + 3).rem_euclid(7)) as u32);
    assert_eq!(Weekday::of_day(MAX_DAY).num_days_from_monday(), ((MAX_DAY + 3).rem_euclid(7)) as u32);
    for day in -800..800 {
        assert_eq!(Weekday::of_day(day).num_days_from_monday(), ((day + 3).rem_euclid(7)) as u32);
    }
}

#[test]
fn weekdays_cycle_over_the_whole_calendar() {
    let mut day = MIN_DAY;
    while day <= MAX_DAY {
        let expected = ((day + 3).rem_euclid(7)) as u32;
        assert_eq!(Weekday::of_day(day).num_days_from_monday(), expected);
        day += 9_973;
    }
}

#[test]
fn days_of_civil_dates_follow_each_other() {
    let mut previous = Date::from_ymd(1899, 12, 31).unwrap().days;
    for year in 1900..=2100 {
        for month in 1..=12 {
            for day in 1..=31 {
                if let Some(date) = Date::from_ymd(year, month, day) {
                    assert_eq!(date.days, previous + 1);
                    previous = date.days;
                }
            }
        }
    }
    assert_eq!(Date::from_ymd(2100, 12, 31).unwrap().days, 47_846);
}

#[test]
fn day_of_timestamp_rounds_to_the_past() {
    assert_eq!(day_index(0), 0);
    assert_eq!(day_index(86_399), 0);
    assert_eq!(day_index(86_400), 1);
    assert_eq!(day_index(-1), -1);
    assert_eq!(day_index(-86_400), -1);
    assert_eq!(day_index(-86_401), -2);
}
