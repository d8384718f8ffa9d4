use roster::iso8601_duration::{deserialize, serialize, DurationError};

const SECOND: i64 = 1_000;
const MINUTE: i64 = 60 * SECOND;
const HOUR: i64 = 60 * MINUTE;
const DAY: i64 = 24 * HOUR;

/// The duration of a document with the one field `duration`.
fn from_document(document: &str) -> Result<i64, DurationError> {
    let document: serde_yaml::Value = serde_yaml::from_str(document).unwrap();
    deserialize(document["duration"].as_str().unwrap())
}

/// A document with the one field `duration`.
fn to_document(duration: i64) -> String {
    let mut document = serde_yaml::Mapping::new();
    document.insert("duration".into(), serialize(duration).into());
    serde_yaml::to_string(&document).unwrap()
}

#[test]
fn duration_serialize() {
    assert_eq!(from_document("duration: PT10S").unwrap(), 10 * SECOND);
    assert_eq!(from_document("duration: PT10M").unwrap(), 10 * MINUTE);
    assert_eq!(from_document("duration: PT10H").unwrap(), 10 * HOUR);
    assert_eq!(from_document("duration: P1DT10H").unwrap(), DAY + 10 * HOUR);
    assert_eq!(
        from_document("duration: P1DT10H10M10S").unwrap(),
        DAY + 10 * HOUR + 10 * MINUTE + 10 * SECOND
    );
}

#[test]
fn duration_deserialize() {
    assert_eq!(to_document(10 * SECOND).trim(), "duration: PT10S");
    assert_eq!(to_document(10 * MINUTE).trim(), "duration: PT10M");
    assert_eq!(to_document(10 * HOUR).trim(), "duration: PT10H");
    assert_eq!(to_document(DAY + 10 * HOUR).trim(), "duration: P1DT10H");
    assert_eq!(
        to_document(DAY + 10 * HOUR + 10 * MINUTE + 10 * SECOND).trim(),
        "duration: P1DT10H10M10S"
    );
}

#[test]
fn duration_text_edge_cases() {
    assert_eq!(serialize(0), "P");
    assert_eq!(serialize(-5 * SECOND), "P");
    assert_eq!(serialize(2 * DAY), "P2D");
    assert_eq!(serialize(SECOND + 5), "PT1.005S");
    assert_eq!(serialize(90 * MINUTE + 123), "PT1H30M");
    assert_eq!(serialize(400 * DAY + 59 * SECOND + 999), "P400DT59.999S");
    assert_eq!(serialize(i64::MAX), "P106751991167DT7H12M55.807S");
}

#[test]
fn duration_reading_edge_cases() {
    assert_eq!(deserialize("P"), Ok(0));
    assert_eq!(deserialize("PT"), Ok(0));
    assert_eq!(deserialize("P2D"), Ok(2 * DAY));
    assert_eq!(deserialize("P1D2H"), Ok(DAY + 2 * HOUR));
    // Milliseconds are read after the unit of the seconds, as a count.
    assert_eq!(deserialize("PT1S.5"), Ok(SECOND + 5));
    assert_eq!(deserialize("PT1S.005"), Ok(SECOND + 5));
    assert_eq!(deserialize("PT1S.250M"), Ok(SECOND + 250));
    assert_eq!(deserialize("PT1S.5T2M"), Ok(SECOND + 5));
    assert_eq!(deserialize("PT007S"), Ok(7 * SECOND));
    // What follows the last number with its unit is not looked at.
    assert_eq!(deserialize("PT5Sxyz"), Ok(5 * SECOND));
    assert_eq!(deserialize("Pxyz"), Ok(0));
}

#[test]
fn duration_errors() {
    assert_eq!(deserialize(""), Err(DurationError::MissingPrefix));
    assert_eq!(deserialize("T10S"), Err(DurationError::MissingPrefix));
    assert_eq!(deserialize("10S"), Err(DurationError::MissingPrefix));
    assert_eq!(deserialize("PT10"), Err(DurationError::MissingUnit));
    assert_eq!(deserialize("PT10X"), Err(DurationError::UnknownUnit('X')));
    assert_eq!(deserialize("PT10s"), Err(DurationError::UnknownUnit('s')));
    assert_eq!(deserialize("PT1.5S"), Err(DurationError::UnknownUnit('.')));
    assert_eq!(deserialize("PT1S.S"), Err(DurationError::MissingFraction));
    assert_eq!(deserialize("PT1S."), Err(DurationError::MissingFraction));
    assert_eq!(deserialize("PT18446744073709551616S"), Err(DurationError::NumberTooLarge));
    assert_eq!(deserialize("PT1S.18446744073709551616"), Err(DurationError::NumberTooLarge));
    assert_eq!(deserialize("P106751991168D"), Err(DurationError::OutOfRange));
    assert_eq!(deserialize("PT9223372036854776S"), Err(DurationError::OutOfRange));
    assert_eq!(deserialize("P106751991167DT24H"), Err(DurationError::OutOfRange));
}

#[test]
fn duration_numbers_wrap_to_signed() {
    assert_eq!(deserialize("PT18446744073709551615S"), Ok(-SECOND));
    assert_eq!(deserialize("P106751991167D"), Ok(106_751_991_167 * DAY));
}

#[test]
fn durations_in_days_and_hours() {
    assert_eq!(roster::duration_days::serialize(86_400), 1);
    assert_eq!(roster::duration_days::serialize(3 * 86_400 + 5), 3);
    assert_eq!(roster::duration_days::serialize(-86_400), u64::MAX);
    assert_eq!(roster::duration_days::serialize(-5), 0);
    assert_eq!(roster::duration_days::deserialize(1), Some(86_400));
    assert_eq!(roster::duration_days::deserialize(106_751_991_167), Some(106_751_991_167 * 86_400));
    assert_eq!(roster::duration_days::deserialize(106_751_991_168), None);
    assert_eq!(roster::duration_days::deserialize(u64::MAX), Some(-86_400));
    assert_eq!(roster::duration_hours::serialize(7_200), 2);
    assert_eq!(roster::duration_hours::serialize(7_199), 1);
    assert_eq!(roster::duration_hours::deserialize(10), Some(36_000));
    assert_eq!(roster::duration_hours::deserialize(2_562_047_788_016), None);
}
