use todo_txt::cmd_clock::{hms_from_seconds, seconds_from_hms};
use todo_txt::hms::{from_seconds, to_seconds};

#[test]
fn hms_to_seconds() {
    let seconds = to_seconds(&"1h1m1s".to_string());
    assert_eq!(seconds, 3661);
}

#[test]
fn ms_to_seconds() {
    let seconds = to_seconds(&"1m1s".to_string());
    assert_eq!(seconds, 61);
}

#[test]
fn s_to_seconds() {
    let seconds = to_seconds(&"1s".to_string());
    assert_eq!(seconds, 1);
}

#[test]
fn from_seconds_hms() {
    let result = from_seconds(3661);
    assert_eq!(result, "1h1m1s");
}

#[test]
fn from_seconds_ms() {
    let result = from_seconds(61);
    assert_eq!(result, "1m1s");
}

#[test]
fn from_seconds_s() {
    let result = from_seconds(1);
    assert_eq!(result, "1s");
}

#[test]
fn to_seconds_hours_only_and_empty() {
    assert_eq!(to_seconds(&"2h".to_string()), 7200);
    assert_eq!(to_seconds(&"".to_string()), 0);
    assert_eq!(to_seconds(&"1h30s".to_string()), 3630);
}

#[test]
fn to_seconds_malformed_is_zero() {
    assert_eq!(to_seconds(&"1m1h".to_string()), 0);
    assert_eq!(to_seconds(&"abc".to_string()), 0);
    assert_eq!(to_seconds(&"1h ".to_string()), 0);
    assert_eq!(to_seconds(&"h".to_string()), 0);
}

#[test]
fn to_seconds_too_large_is_zero() {
    assert_eq!(to_seconds(&"99999999999999999999s".to_string()), 0);
    assert_eq!(to_seconds(&"9223372036854775807h".to_string()), 0);
    assert_eq!(to_seconds(&"9223372036854775807s".to_string()), i64::MAX);
}

#[test]
fn from_seconds_zero_and_negative_are_empty() {
    assert_eq!(from_seconds(0), "");
    assert_eq!(from_seconds(-5), "");
    assert_eq!(from_seconds(7200), "2h");
    assert_eq!(from_seconds(3601), "1h1s");
}

#[test]
fn encode_then_decode_gives_count_back() {
    for s in [0i64, 1, 59, 60, 61, 3599, 3600, 3661, 86399, 90061, 1234567] {
        assert_eq!(to_seconds(&from_seconds(s)), s);
    }
}

#[test]
fn clock_command_codec() {
    assert_eq!(seconds_from_hms(&"1h1m1s".to_string()), 3661);
    assert_eq!(hms_from_seconds(3661), "1h1m1s");
}
