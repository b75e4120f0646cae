use ort::latency::{parse_duration, InvalidDuration, Latency};
use ort::text::{parse_percent, parse_u64, PERCENT_OUT_OF_RANGE};

#[test]
fn durations() {
    assert_eq!(parse_duration("10s"), Ok(Latency::from_millis(10_000)));
    assert_eq!(parse_duration("250ms"), Ok(Latency::from_millis(250)));
    assert_eq!(parse_duration(" 5ms \t"), Ok(Latency::from_millis(5)));
    assert_eq!(parse_duration("0"), Ok(Latency::from_millis(0)));
    assert_eq!(parse_duration("0s"), Ok(Latency::from_millis(0)));
    assert_eq!(parse_duration("\u{a0}3s\u{3000}"), Ok(Latency::from_millis(3000)));
    assert_eq!(parse_duration("5"), Err(InvalidDuration));
    assert_eq!(parse_duration("5m"), Err(InvalidDuration));
    assert_eq!(parse_duration("ms"), Err(InvalidDuration));
    assert_eq!(parse_duration("5 ms"), Err(InvalidDuration));
    assert_eq!(parse_duration("-5ms"), Err(InvalidDuration));
    assert_eq!(parse_duration(""), Err(InvalidDuration));
    assert_eq!(parse_duration("18446744073709551615ms"), Ok(Latency::from_millis(u64::MAX)));
    assert_eq!(parse_duration("18446744073709551616ms"), Err(InvalidDuration));
    assert_eq!(parse_duration("18446744073709552s"), Err(InvalidDuration));
    assert_eq!(Latency::parse("7s"), Ok(Latency::from_millis(7000)));
}

#[test]
fn unsigned_integers() {
    let b = b"+42 18446744073709551615 18446744073709551616 4x";
    assert_eq!(parse_u64(b, 0, 3), Some(42));
    assert_eq!(parse_u64(b, 4, 24), Some(u64::MAX));
    assert_eq!(parse_u64(b, 25, 45), None);
    assert_eq!(parse_u64(b, 46, 48), None);
    assert_eq!(parse_u64(b, 0, 1), None);
    assert_eq!(parse_u64(b, 3, 3), None);
}

#[test]
fn percents() {
    let b = b"12.34567";
    assert_eq!(parse_percent(b, 0, b.len()), Some(123_456));
    let b = b"100";
    assert_eq!(parse_percent(b, 0, b.len()), Some(1_000_000));
    let b = b"100.5";
    assert_eq!(parse_percent(b, 0, b.len()), Some(PERCENT_OUT_OF_RANGE));
    let b = b"1e2";
    assert_eq!(parse_percent(b, 0, b.len()), None);
    let b = b"7.";
    assert_eq!(parse_percent(b, 0, b.len()), Some(70_000));
}
