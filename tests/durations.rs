use umbra_relay::{default_poll_interval, parse_duration, parse_ttl_duration, DurationError};

#[test]
fn durations_in_seconds() {
    assert_eq!(parse_duration("5m"), Ok(300));
    assert_eq!(parse_duration("1h"), Ok(3600));
    assert_eq!(parse_duration("10s"), Ok(10));
    assert_eq!(parse_duration(""), Ok(600));
    assert_eq!(parse_duration("  "), Ok(600));
    assert_eq!(parse_duration(" 2m "), Ok(120));
}

#[test]
fn duration_errors() {
    assert_eq!(parse_duration("2x"), Err(DurationError::InvalidUnit));
    assert_eq!(parse_duration("m"), Err(DurationError::InvalidNumber));
    assert_eq!(parse_duration("a5m"), Err(DurationError::InvalidNumber));
    assert_eq!(parse_duration("2d"), Err(DurationError::InvalidUnit));
    assert_eq!(parse_duration("99999999999999999999s"), Err(DurationError::InvalidNumber));
    assert_eq!(parse_duration("18446744073709551615h"), Err(DurationError::TooLarge));
}

#[test]
fn ttl_durations_take_long_units() {
    assert_eq!(parse_ttl_duration("2d"), Ok(172800));
    assert_eq!(parse_ttl_duration("1w"), Ok(604800));
    assert_eq!(parse_ttl_duration("1M"), Ok(2592000));
    assert_eq!(parse_ttl_duration("1y"), Ok(31536000));
    assert_eq!(parse_ttl_duration("+3h"), Ok(10800));
}

#[test]
fn default_interval_text() {
    assert_eq!(default_poll_interval(), "10m");
}
