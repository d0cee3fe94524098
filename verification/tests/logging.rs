//! The log line, the threshold and the throttle for repeated warnings.

use log::LevelFilter;
use netflector::config::value::LogLevel;
use netflector::logging::utc::Utc;
use netflector::logging::{
    disclose, format_record, init, monotonic_secs, rate_gate, set_level, Severity,
};

#[test]
fn a_record_formats_as_one_stamped_line() {
    let mut line = String::new();
    format_record(
        &mut line,
        Utc::from_unix(0),
        Severity::Info,
        "netflector::test",
        "hello",
    );
    assert_eq!(line, "1970-01-01T00:00:00Z  INFO netflector::test: hello\n");
}

#[test]
fn the_threshold_is_what_was_set_last() {
    assert_eq!(init(), LevelFilter::Info);
    assert_eq!(log::max_level(), LevelFilter::Info);
    assert_eq!(set_level(LogLevel::Trace), LevelFilter::Trace);
    assert_eq!(log::max_level(), LevelFilter::Trace);
    assert_eq!(set_level(LogLevel::Off), LevelFilter::Off);
    assert_eq!(log::max_level(), LevelFilter::Off);
}

#[test]
fn every_severity_fills_its_column() {
    for (severity, column) in [
        (Severity::Error, "ERROR"),
        (Severity::Warn, " WARN"),
        (Severity::Info, " INFO"),
        (Severity::Debug, "DEBUG"),
        (Severity::Trace, "TRACE"),
    ] {
        assert_eq!(severity.as_column(), column);
    }
}

#[test]
fn emissions_are_a_window_apart_and_every_call_is_accounted_for() {
    let (mut last, mut suppressed) = (0u32, 0u32);
    let mut emitted = 0u32;
    for now in 0..1000u32 {
        if let Some(missed) = rate_gate(&mut last, &mut suppressed, now, 60) {
            emitted += 1 + missed;
        }
    }
    assert_eq!(emitted + suppressed, 1000);
}

#[test]
fn a_clock_before_the_epoch_reads_as_the_epoch() {
    assert_eq!(Utc::now(None).to_text(), "1970-01-01T00:00:00Z");
    assert_eq!(Utc::now(Some(951_782_399)).to_text(), "2000-02-28T23:59:59Z");
    // 1900 was no leap year, and 2100 is none.
    assert_eq!(Utc::from_unix(4_107_542_400).to_text(), "2100-03-01T00:00:00Z");
}

#[test]
fn rate_gate_emits_first_then_suppresses_within_the_window() {
    let (mut last, mut suppressed) = (0u32, 0u32);
    let window = 60u64;
    // First call emits, with nothing suppressed - even at time 0 (the max(1) offset).
    assert_eq!(rate_gate(&mut last, &mut suppressed, 0, window), Some(0));
    // Inside the window: counted, not emitted.
    assert_eq!(rate_gate(&mut last, &mut suppressed, 1, window), None);
    assert_eq!(rate_gate(&mut last, &mut suppressed, 59, window), None);
    // The window reopens: emit, disclosing the two suppressed calls, and the count resets.
    assert_eq!(rate_gate(&mut last, &mut suppressed, 61, window), Some(2));
    assert_eq!(rate_gate(&mut last, &mut suppressed, 200, window), Some(0));
}

#[test]
fn monotonic_secs_never_decreases() {
    let a = monotonic_secs(41);
    let b = monotonic_secs(42);
    assert!(b >= a);
    assert_eq!((a, b), (41, 42));
    // Past what fits, the clock stands still rather than starting over.
    assert_eq!(monotonic_secs(u64::from(u32::MAX) + 5), u32::MAX);
}

#[test]
fn epoch_renders_as_iso() {
    assert_eq!(Utc::from_unix(0).to_text(), "1970-01-01T00:00:00Z");
}

#[test]
fn last_second_before_midnight() {
    assert_eq!(Utc::from_unix(86_399).to_text(), "1970-01-01T23:59:59Z");
}

#[test]
fn billennium_is_2001() {
    // 1e9 seconds after the epoch is the well-known 2001-09-09T01:46:40Z.
    assert_eq!(
        Utc::from_unix(1_000_000_000).to_text(),
        "2001-09-09T01:46:40Z"
    );
}

#[test]
fn leap_day_2000_exists() {
    // 2000 is divisible by 400, so it is a leap year and Feb 29 is valid.
    assert_eq!(
        Utc::from_unix(951_782_400).to_text(),
        "2000-02-29T00:00:00Z"
    );
}

#[test]
fn log_levels_map_to_filters() {
    assert_eq!(LevelFilter::from(LogLevel::Off), LevelFilter::Off);
    assert_eq!(LevelFilter::from(LogLevel::Error), LevelFilter::Error);
    assert_eq!(LevelFilter::from(LogLevel::Warn), LevelFilter::Warn);
    assert_eq!(LevelFilter::from(LogLevel::Info), LevelFilter::Info);
    assert_eq!(LevelFilter::from(LogLevel::Debug), LevelFilter::Debug);
    assert_eq!(LevelFilter::from(LogLevel::Trace), LevelFilter::Trace);
}

#[test]
fn a_line_discloses_what_was_suppressed() {
    let mut line = "dropped".to_string();
    disclose(&mut line, 0);
    assert_eq!(line, "dropped");
    disclose(&mut line, 12);
    assert_eq!(line, "dropped (12 suppressed)");
}
