//! Levels, entry text, and the ring buffer of the logger.

use rach::logging::{format_clock, format_entry, parse_level, LogEntry, LogLevel, LogState, RING_BUFFER_LIMIT};

#[test]
fn levels_parse_in_any_case_with_synonyms() {
    assert_eq!(LogLevel::parse("WARNING"), Some(LogLevel::Warn));
    assert_eq!(LogLevel::parse("trace"), Some(LogLevel::Debug));
    assert_eq!(LogLevel::parse("Err"), Some(LogLevel::Error));
    assert_eq!(LogLevel::parse("none"), Some(LogLevel::Off));
    assert_eq!(LogLevel::parse("loud"), None);
    assert_eq!(LogLevel::Info.label(), "INFO ");
    assert_eq!(LogLevel::Error.ansi(), "\x1b[31;1m");
}

#[test]
fn unknown_level_is_a_400_error() {
    let e = parse_level("loud", 7).unwrap_err();
    assert_eq!((e.code, e.line, e.message.as_str()), (400, 7, "unknown log level `loud`"));
}

#[test]
fn clock_and_entry_text() {
    assert_eq!(format_clock(3661), "01:01:01");
    assert_eq!(format_clock(86399 + 86400), "23:59:59");
    let e = LogEntry { level: LogLevel::Warn, message: "disk low".to_string(), timestamp: 45 };
    assert_eq!(format_entry(&e, false), "[WARN  00:00:45] disk low");
    assert_eq!(format_entry(&e, true), "\x1b[33m[WARN  00:00:45]\x1b[0m disk low");
}

#[test]
fn entries_below_the_threshold_are_dropped() {
    let mut st = LogState::with_level(LogLevel::Warn);
    assert!(!st.record(LogLevel::Info, "quiet".to_string(), 0));
    assert!(st.record(LogLevel::Error, "loud".to_string(), 0));
    assert_eq!(st.count(None), 1);
    let mut off = LogState::with_level(LogLevel::Off);
    assert!(!off.record(LogLevel::Off, "x".to_string(), 0));
    assert_eq!(off.count(None), 0);
}

#[test]
fn ring_buffer_keeps_the_most_recent_thousand() {
    let mut st = LogState::with_level(LogLevel::Debug);
    for i in 0..(RING_BUFFER_LIMIT as u64 + 5) {
        st.record(LogLevel::Info, format!("m{}", i), i);
    }
    assert_eq!(st.count(None), RING_BUFFER_LIMIT);
    let h = st.history();
    assert_eq!(h.len(), RING_BUFFER_LIMIT);
    assert_eq!(h[0], "[INFO  00:00:05] m5");
    assert_eq!(h[h.len() - 1], "[INFO  00:16:44] m1004");
}

#[test]
fn filter_count_and_clear() {
    let mut st = LogState::with_level(LogLevel::Debug);
    st.record(LogLevel::Debug, "d".to_string(), 1);
    st.record(LogLevel::Warn, "w".to_string(), 2);
    st.record(LogLevel::Error, "e".to_string(), 3);
    assert_eq!(st.filter(LogLevel::Warn), vec!["[WARN  00:00:02] w", "[ERROR 00:00:03] e"]);
    assert_eq!(st.count(Some(LogLevel::Debug)), 1);
    assert_eq!(st.count(Some(LogLevel::Info)), 0);
    let counts: usize = [LogLevel::Debug, LogLevel::Info, LogLevel::Warn, LogLevel::Error, LogLevel::Off]
        .iter()
        .map(|l| st.count(Some(*l)))
        .sum();
    assert_eq!(counts, st.count(None));
    assert_eq!(st.clear(), 3);
    assert_eq!(st.count(None), 0);
    assert!(st.history().is_empty());
}
