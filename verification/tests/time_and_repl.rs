//! Calendar dates of timestamps, time formatting, and prompt line handling.

use rach::repl::{needs_continuation, strip_comment};
use rach::time::{format_time, unix_to_ymd};

#[test]
fn dates_of_timestamps() {
    assert_eq!(unix_to_ymd(0), (1970, 1, 1));
    assert_eq!(unix_to_ymd(86400 * 365), (1971, 1, 1));
    assert_eq!(unix_to_ymd(951782400), (2000, 2, 29));
    assert_eq!(unix_to_ymd(1700000000), (2023, 11, 14));
    assert_eq!(unix_to_ymd(4102444799), (2099, 12, 31));
    assert_eq!(unix_to_ymd(253402300799), (9999, 12, 31));
}

#[test]
fn time_formatting() {
    assert_eq!(format_time(0, "%Y-%m-%d %H:%M:%S"), "1970-01-01 00:00:00");
    assert_eq!(format_time(1700000000, "%Y/%m/%d %H:%M"), "2023/11/14 22:13");
    assert_eq!(format_time(1700000000, "no fields"), "no fields");
}

#[test]
fn comments_are_cut_outside_strings() {
    assert_eq!(strip_comment("x = 1 # note"), "x = 1 ");
    assert_eq!(strip_comment("print(\"a#b\") // c"), "print(\"a#b\") ");
    assert_eq!(strip_comment("a / b"), "a / b");
}

#[test]
fn block_openers_need_more_input() {
    assert!(needs_continuation("if x > 1:   # then"));
    assert!(needs_continuation("rach main()"));
    assert!(!needs_continuation("print(1)"));
    assert!(!needs_continuation("rach"));
}
