//! Number rendering, character helpers, slicing, splitting and replacing.

use rach::collections::{clamp_index, join_texts, replace_text, reverse_text, slice_bounds, slice_chars, split_text};
use rach::numfmt::{i64_to_dec, u64_padded, u64_to_dec};
use rach::text::{contains_str, split_lines, split_on_char, to_ascii_lower, trim_range};

#[test]
fn decimal_rendering() {
    assert_eq!(u64_to_dec(0), "0");
    assert_eq!(u64_to_dec(1234567890), "1234567890");
    assert_eq!(i64_to_dec(-42), "-42");
    assert_eq!(i64_to_dec(i64::MIN), "-9223372036854775808");
    assert_eq!(u64_padded(7, 2, '0'), "07");
    assert_eq!(u64_padded(123, 2, '0'), "123");
    assert_eq!(u64_padded(9, 3, ' '), "  9");
}

#[test]
fn lowercase_search_and_trim() {
    assert_eq!(to_ascii_lower("HeLLo ÄB"), "hello Äb");
    assert!(contains_str("transfer-encoding: chunked", "chunked"));
    assert!(!contains_str("abc", "abcd"));
    assert!(contains_str("abc", ""));
    let cs: Vec<char> = "  a b \t".chars().collect();
    assert_eq!(trim_range(&cs, 0, cs.len()), "a b");
}

#[test]
fn lines_split_like_str_lines() {
    assert_eq!(split_lines("a\r\nb\nc"), vec!["a", "b", "c"]);
    assert_eq!(split_lines("a\n\n"), vec!["a", ""]);
    assert_eq!(split_lines(""), Vec::<String>::new());
    assert_eq!(split_lines("x\r"), vec!["x\r"]);
    assert_eq!(split_on_char("a,,b", ','), vec!["a", "", "b"]);
    assert_eq!(split_on_char("", ','), vec![""]);
}

#[test]
fn slice_indices_clamp_and_count_from_the_end() {
    assert_eq!(clamp_index(-1, 3), 2);
    assert_eq!(clamp_index(-10, 3), 0);
    assert_eq!(clamp_index(10, 3), 3);
    assert_eq!(slice_bounds(2, Some(1), 5), (2, 2));
    assert_eq!(slice_bounds(1, None, 5), (1, 5));
    assert_eq!(slice_chars("hello", 1, Some(-1)), "ell");
    assert_eq!(slice_chars("héllo", -3, None), "llo");
}

#[test]
fn split_join_replace_reverse() {
    assert_eq!(split_text("a b  c", " "), vec!["a", "b", "", "c"]);
    assert_eq!(split_text("abc", ""), vec!["a", "b", "c"]);
    assert_eq!(split_text("a--b--", "--"), vec!["a", "b", ""]);
    let parts = vec!["x".to_string(), "y".to_string(), "z".to_string()];
    assert_eq!(join_texts(&parts, ", "), "x, y, z");
    assert_eq!(replace_text("aXbXc", "X", "--"), "a--b--c");
    assert_eq!(replace_text("aaa", "aa", "b"), "ba");
    assert_eq!(replace_text("ab", "", "-"), "-a-b-");
    assert_eq!(reverse_text("héllo"), "olléh");
}

#[test]
fn join_gives_back_what_split_took_apart() {
    for (text, sep) in [("a,b,,c", ","), ("x--y--", "--"), ("no separator", ";"), ("chars", ""), ("", ",")] {
        let pieces = split_text(text, sep);
        assert_eq!(join_texts(&pieces, sep), text);
    }
}

#[test]
fn upper_and_lower_follow_unicode() {
    assert_eq!(rach::text::upper_text("straße ok"), "STRASSE OK");
    assert_eq!(rach::text::lower_text("ÀBC Déf"), "àbc déf");
}

#[test]
fn native_crc32_and_base64_of_text() {
    assert_eq!(rach::native::crc32_hex(""), "00000000");
    assert_eq!(rach::native::crc32_hex("123456789"), "cbf43926");
    assert_eq!(rach::native::crc32_hex("hello"), "3610a686");
    assert_eq!(rach::native::base64_text(""), "");
    assert_eq!(rach::native::base64_text("f"), "Zg==");
    assert_eq!(rach::native::base64_text("fo"), "Zm8=");
    assert_eq!(rach::native::base64_text("foo"), "Zm9v");
    assert_eq!(rach::native::base64_text("foobar"), "Zm9vYmFy");
    assert_eq!(rach::native::base64_text("héllo"), "aMOpbGxv");
}

#[test]
fn native_reverse_reverses_bytes() {
    assert_eq!(rach::native::reverse_bytes("abc"), b"cba".to_vec());
    assert_eq!(rach::native::reverse_bytes(""), Vec::<u8>::new());
    assert_eq!(rach::native::reverse_bytes("é"), vec![0xa9, 0xc3]);
}
