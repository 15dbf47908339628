//! Locks the exact rustc-style diagnostic text `render_pretty` produces — line/col header,
//! source-context window, and caret placement.

use rach::interpreter::render_pretty;

#[test]
fn lex_error_snapshot() {
    let src = "x = 1 +\n";
    let out = render_pretty("lex", 3, "<test>", 1, 8, "unexpected end of expression", Some(src), false);
    let want = "error[3]: unexpected end of expression\n  --> <test>:1:8\n  |\n1 | > x = 1 +\n  |          ^\n  |\n// lex error 3 string 1";
    assert_eq!(out, want);
}

#[test]
fn parse_error_snapshot_with_context_lines() {
    let src = "rach f(x):\n    return x +\nend\n";
    let out = render_pretty("parse", 4, "<test>", 2, 15, "expected expression", Some(src), false);
    let want = "error[4]: expected expression\n  --> <test>:2:15\n  |\n1 |   rach f(x):\n2 | >     return x +\n  |                 ^\n3 |   end\n  |\n// parse error 4 string 2";
    assert_eq!(out, want);
}

#[test]
fn runtime_error_snapshot_without_a_line_number() {
    let out = render_pretty("runtime", 500, "<test>", 0, 0, "no `main` function defined", None, false);
    let want = "error[500]: no `main` function defined\n  --> <test>\n// runtime error 500 string 0";
    assert_eq!(out, want);
}

#[test]
fn caret_keeps_tabs_of_the_failing_line() {
    let out = render_pretty("parse", 422, "f.rach", 1, 3, "bad", Some("\tx y\n"), false);
    let want = "error[422]: bad\n  --> f.rach:1:3\n  |\n1 | > \tx y\n  |   \t ^\n  |\n// parse error 422 string 1";
    assert_eq!(out, want);
}

#[test]
fn window_is_two_lines_before_and_one_after_with_wide_gutter() {
    let src = "a\nb\nc\nd\ne\nf\ng\nh\ni\nj\nk\n";
    let out = render_pretty("runtime", -1, "p", 9, 0, "m", Some(src), false);
    let want = "error[-1]: m\n  --> p:9\n   |\n 7 |   g\n 8 |   h\n 9 | > i\n10 |   j\n   |\n// runtime error -1 string 9";
    assert_eq!(out, want);
}

#[test]
fn colour_wraps_header_location_and_failing_line() {
    let out = render_pretty("lex", 1, "p", 1, 0, "m", Some("z"), true);
    let want = "\x1b[31;1merror[1]\x1b[0m: \x1b[1mm\x1b[0m\n\x1b[2m  --> \x1b[0mp:1\n\x1b[2m  |\x1b[0m\n\x1b[2m1 |\x1b[0m > \x1b[31;1mz\x1b[0m\n\x1b[2m  |\x1b[0m\n\x1b[2m// lex error 1 string 1\x1b[0m";
    assert_eq!(out, want);
}

#[test]
fn location_without_source_has_no_window() {
    let out = render_pretty("runtime", 404, "s.rach", 3, 0, "undefined variable `x`", None, false);
    assert_eq!(out, "error[404]: undefined variable `x`\n  --> s.rach:3\n// runtime error 404 string 3");
}
