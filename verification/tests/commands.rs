//! The command registry and how command-style calls resolve against it.

use rach::commands::{canonical_command, is_known_command, resolve_resolved_segments, ResolvedSegment};

fn seg(words: &[&str], positional: Vec<i32>, named: Vec<(&str, i32)>) -> ResolvedSegment<i32> {
    ResolvedSegment {
        words: words.iter().map(|w| w.to_string()).collect(),
        positional,
        named: named.into_iter().map(|(k, v)| (k.to_string(), v)).collect(),
    }
}

#[test]
fn aliases_name_their_commands() {
    assert_eq!(canonical_command("rm"), "delete_file");
    assert_eq!(canonical_command("del"), "delete_file");
    assert_eq!(canonical_command("sh"), "run_command");
    assert_eq!(canonical_command("echo"), "print");
    assert_eq!(canonical_command("os"), "detect_os");
    assert_eq!(canonical_command("ascii_box"), "ascii_box");
}

#[test]
fn command_words_start_registered_commands() {
    assert!(is_known_command("open"));
    assert!(is_known_command("ascii"));
    assert!(is_known_command("log_message"));
    assert!(!is_known_command("ope"));
    assert!(!is_known_command("frobnicate"));
}

#[test]
fn longest_registered_prefix_wins() {
    let r = resolve_resolved_segments(vec![seg(&["open", "in", "browser"], vec![1], vec![])]).unwrap();
    assert_eq!(r, ("open_in_browser".to_string(), vec![1], vec![]));
    let r = resolve_resolved_segments(vec![seg(&["open", "in"], vec![], vec![]), seg(&["firefox"], vec![2], vec![])])
        .unwrap();
    assert_eq!(r, ("open_in_firefox".to_string(), vec![2], vec![]));
}

#[test]
fn later_segments_become_keyword_arguments() {
    let r = resolve_resolved_segments(vec![
        seg(&["ascii", "box"], vec![1], vec![("style", 5)]),
        seg(&["title"], vec![2], vec![]),
    ])
    .unwrap();
    assert_eq!(r.0, "ascii_box");
    assert_eq!(r.1, vec![1]);
    assert_eq!(r.2, vec![("style".to_string(), 5), ("title".to_string(), 2)]);
}

#[test]
fn words_after_the_command_name_a_keyword() {
    let r = resolve_resolved_segments(vec![seg(&["login", "user"], vec![3], vec![])]).unwrap();
    assert_eq!(r, ("login".to_string(), vec![], vec![("user".to_string(), 3)]));
}

#[test]
fn unknown_and_empty_calls_are_refused() {
    let e = resolve_resolved_segments(vec![seg(&["frob", "nicate"], vec![], vec![])]).unwrap_err();
    assert_eq!(e, "unknown command `frob_nicate`");
    let e = resolve_resolved_segments::<i32>(vec![]).unwrap_err();
    assert_eq!(e, "empty call");
}
