//! OS names, script lookup, package installation plans and curl handling.

use rach::http::{get_args, parse_i64, post_args, split_curl_output, status_ok};
use rach::os::{detect_os_name, os_matches};
use rach::script::{script_candidates, suggest_examples};
use rach::system::{exit_status_code, install_plan, is_dry_run, linux_package_managers, shell_for};

#[test]
fn os_names_and_tests() {
    assert_eq!(detect_os_name("freebsd"), "bsd");
    assert_eq!(detect_os_name("macos"), "macos");
    assert_eq!(detect_os_name("haiku"), "unknown");
    assert!(os_matches("darwin", "MacOS"));
    assert!(os_matches("linux", "LINUX"));
    assert!(!os_matches("linux", "windows"));
}

#[test]
fn script_paths_tried_in_order() {
    assert_eq!(
        script_candidates("hello"),
        vec!["hello", "hello.rach", "examples/hello", "examples/hello.rach"]
    );
    assert_eq!(script_candidates("dir/x.rach"), vec!["dir/x.rach", "examples/x.rach"]);
    let names = vec!["hello.rach".to_string(), "other.rach".to_string(), "hello.txt".to_string()];
    assert_eq!(suggest_examples(&names, "hell"), vec!["examples/hello.rach"]);
}

#[test]
fn install_plans_per_os() {
    assert_eq!(linux_package_managers()[0], "apt-get");
    assert_eq!(install_plan("macos", None, "jq").unwrap(), ("brew".to_string(), vec!["install".to_string(), "jq".to_string()]));
    assert_eq!(
        install_plan("linux", Some("apt"), "jq").unwrap(),
        ("sudo".to_string(), vec!["apt-get".to_string(), "install".to_string(), "-y".to_string(), "jq".to_string()])
    );
    assert_eq!(install_plan("linux", None, "jq").unwrap_err(), (404, "no package manager found".to_string()));
    assert_eq!(install_plan("plan9", None, "jq").unwrap_err(), (501, "unsupported OS for install_package".to_string()));
    assert!(is_dry_run(Some("TRUE")));
    assert!(is_dry_run(Some("1")));
    assert!(!is_dry_run(Some("yes")));
    assert!(!is_dry_run(None));
    assert_eq!(shell_for(true), ("cmd", "/C"));
    assert_eq!(exit_status_code(1), 401);
}

#[test]
fn curl_output_and_integers() {
    assert_eq!(split_curl_output("{\"ok\":1}\n200"), (200, "{\"ok\":1}".to_string()));
    assert_eq!(split_curl_output("a\nb\n404\n"), (0, "a\nb\n404".to_string()));
    assert_eq!(split_curl_output("no newline"), (0, "no newline".to_string()));
    assert_eq!(parse_i64("-42"), Some(-42));
    assert_eq!(parse_i64("+7"), Some(7));
    assert_eq!(parse_i64("-9223372036854775808"), Some(i64::MIN));
    assert_eq!(parse_i64("9223372036854775808"), None);
    assert_eq!(parse_i64("-+1"), None);
    assert_eq!(parse_i64(""), None);
    assert!(status_ok(204));
    assert!(!status_ok(300));
    assert_eq!(get_args("u")[2], "u");
    assert_eq!(post_args("u", "b", "text/plain")[6], "Content-Type: text/plain");
}
