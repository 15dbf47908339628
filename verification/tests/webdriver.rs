//! What the WebDriver client computes: driver choice, request text and the
//! decoding of driver replies.

use rach::json::{object1, object2, Json};
use rach::webdriver::{browser_commands, browser_paths};
use rach::webdriver::{
    active_element_id, b64_decode, capabilities_json, chrome_platform, chromedriver_url, decode_chunked,
    driver_args, driver_search_order, element_id, ensure_ok, geckodriver_asset, install_hint, new_window_handle,
    parse_http_response, request_head, screenshot_payload, script_body, session_id, window_handles, Browser,
};

fn s(x: &str) -> Json {
    Json::Str(x.to_string())
}

fn obj(members: Vec<(&str, Json)>) -> Json {
    Json::Object(members.into_iter().map(|(k, v)| (k.to_string(), v)).collect())
}

#[test]
fn base64_decodes_and_reports_bad_bytes() {
    assert_eq!(b64_decode("aGVsbG8gd29ybGQ=").unwrap(), b"hello world".to_vec());
    assert_eq!(b64_decode("aGVs\nbG8=").unwrap(), b"hello".to_vec());
    assert_eq!(b64_decode("aGk").unwrap(), b"hi".to_vec());
    assert_eq!(b64_decode("a!").unwrap_err().0, "base64: bad char !");
    assert_eq!(b64_decode("").unwrap(), Vec::<u8>::new());
}

#[test]
fn chunked_bodies_are_reassembled() {
    assert_eq!(decode_chunked(b"4\r\nWiki\r\n5;x=1\r\npedia\r\n0\r\n\r\n").unwrap(), "Wikipedia");
    assert_eq!(decode_chunked(b"zz\r\n").unwrap_err().0, "chunked: bad size");
    assert_eq!(decode_chunked(b"5\r\nab").unwrap_err().0, "chunked: short chunk");
    assert_eq!(decode_chunked(b"5").unwrap_err().0, "chunked: no size line terminator");
}

#[test]
fn http_responses_split_into_status_and_body() {
    let (st, body) = parse_http_response(b"HTTP/1.1 200 OK\r\nContent-Type: x\r\n\r\n{\"a\":1}").unwrap();
    assert_eq!((st, body.as_str()), (200, "{\"a\":1}"));
    let (st, body) =
        parse_http_response(b"HTTP/1.1 404 Not Found\r\nTransfer-Encoding: Chunked\r\n\r\n3\r\nabc\r\n0\r\n\r\n").unwrap();
    assert_eq!((st, body.as_str()), (404, "abc"));
    assert_eq!(parse_http_response(b"HTTP/1.1 xyz\r\n\r\n").unwrap().0, 0);
    assert_eq!(
        parse_http_response(b"garbage").unwrap_err().0,
        "malformed http response (no header/body separator)"
    );
}

#[test]
fn browsers_drivers_and_capabilities() {
    assert_eq!(Browser::Firefox.driver_bin(), "geckodriver");
    assert_eq!(Browser::Edge.capability_name(), "MicrosoftEdge");
    assert_eq!(driver_search_order(Some("CHROME"), false, false, false), vec![Browser::Chrome]);
    assert_eq!(driver_search_order(None, true, false, true), vec![Browser::Chrome, Browser::Edge]);
    assert_eq!(driver_search_order(Some("lynx"), false, false, false), vec![Browser::Firefox]);
    assert_eq!(driver_args(Browser::Chrome, 9515), vec!["--port=9515"]);
    assert_eq!(driver_args(Browser::Firefox, 4444), vec!["--port", "4444"]);
    assert_eq!(
        capabilities_json(Browser::Firefox, true),
        "{\"capabilities\":{\"alwaysMatch\":{\"browserName\":\"firefox\",\"moz:firefoxOptions\":{\"args\":[\"-headless\"]}}}}"
    );
    assert_eq!(
        capabilities_json(Browser::Safari, true),
        "{\"capabilities\":{\"alwaysMatch\":{\"browserName\":\"safari\"}}}"
    );
    let hint = install_hint(Some("edge"), Some("boom".to_string()));
    assert!(hint.starts_with("no usable WebDriver for `edge`.\n  tried: $PATH"));
    assert!(hint.ends_with("\n  last error: boom"));
}

#[test]
fn requests_and_platforms() {
    assert_eq!(
        request_head("POST", "/session", 4444, Some("{}")),
        "POST /session HTTP/1.1\r\nHost: 127.0.0.1:4444\r\nUser-Agent: rach/0.2\r\nAccept: application/json\r\nConnection: close\r\nContent-Type: application/json\r\nContent-Length: 2\r\n\r\n"
    );
    assert_eq!(chrome_platform("macos", "aarch64").unwrap(), "mac-arm64");
    assert_eq!(chrome_platform("linux", "riscv64").unwrap_err(), "unsupported platform: linux/riscv64");
    assert_eq!(geckodriver_asset("linux", "x86_64").unwrap(), "geckodriver-v0.36.0-linux64.tar.gz");
    assert_eq!(object1("url", "a\"b\n"), "{\"url\":\"a\\\"b\\n\"}");
    assert_eq!(object2("using", "xpath", "value", "//a"), "{\"using\":\"xpath\",\"value\":\"//a\"}");
    assert_eq!(script_body("return 1"), "{\"args\":[],\"script\":\"return 1\"}");
    assert_eq!(object1("k", "\u{1}"), "{\"k\":\"\\u0001\"}");
}

#[test]
fn driver_replies_are_read() {
    let err = obj(vec![("value", obj(vec![("error", s("no such element")), ("message", s("gone"))]))]);
    assert_eq!(ensure_ok(&err).unwrap_err().0, "WebDriver error: no such element \u{2014} gone");
    assert!(ensure_ok(&obj(vec![("value", Json::Null)])).is_ok());
    let sess = obj(vec![("value", obj(vec![("sessionId", s("abc"))]))]);
    assert_eq!(session_id(&sess, "{}").unwrap(), "abc");
    assert_eq!(session_id(&Json::Null, "null").unwrap_err().0, "session response missing sessionId: null");
    let el = obj(vec![("value", obj(vec![("element-6066", s("E1"))]))]);
    assert_eq!(element_id(&el, "css selector", "#a", "..").unwrap(), "E1");
    assert_eq!(element_id(&err, "xpath", "//a", "..").unwrap_err().0, "find_element(xpath, //a): no such element");
    assert_eq!(element_id(&obj(vec![]), "xpath", "//a", "{}").unwrap_err().0, "find_element: no value: {}");
    assert_eq!(active_element_id(&el).unwrap(), "E1");
    let handles = obj(vec![("value", Json::Array(vec![s("w1"), Json::Null, s("w2")]))]);
    assert_eq!(window_handles(&handles).unwrap(), vec!["w1", "w2"]);
    assert_eq!(window_handles(&el).unwrap_err().0, "list_windows: no array");
    assert_eq!(new_window_handle(&obj(vec![("value", obj(vec![("handle", s("h"))]))])), Some("h".to_string()));
    assert_eq!(screenshot_payload(&obj(vec![("value", s("aGk="))])).unwrap(), "aGk=");
}

#[test]
fn chromedriver_download_is_looked_up_by_platform() {
    let entry = |p: &str, u: &str| obj(vec![("platform", s(p)), ("url", s(u))]);
    let doc = obj(vec![(
        "channels",
        obj(vec![(
            "Stable",
            obj(vec![("downloads", obj(vec![("chromedriver", Json::Array(vec![entry("linux64", "L"), entry("win64", "W")]))]))]),
        )]),
    )]);
    assert_eq!(chromedriver_url(&doc, "win64").unwrap(), "W");
    assert_eq!(chromedriver_url(&doc, "mac-x64").unwrap_err(), "no chromedriver download for platform `mac-x64`");
    assert_eq!(chromedriver_url(&Json::Null, "x").unwrap_err(), "Chrome-for-Testing JSON: no chromedriver list");
}

#[test]
fn json_parse_reads_a_document() {
    let doc = rach::json::json_parse("{\"value\": [1, 2.5, \"x\", null, true]}").unwrap();
    match doc.get("value") {
        Some(Json::Array(items)) => {
            assert_eq!(items.len(), 5);
            assert!(matches!(&items[0], Json::Number(n) if n == "1"));
            assert!(matches!(&items[1], Json::Number(n) if n == "2.5"));
            assert!(matches!(&items[2], Json::Str(s) if s == "x"));
            assert!(matches!(&items[3], Json::Null));
            assert!(matches!(&items[4], Json::Bool(true)));
        }
        other => panic!("unexpected document: {:?}", other),
    }
}

#[test]
fn json_parse_error_is_prefixed() {
    let err = rach::json::json_parse("{\"a\": ").unwrap_err();
    assert!(err.starts_with("json_parse: "));
    assert!(err.len() > "json_parse: ".len());
}

#[test]
fn browser_probes_depend_on_the_system() {
    assert_eq!(browser_commands(Browser::Firefox), vec!["firefox".to_string()]);
    assert_eq!(browser_commands(Browser::Chrome).len(), 5);
    assert_eq!(browser_commands(Browser::Chrome)[0], "google-chrome");
    assert!(browser_paths(Browser::Chrome, "linux").is_empty());
    assert_eq!(browser_paths(Browser::Firefox, "macos"), vec!["/Applications/Firefox.app/Contents/MacOS/firefox".to_string()]);
    assert_eq!(browser_paths(Browser::Edge, "windows"), vec![r"C:\Program Files (x86)\Microsoft\Edge\Application\msedge.exe".to_string()]);
}
