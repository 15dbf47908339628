//! The front end must never panic on adversarial input: malformed or pathological
//! source goes through `lexer → parser` and comes back as a clean `Result`.

use rach::{lexer, parser};

fn try_parse(src: &str) -> Result<(), String> {
    let tokens = lexer::tokenize(src).map_err(|e| e.message)?;
    parser::parse(tokens).map(|_| ()).map_err(|e| e.message)
}

#[test]
fn deeply_nested_parens_error_not_overflow() {
    let src = format!("rach main():\n  set x = {}1{}\n", "(".repeat(5000), ")".repeat(5000));
    let err = try_parse(&src).expect_err("deep nesting must be rejected, not parsed");
    assert!(err.contains("deep"), "expected a depth diagnostic, got: {err}");
}

#[test]
fn garbage_inputs_never_panic() {
    let cases = [
        "",
        "((((((",
        "))))))",
        "rach main():",
        "rach main():\n  set x =",
        "rach main():\n  set x = [1, 2, 3",
        "rach main():\n  if :\n echo(1)",
        "\"unterminated string",
        "rach main():\n  set m = {a:}",
        "match",
        "rach\0main():\n  echo(1)",
        "💥🔥 рандом юникод",
        "rach main():\n  set x = 999999999999999999999999999999\n",
    ];
    for case in cases {
        let _ = try_parse(case);
    }
}

#[test]
fn valid_program_still_parses() {
    let src = "rach main():\n  set x = (1 + 2) * 3\n  print(x)\nend\n";
    try_parse(src).expect("a well-formed program must parse");
}

#[test]
fn deeply_nested_blocks_error_not_overflow() {
    let mut src = String::from("rach main():\n");
    for i in 0..2000 {
        src.push_str(&" ".repeat(i + 2));
        src.push_str("if true:\n");
    }
    src.push_str(&" ".repeat(2002));
    src.push_str("echo(1)\n");
    let _ = try_parse(&src);
}

#[test]
fn long_unary_chain_does_not_overflow() {
    let src = format!("rach main():\n  set x = {}1\n", "-".repeat(20000));
    let _ = try_parse(&src);
}

#[test]
fn long_power_chain_does_not_overflow() {
    let src = format!("rach main():\n  set x = {}2\n", "2^".repeat(20000));
    let _ = try_parse(&src);
}

#[test]
fn long_not_chain_does_not_overflow() {
    let src = format!("rach main():\n  set x = {}true\n", "not ".repeat(20000));
    let _ = try_parse(&src);
}
