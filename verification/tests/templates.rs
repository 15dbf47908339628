//! The bash DSL snippets and the code-template generator.

use rach::ai::{ai_generate_text, generate, BASH_OH_MY_ZSH, PYTHON_TCP_SERVER, RUST_COPY_FILE};
use rach::bash::{generate_bash, search_tool, OH_MY_ZSH_INSTALL};

#[test]
fn bash_snippets_for_known_tasks() {
    assert_eq!(generate_bash("Install Oh My Zsh please", false), OH_MY_ZSH_INSTALL);
    assert_eq!(generate_bash("check disk space", false), "df -h");
    assert_eq!(generate_bash("show RAM", true), "vm_stat");
    assert_eq!(generate_bash("show RAM", false), "free -h");
    assert_eq!(generate_bash("update ubuntu", false), "sudo apt-get update -y && sudo apt-get upgrade -y");
    assert_eq!(generate_bash("fly", false), "# TODO: implement: fly\necho 'task: fly'");
}

#[test]
fn search_suggestions() {
    assert_eq!(search_tool("WGET"), vec!["curl (preferred on macOS/most Linux)", "wget (often default on Debian/Ubuntu)"]);
    assert_eq!(search_tool("zsh"), vec!["zsh", "oh-my-zsh", "starship"]);
    assert_eq!(search_tool("vim"), vec!["(no canned hits for `vim`)"]);
}

#[test]
fn code_templates_by_language() {
    assert_eq!(generate("py", "a TCP echo server"), PYTHON_TCP_SERVER);
    assert_eq!(generate("rust", "copy a file"), RUST_COPY_FILE);
    assert_eq!(generate("sh", "ohmyzsh"), BASH_OH_MY_ZSH);
    assert_eq!(generate("c", "hello"), "#include <stdio.h>\nint main(void) {\n    /* task: hello */\n    puts(\"TODO\");\n    return 0;\n}\n");
    assert_eq!(generate("cobol", "x"), "// language `cobol` not in the built-in ai_generate catalogue\n// task: x");
    assert_eq!(ai_generate_text("PY", "parse json"), generate("py", "parse json"));
}
