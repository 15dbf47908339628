//! The built-in code-template generator behind `ai_generate`: it recognises
//! a few canonical tasks per language and otherwise emits a marked stub.
use vstd::prelude::*;

use crate::text::{ascii_lower, contains_str, has_substring, str_eq, to_ascii_lower};

verus! {

/// Template: bash oh my zsh.
pub const BASH_OH_MY_ZSH: &'static str = r#"#!/usr/bin/env bash
set -euo pipefail
if [ ! -d "$HOME/.oh-my-zsh" ]; then
  if command -v zsh >/dev/null 2>&1; then
    sh -c "$(curl -fsSL https://raw.githubusercontent.com/ohmyzsh/ohmyzsh/master/tools/install.sh)" "" --unattended
  else
    echo "zsh missing — install it first (apt/dnf/pacman/brew)" >&2
    exit 1
  fi
else
  echo "oh-my-zsh already installed at $HOME/.oh-my-zsh"
fi"#;

/// Template: bash update system.
pub const BASH_UPDATE_SYSTEM: &'static str = r#"#!/usr/bin/env bash
set -euo pipefail
if   command -v apt-get >/dev/null; then sudo apt-get update -y && sudo apt-get upgrade -y
elif command -v dnf     >/dev/null; then sudo dnf upgrade -y
elif command -v pacman  >/dev/null; then sudo pacman -Syu --noconfirm
elif command -v brew    >/dev/null; then brew update && brew upgrade
else echo "no known package manager" >&2; exit 1
fi"#;

/// Template: python tcp server.
pub const PYTHON_TCP_SERVER: &'static str = r#"import socket

def main():
    with socket.socket(socket.AF_INET, socket.SOCK_STREAM) as s:
        s.bind(("127.0.0.1", 9000))
        s.listen()
        print("listening on 127.0.0.1:9000")
        while True:
            conn, addr = s.accept()
            with conn:
                print("client:", addr)
                data = conn.recv(4096)
                conn.sendall(data)

if __name__ == "__main__":
    main()
"#;

/// Template: python json parse.
pub const PYTHON_JSON_PARSE: &'static str = r#"import json, sys
data = json.load(sys.stdin)
print(json.dumps(data, indent=2, ensure_ascii=False))
"#;

/// Template: rust tcp server.
pub const RUST_TCP_SERVER: &'static str = r#"use std::io::{Read, Write};
use std::net::TcpListener;

fn main() -> std::io::Result<()> {
    let listener = TcpListener::bind("127.0.0.1:9000")?;
    println!("listening on 127.0.0.1:9000");
    for stream in listener.incoming() {
        let mut s = stream?;
        let mut buf = [0u8; 4096];
        let n = s.read(&mut buf)?;
        s.write_all(&buf[..n])?;
    }
    Ok(())
}
"#;

/// Template: rust copy file.
pub const RUST_COPY_FILE: &'static str = r#"fn main() -> std::io::Result<()> {
    let mut args = std::env::args().skip(1);
    let src = args.next().expect("usage: copy <src> <dst>");
    let dst = args.next().expect("usage: copy <src> <dst>");
    std::fs::copy(&src, &dst)?;
    println!("copied {} -> {}", src, dst);
    Ok(())
}
"#;

/// Template: cpp copy file.
pub const CPP_COPY_FILE: &'static str = r#"#include <filesystem>
#include <iostream>

int main(int argc, char** argv) {
    if (argc != 3) { std::cerr << "usage: copy <src> <dst>\n"; return 1; }
    std::filesystem::copy_file(argv[1], argv[2],
        std::filesystem::copy_options::overwrite_existing);
    std::cout << "copied " << argv[1] << " -> " << argv[2] << "\n";
    return 0;
}
"#;

/// Template: c copy file.
pub const C_COPY_FILE: &'static str = r#"#include <stdio.h>

int main(int argc, char** argv) {
    if (argc != 3) { fprintf(stderr, "usage: copy <src> <dst>\n"); return 1; }
    FILE* in = fopen(argv[1], "rb");
    FILE* out = fopen(argv[2], "wb");
    if (!in || !out) { perror("fopen"); return 1; }
    char buf[8192];
    size_t n;
    while ((n = fread(buf, 1, sizeof buf, in)) > 0) fwrite(buf, 1, n, out);
    fclose(in); fclose(out);
    return 0;
}
"#;

/// Template: zig json parse.
pub const ZIG_JSON_PARSE: &'static str = r#"const std = @import("std");

pub fn main() !void {
    var gpa = std.heap.GeneralPurposeAllocator(.{}){};
    defer _ = gpa.deinit();
    const allocator = gpa.allocator();

    const stdin = std.io.getStdIn().reader();
    const input = try stdin.readAllAlloc(allocator, 1 << 20);
    defer allocator.free(input);

    var parsed = try std.json.parseFromSlice(std.json.Value, allocator, input, .{});
    defer parsed.deinit();

    const stdout = std.io.getStdOut().writer();
    try std.json.stringify(parsed.value, .{ .whitespace = .indent_2 }, stdout);
}
"#;

pub open spec fn bash_for_spec(t: Seq<char>, raw: Seq<char>) -> Seq<char> {
    if has_substring(t, "oh-my-zsh"@) || has_substring(t, "oh my zsh"@) || has_substring(t, "ohmyzsh"@) {
        BASH_OH_MY_ZSH@
    } else if has_substring(t, "update"@) && (has_substring(t, "system"@) || has_substring(t, "packages"@)) {
        BASH_UPDATE_SYSTEM@
    } else {
        "#!/usr/bin/env bash\nset -euo pipefail\n# task: "@ + raw + "\necho 'TODO: implement task'\n"@
    }
}

pub open spec fn python_for_spec(t: Seq<char>, raw: Seq<char>) -> Seq<char> {
    if has_substring(t, "tcp"@) && has_substring(t, "server"@) {
        PYTHON_TCP_SERVER@
    } else if has_substring(t, "json"@) && has_substring(t, "parse"@) {
        PYTHON_JSON_PARSE@
    } else {
        "# task: "@ + raw + "\nprint('TODO: implement task')\n"@
    }
}

pub open spec fn rust_for_spec(t: Seq<char>, raw: Seq<char>) -> Seq<char> {
    if has_substring(t, "tcp"@) && has_substring(t, "server"@) {
        RUST_TCP_SERVER@
    } else if has_substring(t, "copy"@) && has_substring(t, "file"@) {
        RUST_COPY_FILE@
    } else {
        "// task: "@ + raw + "\nfn main() { println!(\"TODO: implement task\"); }\n"@
    }
}

pub open spec fn cpp_for_spec(t: Seq<char>, raw: Seq<char>) -> Seq<char> {
    if has_substring(t, "copy"@) && has_substring(t, "file"@) {
        CPP_COPY_FILE@
    } else {
        "#include <iostream>\nint main() {\n    // task: "@ + raw + "\n    std::cout << \"TODO\\n\";\n}\n"@
    }
}

pub open spec fn c_for_spec(t: Seq<char>, raw: Seq<char>) -> Seq<char> {
    if has_substring(t, "copy"@) && has_substring(t, "file"@) {
        C_COPY_FILE@
    } else {
        "#include <stdio.h>\nint main(void) {\n    /* task: "@ + raw + " */\n    puts(\"TODO\");\n    return 0;\n}\n"@
    }
}

pub open spec fn zig_for_spec(t: Seq<char>, raw: Seq<char>) -> Seq<char> {
    if has_substring(t, "json"@) && has_substring(t, "parse"@) {
        ZIG_JSON_PARSE@
    } else {
        "const std = @import(\"std\");\npub fn main() !void {\n    // task: "@ + raw
            + "\n    try std.io.getStdOut().writer().print(\"TODO\\n\", .{});\n}\n"@
    }
}

/// The code generated for `task` in language `lang` (already lowercased).
pub open spec fn generate_spec(lang: Seq<char>, task: Seq<char>) -> Seq<char> {
    let t = ascii_lower(task);
    if lang == "bash"@ || lang == "sh"@ {
        bash_for_spec(t, task)
    } else if lang == "python"@ || lang == "py"@ {
        python_for_spec(t, task)
    } else if lang == "rust"@ || lang == "rs"@ {
        rust_for_spec(t, task)
    } else if lang == "c++"@ || lang == "cpp"@ || lang == "cxx"@ {
        cpp_for_spec(t, task)
    } else if lang == "c"@ {
        c_for_spec(t, task)
    } else if lang == "zig"@ {
        zig_for_spec(t, task)
    } else {
        "// language `"@ + lang + "` not in the built-in ai_generate catalogue\n// task: "@ + task
    }
}

fn wrap(prefix: &str, raw: &str, suffix: &str) -> (r: String)
    ensures
        r@ == prefix@ + raw@ + suffix@,
{
    let mut s = String::from_str(prefix);
    s.append(raw);
    s.append(suffix);
    s
}

pub fn bash_for(t: &str, raw: &str) -> (r: String)
    ensures
        r@ == bash_for_spec(t@, raw@),
{
    if contains_str(t, "oh-my-zsh") || contains_str(t, "oh my zsh") || contains_str(t, "ohmyzsh") {
        String::from_str(BASH_OH_MY_ZSH)
    } else if contains_str(t, "update") && (contains_str(t, "system") || contains_str(t, "packages")) {
        String::from_str(BASH_UPDATE_SYSTEM)
    } else {
        wrap("#!/usr/bin/env bash\nset -euo pipefail\n# task: ", raw, "\necho 'TODO: implement task'\n")
    }
}

pub fn python_for(t: &str, raw: &str) -> (r: String)
    ensures
        r@ == python_for_spec(t@, raw@),
{
    if contains_str(t, "tcp") && contains_str(t, "server") {
        String::from_str(PYTHON_TCP_SERVER)
    } else if contains_str(t, "json") && contains_str(t, "parse") {
        String::from_str(PYTHON_JSON_PARSE)
    } else {
        wrap("# task: ", raw, "\nprint('TODO: implement task')\n")
    }
}

pub fn rust_for(t: &str, raw: &str) -> (r: String)
    ensures
        r@ == rust_for_spec(t@, raw@),
{
    if contains_str(t, "tcp") && contains_str(t, "server") {
        String::from_str(RUST_TCP_SERVER)
    } else if contains_str(t, "copy") && contains_str(t, "file") {
        String::from_str(RUST_COPY_FILE)
    } else {
        wrap("// task: ", raw, "\nfn main() { println!(\"TODO: implement task\"); }\n")
    }
}

pub fn cpp_for(t: &str, raw: &str) -> (r: String)
    ensures
        r@ == cpp_for_spec(t@, raw@),
{
    if contains_str(t, "copy") && contains_str(t, "file") {
        String::from_str(CPP_COPY_FILE)
    } else {
        wrap("#include <iostream>\nint main() {\n    // task: ", raw, "\n    std::cout << \"TODO\\n\";\n}\n")
    }
}

pub fn c_for(t: &str, raw: &str) -> (r: String)
    ensures
        r@ == c_for_spec(t@, raw@),
{
    if contains_str(t, "copy") && contains_str(t, "file") {
        String::from_str(C_COPY_FILE)
    } else {
        wrap(
            "#include <stdio.h>\nint main(void) {\n    /* task: ",
            raw,
            " */\n    puts(\"TODO\");\n    return 0;\n}\n",
        )
    }
}

pub fn zig_for(t: &str, raw: &str) -> (r: String)
    ensures
        r@ == zig_for_spec(t@, raw@),
{
    if contains_str(t, "json") && contains_str(t, "parse") {
        String::from_str(ZIG_JSON_PARSE)
    } else {
        wrap(
            "const std = @import(\"std\");\npub fn main() !void {\n    // task: ",
            raw,
            "\n    try std.io.getStdOut().writer().print(\"TODO\\n\", .{});\n}\n",
        )
    }
}

/// The code generated for `task` in `lang`, which must already be in
/// lowercase.
pub fn generate(lang: &str, task: &str) -> (r: String)
    ensures
        r@ == generate_spec(lang@, task@),
{
    let lower = to_ascii_lower(task);
    let t = lower.as_str();
    if str_eq(lang, "bash") || str_eq(lang, "sh") {
        bash_for(t, task)
    } else if str_eq(lang, "python") || str_eq(lang, "py") {
        python_for(t, task)
    } else if str_eq(lang, "rust") || str_eq(lang, "rs") {
        rust_for(t, task)
    } else if str_eq(lang, "c++") || str_eq(lang, "cpp") || str_eq(lang, "cxx") {
        cpp_for(t, task)
    } else if str_eq(lang, "c") {
        c_for(t, task)
    } else if str_eq(lang, "zig") {
        zig_for(t, task)
    } else {
        let mut s = String::from_str("// language `");
        s.append(lang);
        s.append("` not in the built-in ai_generate catalogue\n// task: ");
        s.append(task);
        s
    }
}

/// The code for `task` in `language`, named in any case.
pub fn ai_generate_text(language: &str, task: &str) -> (r: String)
    ensures
        r@ == generate_spec(ascii_lower(language@), task@),
{
    let lang = to_ascii_lower(language);
    generate(lang.as_str(), task)
}

/// Which generator serves which language name: `bash` and `sh` the shell
/// templates, `python` and `py` the Python ones, `rust` and `rs` the Rust
/// ones, `c++`, `cpp` and `cxx` the C++ ones, `c` the C ones and `zig` the
/// Zig ones, each choosing its template from the task in lowercase. Any
/// other language gets a comment naming it and the task.
pub proof fn law_language_catalogue(lang: Seq<char>, task: Seq<char>)
    ensures
        generate_spec("bash"@, task) == bash_for_spec(ascii_lower(task), task),
        generate_spec("sh"@, task) == bash_for_spec(ascii_lower(task), task),
        generate_spec("python"@, task) == python_for_spec(ascii_lower(task), task),
        generate_spec("py"@, task) == python_for_spec(ascii_lower(task), task),
        generate_spec("rust"@, task) == rust_for_spec(ascii_lower(task), task),
        generate_spec("rs"@, task) == rust_for_spec(ascii_lower(task), task),
        generate_spec("c++"@, task) == cpp_for_spec(ascii_lower(task), task),
        generate_spec("cpp"@, task) == cpp_for_spec(ascii_lower(task), task),
        generate_spec("cxx"@, task) == cpp_for_spec(ascii_lower(task), task),
        generate_spec("c"@, task) == c_for_spec(ascii_lower(task), task),
        generate_spec("zig"@, task) == zig_for_spec(ascii_lower(task), task),
        lang != "bash"@ && lang != "sh"@ && lang != "python"@ && lang != "py"@ && lang != "rust"@ && lang != "rs"@ && lang != "c++"@ && lang != "cpp"@ && lang != "cxx"@ && lang != "c"@ && lang != "zig"@ ==> generate_spec(lang, task)
            == "// language `"@ + lang + "` not in the built-in ai_generate catalogue\n// task: "@ + task,
{
    reveal_strlit("bash");
    reveal_strlit("sh");
    reveal_strlit("python");
    reveal_strlit("py");
    reveal_strlit("rust");
    reveal_strlit("rs");
    reveal_strlit("c++");
    reveal_strlit("cpp");
    reveal_strlit("cxx");
    reveal_strlit("c");
    reveal_strlit("zig");
    assert("bash"@.len() == 4 && "sh"@.len() == 2 && "python"@.len() == 6 && "py"@.len() == 2 && "rust"@.len() == 4 && "rs"@.len() == 2);
    assert("c++"@.len() == 3 && "cpp"@.len() == 3 && "cxx"@.len() == 3 && "c"@.len() == 1 && "zig"@.len() == 3);
    assert("bash"@[0] != "rust"@[0]);
    assert("sh"@[0] != "py"@[0]);
    assert("sh"@[0] != "rs"@[0]);
    assert("py"@[0] != "rs"@[0]);
    assert("c++"@[1] != "cpp"@[1]);
    assert("c++"@[1] != "cxx"@[1]);
    assert("c++"@[0] != "zig"@[0]);
    assert("cpp"@[1] != "cxx"@[1]);
    assert("cpp"@[0] != "zig"@[0]);
    assert("cxx"@[0] != "zig"@[0]);
}

/// The templates a task calls for, whatever its case: a TCP server in
/// Python and Rust, a file copy in Rust, C++ and C, JSON parsing in Python
/// and Zig, installing oh-my-zsh and updating the system in bash.
pub proof fn law_task_templates(task: Seq<char>)
    ensures
        ({
            let t = ascii_lower(task);
            let tcp = has_substring(t, "tcp"@) && has_substring(t, "server"@);
            let copy = has_substring(t, "copy"@) && has_substring(t, "file"@);
            let json = has_substring(t, "json"@) && has_substring(t, "parse"@);
            let zsh = has_substring(t, "oh-my-zsh"@) || has_substring(t, "oh my zsh"@) || has_substring(
                t,
                "ohmyzsh"@,
            );
            let update = has_substring(t, "update"@) && (has_substring(t, "system"@) || has_substring(
                t,
                "packages"@,
            ));
            &&& tcp ==> generate_spec("python"@, task) == PYTHON_TCP_SERVER@
            &&& tcp ==> generate_spec("rust"@, task) == RUST_TCP_SERVER@
            &&& copy && !tcp ==> generate_spec("rust"@, task) == RUST_COPY_FILE@
            &&& copy ==> generate_spec("c++"@, task) == CPP_COPY_FILE@
            &&& copy ==> generate_spec("c"@, task) == C_COPY_FILE@
            &&& json && !tcp ==> generate_spec("python"@, task) == PYTHON_JSON_PARSE@
            &&& json ==> generate_spec("zig"@, task) == ZIG_JSON_PARSE@
            &&& zsh ==> generate_spec("bash"@, task) == BASH_OH_MY_ZSH@
            &&& update && !zsh ==> generate_spec("bash"@, task) == BASH_UPDATE_SYSTEM@
        }),
{
    law_language_catalogue("python"@, task);
}

} // verus!
