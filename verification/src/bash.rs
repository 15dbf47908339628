//! The `bash` command DSL: shell one-liners for common tasks and canned
//! tool suggestions. Printing them is the application's.
use vstd::prelude::*;

use crate::text::{ascii_lower, contains_str, has_substring, to_ascii_lower};

verus! {

/// Installs oh-my-zsh.
pub const OH_MY_ZSH_INSTALL: &'static str = r#"sh -c "$(curl -fsSL https://raw.githubusercontent.com/ohmyzsh/ohmyzsh/master/tools/install.sh)""#;

/// Installs Homebrew.
pub const HOMEBREW_INSTALL: &'static str = r#"/bin/bash -c "$(curl -fsSL https://raw.githubusercontent.com/Homebrew/install/HEAD/install.sh)""#;

/// The shell snippet for a task described in words: a known one-liner when
/// the (lowercased) description mentions a recognised task, otherwise a
/// comment and an echo of the task. `macos` picks the macOS variants.
pub open spec fn generate_bash_spec(task: Seq<char>, macos: bool) -> Seq<char> {
    let l = ascii_lower(task);
    if has_substring(l, "oh my zsh"@) || has_substring(l, "oh-my-zsh"@) || has_substring(l, "ohmyzsh"@) {
        OH_MY_ZSH_INSTALL@
    } else if has_substring(l, "install homebrew"@) || has_substring(l, "install brew"@) {
        HOMEBREW_INSTALL@
    } else if has_substring(l, "wget"@) {
        "command -v wget >/dev/null 2>&1 && echo 'wget present' || echo 'wget missing'"@
    } else if has_substring(l, "curl"@) {
        "command -v curl >/dev/null 2>&1 && echo 'curl present' || echo 'curl missing'"@
    } else if has_substring(l, "nodejs"@) || has_substring(l, "node.js"@) {
        "command -v node >/dev/null 2>&1 && node -v || echo 'node missing'"@
    } else if has_substring(l, "update"@) && (has_substring(l, "apt"@) || has_substring(l, "debian"@)
        || has_substring(l, "ubuntu"@)) {
        "sudo apt-get update -y && sudo apt-get upgrade -y"@
    } else if has_substring(l, "disk"@) || has_substring(l, "space"@) {
        "df -h"@
    } else if has_substring(l, "memory"@) || has_substring(l, "ram"@) {
        if macos {
            "vm_stat"@
        } else {
            "free -h"@
        }
    } else if has_substring(l, "cpu"@) {
        if macos {
            "sysctl -n machdep.cpu.brand_string"@
        } else {
            "lscpu"@
        }
    } else {
        "# TODO: implement: "@ + task + "\necho 'task: "@ + task + "'"@
    }
}

pub fn generate_bash(task: &str, macos: bool) -> (r: String)
    ensures
        r@ == generate_bash_spec(task@, macos),
{
    let lower = to_ascii_lower(task);
    let l = lower.as_str();
    let fixed = if contains_str(l, "oh my zsh") || contains_str(l, "oh-my-zsh") || contains_str(l, "ohmyzsh") {
        OH_MY_ZSH_INSTALL
    } else if contains_str(l, "install homebrew") || contains_str(l, "install brew") {
        HOMEBREW_INSTALL
    } else if contains_str(l, "wget") {
        "command -v wget >/dev/null 2>&1 && echo 'wget present' || echo 'wget missing'"
    } else if contains_str(l, "curl") {
        "command -v curl >/dev/null 2>&1 && echo 'curl present' || echo 'curl missing'"
    } else if contains_str(l, "nodejs") || contains_str(l, "node.js") {
        "command -v node >/dev/null 2>&1 && node -v || echo 'node missing'"
    } else if contains_str(l, "update") && (contains_str(l, "apt") || contains_str(l, "debian")
        || contains_str(l, "ubuntu")) {
        "sudo apt-get update -y && sudo apt-get upgrade -y"
    } else if contains_str(l, "disk") || contains_str(l, "space") {
        "df -h"
    } else if contains_str(l, "memory") || contains_str(l, "ram") {
        if macos {
            "vm_stat"
        } else {
            "free -h"
        }
    } else if contains_str(l, "cpu") {
        if macos {
            "sysctl -n machdep.cpu.brand_string"
        } else {
            "lscpu"
        }
    } else {
        let mut s = String::from_str("# TODO: implement: ");
        s.append(task);
        s.append("\necho 'task: ");
        s.append(task);
        s.append("'");
        return s;
    };
    String::from_str(fixed)
}

/// The snippet a task calls for, looked for in the task in lowercase and
/// in this order: installing oh-my-zsh, installing Homebrew, checking for
/// wget, for curl, for Node.js, updating apt (Debian, Ubuntu), free disk
/// space (`df -h`), memory (`vm_stat` on macOS, else `free -h`), the CPU
/// (`sysctl -n machdep.cpu.brand_string` on macOS, else `lscpu`); any other
/// task becomes a comment and an echo of its text.
pub proof fn law_bash_snippets(task: Seq<char>, macos: bool)
    ensures
        ({
            let l = ascii_lower(task);
            let zsh = has_substring(l, "oh my zsh"@) || has_substring(l, "oh-my-zsh"@) || has_substring(
                l,
                "ohmyzsh"@,
            );
            let brew = has_substring(l, "install homebrew"@) || has_substring(l, "install brew"@);
            let wget = has_substring(l, "wget"@);
            let curl = has_substring(l, "curl"@);
            let node = has_substring(l, "nodejs"@) || has_substring(l, "node.js"@);
            let apt = has_substring(l, "update"@) && (has_substring(l, "apt"@) || has_substring(l, "debian"@)
                || has_substring(l, "ubuntu"@));
            let disk = has_substring(l, "disk"@) || has_substring(l, "space"@);
            let mem = has_substring(l, "memory"@) || has_substring(l, "ram"@);
            let cpu = has_substring(l, "cpu"@);
            let out = generate_bash_spec(task, macos);
            &&& zsh ==> out == OH_MY_ZSH_INSTALL@
            &&& !zsh && brew ==> out == HOMEBREW_INSTALL@
            &&& !zsh && !brew && wget ==> out
                == "command -v wget >/dev/null 2>&1 && echo 'wget present' || echo 'wget missing'"@
            &&& !zsh && !brew && !wget && curl ==> out
                == "command -v curl >/dev/null 2>&1 && echo 'curl present' || echo 'curl missing'"@
            &&& !zsh && !brew && !wget && !curl && node ==> out
                == "command -v node >/dev/null 2>&1 && node -v || echo 'node missing'"@
            &&& !zsh && !brew && !wget && !curl && !node && apt ==> out
                == "sudo apt-get update -y && sudo apt-get upgrade -y"@
            &&& !zsh && !brew && !wget && !curl && !node && !apt && disk ==> out == "df -h"@
            &&& !zsh && !brew && !wget && !curl && !node && !apt && !disk && mem ==> out == if macos {
                "vm_stat"@
            } else {
                "free -h"@
            }
            &&& !zsh && !brew && !wget && !curl && !node && !apt && !disk && !mem && cpu ==> out == if macos {
                "sysctl -n machdep.cpu.brand_string"@
            } else {
                "lscpu"@
            }
            &&& !zsh && !brew && !wget && !curl && !node && !apt && !disk && !mem && !cpu ==> out
                == "# TODO: implement: "@ + task + "\necho 'task: "@ + task + "'"@
        }),
{
}

/// Tools suggested for a search query.
pub open spec fn search_tool_spec(query: Seq<char>) -> Seq<Seq<char>> {
    let q = ascii_lower(query);
    if has_substring(q, "curl"@) || has_substring(q, "wget"@) {
        seq!["curl (preferred on macOS/most Linux)"@, "wget (often default on Debian/Ubuntu)"@]
    } else if has_substring(q, "ohmyzsh"@) || has_substring(q, "zsh"@) {
        seq!["zsh"@, "oh-my-zsh"@, "starship"@]
    } else {
        seq!["(no canned hits for `"@ + query + "`)"@]
    }
}

pub fn search_tool(query: &str) -> (r: Vec<String>)
    ensures
        r@.map_values(|s: String| s@) == search_tool_spec(query@),
{
    let lower = to_ascii_lower(query);
    let q = lower.as_str();
    let r = if contains_str(q, "curl") || contains_str(q, "wget") {
        vec![
            String::from_str("curl (preferred on macOS/most Linux)"),
            String::from_str("wget (often default on Debian/Ubuntu)"),
        ]
    } else if contains_str(q, "ohmyzsh") || contains_str(q, "zsh") {
        vec![String::from_str("zsh"), String::from_str("oh-my-zsh"), String::from_str("starship")]
    } else {
        let mut s = String::from_str("(no canned hits for `");
        s.append(query);
        s.append("`)");
        vec![s]
    };
    assert(r@.map_values(|s: String| s@) =~= search_tool_spec(query@));
    r
}

} // verus!
