//! The operating-system name scripts test with `if linux:` and friends.
use vstd::prelude::*;

use crate::text::{ascii_lower, str_eq, to_ascii_lower};

verus! {

/// The canonical lowercase name of the OS that `target_os` (as Rust names
/// it) belongs to: `linux`, `macos`, `windows`, `bsd` for the BSDs, or
/// `unknown`.
pub open spec fn os_name_spec(target_os: Seq<char>) -> Seq<char> {
    if target_os == "linux"@ {
        "linux"@
    } else if target_os == "macos"@ {
        "macos"@
    } else if target_os == "windows"@ {
        "windows"@
    } else if target_os == "freebsd"@ || target_os == "openbsd"@ || target_os == "netbsd"@
        || target_os == "dragonfly"@ {
        "bsd"@
    } else {
        "unknown"@
    }
}

/// The OS name of the platform whose `std::env::consts::OS` is `target_os`.
pub fn detect_os_name(target_os: &str) -> (r: String)
    ensures
        r@ == os_name_spec(target_os@),
{
    let n = if str_eq(target_os, "linux") {
        "linux"
    } else if str_eq(target_os, "macos") {
        "macos"
    } else if str_eq(target_os, "windows") {
        "windows"
    } else if str_eq(target_os, "freebsd") || str_eq(target_os, "openbsd") || str_eq(
        target_os,
        "netbsd",
    ) || str_eq(target_os, "dragonfly") {
        "bsd"
    } else {
        "unknown"
    };
    String::from_str(n)
}

/// Whether an `if <os>:` test names the current OS (in any case; `macos`
/// also matches `darwin`).
pub open spec fn os_matches_spec(current: Seq<char>, want: Seq<char>) -> bool {
    let w = ascii_lower(want);
    current == w || (w == "macos"@ && current == "darwin"@)
}

pub fn os_matches(current: &str, want: &str) -> (r: bool)
    ensures
        r == os_matches_spec(current@, want@),
{
    let w = to_ascii_lower(want);
    str_eq(current, w.as_str()) || (str_eq(w.as_str(), "macos") && str_eq(current, "darwin"))
}

/// Each platform maps to the name scripts test for: `linux`, `macos` and
/// `windows` to themselves, the four BSDs to `bsd`, anything else to
/// `unknown`. An `if <os>:` test ignores the case of the name it is given,
/// a name matches the OS it names, and `macos` also matches `darwin`.
pub proof fn law_os_names(target_os: Seq<char>, current: Seq<char>, want: Seq<char>)
    ensures
        os_name_spec("linux"@) == "linux"@,
        os_name_spec("macos"@) == "macos"@,
        os_name_spec("windows"@) == "windows"@,
        os_name_spec("freebsd"@) == "bsd"@,
        os_name_spec("openbsd"@) == "bsd"@,
        os_name_spec("netbsd"@) == "bsd"@,
        os_name_spec("dragonfly"@) == "bsd"@,
        target_os != "linux"@ && target_os != "macos"@ && target_os != "windows"@ && target_os != "freebsd"@
            && target_os != "openbsd"@ && target_os != "netbsd"@ && target_os != "dragonfly"@ ==> os_name_spec(
            target_os,
        ) == "unknown"@,
        os_matches_spec(current, want) == os_matches_spec(current, ascii_lower(want)),
        os_matches_spec(ascii_lower(want), want),
        os_matches_spec("darwin"@, "macos"@),
{
    reveal_strlit("linux");
    reveal_strlit("macos");
    reveal_strlit("windows");
    reveal_strlit("freebsd");
    reveal_strlit("openbsd");
    reveal_strlit("netbsd");
    reveal_strlit("dragonfly");
    reveal_strlit("darwin");
    assert("linux"@.len() == 5 && "macos"@.len() == 5 && "windows"@.len() == 7);
    assert("freebsd"@.len() == 7 && "openbsd"@.len() == 7 && "netbsd"@.len() == 6);
    assert("dragonfly"@.len() == 9);
    assert("linux"@[0] != "macos"@[0] && "windows"@[0] != "freebsd"@[0] && "windows"@[0] != "openbsd"@[0]);
    crate::text::lemma_ascii_lower_twice(want);
    assert(ascii_lower("macos"@) =~= "macos"@);
}

} // verus!
