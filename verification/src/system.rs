//! The decisions behind the system commands: which program installs a
//! package on which OS, how a shell command is launched, and the status
//! codes reported for failed programs. Running them is the application's.
use vstd::prelude::*;

use crate::text::{ascii_lower, str_eq, to_ascii_lower};

verus! {

/// The package managers looked for on Linux, in order of preference.
pub open spec fn linux_managers() -> Seq<Seq<char>> {
    seq!["apt-get"@, "apt"@, "dnf"@, "yum"@, "pacman"@, "zypper"@, "apk"@]
}

pub fn linux_package_managers() -> (r: Vec<&'static str>)
    ensures
        r@.map_values(|s: &str| s@) == linux_managers(),
{
    let r = vec!["apt-get", "apt", "dnf", "yum", "pacman", "zypper", "apk"];
    assert(r@.map_values(|s: &str| s@) =~= linux_managers());
    r
}

/// The program and arguments that install `pkg` on `os` (the canonical OS
/// name), given the first Linux package manager found on the `PATH`; or the
/// status code and reason when there is none.
pub open spec fn install_plan_spec(os: Seq<char>, manager: Option<Seq<char>>, pkg: Seq<char>) -> Result<
    (Seq<char>, Seq<Seq<char>>),
    (int, Seq<char>),
> {
    if os == "macos"@ {
        Ok(("brew"@, seq!["install"@, pkg]))
    } else if os == "linux"@ {
        match manager {
            Some(m) => if m == "apt-get"@ || m == "apt"@ {
                Ok(("sudo"@, seq!["apt-get"@, "install"@, "-y"@, pkg]))
            } else if m == "dnf"@ {
                Ok(("sudo"@, seq!["dnf"@, "install"@, "-y"@, pkg]))
            } else if m == "yum"@ {
                Ok(("sudo"@, seq!["yum"@, "install"@, "-y"@, pkg]))
            } else if m == "pacman"@ {
                Ok(("sudo"@, seq!["pacman"@, "-S"@, "--noconfirm"@, pkg]))
            } else if m == "zypper"@ {
                Ok(("sudo"@, seq!["zypper"@, "install"@, "-y"@, pkg]))
            } else if m == "apk"@ {
                Ok(("sudo"@, seq!["apk"@, "add"@, pkg]))
            } else {
                Err((404, "no package manager found"@))
            },
            None => Err((404, "no package manager found"@)),
        }
    } else if os == "windows"@ {
        Ok(("winget"@, seq!["install"@, "--silent"@, pkg]))
    } else if os == "bsd"@ {
        Ok(("pkg"@, seq!["install"@, "-y"@, pkg]))
    } else {
        Err((501, "unsupported OS for install_package"@))
    }
}

fn strs(v: Vec<&str>) -> (r: Vec<String>)
    ensures
        r@.map_values(|s: String| s@) == v@.map_values(|s: &str| s@),
{
    let mut out: Vec<String> = Vec::new();
    let mut k: usize = 0;
    while k < v.len()
        invariant
            k <= v@.len(),
            out@.map_values(|s: String| s@) == v@.take(k as int).map_values(|s: &str| s@),
        decreases v@.len() - k,
    {
        let ghost prev = out@.map_values(|s: String| s@);
        let x = String::from_str(v[k]);
        out.push(x);
        assert(out@.map_values(|s: String| s@) =~= prev.push(x@));
        assert(v@.take(k + 1).map_values(|s: &str| s@) =~= v@.take(k as int).map_values(|s: &str| s@).push(
            v@[k as int]@,
        ));
        k += 1;
        assert(out@.map_values(|s: String| s@) =~= v@.take(k as int).map_values(|s: &str| s@));
    }
    assert(v@.take(k as int) =~= v@);
    out
}

/// How to install `pkg` on `os`.
pub fn install_plan(os: &str, manager: Option<&str>, pkg: &str) -> (r: Result<(String, Vec<String>), (i64, String)>)
    ensures
        match (r, install_plan_spec(
            os@,
            match manager {
                Some(m) => Some(m@),
                None => None,
            },
            pkg@,
        )) {
            (Ok((p, args)), Ok((p2, args2))) => p@ == p2 && args@.map_values(|s: String| s@) == args2,
            (Err((c, m)), Err((c2, m2))) => c as int == c2 && m@ == m2,
            _ => false,
        },
{
    let (prog, args): (&str, Vec<&str>) = if str_eq(os, "macos") {
        ("brew", vec!["install", pkg])
    } else if str_eq(os, "linux") {
        let m = match manager {
            Some(m) => m,
            None => return Err((404, String::from_str("no package manager found"))),
        };
        if str_eq(m, "apt-get") || str_eq(m, "apt") {
            ("sudo", vec!["apt-get", "install", "-y", pkg])
        } else if str_eq(m, "dnf") {
            ("sudo", vec!["dnf", "install", "-y", pkg])
        } else if str_eq(m, "yum") {
            ("sudo", vec!["yum", "install", "-y", pkg])
        } else if str_eq(m, "pacman") {
            ("sudo", vec!["pacman", "-S", "--noconfirm", pkg])
        } else if str_eq(m, "zypper") {
            ("sudo", vec!["zypper", "install", "-y", pkg])
        } else if str_eq(m, "apk") {
            ("sudo", vec!["apk", "add", pkg])
        } else {
            return Err((404, String::from_str("no package manager found")));
        }
    } else if str_eq(os, "windows") {
        ("winget", vec!["install", "--silent", pkg])
    } else if str_eq(os, "bsd") {
        ("pkg", vec!["install", "-y", pkg])
    } else {
        return Err((501, String::from_str("unsupported OS for install_package")));
    };
    let ghost av = args@.map_values(|s: &str| s@);
    let out = strs(args);
    proof {
        let want = install_plan_spec(
            os@,
            match manager {
                Some(m) => Some(m@),
                None => None,
            },
            pkg@,
        );
        assert(want is Ok);
        assert(av =~= want->Ok_0.1);
    }
    Ok((String::from_str(prog), out))
}

/// What installs a package: `brew install` on macOS; on Linux, under `sudo`,
/// `apt-get install -y` (for apt-get and apt), `dnf`, `yum` and `zypper`
/// `install -y`, `pacman -S --noconfirm` or `apk add`, after the first
/// package manager found; `winget install --silent` on Windows and
/// `pkg install -y` on the BSDs. Every Linux manager looked for has a plan,
/// Linux without one is refused with 404 and any other OS with 501; a plan
/// always names the package as its last argument.
pub proof fn law_install_plans(os: Seq<char>, manager: Option<Seq<char>>, pkg: Seq<char>)
    ensures
        install_plan_spec(os, manager, pkg) matches Ok((p, args)) ==> args.len() >= 2 && args.last() == pkg,
        install_plan_spec("macos"@, manager, pkg) == Ok::<(Seq<char>, Seq<Seq<char>>), (int, Seq<char>)>(
            ("brew"@, seq!["install"@, pkg]),
        ),
        install_plan_spec("linux"@, Some("apt-get"@), pkg) == Ok::<(Seq<char>, Seq<Seq<char>>), (int, Seq<char>)>(
            ("sudo"@, seq!["apt-get"@, "install"@, "-y"@, pkg]),
        ),
        install_plan_spec("linux"@, Some("apt"@), pkg) == Ok::<(Seq<char>, Seq<Seq<char>>), (int, Seq<char>)>(
            ("sudo"@, seq!["apt-get"@, "install"@, "-y"@, pkg]),
        ),
        install_plan_spec("linux"@, Some("dnf"@), pkg) == Ok::<(Seq<char>, Seq<Seq<char>>), (int, Seq<char>)>(
            ("sudo"@, seq!["dnf"@, "install"@, "-y"@, pkg]),
        ),
        install_plan_spec("linux"@, Some("yum"@), pkg) == Ok::<(Seq<char>, Seq<Seq<char>>), (int, Seq<char>)>(
            ("sudo"@, seq!["yum"@, "install"@, "-y"@, pkg]),
        ),
        install_plan_spec("linux"@, Some("pacman"@), pkg) == Ok::<(Seq<char>, Seq<Seq<char>>), (int, Seq<char>)>(
            ("sudo"@, seq!["pacman"@, "-S"@, "--noconfirm"@, pkg]),
        ),
        install_plan_spec("linux"@, Some("zypper"@), pkg) == Ok::<(Seq<char>, Seq<Seq<char>>), (int, Seq<char>)>(
            ("sudo"@, seq!["zypper"@, "install"@, "-y"@, pkg]),
        ),
        install_plan_spec("linux"@, Some("apk"@), pkg) == Ok::<(Seq<char>, Seq<Seq<char>>), (int, Seq<char>)>(
            ("sudo"@, seq!["apk"@, "add"@, pkg]),
        ),
        install_plan_spec("linux"@, None, pkg) == Err::<(Seq<char>, Seq<Seq<char>>), (int, Seq<char>)>(
            (404, "no package manager found"@),
        ),
        install_plan_spec("windows"@, manager, pkg) == Ok::<(Seq<char>, Seq<Seq<char>>), (int, Seq<char>)>(
            ("winget"@, seq!["install"@, "--silent"@, pkg]),
        ),
        install_plan_spec("bsd"@, manager, pkg) == Ok::<(Seq<char>, Seq<Seq<char>>), (int, Seq<char>)>(
            ("pkg"@, seq!["install"@, "-y"@, pkg]),
        ),
        os != "macos"@ && os != "linux"@ && os != "windows"@ && os != "bsd"@ ==> install_plan_spec(os, manager, pkg)
            == Err::<(Seq<char>, Seq<Seq<char>>), (int, Seq<char>)>((501, "unsupported OS for install_package"@)),
        forall|i: int| 0 <= i < linux_managers().len() ==> #[trigger] install_plan_spec("linux"@, Some(linux_managers()[i]), pkg) is Ok,
{
    reveal_strlit("macos");
    reveal_strlit("linux");
    reveal_strlit("windows");
    reveal_strlit("bsd");
    reveal_strlit("apt-get");
    reveal_strlit("apt");
    reveal_strlit("dnf");
    reveal_strlit("yum");
    reveal_strlit("pacman");
    reveal_strlit("zypper");
    reveal_strlit("apk");
    assert("macos"@.len() == 5 && "linux"@.len() == 5 && "windows"@.len() == 7 && "bsd"@.len() == 3);
    assert("macos"@[0] != "linux"@[0]);
    assert("apt-get"@.len() == 7 && "apt"@.len() == 3 && "dnf"@.len() == 3 && "yum"@.len() == 3);
    assert("pacman"@.len() == 6 && "zypper"@.len() == 6 && "apk"@.len() == 3);
    assert("apt"@[0] != "dnf"@[0] && "apt"@[0] != "yum"@[0] && "apt"@[2] != "apk"@[2]);
    assert("dnf"@[0] != "yum"@[0] && "dnf"@[0] != "apk"@[0] && "yum"@[0] != "apk"@[0]);
    assert("pacman"@[0] != "zypper"@[0]);
}

/// Whether a `RACH_DRY_RUN` setting asks for a dry run: `1` or `true` in
/// any case.
pub open spec fn dry_run_spec(setting: Option<Seq<char>>) -> bool {
    match setting {
        Some(v) => v == "1"@ || ascii_lower(v) == "true"@,
        None => false,
    }
}

pub fn is_dry_run(setting: Option<&str>) -> (r: bool)
    ensures
        r == dry_run_spec(
            match setting {
                Some(v) => Some(v@),
                None => None,
            },
        ),
{
    match setting {
        Some(v) => {
            let l = to_ascii_lower(v);
            str_eq(v, "1") || str_eq(l.as_str(), "true")
        },
        None => false,
    }
}

/// The shell that runs a command line, and the flag that hands it the line.
pub fn shell_for(windows: bool) -> (r: (&'static str, &'static str))
    ensures
        windows ==> r.0@ == "cmd"@ && r.1@ == "/C"@,
        !windows ==> r.0@ == "sh"@ && r.1@ == "-c"@,
{
    if windows {
        ("cmd", "/C")
    } else {
        ("sh", "-c")
    }
}

/// The status code reported for a program that exited with `code`.
pub fn exit_status_code(code: i32) -> (r: i64)
    ensures
        r == 400 + code,
{
    400 + code as i64
}

} // verus!
