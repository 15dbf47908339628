//! Where the command line looks for a script, and which examples it
//! suggests when a script cannot be read.
use vstd::prelude::*;

use crate::text::{contains_str, has_substring, str_chars, strings_view};

verus! {

/// The last component of a path, as `Path::file_name` gives it (none for a
/// path that ends in `..` or is empty).
pub uninterp spec fn path_file_name(p: Seq<char>) -> Option<Seq<char>>;

/// The file name of a path.
///
/// Trusted: calls `Path::file_name` on the path (and `OsStr::to_str`, which
/// cannot fail on a name taken from a `&str`); the contract only names the
/// result, which depends on the path text alone.
#[verifier::external_body]
fn file_name_of(path: &str) -> (r: Option<String>)
    ensures
        match r {
            Some(s) => path_file_name(path@) == Some(s@),
            None => path_file_name(path@) is None,
        },
{
    std::path::Path::new(path).file_name().and_then(|s| s.to_str()).map(|s| s.to_string())
}

/// Whether `s` ends with `.rach`.
pub open spec fn is_rach_file(s: Seq<char>) -> bool {
    s.len() >= 5 && s.skip(s.len() - 5) == ".rach"@
}

pub fn ends_with_rach(s: &str) -> (r: bool)
    ensures
        r == is_rach_file(s@),
{
    let cs = str_chars(s);
    let n = cs.len();
    proof {
        reveal_strlit(".rach");
    }
    if n < 5 {
        return false;
    }
    let r = cs[n - 5] == '.' && cs[n - 4] == 'r' && cs[n - 3] == 'a' && cs[n - 2] == 'c' && cs[n - 1]
        == 'h';
    proof {
        let t = s@.skip(n - 5);
        if r {
            assert(t =~= ".rach"@);
        } else if t == ".rach"@ {
            assert(t[0] == '.' && t[1] == 'r' && t[2] == 'a' && t[3] == 'c' && t[4] == 'h');
        }
    }
    r
}

/// The paths tried for a script named `path`, in order: as given, with
/// `.rach` added, and the same file name under `examples/`.
pub open spec fn candidates_spec(path: Seq<char>) -> Seq<Seq<char>> {
    let bare = match path_file_name(path) {
        Some(b) => b,
        None => path,
    };
    seq![path] + (if is_rach_file(path) {
        seq![]
    } else {
        seq![path + ".rach"@]
    }) + seq!["examples/"@ + bare] + (if is_rach_file(bare) {
        seq![]
    } else {
        seq!["examples/"@ + bare + ".rach"@]
    })
}

/// The paths to try for a script; the first that names a file is run.
pub fn script_candidates(path: &str) -> (r: Vec<String>)
    ensures
        strings_view(r@) == candidates_spec(path@),
{
    let mut v: Vec<String> = Vec::new();
    v.push(String::from_str(path));
    if !ends_with_rach(path) {
        let mut p = String::from_str(path);
        p.append(".rach");
        v.push(p);
    }
    let bare = match file_name_of(path) {
        Some(b) => b,
        None => String::from_str(path),
    };
    let mut e = String::from_str("examples/");
    e.append(bare.as_str());
    v.push(e);
    if !ends_with_rach(bare.as_str()) {
        let mut e2 = String::from_str("examples/");
        e2.append(bare.as_str());
        e2.append(".rach");
        v.push(e2);
    }
    assert(strings_view(v@) =~= candidates_spec(path@));
    v
}

/// The example scripts worth suggesting for a missing script whose file
/// stem is `stem`: the `.rach` names that contain it, under `examples/`.
pub open spec fn suggestions_spec(names: Seq<Seq<char>>, stem: Seq<char>) -> Seq<Seq<char>>
    decreases names.len(),
{
    if names.len() == 0 {
        seq![]
    } else {
        let n = names.last();
        suggestions_spec(names.drop_last(), stem) + if is_rach_file(n) && has_substring(n, stem) {
            seq!["examples/"@ + n]
        } else {
            seq![]
        }
    }
}

pub fn suggest_examples(names: &Vec<String>, stem: &str) -> (r: Vec<String>)
    ensures
        strings_view(r@) == suggestions_spec(strings_view(names@), stem@),
{
    let ghost nv = strings_view(names@);
    let mut out: Vec<String> = Vec::new();
    let mut k: usize = 0;
    while k < names.len()
        invariant
            nv == strings_view(names@),
            k <= names@.len(),
            strings_view(out@) == suggestions_spec(nv.take(k as int), stem@),
        decreases names@.len() - k,
    {
        let n = names[k].as_str();
        let ghost prev = strings_view(out@);
        if ends_with_rach(n) && contains_str(n, stem) {
            let mut e = String::from_str("examples/");
            e.append(n);
            out.push(e);
            assert(strings_view(out@) =~= prev.push(e@));
        }
        proof {
            assert(nv.take(k + 1).drop_last() =~= nv.take(k as int));
        }
        k += 1;
    }
    assert(nv.take(k as int) =~= nv);
    out
}

/// Where a script is looked for: first the path as given, then (unless it
/// already ends in `.rach`) the path with `.rach` added, then its file name
/// under `examples/`, and last that name with `.rach` added unless it has
/// it. The last place tried is always a `.rach` file.
pub proof fn law_script_search_order(path: Seq<char>)
    ensures
        ({
            let c = candidates_spec(path);
            let bare = match path_file_name(path) {
                Some(b) => b,
                None => path,
            };
            &&& c[0] == path
            &&& !is_rach_file(path) ==> c[1] == path + ".rach"@ && is_rach_file(c[1])
            &&& is_rach_file(path) ==> c[1] == "examples/"@ + bare
            &&& c.contains("examples/"@ + bare)
            &&& is_rach_file(c[c.len() - 1])
            &&& c.len() == 4 - (if is_rach_file(path) { 1int } else { 0int }) - (if is_rach_file(bare) { 1int } else { 0int })
        }),
{
    reveal_strlit(".rach");
    reveal_strlit("examples/");
    let c = candidates_spec(path);
    let bare = match path_file_name(path) {
        Some(b) => b,
        None => path,
    };
    assert((path + ".rach"@).skip((path + ".rach"@).len() - 5) =~= ".rach"@);
    assert(("examples/"@ + bare + ".rach"@).skip(("examples/"@ + bare + ".rach"@).len() - 5) =~= ".rach"@);
    let e = "examples/"@ + bare;
    assert(is_rach_file(bare) ==> is_rach_file(e)) by {
        if is_rach_file(bare) {
            assert(e.skip(e.len() - 5) =~= bare.skip(bare.len() - 5));
        }
    }
    if is_rach_file(path) {
        if is_rach_file(bare) {
            assert(c =~= seq![path, e]);
        } else {
            assert(c =~= seq![path, e, e + ".rach"@]);
        }
    } else {
        if is_rach_file(bare) {
            assert(c =~= seq![path, path + ".rach"@, e]);
        } else {
            assert(c =~= seq![path, path + ".rach"@, e, e + ".rach"@]);
        }
    }
}

/// The suggestions for a missing script are exactly the `.rach` example
/// names that contain its stem, each under `examples/`, in the order the
/// names were listed.
pub proof fn law_suggestions_are_matching_examples(names: Seq<Seq<char>>, stem: Seq<char>)
    ensures
        forall|i: int|
            0 <= i < suggestions_spec(names, stem).len() ==> exists|j: int|
                0 <= j < names.len() && #[trigger] suggestions_spec(names, stem)[i] == "examples/"@ + #[trigger] names[j]
                    && is_rach_file(names[j]) && has_substring(names[j], stem),
        forall|j: int|
            0 <= j < names.len() && is_rach_file(#[trigger] names[j]) && has_substring(names[j], stem)
                ==> suggestions_spec(names, stem).contains("examples/"@ + names[j]),
    decreases names.len(),
{
    if names.len() > 0 {
        let init = names.drop_last();
        law_suggestions_are_matching_examples(init, stem);
        let before = suggestions_spec(init, stem);
        let all = suggestions_spec(names, stem);
        let n = names.last();
        assert forall|i: int| 0 <= i < all.len() implies exists|j: int|
            0 <= j < names.len() && #[trigger] all[i] == "examples/"@ + #[trigger] names[j] && is_rach_file(names[j])
                && has_substring(names[j], stem) by {
            if i < before.len() {
                assert(all[i] == before[i]);
                let j = choose|j: int|
                    0 <= j < init.len() && before[i] == "examples/"@ + #[trigger] init[j] && is_rach_file(init[j])
                        && has_substring(init[j], stem);
                assert(names[j] == init[j]);
            } else {
                assert(all[i] == "examples/"@ + n);
                assert(names[names.len() - 1] == n);
            }
        }
        assert forall|j: int|
            0 <= j < names.len() && is_rach_file(#[trigger] names[j]) && has_substring(names[j], stem)
                implies all.contains("examples/"@ + names[j]) by {
            if j < init.len() {
                assert(names[j] == init[j]);
                let k = choose|k: int| 0 <= k < before.len() && before[k] == "examples/"@ + init[j];
                assert(all[k] == before[k]);
            } else {
                assert(all[all.len() - 1] == "examples/"@ + n);
            }
        }
    }
}

} // verus!
