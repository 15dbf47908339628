//! Line handling for the interactive prompt: where a comment starts, and
//! whether a line opens a block that needs more input.
use vstd::prelude::*;

use crate::text::{chars_to_string, is_white_exec, str_chars, trim_end};

verus! {

/// Where the comment of `s` starts, scanning from `i` with `in_str` telling
/// whether a string literal is open: the first `#` or `//` outside double
/// quotes (the length when there is none).
pub open spec fn comment_start(s: Seq<char>, i: int, in_str: bool) -> int
    decreases s.len() - i,
{
    if i < 0 || i >= s.len() {
        s.len() as int
    } else {
        let st = if s[i] == '"' {
            !in_str
        } else {
            in_str
        };
        if !st && (s[i] == '#' || (s[i] == '/' && i + 1 < s.len() && s[i + 1] == '/')) {
            i
        } else {
            comment_start(s, i + 1, st)
        }
    }
}

/// `s` without its comment.
pub open spec fn strip_comment_spec(s: Seq<char>) -> Seq<char> {
    s.take(comment_start(s, 0, false))
}

proof fn lemma_comment_start_bounds(s: Seq<char>, i: int, in_str: bool)
    requires
        0 <= i <= s.len(),
    ensures
        i <= comment_start(s, i, in_str) <= s.len(),
    decreases s.len() - i,
{
    if i < s.len() {
        let st = if s[i] == '"' {
            !in_str
        } else {
            in_str
        };
        lemma_comment_start_bounds(s, i + 1, st);
    }
}

/// Cuts a `#` or `//` comment off a line, ignoring those inside double quotes.
pub fn strip_comment(s: &str) -> (r: String)
    ensures
        r@ == strip_comment_spec(s@),
{
    let cs = str_chars(s);
    let n = cs.len();
    let mut in_str = false;
    let mut i: usize = 0;
    proof {
        lemma_comment_start_bounds(s@, 0, false);
    }
    while i < n
        invariant
            cs@ == s@,
            n == cs@.len(),
            i <= n,
            comment_start(s@, 0, false) == comment_start(s@, i as int, in_str),
        decreases n - i,
    {
        let c = cs[i];
        if c == '"' {
            in_str = !in_str;
        }
        if !in_str {
            if c == '#' || (c == '/' && i + 1 < n && cs[i + 1] == '/') {
                return chars_to_string(&cs, 0, i);
            }
        }
        i += 1;
    }
    assert(s@.take(n as int) =~= s@.subrange(0, n as int));
    chars_to_string(&cs, 0, n)
}

/// How many double quotes `t` holds.
pub open spec fn quotes(t: Seq<char>) -> int
    decreases t.len(),
{
    if t.len() == 0 {
        0
    } else {
        quotes(t.drop_last()) + if t.last() == '"' {
            1int
        } else {
            0int
        }
    }
}

/// A `#` or a `//` starts at `j`.
pub open spec fn comment_mark_at(s: Seq<char>, j: int) -> bool {
    0 <= j < s.len() && (s[j] == '#' || (s[j] == '/' && j + 1 < s.len() && s[j + 1] == '/'))
}

proof fn lemma_comment_scan(s: Seq<char>, i: int, in_str: bool)
    requires
        0 <= i <= s.len(),
        in_str == (quotes(s.take(i)) % 2 == 1),
    ensures
        ({
            let k = comment_start(s, i, in_str);
            &&& i <= k <= s.len()
            &&& k < s.len() ==> comment_mark_at(s, k) && quotes(s.take(k)) % 2 == 0
            &&& forall|j: int| i <= j < k && comment_mark_at(s, j) ==> #[trigger] quotes(s.take(j)) % 2 == 1
        }),
    decreases s.len() - i,
{
    if i < s.len() {
        assert(s.take(i + 1).drop_last() =~= s.take(i));
        let st = if s[i] == '"' {
            !in_str
        } else {
            in_str
        };
        assert(st == (quotes(s.take(i + 1)) % 2 == 1));
        if !st && (s[i] == '#' || (s[i] == '/' && i + 1 < s.len() && s[i + 1] == '/')) {
        } else {
            lemma_comment_scan(s, i + 1, st);
        }
    }
}

/// A comment starts at the first `#` or `//` that stands outside double
/// quotes, that is after an even number of `"`: the line is cut there and
/// kept whole when there is none; every mark before the cut is inside a
/// string.
pub proof fn law_comment_starts_outside_strings(s: Seq<char>)
    ensures
        ({
            let r = strip_comment_spec(s);
            let k = r.len() as int;
            &&& k <= s.len() && r == s.take(k)
            &&& k < s.len() ==> comment_mark_at(s, k) && quotes(s.take(k)) % 2 == 0
            &&& forall|j: int| 0 <= j < k && comment_mark_at(s, j) ==> #[trigger] quotes(s.take(j)) % 2 == 1
            &&& (forall|j: int| 0 <= j < s.len() ==> !#[trigger] comment_mark_at(s, j)) ==> r == s
        }),
{
    assert(s.take(0) =~= Seq::<char>::empty());
    lemma_comment_scan(s, 0, false);
    let k = comment_start(s, 0, false);
    if k == s.len() {
        assert(s.take(k) =~= s);
    }
}

/// A line opens a block when, without its comment and trailing white space,
/// it ends with `:` or starts a function with `rach `.
pub open spec fn needs_continuation_spec(line: Seq<char>) -> bool {
    let c = trim_end(strip_comment_spec(line));
    (c.len() > 0 && c.last() == ':') || (c.len() >= 5 && c.take(5) == "rach "@)
}

proof fn lemma_trim_end_at(s: Seq<char>, e: int)
    requires
        0 <= e <= s.len(),
        forall|j: int| e <= j < s.len() ==> crate::text::is_white(#[trigger] s[j]),
        e > 0 ==> !crate::text::is_white(s[e - 1]),
    ensures
        trim_end(s) == s.take(e),
    decreases s.len() - e,
{
    if e < s.len() {
        let t = s.drop_last();
        assert forall|j: int| e <= j < t.len() implies crate::text::is_white(#[trigger] t[j]) by {
            assert(t[j] == s[j]);
        }
        lemma_trim_end_at(t, e);
        assert(t.take(e) =~= s.take(e));
    } else {
        assert(s.take(e) =~= s);
    }
}

pub fn needs_continuation(line: &str) -> (r: bool)
    ensures
        r == needs_continuation_spec(line@),
{
    let stripped = strip_comment(line);
    let cs = str_chars(stripped.as_str());
    let mut e = cs.len();
    while e > 0 && is_white_exec(cs[e - 1])
        invariant
            e <= cs@.len(),
            forall|j: int| e <= j < cs@.len() ==> crate::text::is_white(#[trigger] cs@[j]),
        decreases e,
    {
        e -= 1;
    }
    proof {
        lemma_trim_end_at(cs@, e as int);
    }
    let ghost c = cs@.take(e as int);
    if e > 0 && cs[e - 1] == ':' {
        return true;
    }
    if e >= 5 && cs[0] == 'r' && cs[1] == 'a' && cs[2] == 'c' && cs[3] == 'h' && cs[4] == ' ' {
        proof {
            reveal_strlit("rach ");
            assert(c.take(5) =~= "rach "@);
        }
        return true;
    }
    proof {
        reveal_strlit("rach ");
        if c.len() >= 5 && c.take(5) == "rach "@ {
            assert(c.take(5)[0] == 'r' && c.take(5)[1] == 'a' && c.take(5)[2] == 'c');
            assert(c.take(5)[3] == 'h' && c.take(5)[4] == ' ');
            assert(cs@[0] == 'r' && cs@[1] == 'a' && cs@[2] == 'c' && cs@[3] == 'h' && cs@[4] == ' ');
        }
    }
    false
}

} // verus!
