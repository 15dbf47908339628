//! Character-level string helpers shared by the lexer, parser and stdlib text code.
use vstd::prelude::*;
use vstd::std_specs::iter::IteratorSpec;

use crate::ascii::{to_uppercase, unicode_upper};

verus! {

/// Appends one character to a `String`.
///
/// Trusted: calls `String::push`, which std documents as appending the
/// character to the end of the string.
#[verifier::external_body]
pub(crate) fn push_char(s: &mut String, c: char)
    ensures
        final(s)@ == old(s)@.push(c),
{
    s.push(c);
}

/// The characters of `s`, in order.
pub fn str_chars(s: &str) -> (v: Vec<char>)
    ensures
        v@ == s@,
{
    let mut it = s.chars();
    let mut v: Vec<char> = Vec::new();
    let ghost total = s@;
    loop
        invariant
            it.obeys_prophetic_iter_laws(),
            v@ + it.remaining() == total,
            it.decrease() is Some,
        ensures
            v@ == total,
        decreases it.decrease()->0,
    {
        let ghost prev = it;
        match it.next() {
            Some(c) => {
                proof {
                    assert(prev.remaining().len() > 0);
                }
                v.push(c);
                assert(v@ + it.remaining() =~= total);
            },
            None => {
                assert(v@ =~= total);
                break ;
            },
        }
    }
    v
}

/// Builds a `String` holding `cs[from..to]`.
pub fn chars_to_string(cs: &Vec<char>, from: usize, to: usize) -> (s: String)
    requires
        from <= to <= cs@.len(),
    ensures
        s@ == cs@.subrange(from as int, to as int),
{
    let mut s = String::new();
    let mut k = from;
    while k < to
        invariant
            from <= k <= to <= cs@.len(),
            s@ == cs@.subrange(from as int, k as int),
        decreases to - k,
    {
        push_char(&mut s, cs[k]);
        k += 1;
        assert(s@ =~= cs@.subrange(from as int, k as int));
    }
    s
}

/// Builds a `String` from a whole character vector.
pub fn string_from_chars(cs: &Vec<char>) -> (s: String)
    ensures
        s@ == cs@,
{
    let s = chars_to_string(cs, 0, cs.len());
    assert(cs@.subrange(0, cs@.len() as int) =~= cs@);
    s
}

/// Character-wise equality of two string slices.
pub fn str_eq(a: &str, b: &str) -> (r: bool)
    ensures
        r == (a@ == b@),
{
    let n = a.unicode_len();
    if n != b.unicode_len() {
        return false;
    }
    let mut k: usize = 0;
    while k < n
        invariant
            n == a@.len() == b@.len(),
            k <= n,
            forall|j: int| 0 <= j < k ==> a@[j] == b@[j],
        decreases n - k,
    {
        if a.get_char(k) != b.get_char(k) {
            return false;
        }
        k += 1;
    }
    assert(a@ =~= b@);
    true
}

/// Character-wise equality of a `String` and a string slice.
pub fn string_is(a: &String, b: &str) -> (r: bool)
    ensures
        r == (a@ == b@),
{
    str_eq(a.as_str(), b)
}

/// The character sequences of a list of strings.
pub open spec fn strings_view(ws: Seq<String>) -> Seq<Seq<char>> {
    ws.map_values(|w: String| w@)
}

/// Words joined by `sep`.
pub open spec fn join_spec(ws: Seq<Seq<char>>, sep: char) -> Seq<char>
    decreases ws.len(),
{
    if ws.len() == 0 {
        seq![]
    } else if ws.len() == 1 {
        ws[0]
    } else {
        join_spec(ws.drop_last(), sep) + seq![sep] + ws.last()
    }
}

pub proof fn lemma_join_step(ws: Seq<Seq<char>>, k: int, sep: char)
    requires
        0 <= k < ws.len(),
    ensures
        join_spec(ws.take(k + 1), sep) == if k == 0 {
            ws[0]
        } else {
            join_spec(ws.take(k), sep) + seq![sep] + ws[k]
        },
{
    assert(ws.take(k + 1).drop_last() =~= ws.take(k));
}

/// Joins `ws[from..to]` with `sep`.
pub fn join_range(ws: &Vec<String>, from: usize, to: usize, sep: char) -> (r: String)
    requires
        from <= to <= ws@.len(),
    ensures
        r@ == join_spec(strings_view(ws@).subrange(from as int, to as int), sep),
{
    let ghost all = strings_view(ws@).subrange(from as int, to as int);
    let mut r = String::new();
    let mut k = from;
    while k < to
        invariant
            from <= k <= to <= ws@.len(),
            all == strings_view(ws@).subrange(from as int, to as int),
            r@ == join_spec(all.take(k - from), sep),
        decreases to - k,
    {
        proof {
            lemma_join_step(all, k - from, sep);
        }
        if k > from {
            push_char(&mut r, sep);
        }
        r.append(ws[k].as_str());
        k += 1;
    }
    assert(all.take(to - from) =~= all);
    r
}

/// Index of the first `\n` at or after `i` (the length when there is none).
pub open spec fn next_newline(s: Seq<char>, i: int) -> int
    decreases s.len() - i,
{
    if i >= s.len() {
        s.len() as int
    } else if s[i] == '\n' {
        i
    } else {
        next_newline(s, i + 1)
    }
}

pub proof fn lemma_next_newline(s: Seq<char>, i: int)
    requires
        0 <= i <= s.len(),
    ensures
        i <= next_newline(s, i) <= s.len(),
        next_newline(s, i) < s.len() ==> s[next_newline(s, i)] == '\n',
        forall|j: int| i <= j < next_newline(s, i) ==> s[j] != '\n',
    decreases s.len() - i,
{
    if i < s.len() && s[i] != '\n' {
        lemma_next_newline(s, i + 1);
    }
}

/// A line as `str::lines` yields it: without its `\n`, and without a `\r`
/// just before that `\n`.
pub open spec fn strip_cr(l: Seq<char>) -> Seq<char> {
    if l.len() > 0 && l.last() == '\r' {
        l.drop_last()
    } else {
        l
    }
}

/// The lines of `s` from index `start` on, as `str::lines` splits them: at
/// each `\n` (dropping a `\r` before it); a final line needs no `\n`, and
/// nothing follows a trailing `\n`.
pub open spec fn lines_from(s: Seq<char>, start: int) -> Seq<Seq<char>>
    decreases s.len() - start,
{
    if start < 0 || start >= s.len() {
        seq![]
    } else {
        let i = next_newline(s, start);
        proof {
            lemma_next_newline(s, start);
        }
        if i >= s.len() {
            seq![s.subrange(start, s.len() as int)]
        } else {
            seq![strip_cr(s.subrange(start, i))] + lines_from(s, i + 1)
        }
    }
}

/// The lines of `s`.
pub open spec fn lines_of(s: Seq<char>) -> Seq<Seq<char>> {
    lines_from(s, 0)
}

/// Splits `src` into lines as `str::lines` does.
pub fn split_lines(src: &str) -> (r: Vec<String>)
    ensures
        strings_view(r@) == lines_of(src@),
{
    let cs = str_chars(src);
    let n = cs.len();
    let mut out: Vec<String> = Vec::new();
    let mut start: usize = 0;
    while start < n
        invariant
            n == cs@.len(),
            cs@ == src@,
            start <= n,
            strings_view(out@) + lines_from(cs@, start as int) == lines_of(src@),
        decreases n - start,
    {
        let mut i = start;
        while i < n && cs[i] != '\n'
            invariant
                start <= i <= n,
                n == cs@.len(),
                next_newline(cs@, start as int) == next_newline(cs@, i as int),
            decreases n - i,
        {
            i += 1;
        }
        proof {
            lemma_next_newline(cs@, start as int);
        }
        let ghost before = strings_view(out@);
        if i >= n {
            let line = chars_to_string(&cs, start, n);
            out.push(line);
            assert(strings_view(out@) =~= before.push(cs@.subrange(start as int, n as int)));
            start = n;
        } else {
            let mut end = i;
            if end > start && cs[end - 1] == '\r' {
                end -= 1;
            }
            let line = chars_to_string(&cs, start, end);
            out.push(line);
            assert(cs@.subrange(start as int, end as int) =~= strip_cr(cs@.subrange(start as int, i as int)));
            assert(strings_view(out@) =~= before.push(strip_cr(cs@.subrange(start as int, i as int))));
            start = i + 1;
        }
    }
    assert(lines_from(cs@, start as int) =~= Seq::<Seq<char>>::empty());
    out
}

// ---------------------------------------------------------------- case, search, trim
/// ASCII lowercase of one character; other characters are unchanged.
pub open spec fn lower_char(c: char) -> char {
    if 'A' <= c <= 'Z' {
        ((c as u32) + 32) as char
    } else {
        c
    }
}

/// ASCII lowercase of a string, as `str::to_ascii_lowercase` gives it.
pub open spec fn ascii_lower(s: Seq<char>) -> Seq<char> {
    s.map_values(|c: char| lower_char(c))
}

/// Lowercasing twice is lowercasing once.
pub proof fn lemma_ascii_lower_twice(s: Seq<char>)
    ensures
        ascii_lower(ascii_lower(s)) == ascii_lower(s),
{
    assert forall|i: int| 0 <= i < s.len() implies #[trigger] ascii_lower(ascii_lower(s))[i] == ascii_lower(s)[i] by {
        let c = s[i];
        if 'A' <= c <= 'Z' {
            assert(((c as u32) + 32) as char >= 'a');
        }
    }
    assert(ascii_lower(ascii_lower(s)) =~= ascii_lower(s));
}

pub fn lower_char_exec(c: char) -> (r: char)
    ensures
        r == lower_char(c),
{
    if 'A' <= c && c <= 'Z' {
        let v = (c as u32) + 32;
        let b = v as u8;
        assert(b == v);
        b as char
    } else {
        c
    }
}

/// The ASCII lowercase of `s`.
pub fn to_ascii_lower(s: &str) -> (r: String)
    ensures
        r@ == ascii_lower(s@),
{
    let cs = str_chars(s);
    let mut out = String::new();
    let mut k: usize = 0;
    while k < cs.len()
        invariant
            k <= cs@.len(),
            cs@ == s@,
            out@ == ascii_lower(s@).take(k as int),
        decreases cs@.len() - k,
    {
        push_char(&mut out, lower_char_exec(cs[k]));
        k += 1;
        assert(out@ =~= ascii_lower(s@).take(k as int));
    }
    assert(ascii_lower(s@).take(k as int) =~= ascii_lower(s@));
    out
}

/// `needle` occurs in `hay` at index `i`.
pub open spec fn occurs_at(hay: Seq<char>, needle: Seq<char>, i: int) -> bool {
    0 <= i && i + needle.len() <= hay.len() && hay.subrange(i, i + needle.len()) == needle
}

/// `needle` occurs somewhere in `hay` (`str::contains`).
pub open spec fn has_substring(hay: Seq<char>, needle: Seq<char>) -> bool {
    exists|i: int| occurs_at(hay, needle, i)
}

/// Whether `needle` occurs in `hay`.
pub fn contains_str(hay: &str, needle: &str) -> (r: bool)
    ensures
        r == has_substring(hay@, needle@),
{
    let h = str_chars(hay);
    let nd = str_chars(needle);
    let hl = h.len();
    let nl = nd.len();
    if nl > hl {
        assert forall|i: int| !occurs_at(hay@, needle@, i) by {}
        return false;
    }
    let mut i: usize = 0;
    while i <= hl - nl
        invariant
            h@ == hay@,
            nd@ == needle@,
            hl == h@.len(),
            nl == nd@.len(),
            nl <= hl,
            i <= hl - nl + 1,
            forall|j: int| 0 <= j < i ==> !occurs_at(hay@, needle@, j),
        decreases hl - nl + 1 - i,
    {
        let mut k: usize = 0;
        let mut same = true;
        while k < nl
            invariant
                h@ == hay@,
                nd@ == needle@,
                hl == h@.len(),
                nl == nd@.len(),
                i + nl <= hl,
                k <= nl,
                same == (forall|j: int| 0 <= j < k ==> h@[i + j] == nd@[j]),
            decreases nl - k,
        {
            if h[i + k] != nd[k] {
                same = false;
            }
            k += 1;
        }
        if same {
            assert(hay@.subrange(i as int, i + nl) =~= needle@);
            assert(occurs_at(hay@, needle@, i as int));
            return true;
        }
        assert(!occurs_at(hay@, needle@, i as int)) by {
            if occurs_at(hay@, needle@, i as int) {
                assert forall|j: int| 0 <= j < nl implies h@[i + j] == nd@[j] by {
                    assert(hay@.subrange(i as int, i + nl)[j] == needle@[j]);
                }
            }
        }
        i += 1;
    }
    assert forall|j: int| !occurs_at(hay@, needle@, j) by {
        if 0 <= j && j < i {
        }
    }
    false
}

/// Whether `c` is Unicode white space (`char::is_whitespace`).
pub open spec fn is_white(c: char) -> bool {
    let v = c as u32;
    (0x09 <= v <= 0x0d) || v == 0x20 || v == 0x85 || v == 0xa0 || v == 0x1680 || (0x2000 <= v
        <= 0x200a) || v == 0x2028 || v == 0x2029 || v == 0x202f || v == 0x205f || v == 0x3000
}

pub fn is_white_exec(c: char) -> (r: bool)
    ensures
        r == is_white(c),
{
    let v = c as u32;
    (0x09 <= v && v <= 0x0d) || v == 0x20 || v == 0x85 || v == 0xa0 || v == 0x1680 || (0x2000 <= v
        && v <= 0x200a) || v == 0x2028 || v == 0x2029 || v == 0x202f || v == 0x205f || v == 0x3000
}

/// `s` without leading white space.
pub open spec fn trim_start(s: Seq<char>) -> Seq<char>
    decreases s.len(),
{
    if s.len() > 0 && is_white(s[0]) {
        trim_start(s.drop_first())
    } else {
        s
    }
}

/// `s` without trailing white space.
pub open spec fn trim_end(s: Seq<char>) -> Seq<char>
    decreases s.len(),
{
    if s.len() > 0 && is_white(s.last()) {
        trim_end(s.drop_last())
    } else {
        s
    }
}

/// `s` without leading and trailing white space (`str::trim`).
pub open spec fn trim(s: Seq<char>) -> Seq<char> {
    trim_end(trim_start(s))
}

proof fn lemma_trim_start_at(s: Seq<char>, i: int)
    requires
        0 <= i <= s.len(),
        forall|j: int| 0 <= j < i ==> is_white(#[trigger] s[j]),
        i < s.len() ==> !is_white(s[i]),
    ensures
        trim_start(s) == s.skip(i),
    decreases i,
{
    if i > 0 {
        let t = s.drop_first();
        assert forall|j: int| 0 <= j < i - 1 implies is_white(#[trigger] t[j]) by {
            assert(t[j] == s[j + 1]);
        }
        lemma_trim_start_at(t, i - 1);
        assert(t.skip(i - 1) =~= s.skip(i));
    } else {
        assert(s.skip(0) =~= s);
    }
}

proof fn lemma_trim_end_at(s: Seq<char>, e: int)
    requires
        0 <= e <= s.len(),
        forall|j: int| e <= j < s.len() ==> is_white(#[trigger] s[j]),
        e > 0 ==> !is_white(s[e - 1]),
    ensures
        trim_end(s) == s.take(e),
    decreases s.len() - e,
{
    if e < s.len() {
        let t = s.drop_last();
        assert forall|j: int| e <= j < t.len() implies is_white(#[trigger] t[j]) by {
            assert(t[j] == s[j]);
        }
        lemma_trim_end_at(t, e);
        assert(t.take(e) =~= s.take(e));
    } else {
        assert(s.take(e) =~= s);
    }
}

/// The characters `cs[from..to]` without leading and trailing white space.
pub fn trim_range(cs: &Vec<char>, from: usize, to: usize) -> (r: String)
    requires
        from <= to <= cs@.len(),
    ensures
        r@ == trim(cs@.subrange(from as int, to as int)),
{
    let ghost s = cs@.subrange(from as int, to as int);
    let mut a = from;
    while a < to && is_white_exec(cs[a])
        invariant
            from <= a <= to <= cs@.len(),
            forall|j: int| from <= j < a ==> is_white(#[trigger] cs@[j]),
        decreases to - a,
    {
        a += 1;
    }
    proof {
        assert forall|j: int| 0 <= j < a - from implies is_white(#[trigger] s[j]) by {
            assert(s[j] == cs@[from + j]);
        }
        lemma_trim_start_at(s, a - from);
        assert(s.skip(a - from) =~= cs@.subrange(a as int, to as int));
    }
    let ghost s2 = cs@.subrange(a as int, to as int);
    let mut b = to;
    while b > a && is_white_exec(cs[b - 1])
        invariant
            a <= b <= to <= cs@.len(),
            forall|j: int| b <= j < to ==> is_white(#[trigger] cs@[j]),
        decreases b - a,
    {
        b -= 1;
    }
    proof {
        assert forall|j: int| b - a <= j < s2.len() implies is_white(#[trigger] s2[j]) by {
            assert(s2[j] == cs@[a + j]);
        }
        lemma_trim_end_at(s2, b - a);
        assert(s2.take(b - a) =~= cs@.subrange(a as int, b as int));
    }
    chars_to_string(cs, a, b)
}

proof fn lemma_trim_start_props(s: Seq<char>)
    ensures
        trim_start(s).len() <= s.len(),
        trim_start(s) == s.skip(s.len() - trim_start(s).len()),
        trim_start(s).len() > 0 ==> !is_white(trim_start(s)[0]),
        s.len() > 0 && !is_white(s[0]) ==> trim_start(s) == s,
    decreases s.len(),
{
    if s.len() > 0 && is_white(s[0]) {
        lemma_trim_start_props(s.drop_first());
        assert(s.drop_first().skip(s.drop_first().len() - trim_start(s).len()) =~= s.skip(
            s.len() - trim_start(s).len(),
        ));
    } else {
        assert(s.skip(0) =~= s);
    }
}

proof fn lemma_trim_end_props(s: Seq<char>)
    ensures
        trim_end(s).len() <= s.len(),
        trim_end(s) == s.take(trim_end(s).len() as int),
        trim_end(s).len() > 0 ==> !is_white(trim_end(s).last()),
        s.len() > 0 && !is_white(s.last()) ==> trim_end(s) == s,
        s.len() > 0 && !is_white(s[0]) ==> trim_end(s).len() > 0,
    decreases s.len(),
{
    if s.len() > 0 && is_white(s.last()) {
        lemma_trim_end_props(s.drop_last());
        assert(s.drop_last().take(trim_end(s).len() as int) =~= s.take(trim_end(s).len() as int));
        if !is_white(s[0]) {
            assert(s.drop_last().len() > 0) by {
                if s.len() == 1 {
                    assert(s.last() == s[0]);
                }
            }
            assert(s.drop_last()[0] == s[0]);
        }
    } else {
        assert(s.take(s.len() as int) =~= s);
    }
}

/// Trimming removes the white space at both ends and nothing else: what is
/// left is a stretch of the text that neither starts nor ends with white
/// space, so trimming again changes nothing, and text without white space
/// at its ends is left as it is. White space is what Unicode calls so:
/// space, tab, line feed, carriage return, no-break space, ideographic
/// space and the like, but not letters or `_`.
pub proof fn law_trim(s: Seq<char>)
    ensures
        trim(s).len() > 0 ==> !is_white(trim(s)[0]) && !is_white(trim(s).last()),
        exists|a: int|
            0 <= a && a + trim(s).len() <= s.len() && trim(s) == #[trigger] s.subrange(a, a + trim(s).len()),
        trim(trim(s)) == trim(s),
        (s.len() == 0 || (!is_white(s[0]) && !is_white(s.last()))) ==> trim(s) == s,
        is_white(' ') && is_white('\t') && is_white('\n') && is_white('\r') && is_white('\u{a0}')
            && is_white('\u{3000}'),
        !is_white('a') && !is_white('_') && !is_white('0'),
{
    let a = trim_start(s);
    let t = trim(s);
    lemma_trim_start_props(s);
    lemma_trim_end_props(a);
    if t.len() > 0 {
        assert(t[0] == a[0]);
    }
    let off = s.len() - a.len();
    assert(t =~= s.subrange(off, off + t.len()));
    lemma_trim_start_props(t);
    lemma_trim_end_props(t);
    if t.len() == 0 {
        assert(trim(t) =~= t);
    }
    if s.len() > 0 && !is_white(s[0]) && !is_white(s.last()) {
        assert(a == s);
    }
}

// ---------------------------------------------------------------- splitting
/// The pieces of `s` between occurrences of `c` (`str::split` with a
/// character): one more piece than there are separators.
pub open spec fn split_on(s: Seq<char>, c: char) -> Seq<Seq<char>>
    decreases s.len(),
{
    if s.len() == 0 {
        seq![seq![]]
    } else {
        let r = split_on(s.drop_last(), c);
        if s.last() == c {
            r.push(seq![])
        } else {
            r.update(r.len() - 1, r.last().push(s.last()))
        }
    }
}

pub proof fn lemma_split_on_len(s: Seq<char>, c: char)
    ensures
        split_on(s, c).len() >= 1,
    decreases s.len(),
{
    if s.len() > 0 {
        lemma_split_on_len(s.drop_last(), c);
    }
}

/// Splitting at a character and joining the pieces with it gives back the
/// text, and no piece holds that character.
pub proof fn law_join_undoes_split_on(s: Seq<char>, c: char)
    ensures
        join_spec(split_on(s, c), c) == s,
        forall|i: int, j: int|
            0 <= i < split_on(s, c).len() && 0 <= j < split_on(s, c)[i].len() ==> #[trigger] split_on(s, c)[i][j]
                != c,
    decreases s.len(),
{
    if s.len() > 0 {
        let t = s.drop_last();
        let x = s.last();
        law_join_undoes_split_on(t, c);
        lemma_split_on_len(t, c);
        let r = split_on(t, c);
        let q = split_on(s, c);
        if x == c {
            assert(q.drop_last() =~= r);
            assert(join_spec(q, c) =~= t + seq![c]);
            assert forall|i: int, j: int| 0 <= i < q.len() && 0 <= j < q[i].len() implies #[trigger] q[i][j] != c by {
                if i < r.len() {
                    assert(q[i] == r[i]);
                }
            }
        } else {
            let last = r.last().push(x);
            assert(q == r.update(r.len() - 1, last));
            if r.len() == 1 {
                assert(join_spec(r, c) == r[0]);
                assert(join_spec(q, c) == q[0]);
            } else {
                assert(q.drop_last() =~= r.drop_last());
                assert(join_spec(q, c) == join_spec(r.drop_last(), c) + seq![c] + last);
                assert(join_spec(r, c) == join_spec(r.drop_last(), c) + seq![c] + r.last());
            }
            assert(s =~= t.push(x));
            assert(join_spec(q, c) =~= s);
            assert forall|i: int, j: int| 0 <= i < q.len() && 0 <= j < q[i].len() implies #[trigger] q[i][j] != c by {
                if i < r.len() - 1 {
                    assert(q[i] == r[i]);
                } else {
                    assert(q[i] == last);
                    if j < r.last().len() {
                        assert(last[j] == r[r.len() - 1][j]);
                    }
                }
            }
        }
    }
}

/// Splits `s` at every `c`.
pub fn split_on_char(s: &str, c: char) -> (r: Vec<String>)
    ensures
        strings_view(r@) == split_on(s@, c),
{
    let cs = str_chars(s);
    let mut out: Vec<String> = Vec::new();
    let mut cur: Vec<char> = Vec::new();
    let mut k: usize = 0;
    assert(s@.take(0) =~= Seq::<char>::empty());
    while k < cs.len()
        invariant
            cs@ == s@,
            k <= cs@.len(),
            strings_view(out@).push(cur@) == split_on(s@.take(k as int), c),
        decreases cs@.len() - k,
    {
        proof {
            lemma_split_on_len(s@.take(k as int), c);
            assert(s@.take(k + 1).drop_last() =~= s@.take(k as int));
        }
        if cs[k] == c {
            let piece = string_from_chars(&cur);
            let ghost before = strings_view(out@);
            out.push(piece);
            cur = Vec::new();
            assert(strings_view(out@) =~= before.push(piece@));
            assert(strings_view(out@).push(cur@) =~= split_on(s@.take(k + 1), c));
        } else {
            cur.push(cs[k]);
            assert(strings_view(out@).push(cur@) =~= split_on(s@.take(k + 1), c));
        }
        k += 1;
    }
    assert(s@.take(k as int) =~= s@);
    let last = string_from_chars(&cur);
    let ghost before = strings_view(out@);
    out.push(last);
    assert(strings_view(out@) =~= before.push(cur@));
    out
}

/// Lowercase of a string by Unicode's rules, as `str::to_lowercase` gives it.
pub uninterp spec fn unicode_lower(s: Seq<char>) -> Seq<char>;

/// Lowercases text.
///
/// Trusted: calls `str::to_lowercase`; the contract only names its result,
/// which depends on the text alone (Unicode case mapping, no locale).
#[verifier::external_body]
fn to_lowercase(s: &str) -> (r: String)
    ensures
        r@ == unicode_lower(s@),
{
    s.to_lowercase()
}

/// The `upper` command: the text in upper case.
pub fn upper_text(s: &str) -> (r: String)
    ensures
        r@ == unicode_upper(s@),
{
    to_uppercase(s)
}

/// The `lower` command: the text in lower case.
pub fn lower_text(s: &str) -> (r: String)
    ensures
        r@ == unicode_lower(s@),
{
    to_lowercase(s)
}

} // verus!
