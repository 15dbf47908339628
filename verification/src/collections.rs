//! The text side of the string and list commands: slicing with negative and
//! out-of-range indices, splitting, joining, replacing and reversing.
use vstd::prelude::*;

use crate::text::{chars_to_string, push_char, str_chars, strings_view};

verus! {

/// An index into a sequence of length `n`: negative counts from the end,
/// and the result is clamped to `0..=n`.
pub open spec fn clamp_spec(i: int, n: int) -> int {
    let a = if i < 0 {
        i + n
    } else {
        i
    };
    if a < 0 {
        0
    } else if a > n {
        n
    } else {
        a
    }
}

pub fn clamp_index(i: i64, n: i64) -> (r: usize)
    requires
        0 <= n <= usize::MAX,
    ensures
        r as int == clamp_spec(i as int, n as int),
{
    let adjusted: i64 = if i < 0 {
        i + n
    } else {
        i
    };
    if adjusted < 0 {
        0
    } else if adjusted > n {
        n as usize
    } else {
        adjusted as usize
    }
}

/// The bounds `slice(x, start, end)` takes of a sequence of length `n`: both
/// clamped, the end defaulting to `n` and never before the start.
pub open spec fn slice_bounds_spec(start: int, end: Option<int>, n: int) -> (int, int) {
    let lo = clamp_spec(start, n);
    let hi = match end {
        Some(e) => clamp_spec(e, n),
        None => n,
    };
    (lo, if hi >= lo {
        hi
    } else {
        lo
    })
}

pub fn slice_bounds(start: i64, end: Option<i64>, n: usize) -> (r: (usize, usize))
    requires
        n <= i64::MAX,
    ensures
        (r.0 as int, r.1 as int) == slice_bounds_spec(
            start as int,
            match end {
                Some(e) => Some(e as int),
                None => None,
            },
            n as int,
        ),
        r.0 <= r.1 <= n,
{
    let lo = clamp_index(start, n as i64);
    let hi = match end {
        Some(e) => clamp_index(e, n as i64),
        None => n,
    };
    if hi >= lo {
        (lo, hi)
    } else {
        (lo, lo)
    }
}

/// The characters of `s` between the bounds `slice` takes.
pub fn slice_chars(s: &str, start: i64, end: Option<i64>) -> (r: String)
    requires
        s@.len() <= i64::MAX,
    ensures
        ({
            let b = slice_bounds_spec(
                start as int,
                match end {
                    Some(e) => Some(e as int),
                    None => None,
                },
                s@.len() as int,
            );
            r@ == s@.subrange(b.0, b.1)
        }),
{
    let cs = str_chars(s);
    let (lo, hi) = slice_bounds(start, end, cs.len());
    chars_to_string(&cs, lo, hi)
}

/// The part of `s` that `slice(s, start, end)` takes.
pub open spec fn slice_of(s: Seq<char>, start: int, end: Option<int>) -> Seq<char> {
    let b = slice_bounds_spec(start, end, s.len() as int);
    s.subrange(b.0, b.1)
}

/// Slicing follows Python: the whole text from 0 with no end; a negative
/// start counts from the end, so `-k` takes the last `k` characters; cutting
/// at any index in between splits a slice into two that add up to it; a
/// start at or past the end, or an end before the start, gives nothing.
pub proof fn law_slicing(s: Seq<char>, i: int, j: int, k: int)
    ensures
        slice_of(s, 0, None) == s,
        0 < k <= s.len() ==> slice_of(s, -k, None) == s.subrange(s.len() - k, s.len() as int),
        0 <= i <= j <= s.len() ==> slice_of(s, i, Some(j)) + slice_of(s, j, None) == slice_of(s, i, None),
        0 <= i <= j <= s.len() ==> slice_of(s, i, Some(j)).len() == j - i,
        i >= s.len() ==> slice_of(s, i, None).len() == 0,
        0 <= j <= i ==> slice_of(s, i, Some(j)).len() == 0,
{
    assert(s.subrange(0, s.len() as int) =~= s);
    if 0 <= i <= j <= s.len() {
        assert(s.subrange(i, j) + s.subrange(j, s.len() as int) =~= s.subrange(i, s.len() as int));
    }
}

/// `s` backwards.
pub fn reverse_text(s: &str) -> (r: String)
    ensures
        r@ == s@.reverse(),
{
    let cs = str_chars(s);
    let mut out = String::new();
    let mut k = cs.len();
    while k > 0
        invariant
            cs@ == s@,
            k <= cs@.len(),
            out@ == s@.subrange(k as int, cs@.len() as int).reverse(),
        decreases k,
    {
        k -= 1;
        push_char(&mut out, cs[k]);
        assert(out@ =~= s@.subrange(k as int, cs@.len() as int).reverse());
    }
    assert(s@.subrange(0, cs@.len() as int) =~= s@);
    out
}

/// Whether `p` occurs in `s` at `i`.
pub open spec fn at(s: Seq<char>, p: Seq<char>, i: int) -> bool {
    0 <= i && i + p.len() <= s.len() && s.subrange(i, i + p.len()) == p
}

/// The first occurrence of `p` in `s` at or after `i`, or -1.
pub open spec fn find_from(s: Seq<char>, p: Seq<char>, i: int) -> int
    decreases s.len() + 1 - i,
{
    if i < 0 || i + p.len() > s.len() {
        -1
    } else if at(s, p, i) {
        i
    } else {
        find_from(s, p, i + 1)
    }
}

pub proof fn lemma_find_from(s: Seq<char>, p: Seq<char>, i: int)
    requires
        0 <= i,
    ensures
        find_from(s, p, i) == -1 || (i <= find_from(s, p, i) && at(s, p, find_from(s, p, i))),
    decreases s.len() + 1 - i,
{
    if i + p.len() <= s.len() && !at(s, p, i) {
        lemma_find_from(s, p, i + 1);
    }
}

/// The pieces of `s` between the non-overlapping occurrences of the
/// non-empty `p`, found from the left (`str::split` with a string).
pub open spec fn split_str(s: Seq<char>, p: Seq<char>) -> Seq<Seq<char>>
    decreases s.len(),
{
    if p.len() == 0 {
        seq![s]
    } else {
        let i = find_from(s, p, 0);
        proof {
            lemma_find_from(s, p, 0);
        }
        if i < 0 {
            seq![s]
        } else {
            seq![s.take(i)] + split_str(s.skip(i + p.len()), p)
        }
    }
}

/// `ws` joined with `sep` between neighbours.
pub open spec fn join_str(ws: Seq<Seq<char>>, sep: Seq<char>) -> Seq<char>
    decreases ws.len(),
{
    if ws.len() == 0 {
        seq![]
    } else if ws.len() == 1 {
        ws[0]
    } else {
        join_str(ws.drop_last(), sep) + sep + ws.last()
    }
}

/// The pieces `split` gives: each character on its own for an empty
/// separator, else the pieces between separators.
pub open spec fn split_spec(s: Seq<char>, sep: Seq<char>) -> Seq<Seq<char>> {
    if sep.len() == 0 {
        s.map_values(|c: char| seq![c])
    } else {
        split_str(s, sep)
    }
}

/// Joining after a first piece: the piece, the separator, then the rest
/// joined.
proof fn lemma_join_prepend(a: Seq<char>, rest: Seq<Seq<char>>, sep: Seq<char>)
    requires
        rest.len() > 0,
    ensures
        join_str(seq![a] + rest, sep) == a + sep + join_str(rest, sep),
    decreases rest.len(),
{
    let w = seq![a] + rest;
    if rest.len() == 1 {
        assert(w.drop_last() =~= seq![a]);
        assert(join_str(seq![a], sep) == a);
        assert(join_str(rest, sep) == rest[0]);
        assert(w.last() == rest[0]);
        assert(join_str(w, sep) == join_str(w.drop_last(), sep) + sep + w.last());
    } else {
        assert(w.drop_last() =~= seq![a] + rest.drop_last());
        lemma_join_prepend(a, rest.drop_last(), sep);
        assert(w.last() == rest.last());
        assert(join_str(w, sep) =~= a + sep + join_str(rest, sep));
    }
}

proof fn lemma_split_str_nonempty(s: Seq<char>, p: Seq<char>)
    ensures
        split_str(s, p).len() >= 1,
    decreases s.len(),
{
    if p.len() > 0 {
        let i = find_from(s, p, 0);
        lemma_find_from(s, p, 0);
        if i >= 0 {
            lemma_split_str_nonempty(s.skip(i + p.len()), p);
        }
    }
}

proof fn lemma_join_split_str(s: Seq<char>, p: Seq<char>)
    requires
        p.len() > 0,
    ensures
        join_str(split_str(s, p), p) == s,
    decreases s.len(),
{
    let i = find_from(s, p, 0);
    lemma_find_from(s, p, 0);
    if i >= 0 {
        let t = s.skip(i + p.len());
        lemma_join_split_str(t, p);
        lemma_split_str_nonempty(t, p);
        lemma_join_prepend(s.take(i), split_str(t, p), p);
        assert(s.subrange(i, i + p.len()) == p);
        assert(s.take(i) + p + t =~= s);
    }
}

proof fn lemma_join_chars(s: Seq<char>)
    ensures
        join_str(s.map_values(|c: char| seq![c]), seq![]) == s,
    decreases s.len(),
{
    let ws = s.map_values(|c: char| seq![c]);
    if s.len() == 1 {
        assert(ws[0] =~= s);
    } else if s.len() > 1 {
        assert(ws.drop_last() =~= s.drop_last().map_values(|c: char| seq![c]));
        lemma_join_chars(s.drop_last());
        assert(join_str(ws, seq![]) =~= s);
    } else {
        assert(ws.len() == 0);
        assert(s =~= seq![]);
    }
}

/// Joining the pieces of a split with the same separator gives back the
/// text.
pub proof fn law_join_undoes_split(s: Seq<char>, sep: Seq<char>)
    ensures
        join_str(split_spec(s, sep), sep) == s,
{
    if sep.len() == 0 {
        lemma_join_chars(s);
        assert(sep =~= seq![]);
    } else {
        lemma_join_split_str(s, sep);
    }
}

/// Whether `p` occurs in `cs` at `i`.
fn at_exec(cs: &Vec<char>, p: &Vec<char>, i: usize) -> (r: bool)
    ensures
        r == at(cs@, p@, i as int),
{
    let len = cs.len();
    if p.len() > len || i > len - p.len() {
        return false;
    }
    let mut k: usize = 0;
    while k < p.len()
        invariant
            len == cs@.len(),
            i + p@.len() <= cs@.len(),
            k <= p@.len(),
            forall|j: int| 0 <= j < k ==> cs@[i + j] == p@[j],
        decreases p@.len() - k,
    {
        assert(i + k < cs@.len());
        if cs[i + k] != p[k] {
            assert(cs@.subrange(i as int, i + p@.len())[k as int] != p@[k as int]);
            return false;
        }
        k += 1;
    }
    assert(cs@.subrange(i as int, i + p@.len()) =~= p@);
    true
}

/// Splits `s` at `sep` (into characters for an empty `sep`).
pub fn split_text(s: &str, sep: &str) -> (r: Vec<String>)
    ensures
        strings_view(r@) == split_spec(s@, sep@),
{
    let cs = str_chars(s);
    let p = str_chars(sep);
    let mut out: Vec<String> = Vec::new();
    if p.len() == 0 {
        let mut k: usize = 0;
        while k < cs.len()
            invariant
                cs@ == s@,
                k <= cs@.len(),
                strings_view(out@) == s@.take(k as int).map_values(|c: char| seq![c]),
            decreases cs@.len() - k,
        {
            let mut one = String::new();
            push_char(&mut one, cs[k]);
            assert(one@ =~= seq![cs@[k as int]]);
            let ghost prev = strings_view(out@);
            out.push(one);
            assert(strings_view(out@) =~= prev.push(one@));
            k += 1;
            assert(strings_view(out@) =~= s@.take(k as int).map_values(|c: char| seq![c]));
        }
        assert(s@.take(k as int) =~= s@);
        return out;
    }
    let n = cs.len();
    let m = p.len();
    let mut start: usize = 0;
    let mut i: usize = 0;
    assert(s@.skip(0) =~= s@);
    proof {
        lemma_find_shift(s@, sep@, 0, 0);
    }
    while m <= n && i <= n - m
        invariant
            cs@ == s@,
            p@ == sep@,
            n == cs@.len(),
            m == p@.len(),
            m > 0,
            start <= i <= n,
            strings_view(out@) + split_str(s@.skip(start as int), sep@) == split_str(s@, sep@),
            find_from(s@.skip(start as int), sep@, 0) == if find_from(s@, sep@, i as int) < 0 {
                -1
            } else {
                find_from(s@, sep@, i as int) - start
            },
        decreases n - i,
    {
        if at_exec(&cs, &p, i) {
            let ghost rest = s@.skip(start as int);
            let piece = chars_to_string(&cs, start, i);
            proof {
                assert(find_from(s@, sep@, i as int) == i);
                assert(rest.take(i - start) =~= s@.subrange(start as int, i as int));
                assert(rest.skip(i - start + m) =~= s@.skip(i + m));
            }
            let ghost prev = strings_view(out@);
            out.push(piece);
            assert(strings_view(out@) =~= prev.push(piece@));
            start = i + m;
            i = i + m;
            proof {
                assert(s@.skip(start as int).len() == n - start);
                lemma_find_shift(s@, sep@, start as int, 0);
            }
        } else {
            proof {
                assert(find_from(s@, sep@, i as int) == find_from(s@, sep@, i + 1));
            }
            i += 1;
        }
    }
    proof {
        assert(find_from(s@, sep@, i as int) == -1);
        assert(find_from(s@.skip(start as int), sep@, 0) == -1);
    }
    let last = chars_to_string(&cs, start, n);
    assert(last@ =~= s@.skip(start as int));
    let ghost prev = strings_view(out@);
    out.push(last);
    assert(strings_view(out@) =~= prev.push(last@));
    out
}

/// Searching the tail of `s` from `start` finds what searching `s` finds,
/// shifted.
proof fn lemma_find_shift(s: Seq<char>, p: Seq<char>, start: int, j: int)
    requires
        0 <= start <= s.len(),
        0 <= j,
    ensures
        find_from(s.skip(start), p, j) == if find_from(s, p, start + j) < 0 {
            -1
        } else {
            find_from(s, p, start + j) - start
        },
    decreases s.len() + 1 - start - j,
{
    let t = s.skip(start);
    if j + p.len() <= t.len() {
        assert(at(t, p, j) == at(s, p, start + j)) by {
            assert(t.subrange(j, j + p.len()) =~= s.subrange(start + j, start + j + p.len()));
        }
        if !at(t, p, j) {
            lemma_find_shift(s, p, start, j + 1);
        }
    }
}

/// Joins `parts` with `sep`.
pub fn join_texts(parts: &Vec<String>, sep: &str) -> (r: String)
    ensures
        r@ == join_str(strings_view(parts@), sep@),
{
    let ghost ws = strings_view(parts@);
    let mut out = String::new();
    let mut k: usize = 0;
    while k < parts.len()
        invariant
            ws == strings_view(parts@),
            k <= parts@.len(),
            out@ == join_str(ws.take(k as int), sep@),
        decreases parts@.len() - k,
    {
        if k > 0 {
            out.append(sep);
        }
        out.append(parts[k].as_str());
        proof {
            assert(ws.take(k + 1).drop_last() =~= ws.take(k as int));
            if k == 0 {
                assert(ws.take(0).len() == 0);
                assert(out@ =~= ws[0]);
            }
        }
        k += 1;
    }
    assert(ws.take(k as int) =~= ws);
    out
}

/// `s` with every occurrence of `from` replaced by `to`, as `str::replace`
/// does: matches are found from the left and do not overlap; an empty
/// `from` matches before every character and at the end.
pub open spec fn replace_spec(s: Seq<char>, from: Seq<char>, to: Seq<char>) -> Seq<char> {
    if from.len() == 0 {
        join_str(seq![seq![]] + s.map_values(|c: char| seq![c]) + seq![seq![]], to)
    } else {
        join_str(split_str(s, from), to)
    }
}

/// Replacing a non-empty text by itself changes nothing, and neither does
/// replacing a text that does not occur.
pub proof fn law_replace_keeps_text(s: Seq<char>, from: Seq<char>, to: Seq<char>)
    requires
        from.len() > 0,
    ensures
        replace_spec(s, from, from) == s,
        find_from(s, from, 0) == -1 ==> replace_spec(s, from, to) == s,
{
    lemma_join_split_str(s, from);
}

pub fn replace_text(s: &str, from: &str, to: &str) -> (r: String)
    ensures
        r@ == replace_spec(s@, from@, to@),
{
    if from.unicode_len() == 0 {
        let pieces = split_text(s, "");
        let mut all: Vec<String> = Vec::new();
        all.push(String::new());
        let mut k: usize = 0;
        while k < pieces.len()
            invariant
                k <= pieces@.len(),
                strings_view(all@) == seq![Seq::<char>::empty()] + strings_view(pieces@).take(k as int),
            decreases pieces@.len() - k,
        {
            let ghost prev = strings_view(all@);
            let c = pieces[k].clone();
            all.push(c);
            assert(strings_view(all@) =~= prev.push(strings_view(pieces@)[k as int]));
            k += 1;
            assert(strings_view(all@) =~= seq![Seq::<char>::empty()] + strings_view(pieces@).take(
                k as int,
            ));
        }
        let ghost prev = strings_view(all@);
        all.push(String::new());
        proof {
            reveal_strlit("");
            assert(strings_view(pieces@).take(k as int) =~= strings_view(pieces@));
            assert(strings_view(all@) =~= prev.push(Seq::<char>::empty()));
            assert(strings_view(all@) =~= seq![Seq::<char>::empty()] + s@.map_values(|c: char| seq![c])
                + seq![Seq::<char>::empty()]);
        }
        join_texts(&all, to)
    } else {
        let pieces = split_text(s, from);
        join_texts(&pieces, to)
    }
}

} // verus!
