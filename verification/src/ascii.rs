//! ASCII-art text: banners, boxes and borders, pyramids, diamonds, mirrors
//! and tables. Each command's text is built here; printing it is the
//! application's.
use vstd::prelude::*;

use crate::numfmt::{push_repeat, repeat_char};
use crate::text::{push_char, split_on, split_on_char, str_chars, str_eq, strings_view, trim, trim_range};

verus! {

/// ASCII uppercase of one character; other characters are unchanged.
pub open spec fn upper_char(c: char) -> char {
    if 'a' <= c <= 'z' {
        ((c as u32) - 32) as char
    } else {
        c
    }
}

fn upper_char_exec(c: char) -> (r: char)
    ensures
        r == upper_char(c),
{
    if 'a' <= c && c <= 'z' {
        let v = (c as u32) - 32;
        let b = v as u8;
        assert(b == v);
        b as char
    } else {
        c
    }
}

/// The five rows of the banner glyph of an (uppercase) character; any
/// character without a glyph is drawn as `??`.
pub open spec fn glyph_spec(c: char) -> Seq<Seq<char>> {
    if c == 'A' {
        seq![" █████ "@, "██   ██"@, "███████"@, "██   ██"@, "██   ██"@]
    } else if c == 'B' {
        seq!["██████ "@, "██   ██"@, "██████ "@, "██   ██"@, "██████ "@]
    } else if c == 'C' {
        seq![" ██████"@, "██     "@, "██     "@, "██     "@, " ██████"@]
    } else if c == 'D' {
        seq!["██████ "@, "██   ██"@, "██   ██"@, "██   ██"@, "██████ "@]
    } else if c == 'E' {
        seq!["███████"@, "██     "@, "█████  "@, "██     "@, "███████"@]
    } else if c == 'F' {
        seq!["███████"@, "██     "@, "█████  "@, "██     "@, "██     "@]
    } else if c == 'G' {
        seq![" ██████"@, "██     "@, "██  ███"@, "██   ██"@, " ██████"@]
    } else if c == 'H' {
        seq!["██   ██"@, "██   ██"@, "███████"@, "██   ██"@, "██   ██"@]
    } else if c == 'I' {
        seq!["██"@, "██"@, "██"@, "██"@, "██"@]
    } else if c == 'J' {
        seq!["     ██"@, "     ██"@, "     ██"@, "██   ██"@, " █████ "@]
    } else if c == 'K' {
        seq!["██   ██"@, "██  ██ "@, "█████  "@, "██  ██ "@, "██   ██"@]
    } else if c == 'L' {
        seq!["██     "@, "██     "@, "██     "@, "██     "@, "███████"@]
    } else if c == 'M' {
        seq!["███    ███"@, "████  ████"@, "██ ████ ██"@, "██  ██  ██"@, "██      ██"@]
    } else if c == 'N' {
        seq!["███   ██"@, "████  ██"@, "██ ██ ██"@, "██  ████"@, "██   ███"@]
    } else if c == 'O' {
        seq![" ██████ "@, "██    ██"@, "██    ██"@, "██    ██"@, " ██████ "@]
    } else if c == 'P' {
        seq!["██████ "@, "██   ██"@, "██████ "@, "██     "@, "██     "@]
    } else if c == 'Q' {
        seq![" ██████ "@, "██    ██"@, "██    ██"@, "██  ████"@, " ██████ "@]
    } else if c == 'R' {
        seq!["██████ "@, "██   ██"@, "██████ "@, "██   ██"@, "██   ██"@]
    } else if c == 'S' {
        seq![" ██████"@, "██     "@, " █████ "@, "     ██"@, "██████ "@]
    } else if c == 'T' {
        seq!["████████"@, "   ██   "@, "   ██   "@, "   ██   "@, "   ██   "@]
    } else if c == 'U' {
        seq!["██   ██"@, "██   ██"@, "██   ██"@, "██   ██"@, " █████ "@]
    } else if c == 'V' {
        seq!["██   ██"@, "██   ██"@, "██   ██"@, " ██ ██ "@, "  ███  "@]
    } else if c == 'W' {
        seq!["██     ██"@, "██  █  ██"@, "██ ███ ██"@, "████ ████"@, "███   ███"@]
    } else if c == 'X' {
        seq!["██   ██"@, " ██ ██ "@, "  ███  "@, " ██ ██ "@, "██   ██"@]
    } else if c == 'Y' {
        seq!["██   ██"@, " ██ ██ "@, "  ███  "@, "   █   "@, "   █   "@]
    } else if c == 'Z' {
        seq!["███████"@, "    ██ "@, "  ███  "@, " ██    "@, "███████"@]
    } else if c == '0' {
        seq![" █████ "@, "██   ██"@, "██   ██"@, "██   ██"@, " █████ "@]
    } else if c == '1' {
        seq!["  ██  "@, "  ██  "@, "  ██  "@, "  ██  "@, "  ██  "@]
    } else if c == '2' {
        seq!["█████ "@, "    ██"@, " ████ "@, "██    "@, "██████"@]
    } else if c == '3' {
        seq!["█████ "@, "    ██"@, " ████ "@, "    ██"@, "█████ "@]
    } else if c == '4' {
        seq!["██  ██"@, "██  ██"@, "██████"@, "    ██"@, "    ██"@]
    } else if c == '5' {
        seq!["██████"@, "██    "@, "█████ "@, "    ██"@, "█████ "@]
    } else if c == '6' {
        seq![" █████"@, "██    "@, "██████"@, "██   ██"@, " █████ "@]
    } else if c == '7' {
        seq!["██████"@, "    ██"@, "   ██ "@, "  ██  "@, "  ██  "@]
    } else if c == '8' {
        seq![" █████ "@, "██   ██"@, " █████ "@, "██   ██"@, " █████ "@]
    } else if c == '9' {
        seq![" █████ "@, "██   ██"@, " ██████"@, "    ██ "@, " ████  "@]
    } else if c == ' ' {
        seq!["    "@, "    "@, "    "@, "    "@, "    "@]
    } else if c == '!' {
        seq!["██"@, "██"@, "██"@, "  "@, "██"@]
    } else if c == '?' {
        seq!["█████"@, "    ██"@, "  ███ "@, "      "@, "  █   "@]
    } else if c == '.' {
        seq!["  "@, "  "@, "  "@, "  "@, "██"@]
    } else if c == ',' {
        seq!["  "@, "  "@, "  "@, "██"@, "█ "@]
    } else if c == '-' {
        seq!["    "@, "    "@, "████"@, "    "@, "    "@]
    } else {
        seq!["?? "@, "?? "@, "?? "@, "?? "@, "?? "@]
    }
}

/// The banner glyph of a character (ASCII letters in either case).
pub fn glyph_for(ch: char) -> (r: [&'static str; 5])
    ensures
        forall|i: int| 0 <= i < 5 ==> #[trigger] r@[i]@ == glyph_spec(upper_char(ch))[i],
{
    let c = upper_char_exec(ch);
    if c == 'A' {
        [" █████ ", "██   ██", "███████", "██   ██", "██   ██"]
    } else if c == 'B' {
        ["██████ ", "██   ██", "██████ ", "██   ██", "██████ "]
    } else if c == 'C' {
        [" ██████", "██     ", "██     ", "██     ", " ██████"]
    } else if c == 'D' {
        ["██████ ", "██   ██", "██   ██", "██   ██", "██████ "]
    } else if c == 'E' {
        ["███████", "██     ", "█████  ", "██     ", "███████"]
    } else if c == 'F' {
        ["███████", "██     ", "█████  ", "██     ", "██     "]
    } else if c == 'G' {
        [" ██████", "██     ", "██  ███", "██   ██", " ██████"]
    } else if c == 'H' {
        ["██   ██", "██   ██", "███████", "██   ██", "██   ██"]
    } else if c == 'I' {
        ["██", "██", "██", "██", "██"]
    } else if c == 'J' {
        ["     ██", "     ██", "     ██", "██   ██", " █████ "]
    } else if c == 'K' {
        ["██   ██", "██  ██ ", "█████  ", "██  ██ ", "██   ██"]
    } else if c == 'L' {
        ["██     ", "██     ", "██     ", "██     ", "███████"]
    } else if c == 'M' {
        ["███    ███", "████  ████", "██ ████ ██", "██  ██  ██", "██      ██"]
    } else if c == 'N' {
        ["███   ██", "████  ██", "██ ██ ██", "██  ████", "██   ███"]
    } else if c == 'O' {
        [" ██████ ", "██    ██", "██    ██", "██    ██", " ██████ "]
    } else if c == 'P' {
        ["██████ ", "██   ██", "██████ ", "██     ", "██     "]
    } else if c == 'Q' {
        [" ██████ ", "██    ██", "██    ██", "██  ████", " ██████ "]
    } else if c == 'R' {
        ["██████ ", "██   ██", "██████ ", "██   ██", "██   ██"]
    } else if c == 'S' {
        [" ██████", "██     ", " █████ ", "     ██", "██████ "]
    } else if c == 'T' {
        ["████████", "   ██   ", "   ██   ", "   ██   ", "   ██   "]
    } else if c == 'U' {
        ["██   ██", "██   ██", "██   ██", "██   ██", " █████ "]
    } else if c == 'V' {
        ["██   ██", "██   ██", "██   ██", " ██ ██ ", "  ███  "]
    } else if c == 'W' {
        ["██     ██", "██  █  ██", "██ ███ ██", "████ ████", "███   ███"]
    } else if c == 'X' {
        ["██   ██", " ██ ██ ", "  ███  ", " ██ ██ ", "██   ██"]
    } else if c == 'Y' {
        ["██   ██", " ██ ██ ", "  ███  ", "   █   ", "   █   "]
    } else if c == 'Z' {
        ["███████", "    ██ ", "  ███  ", " ██    ", "███████"]
    } else if c == '0' {
        [" █████ ", "██   ██", "██   ██", "██   ██", " █████ "]
    } else if c == '1' {
        ["  ██  ", "  ██  ", "  ██  ", "  ██  ", "  ██  "]
    } else if c == '2' {
        ["█████ ", "    ██", " ████ ", "██    ", "██████"]
    } else if c == '3' {
        ["█████ ", "    ██", " ████ ", "    ██", "█████ "]
    } else if c == '4' {
        ["██  ██", "██  ██", "██████", "    ██", "    ██"]
    } else if c == '5' {
        ["██████", "██    ", "█████ ", "    ██", "█████ "]
    } else if c == '6' {
        [" █████", "██    ", "██████", "██   ██", " █████ "]
    } else if c == '7' {
        ["██████", "    ██", "   ██ ", "  ██  ", "  ██  "]
    } else if c == '8' {
        [" █████ ", "██   ██", " █████ ", "██   ██", " █████ "]
    } else if c == '9' {
        [" █████ ", "██   ██", " ██████", "    ██ ", " ████  "]
    } else if c == ' ' {
        ["    ", "    ", "    ", "    ", "    "]
    } else if c == '!' {
        ["██", "██", "██", "  ", "██"]
    } else if c == '?' {
        ["█████", "    ██", "  ███ ", "      ", "  █   "]
    } else if c == '.' {
        ["  ", "  ", "  ", "  ", "██"]
    } else if c == ',' {
        ["  ", "  ", "  ", "██", "█ "]
    } else if c == '-' {
        ["    ", "    ", "████", "    ", "    "]
    } else {
        ["?? ", "?? ", "?? ", "?? ", "?? "]
    }
}


/// Uppercase of a string by Unicode's rules, as `str::to_uppercase` gives it.
pub uninterp spec fn unicode_upper(s: Seq<char>) -> Seq<char>;

/// Uppercases text.
///
/// Trusted: calls `str::to_uppercase`; the contract only names its result,
/// which depends on the text alone (Unicode case mapping, no locale).
#[verifier::external_body]
pub(crate) fn to_uppercase(s: &str) -> (r: String)
    ensures
        r@ == unicode_upper(s@),
{
    s.to_uppercase()
}

/// Row `i` of the banner of `cs`: the glyph rows side by side, one space apart.
pub open spec fn banner_row(cs: Seq<char>, i: int) -> Seq<char>
    decreases cs.len(),
{
    if cs.len() == 0 {
        seq![]
    } else if cs.len() == 1 {
        glyph_spec(upper_char(cs[0]))[i]
    } else {
        banner_row(cs.drop_last(), i) + seq![' '] + glyph_spec(upper_char(cs.last()))[i]
    }
}

/// The five rows of the banner of `cs`.
pub open spec fn banner_rows(cs: Seq<char>) -> Seq<Seq<char>> {
    Seq::new(5, |i: int| banner_row(cs, i))
}

/// The banner of already uppercased text: five rows joined by newlines.
pub fn banner_of_upper(text: &str) -> (r: Vec<String>)
    ensures
        strings_view(r@) == banner_rows(text@),
{
    let cs = str_chars(text);
    let mut rows: Vec<String> = vec![String::new(), String::new(), String::new(), String::new(), String::new()];
    let mut k: usize = 0;
    while k < cs.len()
        invariant
            cs@ == text@,
            k <= cs@.len(),
            rows@.len() == 5,
            forall|i: int| 0 <= i < 5 ==> #[trigger] rows@[i]@ == banner_row(cs@.take(k as int), i),
        decreases cs@.len() - k,
    {
        let g = glyph_for(cs[k]);
        let ghost before = rows@;
        let mut i: usize = 0;
        while i < 5
            invariant
                rows@.len() == 5,
                i <= 5,
                k < cs@.len(),
                forall|j: int| 0 <= j < 5 ==> #[trigger] g@[j]@ == glyph_spec(upper_char(cs@[k as int]))[j],
                forall|j: int| i <= j < 5 ==> #[trigger] rows@[j] == before[j],
                forall|j: int|
                    0 <= j < i ==> #[trigger] rows@[j]@ == (if k > 0 {
                        before[j]@ + seq![' ']
                    } else {
                        before[j]@
                    }) + g@[j]@,
            decreases 5 - i,
        {
            let mut row = rows[i].clone();
            let ghost r0 = row@;
            if k > 0 {
                push_char(&mut row, ' ');
            }
            row.append(g[i]);
            rows.set(i, row);
            i += 1;
        }
        proof {
            assert forall|j: int| 0 <= j < 5 implies #[trigger] rows@[j]@ == banner_row(cs@.take(k + 1), j) by {
                assert(cs@.take(k + 1).drop_last() =~= cs@.take(k as int));
                if k == 0 {
                    assert(before[j]@ == banner_row(cs@.take(0), j));
                    assert(cs@.take(0).len() == 0);
                    assert(before[j]@ =~= Seq::<char>::empty());
                    assert(rows@[j]@ =~= g@[j]@);
                }
            }
        }
        k += 1;
    }
    proof {
        assert(cs@.take(k as int) =~= text@);
        assert(strings_view(rows@) =~= banner_rows(text@));
    }
    rows
}

/// The banner of `text` (uppercased first): five rows of block glyphs.
pub fn banner(text: &str) -> (r: Vec<String>)
    ensures
        strings_view(r@) == banner_rows(unicode_upper(text@)),
{
    let up = to_uppercase(text);
    banner_of_upper(up.as_str())
}

// ---------------------------------------------------------------- boxes
/// The eight border pieces of a style: top-left, top, top-right, left,
/// right, bottom-left, bottom, bottom-right. Unknown styles are `single`.
pub open spec fn border_spec(style: Seq<char>) -> Seq<Seq<char>> {
    if style == "double"@ {
        seq!["╔"@, "═"@, "╗"@, "║"@, "║"@, "╚"@, "═"@, "╝"@]
    } else if style == "bold"@ {
        seq!["┏"@, "━"@, "┓"@, "┃"@, "┃"@, "┗"@, "━"@, "┛"@]
    } else if style == "rounded"@ {
        seq!["╭"@, "─"@, "╮"@, "│"@, "│"@, "╰"@, "─"@, "╯"@]
    } else if style == "ascii"@ {
        seq!["+"@, "-"@, "+"@, "|"@, "|"@, "+"@, "-"@, "+"@]
    } else if style == "stars"@ {
        seq!["*"@, "*"@, "*"@, "*"@, "*"@, "*"@, "*"@, "*"@]
    } else if style == "hash"@ {
        seq!["#"@, "#"@, "#"@, "#"@, "#"@, "#"@, "#"@, "#"@]
    } else {
        seq!["┌"@, "─"@, "┐"@, "│"@, "│"@, "└"@, "─"@, "┘"@]
    }
}

/// The border pieces of a style.
pub fn border_glyphs(style: &str) -> (r: [&'static str; 8])
    ensures
        forall|i: int| 0 <= i < 8 ==> #[trigger] r@[i]@ == border_spec(style@)[i],
{
    if str_eq(style, "double") {
        ["╔", "═", "╗", "║", "║", "╚", "═", "╝"]
    } else if str_eq(style, "bold") {
        ["┏", "━", "┓", "┃", "┃", "┗", "━", "┛"]
    } else if str_eq(style, "rounded") {
        ["╭", "─", "╮", "│", "│", "╰", "─", "╯"]
    } else if str_eq(style, "ascii") {
        ["+", "-", "+", "|", "|", "+", "-", "+"]
    } else if str_eq(style, "stars") {
        ["*", "*", "*", "*", "*", "*", "*", "*"]
    } else if str_eq(style, "hash") {
        ["#", "#", "#", "#", "#", "#", "#", "#"]
    } else {
        ["┌", "─", "┐", "│", "│", "└", "─", "┘"]
    }
}

/// `n` copies of `s`.
pub open spec fn repeat_str(s: Seq<char>, n: int) -> Seq<char>
    decreases n,
{
    if n <= 0 {
        seq![]
    } else {
        repeat_str(s, n - 1) + s
    }
}

fn push_repeat_str(out: &mut String, s: &str, n: usize)
    ensures
        final(out)@ == old(out)@ + repeat_str(s@, n as int),
{
    let ghost start = out@;
    let mut k: usize = 0;
    while k < n
        invariant
            k <= n,
            out@ == start + repeat_str(s@, k as int),
        decreases n - k,
    {
        out.append(s);
        k += 1;
        assert(out@ =~= start + repeat_str(s@, k as int));
    }
}

/// The length of the longest line.
pub open spec fn max_len(ls: Seq<Seq<char>>) -> int
    decreases ls.len(),
{
    if ls.len() == 0 {
        0
    } else if max_len(ls.drop_last()) >= ls.last().len() {
        max_len(ls.drop_last())
    } else {
        ls.last().len() as int
    }
}

proof fn lemma_max_len(ls: Seq<Seq<char>>)
    ensures
        max_len(ls) >= 0,
        forall|i: int| 0 <= i < ls.len() ==> #[trigger] ls[i].len() <= max_len(ls),
    decreases ls.len(),
{
    if ls.len() > 0 {
        lemma_max_len(ls.drop_last());
        assert forall|i: int| 0 <= i < ls.len() implies #[trigger] ls[i].len() <= max_len(ls) by {
            if i < ls.len() - 1 {
                assert(ls[i] == ls.drop_last()[i]);
            }
        }
    }
}

/// The inner width of a box: its longest line, and room for a title.
pub open spec fn box_width(body: Seq<Seq<char>>, title: Option<Seq<char>>) -> int {
    match title {
        Some(t) => if max_len(body) >= t.len() + 4 {
            max_len(body)
        } else {
            (t.len() + 4) as int
        },
        None => max_len(body),
    }
}

/// A body line of a box, padded to the box's width.
pub open spec fn box_line(g: Seq<Seq<char>>, ln: Seq<char>, w: int) -> Seq<char> {
    g[3] + " "@ + ln + repeat_char(' ', w - ln.len()) + " "@ + g[4]
}

proof fn lemma_max_len_le(ls: Seq<Seq<char>>, b: int)
    requires
        b >= 0,
        forall|i: int| 0 <= i < ls.len() ==> #[trigger] ls[i].len() <= b,
    ensures
        max_len(ls) <= b,
    decreases ls.len(),
{
    if ls.len() > 0 {
        assert forall|i: int| 0 <= i < ls.drop_last().len() implies #[trigger] ls.drop_last()[i].len() <= b by {
            assert(ls.drop_last()[i] == ls[i]);
        }
        lemma_max_len_le(ls.drop_last(), b);
        assert(ls.last() == ls[ls.len() - 1]);
    }
}

proof fn lemma_split_pieces_short(s: Seq<char>, c: char)
    ensures
        forall|i: int| 0 <= i < split_on(s, c).len() ==> #[trigger] split_on(s, c)[i].len() <= s.len(),
    decreases s.len(),
{
    if s.len() > 0 {
        lemma_split_pieces_short(s.drop_last(), c);
        crate::text::lemma_split_on_len(s.drop_last(), c);
    }
}

/// The lines of a box drawn around the lines of `text`, with an optional
/// title set into the top edge.
pub open spec fn box_spec(text: Seq<char>, title: Option<Seq<char>>, style: Seq<char>) -> Seq<
    Seq<char>,
> {
    let body = split_on(text, '\n');
    let w = box_width(body, title);
    let g = border_spec(style);
    let top = match title {
        Some(t) => g[0] + g[1] + " "@ + t + " "@ + repeat_str(
            g[1],
            if w >= t.len() + 2 {
                w - (t.len() + 2)
            } else {
                0
            },
        ) + g[2],
        None => g[0] + repeat_str(g[1], w + 2) + g[2],
    };
    seq![top] + body.map_values(|ln: Seq<char>| box_line(g, ln, w)) + seq![
        g[5] + repeat_str(g[6], w + 2) + g[7],
    ]
}

proof fn lemma_repeat_str_len(s: Seq<char>, n: int)
    requires
        s.len() == 1,
    ensures
        repeat_str(s, n).len() == if n < 0 {
            0
        } else {
            n
        },
    decreases n,
{
    if n > 0 {
        lemma_repeat_str_len(s, n - 1);
    }
}

proof fn lemma_glyphs_are_single(style: Seq<char>)
    ensures
        border_spec(style).len() == 8,
        forall|i: int| 0 <= i < 8 ==> #[trigger] border_spec(style)[i].len() == 1,
{
    reveal_strlit("╔");
    reveal_strlit("═");
    reveal_strlit("╗");
    reveal_strlit("║");
    reveal_strlit("╚");
    reveal_strlit("╝");
    reveal_strlit("┏");
    reveal_strlit("━");
    reveal_strlit("┓");
    reveal_strlit("┃");
    reveal_strlit("┗");
    reveal_strlit("┛");
    reveal_strlit("╭");
    reveal_strlit("─");
    reveal_strlit("╮");
    reveal_strlit("│");
    reveal_strlit("╰");
    reveal_strlit("╯");
    reveal_strlit("+");
    reveal_strlit("-");
    reveal_strlit("|");
    reveal_strlit("*");
    reveal_strlit("#");
    reveal_strlit("┌");
    reveal_strlit("┐");
    reveal_strlit("└");
    reveal_strlit("┘");
}

/// The edges of a box fit its body: every body row is exactly as long as
/// the bottom edge, which spans the box's inner width plus four characters.
/// Without a title the top edge is as long as the bottom one; with a title
/// it stretches with the width too and is one character shorter, and the
/// title stands in it from the fourth character on.
pub proof fn law_box_edges_fit_the_body(text: Seq<char>, title: Option<Seq<char>>, style: Seq<char>)
    ensures
        ({
            let b = box_spec(text, title, style);
            let w = box_width(split_on(text, '\n'), title);
            &&& b.len() == split_on(text, '\n').len() + 2
            &&& b[b.len() - 1].len() == w + 4
            &&& forall|i: int| 1 <= i < b.len() - 1 ==> #[trigger] b[i].len() == w + 4
            &&& title is None ==> b[0].len() == w + 4
            &&& title matches Some(t) ==> b[0].len() == w + 3 && b[0].subrange(3, 3 + t.len() as int) == t
        }),
{
    let body = split_on(text, '\n');
    let w = box_width(body, title);
    let g = border_spec(style);
    let b = box_spec(text, title, style);
    lemma_glyphs_are_single(style);
    lemma_max_len(body);
    assert(g[0].len() == 1 && g[1].len() == 1 && g[2].len() == 1);
    assert(g[5].len() == 1 && g[6].len() == 1 && g[7].len() == 1);
    assert(g[3].len() == 1 && g[4].len() == 1);
    lemma_repeat_str_len(g[1], w + 2);
    lemma_repeat_str_len(g[6], w + 2);
    reveal_strlit(" ");
    let mid = body.map_values(|ln: Seq<char>| box_line(g, ln, w));
    assert(b =~= seq![b[0]] + mid + seq![g[5] + repeat_str(g[6], w + 2) + g[7]]);
    assert forall|i: int| 1 <= i < b.len() - 1 implies #[trigger] b[i].len() == w + 4 by {
        assert(b[i] == mid[i - 1]);
        assert(body[i - 1].len() <= max_len(body));
    }
    match title {
        Some(t) => {
            let pad = if w >= t.len() + 2 {
                w - (t.len() + 2)
            } else {
                0
            };
            lemma_repeat_str_len(g[1], pad);
            assert(b[0].subrange(3, 3 + t.len() as int) =~= t);
        },
        None => {},
    }
}

/// The lines of a box around `text` (`ascii box` and `ascii border`).
pub fn box_around(text: &str, title: Option<&str>, style: &str) -> (r: Vec<String>)
    requires
        text@.len() + 8 <= usize::MAX,
        match title {
            Some(t) => t@.len() + 8 <= usize::MAX,
            None => true,
        },
    ensures
        strings_view(r@) == box_spec(
            text@,
            match title {
                Some(t) => Some(t@),
                None => None,
            },
            style@,
        ),
{
    let ghost tv = match title {
        Some(t) => Some(t@),
        None => None::<Seq<char>>,
    };
    let body = split_on_char(text, '\n');
    let ghost bv = strings_view(body@);
    proof {
        lemma_split_pieces_short(text@, '\n');
    }
    // the widest line
    let mut w: usize = 0;
    let mut k: usize = 0;
    while k < body.len()
        invariant
            bv == strings_view(body@),
            k <= body@.len(),
            w as int == max_len(bv.take(k as int)),
        decreases body@.len() - k,
    {
        let n = body[k].unicode_len();
        proof {
            assert(bv.take(k + 1).drop_last() =~= bv.take(k as int));
        }
        if n > w {
            w = n;
        }
        k += 1;
    }
    assert(bv.take(k as int) =~= bv);
    proof {
        lemma_max_len(bv);
        lemma_max_len_le(bv, text@.len() as int);
    }
    let ghost mw = w;
    match title {
        Some(t) => {
            let tl = t.unicode_len();
            if tl + 4 > w {
                w = tl + 4;
            }
        },
        None => {},
    }
    assert(w as int == box_width(bv, tv));
    let g = border_glyphs(style);
    let ghost gv = border_spec(style@);
    let mut out: Vec<String> = Vec::new();
    let mut top = String::from_str(g[0]);
    match title {
        Some(t) => {
            top.append(g[1]);
            top.append(" ");
            top.append(t);
            top.append(" ");
            let tl = t.unicode_len();
            let pad = if w >= tl + 2 {
                w - (tl + 2)
            } else {
                0
            };
            push_repeat_str(&mut top, g[1], pad);
        },
        None => {
            push_repeat_str(&mut top, g[1], w + 2);
        },
    }
    top.append(g[2]);
    proof {
        let want = box_spec(text@, tv, style@);
        assert(top@ =~= want[0]);
    }
    out.push(top);
    let ghost w_spec = w as int;
    let mut k: usize = 0;
    while k < body.len()
        invariant
            bv == strings_view(body@),
            k <= body@.len(),
            w as int == box_width(bv, tv),
            forall|i: int| 0 <= i < bv.len() ==> #[trigger] bv[i].len() <= w,
            forall|i: int| 0 <= i < 8 ==> #[trigger] g@[i]@ == gv[i],
            strings_view(out@).len() == k + 1,
            forall|i: int| 1 <= i <= k ==> #[trigger] strings_view(out@)[i] == box_line(gv, bv[i - 1], w as int),
            strings_view(out@)[0] == box_spec(text@, tv, style@)[0],
        decreases body@.len() - k,
    {
        let ln = &body[k];
        let n = ln.unicode_len();
        assert(bv[k as int] == ln@);
        let mut line = String::from_str(g[3]);
        line.append(" ");
        line.append(ln.as_str());
        push_repeat(&mut line, ' ', w - n);
        line.append(" ");
        line.append(g[4]);
        assert(line@ =~= box_line(gv, bv[k as int], w as int));
        let ghost prev = strings_view(out@);
        out.push(line);
        assert(strings_view(out@) =~= prev.push(line@));
        k += 1;
    }
    let mut bottom = String::from_str(g[5]);
    push_repeat_str(&mut bottom, g[6], w + 2);
    bottom.append(g[7]);
    let ghost prev = strings_view(out@);
    out.push(bottom);
    proof {
        let want = box_spec(text@, tv, style@);
        let mid = bv.map_values(|ln: Seq<char>| box_line(gv, ln, w as int));
        assert(want =~= seq![want[0]] + mid + seq![bottom@]);
        assert(strings_view(out@) =~= prev.push(bottom@));
        assert(prev =~= seq![want[0]] + mid);
    }
    assert(strings_view(out@) =~= box_spec(text@, tv, style@));
    out
}

// ---------------------------------------------------------------- pyramids, diamonds, mirrors
/// The size of a pyramid or diamond drawn with `s`: 5 for empty text,
/// otherwise its length but at least 3.
pub open spec fn shape_size(s: Seq<char>) -> int {
    if s.len() == 0 {
        5
    } else if s.len() >= 3 {
        s.len() as int
    } else {
        3
    }
}

/// The character a shape is drawn with: the first of `s`, or `*`.
pub open spec fn shape_char(s: Seq<char>) -> char {
    if s.len() > 0 {
        s[0]
    } else {
        '*'
    }
}

/// Row `i` of a pyramid of height `h`: centred, `2i+1` characters wide.
pub open spec fn shape_row(h: int, i: int, c: char) -> Seq<char> {
    repeat_char(' ', h - 1 - i) + repeat_char(c, 2 * i + 1)
}

pub open spec fn pyramid_spec(s: Seq<char>) -> Seq<Seq<char>> {
    Seq::new(shape_size(s) as nat, |i: int| shape_row(shape_size(s), i, shape_char(s)))
}

/// A diamond: the pyramid's rows, then the same rows back up without the
/// widest.
pub open spec fn diamond_spec(s: Seq<char>) -> Seq<Seq<char>> {
    let n = shape_size(s);
    Seq::new(
        (2 * n - 1) as nat,
        |j: int|
            if j < n {
                shape_row(n, j, shape_char(s))
            } else {
                shape_row(n, 2 * n - 2 - j, shape_char(s))
            },
    )
}

/// The geometry of pyramids and diamonds. A pyramid drawn with `s` has 5
/// rows when `s` is empty (drawn with `*`), 3 when `s` is shorter than 3,
/// and otherwise one row per character of `s`, drawn with its first one.
/// Its rows grow by one character on each side, all centred on the column
/// under the apex: row `i` of `n` is `n - 1 - i` spaces and then `2i + 1`
/// copies of the character. A diamond is that pyramid followed by its
/// mirror image: it reads the same from the bottom up.
pub proof fn law_shapes(s: Seq<char>)
    ensures
        ({
            let n = shape_size(s);
            let c = shape_char(s);
            let p = pyramid_spec(s);
            let d = diamond_spec(s);
            &&& s.len() == 0 ==> n == 5 && c == '*'
            &&& 0 < s.len() < 3 ==> n == 3 && c == s[0]
            &&& s.len() >= 3 ==> n == s.len() && c == s[0]
            &&& p.len() == n
            &&& forall|i: int| 0 <= i < n ==> #[trigger] p[i].len() == n + i
            &&& forall|i: int, k: int| 0 <= i < n && 0 <= k < n - 1 - i ==> #[trigger] p[i][k] == ' '
            &&& forall|i: int, k: int| 0 <= i < n && n - 1 - i <= k < n + i ==> #[trigger] p[i][k] == c
            &&& d.len() == 2 * n - 1
            &&& d.take(n) == p
            &&& forall|j: int| 0 <= j < 2 * n - 1 ==> #[trigger] d[j] == d[2 * n - 2 - j]
        }),
{
    let n = shape_size(s);
    let p = pyramid_spec(s);
    let d = diamond_spec(s);
    assert(d.take(n) =~= p);
}

fn shape_params(s: &str) -> (r: (usize, char))
    requires
        s@.len() <= usize::MAX / 4,
    ensures
        r.0 as int == shape_size(s@),
        r.1 == shape_char(s@),
        r.0 >= 3,
        r.0 <= usize::MAX / 4 + 5,
{
    let n = s.unicode_len();
    let h = if n == 0 {
        5
    } else if n >= 3 {
        n
    } else {
        3
    };
    let c = if n > 0 {
        s.get_char(0)
    } else {
        '*'
    };
    (h, c)
}

fn shape_row_exec(h: usize, i: usize, c: char) -> (r: String)
    requires
        i < h <= usize::MAX / 4 + 5,
    ensures
        r@ == shape_row(h as int, i as int, c),
{
    let mut row = String::new();
    push_repeat(&mut row, ' ', h - 1 - i);
    push_repeat(&mut row, c, 2 * i + 1);
    row
}

/// The rows of a pyramid drawn with the first character of `s`.
pub fn pyramid(s: &str) -> (r: Vec<String>)
    requires
        s@.len() <= usize::MAX / 4,
    ensures
        strings_view(r@) == pyramid_spec(s@),
{
    let (h, c) = shape_params(s);
    let mut out: Vec<String> = Vec::new();
    let mut i: usize = 0;
    while i < h
        invariant
            h as int == shape_size(s@),
            c == shape_char(s@),
            h <= usize::MAX / 4 + 5,
            i <= h,
            strings_view(out@) == pyramid_spec(s@).take(i as int),
        decreases h - i,
    {
        let row = shape_row_exec(h, i, c);
        let ghost prev = strings_view(out@);
        out.push(row);
        assert(strings_view(out@) =~= prev.push(row@));
        i += 1;
        assert(strings_view(out@) =~= pyramid_spec(s@).take(i as int));
    }
    assert(pyramid_spec(s@).take(h as int) =~= pyramid_spec(s@));
    out
}

/// The rows of a diamond drawn with the first character of `s`.
pub fn diamond(s: &str) -> (r: Vec<String>)
    requires
        s@.len() <= usize::MAX / 4,
    ensures
        strings_view(r@) == diamond_spec(s@),
{
    let (n, c) = shape_params(s);
    let mut out: Vec<String> = Vec::new();
    let mut j: usize = 0;
    while j < 2 * n - 1
        invariant
            n as int == shape_size(s@),
            c == shape_char(s@),
            3 <= n <= usize::MAX / 4 + 5,
            j <= 2 * n - 1,
            strings_view(out@) == diamond_spec(s@).take(j as int),
        decreases 2 * n - 1 - j,
    {
        let i = if j < n {
            j
        } else {
            2 * n - 2 - j
        };
        let row = shape_row_exec(n, i, c);
        let ghost prev = strings_view(out@);
        out.push(row);
        assert(strings_view(out@) =~= prev.push(row@));
        j += 1;
        assert(strings_view(out@) =~= diamond_spec(s@).take(j as int));
    }
    assert(diamond_spec(s@).take(j as int) =~= diamond_spec(s@));
    out
}

/// `s`, a bar, and `s` backwards.
pub fn mirror(s: &str) -> (r: String)
    ensures
        r@ == s@ + " | "@ + s@.reverse(),
{
    let cs = str_chars(s);
    let mut out = String::from_str(s);
    out.append(" | ");
    let ghost start = out@;
    let mut k = cs.len();
    while k > 0
        invariant
            cs@ == s@,
            k <= cs@.len(),
            out@ == start + s@.subrange(k as int, cs@.len() as int).reverse(),
        decreases k,
    {
        k -= 1;
        push_char(&mut out, cs[k]);
        assert(out@ =~= start + s@.subrange(k as int, cs@.len() as int).reverse());
    }
    assert(s@.subrange(0, cs@.len() as int) =~= s@);
    out
}

// ---------------------------------------------------------------- tables
/// The trimmed cells of a comma-separated line.
pub open spec fn cells(line: Seq<char>) -> Seq<Seq<char>> {
    split_on(line, ',').map_values(|c: Seq<char>| trim(c))
}

/// The rows of a table: `;`-separated lines of comma-separated cells (none
/// when the text is empty).
pub open spec fn table_rows(raw: Seq<char>) -> Seq<Seq<Seq<char>>> {
    if raw.len() == 0 {
        seq![]
    } else {
        split_on(raw, ';').map_values(|r: Seq<char>| cells(r))
    }
}

/// How many columns the header and rows span.
pub open spec fn ncols(hs: Seq<Seq<char>>, rows: Seq<Seq<Seq<char>>>) -> int
    decreases rows.len(),
{
    if rows.len() == 0 {
        hs.len() as int
    } else if ncols(hs, rows.drop_last()) >= rows.last().len() {
        ncols(hs, rows.drop_last())
    } else {
        rows.last().len() as int
    }
}

/// The width of column `i`: its longest cell, header included.
pub open spec fn col_width(hs: Seq<Seq<char>>, rows: Seq<Seq<Seq<char>>>, i: int) -> int
    decreases rows.len(),
{
    if rows.len() == 0 {
        if 0 <= i < hs.len() {
            hs[i].len() as int
        } else {
            0
        }
    } else {
        let prev = col_width(hs, rows.drop_last(), i);
        let here = if 0 <= i < rows.last().len() {
            rows.last()[i].len() as int
        } else {
            0
        };
        if prev >= here {
            prev
        } else {
            here
        }
    }
}

pub open spec fn widths(hs: Seq<Seq<char>>, rows: Seq<Seq<Seq<char>>>) -> Seq<int> {
    Seq::new(ncols(hs, rows) as nat, |i: int| col_width(hs, rows, i))
}

/// The dashes over a column of width `w`.
pub open spec fn dashes(w: int) -> Seq<char> {
    repeat_char('-', w) + "--"@
}

/// The inner part of a separator line: the columns' dashes joined by `+`.
pub open spec fn sep_inner(ws: Seq<int>) -> Seq<char>
    decreases ws.len(),
{
    if ws.len() == 0 {
        seq![]
    } else if ws.len() == 1 {
        dashes(ws[0])
    } else {
        sep_inner(ws.drop_last()) + "+"@ + dashes(ws.last())
    }
}

pub open spec fn sep_line(ws: Seq<int>) -> Seq<char> {
    "+"@ + sep_inner(ws) + "+"@
}

/// The cells of a row after its opening bar, each padded to its column.
pub open spec fn row_cells(ws: Seq<int>, cs: Seq<Seq<char>>) -> Seq<char>
    decreases cs.len(),
{
    if cs.len() == 0 {
        seq![]
    } else {
        let i = cs.len() - 1;
        row_cells(ws, cs.drop_last()) + " "@ + cs[i] + repeat_char(' ', ws[i] - cs[i].len()) + " |"@
    }
}

pub open spec fn row_line(ws: Seq<int>, cs: Seq<Seq<char>>) -> Seq<char> {
    "|"@ + row_cells(ws, cs)
}

/// The lines of a table, or the error for a missing header.
pub open spec fn table_spec(headers: Seq<char>, rows: Seq<char>) -> Result<Seq<Seq<char>>, Seq<char>> {
    if headers.len() == 0 {
        Err("ascii_table requires headers=\"a,b,c\""@)
    } else {
        let hs = cells(headers);
        let rs = table_rows(rows);
        let ws = widths(hs, rs);
        let sep = sep_line(ws);
        Ok(seq![sep, row_line(ws, hs), sep] + rs.map_values(|r: Seq<Seq<char>>| row_line(ws, r)) + if rs.len()
            > 0 {
            seq![sep]
        } else {
            seq![]
        })
    }
}

proof fn lemma_col_width_beyond(hs: Seq<Seq<char>>, rows: Seq<Seq<Seq<char>>>)
    ensures
        forall|j: int| j >= ncols(hs, rows) ==> #[trigger] col_width(hs, rows, j) == 0,
        ncols(hs, rows) >= 0,
    decreases rows.len(),
{
    if rows.len() > 0 {
        lemma_col_width_beyond(hs, rows.drop_last());
        assert forall|j: int| j >= ncols(hs, rows) implies #[trigger] col_width(hs, rows, j) == 0 by {
            assert(col_width(hs, rows.drop_last(), j) == 0);
        }
    }
}

proof fn lemma_widths_cover(hs: Seq<Seq<char>>, rows: Seq<Seq<Seq<char>>>)
    ensures
        ncols(hs, rows) >= hs.len(),
        forall|i: int| 0 <= i < hs.len() ==> col_width(hs, rows, i) >= #[trigger] hs[i].len(),
        forall|k: int|
            0 <= k < rows.len() ==> #[trigger] rows[k].len() <= ncols(hs, rows),
        forall|k: int, i: int|
            0 <= k < rows.len() && 0 <= i < rows[k].len() ==> col_width(hs, rows, i)
                >= #[trigger] rows[k][i].len(),
    decreases rows.len(),
{
    if rows.len() > 0 {
        let p = rows.drop_last();
        lemma_widths_cover(hs, p);
        assert forall|k: int, i: int|
            0 <= k < rows.len() && 0 <= i < rows[k].len() implies col_width(hs, rows, i)
            >= #[trigger] rows[k][i].len() by {
            if k < rows.len() - 1 {
                assert(rows[k] == p[k]);
            }
        }
        assert forall|k: int| 0 <= k < rows.len() implies #[trigger] rows[k].len() <= ncols(hs, rows) by {
            if k < rows.len() - 1 {
                assert(rows[k] == p[k]);
            }
        }
    }
}

proof fn lemma_row_and_rule(ws: Seq<int>, cs: Seq<Seq<char>>, k: int)
    requires
        1 <= k <= ws.len(),
        cs.len() == ws.len(),
        forall|i: int| 0 <= i < cs.len() ==> #[trigger] cs[i].len() <= ws[i],
    ensures
        row_cells(ws, cs.take(k)).len() == sep_inner(ws.take(k)).len() + 1,
    decreases k,
{
    reveal_strlit(" ");
    reveal_strlit(" |");
    reveal_strlit("--");
    reveal_strlit("+");
    let c = cs.take(k);
    let w = ws.take(k);
    assert(c.drop_last() =~= cs.take(k - 1));
    assert(w.drop_last() =~= ws.take(k - 1));
    assert(c[k - 1] == cs[k - 1] && w[k - 1] == ws[k - 1]);
    let cell = cs[k - 1];
    let wd = ws[k - 1];
    assert(cell.len() <= wd);
    assert(repeat_char(' ', wd - cell.len()).len() == wd - cell.len());
    assert(repeat_char('-', wd).len() == wd);
    assert(dashes(wd).len() == wd + 2);
    assert(row_cells(ws, c).len() == row_cells(ws, cs.take(k - 1)).len() + wd + 3);
    if k > 1 {
        lemma_row_and_rule(ws, cs, k - 1);
        assert(sep_inner(w).len() == sep_inner(ws.take(k - 1)).len() + 1 + wd + 2);
    } else {
        assert(cs.take(0) =~= Seq::<Seq<char>>::empty());
        assert(sep_inner(w) == dashes(wd));
    }
}

/// A table row with a cell for every column is exactly as wide as the
/// separator lines: each cell is padded to its column's width, so the bars
/// of the row stand under the `+` of the separators.
pub proof fn law_table_rows_align(ws: Seq<int>, cs: Seq<Seq<char>>)
    requires
        ws.len() >= 1,
        cs.len() == ws.len(),
        forall|i: int| 0 <= i < cs.len() ==> #[trigger] cs[i].len() <= ws[i],
    ensures
        row_line(ws, cs).len() == sep_line(ws).len(),
{
    lemma_row_and_rule(ws, cs, ws.len() as int);
    assert(cs.take(cs.len() as int) =~= cs);
    assert(ws.take(ws.len() as int) =~= ws);
    reveal_strlit("|");
    reveal_strlit("+");
}

/// The trimmed cells of `line`.
fn cells_exec(line: &str) -> (r: Vec<String>)
    ensures
        strings_view(r@) == cells(line@),
{
    let parts = split_on_char(line, ',');
    let mut out: Vec<String> = Vec::new();
    let mut k: usize = 0;
    while k < parts.len()
        invariant
            strings_view(parts@) == split_on(line@, ','),
            k <= parts@.len(),
            strings_view(out@) == cells(line@).take(k as int),
        decreases parts@.len() - k,
    {
        let cs = str_chars(parts[k].as_str());
        let n = cs.len();
        let t = trim_range(&cs, 0, n);
        assert(cs@.subrange(0, n as int) =~= cs@);
        let ghost prev = strings_view(out@);
        out.push(t);
        assert(strings_view(out@) =~= prev.push(t@));
        k += 1;
        assert(strings_view(out@) =~= cells(line@).take(k as int));
    }
    assert(cells(line@).take(k as int) =~= cells(line@));
    out
}

fn rows_exec(raw: &str) -> (r: Vec<Vec<String>>)
    ensures
        r@.map_values(|v: Vec<String>| strings_view(v@)) == table_rows(raw@),
{
    let mut out: Vec<Vec<String>> = Vec::new();
    if raw.unicode_len() == 0 {
        assert(out@.map_values(|v: Vec<String>| strings_view(v@)) =~= table_rows(raw@));
        return out;
    }
    let lines = split_on_char(raw, ';');
    let mut k: usize = 0;
    while k < lines.len()
        invariant
            raw@.len() > 0,
            strings_view(lines@) == split_on(raw@, ';'),
            k <= lines@.len(),
            out@.map_values(|v: Vec<String>| strings_view(v@)) == table_rows(raw@).take(k as int),
        decreases lines@.len() - k,
    {
        let row = cells_exec(lines[k].as_str());
        let ghost prev = out@.map_values(|v: Vec<String>| strings_view(v@));
        out.push(row);
        assert(out@.map_values(|v: Vec<String>| strings_view(v@)) =~= prev.push(strings_view(row@)));
        k += 1;
        assert(out@.map_values(|v: Vec<String>| strings_view(v@)) =~= table_rows(raw@).take(k as int));
    }
    assert(table_rows(raw@).take(k as int) =~= table_rows(raw@));
    out
}

fn sep_exec(ws: &Vec<usize>) -> (r: String)
    ensures
        r@ == sep_line(ws@.map_values(|w: usize| w as int)),
{
    let ghost wv = ws@.map_values(|w: usize| w as int);
    let mut s = String::from_str("+");
    let mut k: usize = 0;
    while k < ws.len()
        invariant
            wv == ws@.map_values(|w: usize| w as int),
            k <= ws@.len(),
            s@ == "+"@ + sep_inner(wv.take(k as int)),
        decreases ws@.len() - k,
    {
        if k > 0 {
            s.append("+");
        }
        push_repeat(&mut s, '-', ws[k]);
        s.append("--");
        proof {
            assert(wv.take(k + 1).drop_last() =~= wv.take(k as int));
            if k == 0 {
                assert(wv.take(0) =~= Seq::<int>::empty());
            }
        }
        k += 1;
        assert(s@ =~= "+"@ + sep_inner(wv.take(k as int)));
    }
    assert(wv.take(k as int) =~= wv);
    s.append("+");
    s
}

fn row_exec(ws: &Vec<usize>, cs: &Vec<String>) -> (r: String)
    requires
        cs@.len() <= ws@.len(),
        forall|i: int| 0 <= i < cs@.len() ==> #[trigger] cs@[i]@.len() <= ws@[i],
    ensures
        r@ == row_line(ws@.map_values(|w: usize| w as int), strings_view(cs@)),
{
    let ghost wv = ws@.map_values(|w: usize| w as int);
    let ghost cv = strings_view(cs@);
    let mut s = String::from_str("|");
    let mut k: usize = 0;
    while k < cs.len()
        invariant
            wv == ws@.map_values(|w: usize| w as int),
            cv == strings_view(cs@),
            cs@.len() <= ws@.len(),
            forall|i: int| 0 <= i < cs@.len() ==> #[trigger] cs@[i]@.len() <= ws@[i],
            k <= cs@.len(),
            s@ == "|"@ + row_cells(wv, cv.take(k as int)),
        decreases cs@.len() - k,
    {
        let cell = &cs[k];
        let n = cell.unicode_len();
        assert(cs@[k as int]@.len() <= ws@[k as int]);
        s.append(" ");
        s.append(cell.as_str());
        push_repeat(&mut s, ' ', ws[k] - n);
        s.append(" |");
        proof {
            assert(cv.take(k + 1).drop_last() =~= cv.take(k as int));
        }
        k += 1;
        assert(s@ =~= "|"@ + row_cells(wv, cv.take(k as int)));
    }
    assert(cv.take(k as int) =~= cv);
    s
}

/// The lines of a table whose header cells are the comma-separated
/// `headers` and whose rows are the `;`-separated lines of `rows`; every
/// column is as wide as its widest cell.
pub fn table(headers: &str, rows: &str) -> (r: Result<Vec<String>, String>)
    ensures
        match (r, table_spec(headers@, rows@)) {
            (Ok(ls), Ok(want)) => strings_view(ls@) == want,
            (Err(m), Err(want)) => m@ == want,
            _ => false,
        },
{
    if headers.unicode_len() == 0 {
        return Err(String::from_str("ascii_table requires headers=\"a,b,c\""));
    }
    let hs = cells_exec(headers);
    let rs = rows_exec(rows);
    let ghost hv = strings_view(hs@);
    let ghost rv = rs@.map_values(|v: Vec<String>| strings_view(v@));
    // column widths
    let mut ws: Vec<usize> = Vec::new();
    let mut i: usize = 0;
    while i < hs.len()
        invariant
            hv == strings_view(hs@),
            i <= hs@.len(),
            ws@.len() == i,
            forall|j: int| 0 <= j < i ==> #[trigger] ws@[j] as int == hv[j].len(),
        decreases hs@.len() - i,
    {
        ws.push(hs[i].unicode_len());
        i += 1;
    }
    let mut k: usize = 0;
    assert(rv.take(0) =~= Seq::<Seq<Seq<char>>>::empty());
    while k < rs.len()
        invariant
            hv == strings_view(hs@),
            rv == rs@.map_values(|v: Vec<String>| strings_view(v@)),
            k <= rs@.len(),
            ws@.len() == ncols(hv, rv.take(k as int)),
            forall|j: int| 0 <= j < ws@.len() ==> #[trigger] ws@[j] as int == col_width(hv, rv.take(k as int), j),
        decreases rs@.len() - k,
    {
        let row = &rs[k];
        let ghost old_ws = ws@;
        let ghost rowv = rv[k as int];
        assert(rowv == strings_view(row@));
        let mut i: usize = 0;
        while i < row.len()
            invariant
                rowv == strings_view(row@),
                i <= row@.len(),
                ws@.len() == if old_ws.len() >= i {
                    old_ws.len()
                } else {
                    i as nat
                },
                forall|j: int|
                    0 <= j < ws@.len() ==> #[trigger] ws@[j] as int == if j < i {
                        let prev = if j < old_ws.len() {
                            old_ws[j] as int
                        } else {
                            0
                        };
                        if prev >= rowv[j].len() {
                            prev
                        } else {
                            rowv[j].len() as int
                        }
                    } else {
                        old_ws[j] as int
                    },
            decreases row@.len() - i,
        {
            let n = row[i].unicode_len();
            if i >= ws.len() {
                ws.push(n);
            } else if n > ws[i] {
                ws.set(i, n);
            }
            i += 1;
        }
        proof {
            let t = rv.take(k + 1);
            let p = rv.take(k as int);
            assert(t.drop_last() =~= p);
            assert(t.last() == rowv);
            lemma_col_width_beyond(hv, p);
            assert forall|j: int| 0 <= j < ws@.len() implies #[trigger] ws@[j] as int == col_width(hv, t, j) by {
                if j >= old_ws.len() {
                    assert(col_width(hv, p, j) == 0);
                }
            }
        }
        k += 1;
    }
    assert(rv.take(k as int) =~= rv);
    let ghost wv = ws@.map_values(|w: usize| w as int);
    assert(wv =~= widths(hv, rv));
    proof {
        lemma_widths_cover(hv, rv);
    }
    let sep = sep_exec(&ws);
    let mut out: Vec<String> = Vec::new();
    out.push(sep.clone());
    proof {
        assert forall|i: int| 0 <= i < hs@.len() implies #[trigger] hs@[i]@.len() <= ws@[i] by {
            assert(hv[i] == hs@[i]@);
            assert(wv[i] == ws@[i] as int);
            assert(widths(hv, rv)[i] == col_width(hv, rv, i));
        }
    }
    out.push(row_exec(&ws, &hs));
    out.push(sep.clone());
    let mut k: usize = 0;
    while k < rs.len()
        invariant
            hv == strings_view(hs@),
            rv == rs@.map_values(|v: Vec<String>| strings_view(v@)),
            wv == ws@.map_values(|w: usize| w as int),
            wv == widths(hv, rv),
            ws@.len() == ncols(hv, rv),
            forall|q: int| 0 <= q < rv.len() ==> #[trigger] rv[q].len() <= ncols(hv, rv),
            forall|q: int, j: int|
                0 <= q < rv.len() && 0 <= j < rv[q].len() ==> col_width(hv, rv, j)
                    >= #[trigger] rv[q][j].len(),
            k <= rs@.len(),
            strings_view(out@) == seq![sep@, row_line(wv, hv), sep@] + rv.take(k as int).map_values(
                |r: Seq<Seq<char>>| row_line(wv, r),
            ),
        decreases rs@.len() - k,
    {
        let ghost prev = strings_view(out@);
        proof {
            assert(rv[k as int] == strings_view(rs@[k as int]@));
            assert forall|j: int| 0 <= j < rs@[k as int]@.len() implies #[trigger] rs@[k as int]@[j]@.len()
                <= ws@[j] by {
                assert(rv[k as int][j] == rs@[k as int]@[j]@);
                assert(wv[j] == ws@[j] as int);
                assert(widths(hv, rv)[j] == col_width(hv, rv, j));
            }
        }
        let line = row_exec(&ws, &rs[k]);
        out.push(line);
        assert(strings_view(out@) =~= prev.push(line@));
        k += 1;
        assert(rv.take(k as int).map_values(|r: Seq<Seq<char>>| row_line(wv, r)) =~= rv.take(
            k - 1,
        ).map_values(|r: Seq<Seq<char>>| row_line(wv, r)).push(row_line(wv, rv[k - 1])));
    }
    assert(rv.take(k as int) =~= rv);
    if rs.len() > 0 {
        let ghost prev = strings_view(out@);
        out.push(sep);
        assert(strings_view(out@) =~= prev.push(sep@));
    }
    proof {
        assert(sep@ == sep_line(widths(hv, rv)));
        assert(hv == cells(headers@));
        assert(rv == table_rows(rows@));
        assert(strings_view(out@) =~= table_spec(headers@, rows@)->Ok_0);
    }
    Ok(out)
}

} // verus!
