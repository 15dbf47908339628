//! Errors raised while running a script, and the rustc-style rendering of
//! lex, parse and runtime errors: a header, the location, a window of source
//! lines around the failing one with a caret under the failing column, and a
//! one-line trailer.
use vstd::prelude::*;

use crate::numfmt::{dec, dec_signed, i64_to_dec, pad_left, push_repeat, repeat_char, u64_padded, u64_to_dec};
use crate::text::{join_range, join_spec, lines_of, push_char, split_lines, str_chars, strings_view};

verus! {

/// An error raised while running a script: a status code, the 1-based line
/// (0 when unknown) and a message.
pub struct RuntimeError {
    pub code: i64,
    pub line: usize,
    pub message: String,
}

impl RuntimeError {
    pub fn new(code: i64, line: usize, message: &str) -> (r: Self)
        ensures
            r.code == code,
            r.line == line,
            r.message@ == message@,
    {
        RuntimeError { code, line, message: String::from_str(message) }
    }
}

// ---------------------------------------------------------------- colours
/// Escape that starts the red, bold error colour (empty without colour).
pub open spec fn red(color: bool) -> Seq<char> {
    if color {
        "\x1b[31;1m"@
    } else {
        ""@
    }
}

pub open spec fn bold(color: bool) -> Seq<char> {
    if color {
        "\x1b[1m"@
    } else {
        ""@
    }
}

pub open spec fn dim(color: bool) -> Seq<char> {
    if color {
        "\x1b[2m"@
    } else {
        ""@
    }
}

pub open spec fn reset(color: bool) -> Seq<char> {
    if color {
        "\x1b[0m"@
    } else {
        ""@
    }
}

fn red_code(color: bool) -> (r: &'static str)
    ensures
        r@ == red(color),
{
    if color {
        "\x1b[31;1m"
    } else {
        ""
    }
}

fn bold_code(color: bool) -> (r: &'static str)
    ensures
        r@ == bold(color),
{
    if color {
        "\x1b[1m"
    } else {
        ""
    }
}

fn dim_code(color: bool) -> (r: &'static str)
    ensures
        r@ == dim(color),
{
    if color {
        "\x1b[2m"
    } else {
        ""
    }
}

fn reset_code(color: bool) -> (r: &'static str)
    ensures
        r@ == reset(color),
{
    if color {
        "\x1b[0m"
    } else {
        ""
    }
}

// ---------------------------------------------------------------- rendering
/// An empty gutter: `width` spaces and a bar.
pub open spec fn gutter(width: int, color: bool) -> Seq<char> {
    dim(color) + repeat_char(' ', width) + " |"@ + reset(color)
}

/// A numbered source line; the failing line carries a `>` marker and is
/// drawn in the error colour.
pub open spec fn numbered(n: nat, width: int, failing: bool, txt: Seq<char>, color: bool) -> Seq<
    char,
> {
    dim(color) + pad_left(dec(n), width, ' ') + " |"@ + reset(color) + if failing {
        " > "@ + red(color) + txt + reset(color)
    } else {
        "   "@ + txt
    }
}

/// The indentation under the first `k` characters of `txt`: tabs stay tabs,
/// everything else (and anything past the end of the line) becomes a space.
pub open spec fn caret_pad(txt: Seq<char>, k: int) -> Seq<char> {
    Seq::new(
        if k < 0 {
            0
        } else {
            k as nat
        },
        |j: int|
            if j < txt.len() && txt[j] == '\t' {
                '\t'
            } else {
                ' '
            },
    )
}

/// The line under the failing line that puts a `^` under column `col`.
pub open spec fn caret_line(width: int, txt: Seq<char>, col: nat, color: bool) -> Seq<char> {
    gutter(width, color) + "   "@ + caret_pad(txt, col - 1) + red(color) + "^"@ + reset(color)
}

/// The caret points at the failing column: without colour, the line under
/// a failing source line puts its `^` exactly below the `col`-th character
/// of the source text, and keeps each tab before it as a tab so that the two
/// lines stay aligned in a terminal.
pub proof fn law_caret_under_column(n: nat, width: int, txt: Seq<char>, col: nat)
    requires
        dec(n).len() <= width,
        1 <= col <= txt.len(),
    ensures
        ({
            let num = numbered(n, width, true, txt, false);
            let car = caret_line(width, txt, col, false);
            let at = width + 4 + col;
            &&& num.len() == width + 5 + txt.len()
            &&& num[at] == txt[col - 1]
            &&& car.len() == at + 1
            &&& car[at] == '^'
            &&& forall|j: int| 0 <= j < col - 1 ==> (#[trigger] car[width + 5 + j] == '\t' <==> txt[j] == '\t')
        }),
{
    reveal_strlit("");
    reveal_strlit(" |");
    reveal_strlit(" > ");
    reveal_strlit("   ");
    reveal_strlit("^");
    let num = numbered(n, width, true, txt, false);
    let car = caret_line(width, txt, col, false);
    let pad = pad_left(dec(n), width, ' ');
    assert(pad.len() == width);
    assert(num =~= pad + " |"@ + " > "@ + txt);
    assert(car =~= repeat_char(' ', width) + " |"@ + "   "@ + caret_pad(txt, col - 1) + "^"@);
}

/// Source lines `n..=hi` of the window around `line`.
pub open spec fn window(
    lines: Seq<Seq<char>>,
    n: int,
    hi: int,
    line: nat,
    col: nat,
    width: int,
    color: bool,
) -> Seq<Seq<char>>
    decreases hi - n + 1,
{
    if n > hi {
        seq![]
    } else if n < 1 || n > lines.len() {
        window(lines, n + 1, hi, line, col, width, color)
    } else {
        let txt = lines[n - 1];
        let entry = if n == line {
            seq![numbered(n as nat, width, true, txt, color)] + if col > 0 {
                seq![caret_line(width, txt, col, color)]
            } else {
                seq![]
            }
        } else {
            seq![numbered(n as nat, width, false, txt, color)]
        };
        entry + window(lines, n + 1, hi, line, col, width, color)
    }
}

/// First line of the window: two lines before the failing one, but not
/// before line 1.
pub open spec fn window_lo(line: nat) -> int {
    if line >= 3 {
        line - 2
    } else {
        1
    }
}

/// Last line of the window: the line after the failing one, but not past
/// the end of the source.
pub open spec fn window_hi(line: nat, nlines: nat) -> int {
    if line + 1 <= nlines {
        (line + 1) as int
    } else {
        nlines as int
    }
}

/// The header line: code and message.
pub open spec fn header_spec(code: int, message: Seq<char>, color: bool) -> Seq<char> {
    red(color) + "error["@ + dec_signed(code) + "]"@ + reset(color) + ": "@ + bold(color) + message
        + reset(color)
}

/// The location line: `path:line`, with `:col` when a column is known.
pub open spec fn location_spec(path: Seq<char>, line: nat, col: nat, color: bool) -> Seq<char> {
    dim(color) + "  --> "@ + reset(color) + path + ":"@ + dec(line) + if col > 0 {
        ":"@ + dec(col)
    } else {
        seq![]
    }
}

/// The source window around `line`, framed by empty gutters whose width is
/// that of the largest line number shown.
pub open spec fn window_block(src: Seq<char>, line: nat, col: nat, color: bool) -> Seq<Seq<char>> {
    let ls = lines_of(src);
    let hi = window_hi(line, ls.len());
    let width = dec(hi as nat).len() as int;
    seq![gutter(width, color)] + window(ls, window_lo(line), hi, line, col, width, color) + seq![
        gutter(width, color),
    ]
}

/// The trailer line.
pub open spec fn trailer_spec(stage: Seq<char>, code: int, line: nat, color: bool) -> Seq<char> {
    dim(color) + "// "@ + stage + " error "@ + dec_signed(code) + " string "@ + dec(line) + reset(
        color,
    )
}

/// The lines of a rendered diagnostic.
pub open spec fn render_lines(
    stage: Seq<char>,
    code: int,
    path: Seq<char>,
    line: nat,
    col: nat,
    message: Seq<char>,
    source: Option<Seq<char>>,
    color: bool,
) -> Seq<Seq<char>> {
    let body = if line > 0 {
        match source {
            None => seq![location_spec(path, line, col, color)],
            Some(src) => seq![location_spec(path, line, col, color)] + window_block(
                src,
                line,
                col,
                color,
            ),
        }
    } else {
        seq![dim(color) + "  --> "@ + reset(color) + path]
    };
    seq![header_spec(code, message, color)] + body + seq![trailer_spec(stage, code, line, color)]
}

/// The whole diagnostic: its lines joined by `\n`, with no final newline.
pub open spec fn render_spec(
    stage: Seq<char>,
    code: int,
    path: Seq<char>,
    line: nat,
    col: nat,
    message: Seq<char>,
    source: Option<Seq<char>>,
    color: bool,
) -> Seq<char> {
    join_spec(render_lines(stage, code, path, line, col, message, source, color), '\n')
}

fn gutter_line(width: usize, color: bool) -> (r: String)
    ensures
        r@ == gutter(width as int, color),
{
    let mut s = String::from_str(dim_code(color));
    push_repeat(&mut s, ' ', width);
    s.append(" |");
    s.append(reset_code(color));
    s
}

fn numbered_line(n: usize, width: usize, failing: bool, txt: &String, color: bool) -> (r: String)
    ensures
        r@ == numbered(n as nat, width as int, failing, txt@, color),
{
    let mut s = String::from_str(dim_code(color));
    let num = u64_padded(n as u64, width, ' ');
    s.append(num.as_str());
    s.append(" |");
    s.append(reset_code(color));
    if failing {
        s.append(" > ");
        s.append(red_code(color));
        s.append(txt.as_str());
        s.append(reset_code(color));
    } else {
        s.append("   ");
        s.append(txt.as_str());
    }
    s
}

fn caret_text(width: usize, txt: &String, col: usize, color: bool) -> (r: String)
    requires
        col > 0,
    ensures
        r@ == caret_line(width as int, txt@, col as nat, color),
{
    let mut s = gutter_line(width, color);
    s.append("   ");
    let cs = str_chars(txt.as_str());
    let ghost start = s@;
    let mut k: usize = 0;
    while k < col - 1
        invariant
            k <= col - 1,
            cs@ == txt@,
            s@ == start + caret_pad(txt@, k as int),
        decreases col - 1 - k,
    {
        if k < cs.len() && cs[k] == '\t' {
            push_char(&mut s, '\t');
        } else {
            push_char(&mut s, ' ');
        }
        k += 1;
        assert(s@ =~= start + caret_pad(txt@, k as int));
    }
    s.append(red_code(color));
    s.append("^");
    s.append(reset_code(color));
    s
}

fn header_text(code: i64, message: &str, color: bool) -> (r: String)
    ensures
        r@ == header_spec(code as int, message@, color),
{
    let mut header = String::from_str(red_code(color));
    header.append("error[");
    let code_txt = i64_to_dec(code);
    header.append(code_txt.as_str());
    header.append("]");
    header.append(reset_code(color));
    header.append(": ");
    header.append(bold_code(color));
    header.append(message);
    header.append(reset_code(color));
    header
}

fn location_text(path: &str, line: usize, col: usize, color: bool) -> (r: String)
    ensures
        r@ == location_spec(path@, line as nat, col as nat, color),
{
    let mut loc = String::from_str(dim_code(color));
    loc.append("  --> ");
    loc.append(reset_code(color));
    loc.append(path);
    loc.append(":");
    let line_txt = u64_to_dec(line as u64);
    loc.append(line_txt.as_str());
    let ghost head = loc@;
    if col > 0 {
        loc.append(":");
        let col_txt = u64_to_dec(col as u64);
        loc.append(col_txt.as_str());
        assert(loc@ =~= head + (":"@ + dec(col as nat)));
    } else {
        assert(loc@ =~= head + Seq::<char>::empty());
    }
    loc
}

fn trailer_text(stage: &str, code: i64, line: usize, color: bool) -> (r: String)
    ensures
        r@ == trailer_spec(stage@, code as int, line as nat, color),
{
    let mut trailer = String::from_str(dim_code(color));
    trailer.append("// ");
    trailer.append(stage);
    trailer.append(" error ");
    let code_txt = i64_to_dec(code);
    trailer.append(code_txt.as_str());
    trailer.append(" string ");
    let line_txt = u64_to_dec(line as u64);
    trailer.append(line_txt.as_str());
    trailer.append(reset_code(color));
    trailer
}

/// Appends the lines of the source window to `out`.
fn push_window(out: &mut Vec<String>, src: &str, line: usize, col: usize, color: bool)
    ensures
        strings_view(final(out)@) == strings_view(old(out)@) + window_block(src@, line as nat, col as nat, color),
{
    let ls = split_lines(src);
    let ghost lsv = strings_view(ls@);
    let nl = ls.len();
    let lo: usize = if line >= 3 {
        line - 2
    } else {
        1
    };
    let hi: usize = if line < nl {
        line + 1
    } else {
        nl
    };
    let width = u64_to_dec(hi as u64).unicode_len();
    let ghost w = |k: int| window(lsv, k, hi as int, line as nat, col as nat, width as int, color);
    let ghost start = strings_view(out@);
    out.push(gutter_line(width, color));
    let ghost base = strings_view(out@);
    if lo <= hi {
        let mut n = lo;
        loop
            invariant_except_break
                strings_view(out@) + w(n as int) == base + w(lo as int),
            invariant
                1 <= lo <= n <= hi <= nl,
                nl == ls@.len(),
                lsv == strings_view(ls@),
                w == (|k: int| window(lsv, k, hi as int, line as nat, col as nat, width as int, color)),
            ensures
                strings_view(out@) == base + w(lo as int),
            decreases hi - n,
        {
            let ghost before = strings_view(out@);
            let txt = &ls[n - 1];
            if n == line {
                out.push(numbered_line(n, width, true, txt, color));
                if col > 0 {
                    out.push(caret_text(width, txt, col, color));
                }
            } else {
                out.push(numbered_line(n, width, false, txt, color));
            }
            assert(strings_view(out@) + w(n + 1) =~= before + w(n as int));
            if n == hi {
                assert(w(n + 1) =~= Seq::<Seq<char>>::empty());
                assert(strings_view(out@) =~= strings_view(out@) + w(n + 1));
                break;
            }
            n += 1;
        }
    } else {
        assert(w(lo as int) =~= Seq::<Seq<char>>::empty());
        assert(base + w(lo as int) =~= base);
    }
    let ghost mid = strings_view(out@);
    out.push(gutter_line(width, color));
    proof {
        assert(lsv == lines_of(src@));
        assert(strings_view(out@) =~= mid.push(gutter(width as int, color)));
        assert(window_block(src@, line as nat, col as nat, color) =~= seq![gutter(width as int, color)] + w(
            lo as int,
        ) + seq![gutter(width as int, color)]);
        assert(strings_view(out@) =~= start + window_block(src@, line as nat, col as nat, color));
    }
}

/// Renders a diagnostic exactly as `render_spec` describes, e.g.
///
/// ```text
/// error[3]: unexpected end of expression
///   --> <test>:1:8
///   |
/// 1 | > x = 1 +
///   |          ^
///   |
/// // lex error 3 string 1
/// ```
///
/// `line` 0 means no location; `col` 0 means no caret. Colour escapes are
/// added only when `color` is set.
pub fn render_pretty(
    stage: &str,
    code: i64,
    path: &str,
    line: usize,
    col: usize,
    message: &str,
    source: Option<&str>,
    color: bool,
) -> (r: String)
    ensures
        r@ == render_spec(
            stage@,
            code as int,
            path@,
            line as nat,
            col as nat,
            message@,
            match source {
                Some(s) => Some(s@),
                None => None,
            },
            color,
        ),
{
    let ghost src_view = match source {
        Some(s) => Some(s@),
        None => None::<Seq<char>>,
    };
    let ghost want = render_lines(stage@, code as int, path@, line as nat, col as nat, message@, src_view, color);
    let mut out: Vec<String> = Vec::new();
    out.push(header_text(code, message, color));
    let ghost hdr = strings_view(out@);
    let ghost body = if line > 0 {
        match src_view {
            None => seq![location_spec(path@, line as nat, col as nat, color)],
            Some(sv) => seq![location_spec(path@, line as nat, col as nat, color)] + window_block(
                sv,
                line as nat,
                col as nat,
                color,
            ),
        }
    } else {
        seq![dim(color) + "  --> "@ + reset(color) + path@]
    };
    if line > 0 {
        out.push(location_text(path, line, col, color));
        let ghost with_loc = strings_view(out@);
        match source {
            None => {
                assert(strings_view(out@) =~= hdr + body);
            },
            Some(src) => {
                push_window(&mut out, src, line, col, color);
                assert(strings_view(out@) =~= hdr + body);
            },
        }
    } else {
        let mut loc = String::from_str(dim_code(color));
        loc.append("  --> ");
        loc.append(reset_code(color));
        loc.append(path);
        out.push(loc);
        assert(strings_view(out@) =~= hdr + body);
    }
    let ghost mid = strings_view(out@);
    out.push(trailer_text(stage, code, line, color));
    assert(strings_view(out@) =~= mid.push(trailer_spec(stage@, code as int, line as nat, color)));
    assert(want =~= hdr + body + seq![trailer_spec(stage@, code as int, line as nat, color)]);
    assert(strings_view(out@) =~= want);
    let total = out.len();
    let r = join_range(&out, 0, total, '\n');
    assert(strings_view(out@).subrange(0, total as int) =~= strings_view(out@));
    r
}

} // verus!
