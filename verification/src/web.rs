//! Text that the browser commands hand to a WebDriver or a shell: element
//! locators, XPath string literals, key codes and quoted shell words.
use vstd::prelude::*;

use crate::text::{ascii_lower, push_char, str_chars, str_eq, to_ascii_lower};

verus! {

/// `s` with every `c` replaced by `rep`.
pub open spec fn replace_char(s: Seq<char>, c: char, rep: Seq<char>) -> Seq<char>
    decreases s.len(),
{
    if s.len() == 0 {
        seq![]
    } else {
        replace_char(s.drop_last(), c, rep) + if s.last() == c {
            rep
        } else {
            seq![s.last()]
        }
    }
}

/// Appends `s` with every `c` replaced by `rep`.
fn push_replaced(out: &mut String, s: &str, c: char, rep: &str)
    ensures
        final(out)@ == old(out)@ + replace_char(s@, c, rep@),
{
    let cs = str_chars(s);
    let ghost start = out@;
    let mut k: usize = 0;
    while k < cs.len()
        invariant
            cs@ == s@,
            k <= cs@.len(),
            out@ == start + replace_char(s@.take(k as int), c, rep@),
        decreases cs@.len() - k,
    {
        let ghost prev = out@;
        if cs[k] == c {
            out.append(rep);
        } else {
            push_char(out, cs[k]);
        }
        proof {
            assert(s@.take(k + 1).drop_last() =~= s@.take(k as int));
            assert(out@ =~= start + replace_char(s@.take(k + 1), c, rep@));
        }
        k += 1;
    }
    assert(s@.take(k as int) =~= s@);
}

/// Whether `c` occurs in `s`.
pub open spec fn has_char(s: Seq<char>, c: char) -> bool {
    exists|i: int| 0 <= i < s.len() && s[i] == c
}

fn contains_char(s: &str, c: char) -> (r: bool)
    ensures
        r == has_char(s@, c),
{
    let cs = str_chars(s);
    let mut k: usize = 0;
    while k < cs.len()
        invariant
            cs@ == s@,
            k <= cs@.len(),
            forall|j: int| 0 <= j < k ==> s@[j] != c,
        decreases cs@.len() - k,
    {
        if cs[k] == c {
            return true;
        }
        k += 1;
    }
    false
}

/// An XPath string literal for `s`: single-quoted, else double-quoted, and
/// when `s` holds both quote kinds, a `concat(...)` of single-quoted pieces
/// with `"'"` between them.
pub open spec fn xpath_literal(s: Seq<char>) -> Seq<char> {
    if !has_char(s, '\'') {
        "'"@ + s + "'"@
    } else if !has_char(s, '"') {
        "\""@ + s + "\""@
    } else {
        "concat('"@ + replace_char(s, '\'', "', \"'\", '"@) + "')"@
    }
}

/// Quotes `s` as an XPath string literal.
pub fn xpath_escape(s: &str) -> (r: String)
    ensures
        r@ == xpath_literal(s@),
{
    if !contains_char(s, '\'') {
        let mut r = String::from_str("'");
        r.append(s);
        r.append("'");
        r
    } else if !contains_char(s, '"') {
        let mut r = String::from_str("\"");
        r.append(s);
        r.append("\"");
        r
    } else {
        let mut r = String::from_str("concat('");
        push_replaced(&mut r, s, '\'', "', \"'\", '");
        r.append("')");
        r
    }
}

/// `s` as one POSIX shell word: single-quoted, each `'` written `'\''`.
pub open spec fn shell_word(s: Seq<char>) -> Seq<char> {
    "'"@ + replace_char(s, '\'', "'\\''"@) + "'"@
}

pub fn shell_quote(s: &str) -> (r: String)
    ensures
        r@ == shell_word(s@),
{
    let mut r = String::from_str("'");
    push_replaced(&mut r, s, '\'', "'\\''");
    r.append("'");
    r
}

/// The shell command that downloads `url` to `path`.
pub fn download_command(url: &str, path: &str) -> (r: String)
    ensures
        r@ == "curl -L -o "@ + shell_word(path@) + " "@ + shell_word(url@),
{
    let mut r = String::from_str("curl -L -o ");
    let p = shell_quote(path);
    r.append(p.as_str());
    r.append(" ");
    let u = shell_quote(url);
    r.append(u.as_str());
    r
}

/// The CSS selector that matches an element by id or by name.
pub open spec fn id_or_name(s: Seq<char>) -> Seq<char> {
    let e = replace_char(s, '\'', "\\'"@);
    "[id='"@ + e + "'],[name='"@ + e + "']"@
}

/// The locator strategy and value for an element reference: XPath when it
/// starts with `/`; a CSS selector as given when it starts with `#` or `.`
/// or holds a space or `[`; otherwise a CSS selector matching the id or the
/// name.
pub open spec fn locator_spec(s: Seq<char>) -> (Seq<char>, Seq<char>) {
    if s.len() > 0 && s[0] == '/' {
        ("xpath"@, s)
    } else if (s.len() > 0 && (s[0] == '#' || s[0] == '.')) || has_char(s, ' ') || has_char(s, '[') {
        ("css selector"@, s)
    } else {
        ("css selector"@, id_or_name(s))
    }
}

pub fn guess_locator(s: &str) -> (r: (&'static str, String))
    ensures
        (r.0@, r.1@) == locator_spec(s@),
{
    let cs = str_chars(s);
    let first_is = |c: char| -> (b: bool)
        ensures
            b == (s@.len() > 0 && s@[0] == c),
        { cs.len() > 0 && cs[0] == c };
    if first_is('/') {
        ("xpath", String::from_str(s))
    } else if first_is('#') || first_is('.') || contains_char(s, ' ') || contains_char(s, '[') {
        ("css selector", String::from_str(s))
    } else {
        let mut e = String::new();
        push_replaced(&mut e, s, '\'', "\\'");
        let mut r = String::from_str("[id='");
        r.append(e.as_str());
        r.append("'],[name='");
        r.append(e.as_str());
        r.append("']");
        ("css selector", r)
    }
}

/// The XPath that finds a clickable control by its visible text or label.
pub open spec fn button_xpath_spec(label: Seq<char>) -> Seq<char> {
    let lit = xpath_literal(label);
    "//button[normalize-space()="@ + lit
        + "] | //input[(@type='submit' or @type='button') and (@value="@ + lit + " or @aria-label="@
        + lit + ")] | //*[@role='button' and (normalize-space()="@ + lit + " or @aria-label="@ + lit
        + ")] | //a[normalize-space()="@ + lit + "]"@
}

/// Matches `<button>label</button>`, submit and button inputs by value or
/// aria-label, elements with the button role, and links.
pub fn button_xpath(label: &str) -> (r: String)
    ensures
        r@ == button_xpath_spec(label@),
{
    let lit = xpath_escape(label);
    let l = lit.as_str();
    let mut r = String::from_str("//button[normalize-space()=");
    r.append(l);
    r.append("] | //input[(@type='submit' or @type='button') and (@value=");
    r.append(l);
    r.append(" or @aria-label=");
    r.append(l);
    r.append(")] | //*[@role='button' and (normalize-space()=");
    r.append(l);
    r.append(" or @aria-label=");
    r.append(l);
    r.append(")] | //a[normalize-space()=");
    r.append(l);
    r.append("]");
    r
}

/// The W3C WebDriver key code of a key name, in lowercase.
pub open spec fn key_code(name: Seq<char>) -> Option<Seq<char>> {
    if name == "enter"@ || name == "return"@ {
        Some("\u{E007}"@)
    } else if name == "tab"@ {
        Some("\u{E004}"@)
    } else if name == "escape"@ || name == "esc"@ {
        Some("\u{E00C}"@)
    } else if name == "space"@ {
        Some("\u{E00D}"@)
    } else if name == "backspace"@ {
        Some("\u{E003}"@)
    } else if name == "delete"@ {
        Some("\u{E017}"@)
    } else if name == "arrow_up"@ || name == "up"@ {
        Some("\u{E013}"@)
    } else if name == "arrow_down"@ || name == "down"@ {
        Some("\u{E015}"@)
    } else if name == "arrow_left"@ || name == "left"@ {
        Some("\u{E012}"@)
    } else if name == "arrow_right"@ || name == "right"@ {
        Some("\u{E014}"@)
    } else if name == "home"@ {
        Some("\u{E011}"@)
    } else if name == "end"@ {
        Some("\u{E010}"@)
    } else if name == "pageup"@ || name == "page_up"@ {
        Some("\u{E00E}"@)
    } else if name == "pagedown"@ || name == "page_down"@ {
        Some("\u{E00F}"@)
    } else {
        None
    }
}

/// The key code of a key name in any case (`enter`, `tab`, `esc`, arrows,
/// `home`, `end`, page keys, ...).
pub fn key_to_unicode(name: &str) -> (r: Option<&'static str>)
    ensures
        match (r, key_code(ascii_lower(name@))) {
            (Some(a), Some(b)) => a@ == b,
            (None, None) => true,
            _ => false,
        },
{
    let l = to_ascii_lower(name);
    let t = l.as_str();
    if str_eq(t, "enter") || str_eq(t, "return") {
        Some("\u{E007}")
    } else if str_eq(t, "tab") {
        Some("\u{E004}")
    } else if str_eq(t, "escape") || str_eq(t, "esc") {
        Some("\u{E00C}")
    } else if str_eq(t, "space") {
        Some("\u{E00D}")
    } else if str_eq(t, "backspace") {
        Some("\u{E003}")
    } else if str_eq(t, "delete") {
        Some("\u{E017}")
    } else if str_eq(t, "arrow_up") || str_eq(t, "up") {
        Some("\u{E013}")
    } else if str_eq(t, "arrow_down") || str_eq(t, "down") {
        Some("\u{E015}")
    } else if str_eq(t, "arrow_left") || str_eq(t, "left") {
        Some("\u{E012}")
    } else if str_eq(t, "arrow_right") || str_eq(t, "right") {
        Some("\u{E014}")
    } else if str_eq(t, "home") {
        Some("\u{E011}")
    } else if str_eq(t, "end") {
        Some("\u{E010}")
    } else if str_eq(t, "pageup") || str_eq(t, "page_up") {
        Some("\u{E00E}")
    } else if str_eq(t, "pagedown") || str_eq(t, "page_down") {
        Some("\u{E00F}")
    } else {
        None
    }
}

/// The index in the window list of tab number `n` (counted from 1; 0 also
/// means the first tab).
pub fn tab_index(n: usize) -> (r: usize)
    ensures
        r == if n == 0 {
            0
        } else {
            n - 1
        },
{
    if n == 0 {
        0
    } else {
        n - 1
    }
}

/// The key names and the WebDriver key codes they stand for: `enter` and
/// `return` U+E007, `tab` U+E004, `escape` and `esc` U+E00C, `space` U+E00D,
/// `backspace` U+E003, `delete` U+E017, the arrows (`arrow_up`/`up` U+E013,
/// `arrow_down`/`down` U+E015, `arrow_left`/`left` U+E012,
/// `arrow_right`/`right` U+E014), `home` U+E011, `end` U+E010, `pageup` and
/// `page_up` U+E00E, `pagedown` and `page_down` U+E00F. No other name has a
/// code.
pub proof fn law_key_codes(name: Seq<char>)
    ensures
        key_code("enter"@) == Some("\u{E007}"@),
        key_code("return"@) == Some("\u{E007}"@),
        key_code("tab"@) == Some("\u{E004}"@),
        key_code("escape"@) == Some("\u{E00C}"@),
        key_code("esc"@) == Some("\u{E00C}"@),
        key_code("space"@) == Some("\u{E00D}"@),
        key_code("backspace"@) == Some("\u{E003}"@),
        key_code("delete"@) == Some("\u{E017}"@),
        key_code("arrow_up"@) == Some("\u{E013}"@),
        key_code("up"@) == Some("\u{E013}"@),
        key_code("arrow_down"@) == Some("\u{E015}"@),
        key_code("down"@) == Some("\u{E015}"@),
        key_code("arrow_left"@) == Some("\u{E012}"@),
        key_code("left"@) == Some("\u{E012}"@),
        key_code("arrow_right"@) == Some("\u{E014}"@),
        key_code("right"@) == Some("\u{E014}"@),
        key_code("home"@) == Some("\u{E011}"@),
        key_code("end"@) == Some("\u{E010}"@),
        key_code("pageup"@) == Some("\u{E00E}"@),
        key_code("page_up"@) == Some("\u{E00E}"@),
        key_code("pagedown"@) == Some("\u{E00F}"@),
        key_code("page_down"@) == Some("\u{E00F}"@),
        name != "enter"@ && name != "return"@ && name != "tab"@ && name != "escape"@ && name != "esc"@ && name != "space"@ && name != "backspace"@ && name != "delete"@ && name != "arrow_up"@ && name != "up"@ && name != "arrow_down"@ && name != "down"@ && name != "arrow_left"@ && name != "left"@ && name != "arrow_right"@ && name != "right"@ && name != "home"@ && name != "end"@ && name != "pageup"@ && name != "page_up"@ && name != "pagedown"@ && name != "page_down"@ ==> key_code(name) is None,
{
    reveal_strlit("enter");
    reveal_strlit("return");
    reveal_strlit("tab");
    reveal_strlit("escape");
    reveal_strlit("esc");
    reveal_strlit("space");
    reveal_strlit("backspace");
    reveal_strlit("delete");
    reveal_strlit("arrow_up");
    reveal_strlit("up");
    reveal_strlit("arrow_down");
    reveal_strlit("down");
    reveal_strlit("arrow_left");
    reveal_strlit("left");
    reveal_strlit("arrow_right");
    reveal_strlit("right");
    reveal_strlit("home");
    reveal_strlit("end");
    reveal_strlit("pageup");
    reveal_strlit("page_up");
    reveal_strlit("pagedown");
    reveal_strlit("page_down");
    assert("enter"@.len() == 5 && "return"@.len() == 6 && "tab"@.len() == 3 && "escape"@.len() == 6 && "esc"@.len() == 3 && "space"@.len() == 5);
    assert("backspace"@.len() == 9 && "delete"@.len() == 6 && "arrow_up"@.len() == 8 && "up"@.len() == 2 && "arrow_down"@.len() == 10 && "down"@.len() == 4);
    assert("arrow_left"@.len() == 10 && "left"@.len() == 4 && "arrow_right"@.len() == 11 && "right"@.len() == 5 && "home"@.len() == 4 && "end"@.len() == 3);
    assert("pageup"@.len() == 6 && "page_up"@.len() == 7 && "pagedown"@.len() == 8 && "page_down"@.len() == 9);
    assert("enter"@[0] != "space"@[0]);
    assert("enter"@[0] != "right"@[0]);
    assert("space"@[0] != "right"@[0]);
    assert("return"@[0] != "escape"@[0]);
    assert("return"@[0] != "delete"@[0]);
    assert("return"@[0] != "pageup"@[0]);
    assert("escape"@[0] != "delete"@[0]);
    assert("escape"@[0] != "pageup"@[0]);
    assert("delete"@[0] != "pageup"@[0]);
    assert("tab"@[0] != "esc"@[0]);
    assert("tab"@[0] != "end"@[0]);
    assert("esc"@[1] != "end"@[1]);
    assert("backspace"@[0] != "page_down"@[0]);
    assert("arrow_up"@[0] != "pagedown"@[0]);
    assert("arrow_down"@[6] != "arrow_left"@[6]);
    assert("down"@[0] != "left"@[0]);
    assert("down"@[0] != "home"@[0]);
    assert("left"@[0] != "home"@[0]);
}

proof fn lemma_replace_absent(s: Seq<char>, c: char, rep: Seq<char>)
    requires
        !has_char(s, c),
    ensures
        replace_char(s, c, rep) == s,
    decreases s.len(),
{
    if s.len() > 0 {
        assert(!has_char(s.drop_last(), c)) by {
            if has_char(s.drop_last(), c) {
                let i = choose|i: int| 0 <= i < s.drop_last().len() && s.drop_last()[i] == c;
                assert(s[i] == c);
            }
        }
        lemma_replace_absent(s.drop_last(), c, rep);
        assert(s.last() != c) by {
            assert(s[s.len() - 1] == s.last());
        }
        assert(s.drop_last() + seq![s.last()] =~= s);
    }
}

/// How text is quoted. A shell word is `s` between single quotes, each `'`
/// inside written `'\''`. An XPath literal is `s` between single quotes when
/// it holds none, else between double quotes when it holds none of those.
/// An element reference starting with `/` is an XPath; one starting with `#`
/// or `.`, or holding a space or `[`, is a CSS selector as written; any other
/// reference, free of quotes, is matched by id or by name.
pub proof fn law_quoting(s: Seq<char>)
    ensures
        !has_char(s, '\'') ==> shell_word(s) == "'"@ + s + "'"@,
        shell_word("it's"@) == "'it'\\''s'"@,
        !has_char(s, '\'') ==> xpath_literal(s) == "'"@ + s + "'"@,
        has_char(s, '\'') && !has_char(s, '"') ==> xpath_literal(s) == "\""@ + s + "\""@,
        s.len() > 0 && s[0] == '/' ==> locator_spec(s) == ("xpath"@, s),
        s.len() > 0 && (s[0] == '#' || s[0] == '.') ==> locator_spec(s) == ("css selector"@, s),
        (s.len() == 0 || (s[0] != '/' && s[0] != '#' && s[0] != '.')) && !has_char(s, ' ') && !has_char(s, '[')
            && !has_char(s, '\'') ==> locator_spec(s) == ("css selector"@, "[id='"@ + s + "'],[name='"@ + s
            + "']"@),
{
    if !has_char(s, '\'') {
        lemma_replace_absent(s, '\'', "'\\''"@);
        lemma_replace_absent(s, '\'', "\\'"@);
    }
    reveal_strlit("it's");
    reveal_strlit("'it'\\''s'");
    reveal_strlit("'");
    reveal_strlit("'\\''");
    let w = "it's"@;
    reveal_strlit("it");
    assert(!has_char("it"@, '\''));
    lemma_replace_absent("it"@, '\'', "'\\''"@);
    assert(w.drop_last() =~= "it"@ + seq!['\'']);
    assert(w.drop_last().drop_last() =~= "it"@);
    assert(replace_char(w.drop_last(), '\'', "'\\''"@) =~= "it"@ + "'\\''"@);
    assert(replace_char(w, '\'', "'\\''"@) =~= "it"@ + "'\\''"@ + seq!['s']);
    assert(shell_word(w) =~= "'it'\\''s'"@);
}

} // verus!
