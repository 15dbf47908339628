//! Tokenizer: source text to a flat token stream with 1-based line/column positions.
use vstd::prelude::*;

use crate::text::{chars_to_string, push_char, str_chars};

verus! {

/// One lexical token.
///
/// A float literal keeps its source text (`digits.digits`); the numeric value is
/// produced by whoever evaluates the program.
#[derive(Debug)]
pub enum Tok {
    Word(String),
    /// String literal as a sequence of parts. A plain `"..."` literal is always a
    /// single `StrPart::Lit`; an `f"..."` literal splits into literal text and
    /// `{expr}` sources.
    Str(Vec<StrPart>),
    Int(i64),
    Float(String),
    LParen,
    RParen,
    LBracket,
    RBracket,
    LBrace,
    RBrace,
    Comma,
    Equals,
    Colon,
    Semicolon,
    Dot,
    Newline,
    Plus,
    Minus,
    Star,
    Slash,
    Percent,
    Caret,
    EqEq,
    BangEq,
    Lt,
    Gt,
    LtEq,
    GtEq,
    LtLt,
    GtGt,
    PlusEq,
    MinusEq,
    StarEq,
    SlashEq,
    PercentEq,
    PlusPlus,
    MinusMinus,
    Question,
    Amp,
    Pipe,
    Tilde,
    CaretCaret,
    ColonColon,
    Arrow,
}

#[derive(Debug)]
pub enum StrPart {
    /// Literal text (already unescaped).
    Lit(String),
    /// Raw source of an interpolated expression, re-tokenized by the parser.
    Expr(String),
}

#[derive(Debug)]
pub struct Token {
    pub tok: Tok,
    pub line: usize,
    pub col: usize,
}

#[derive(Debug)]
pub struct LexError {
    pub line: usize,
    pub col: usize,
    pub message: String,
}

// ---------------------------------------------------------------------------
// Mathematical model
// ---------------------------------------------------------------------------

pub enum SpecStrPart {
    Lit(Seq<char>),
    Expr(Seq<char>),
}

pub enum SpecTok {
    Word(Seq<char>),
    Str(Seq<SpecStrPart>),
    Int(i64),
    Float(Seq<char>),
    LParen,
    RParen,
    LBracket,
    RBracket,
    LBrace,
    RBrace,
    Comma,
    Equals,
    Colon,
    Semicolon,
    Dot,
    Newline,
    Plus,
    Minus,
    Star,
    Slash,
    Percent,
    Caret,
    EqEq,
    BangEq,
    Lt,
    Gt,
    LtEq,
    GtEq,
    LtLt,
    GtGt,
    PlusEq,
    MinusEq,
    StarEq,
    SlashEq,
    PercentEq,
    PlusPlus,
    MinusMinus,
    Question,
    Amp,
    Pipe,
    Tilde,
    CaretCaret,
    ColonColon,
    Arrow,
}

pub struct SpecToken {
    pub tok: SpecTok,
    pub line: int,
    pub col: int,
}

pub struct SpecLexError {
    pub line: int,
    pub col: int,
    pub message: Seq<char>,
}

impl View for StrPart {
    type V = SpecStrPart;

    open spec fn view(&self) -> SpecStrPart {
        match self {
            StrPart::Lit(s) => SpecStrPart::Lit(s@),
            StrPart::Expr(s) => SpecStrPart::Expr(s@),
        }
    }
}

pub open spec fn parts_view(ps: Seq<StrPart>) -> Seq<SpecStrPart> {
    ps.map_values(|p: StrPart| p@)
}

impl View for Tok {
    type V = SpecTok;

    open spec fn view(&self) -> SpecTok {
        match self {
            Tok::Word(s) => SpecTok::Word(s@),
            Tok::Str(ps) => SpecTok::Str(parts_view(ps@)),
            Tok::Int(n) => SpecTok::Int(*n),
            Tok::Float(s) => SpecTok::Float(s@),
            Tok::LParen => SpecTok::LParen,
            Tok::RParen => SpecTok::RParen,
            Tok::LBracket => SpecTok::LBracket,
            Tok::RBracket => SpecTok::RBracket,
            Tok::LBrace => SpecTok::LBrace,
            Tok::RBrace => SpecTok::RBrace,
            Tok::Comma => SpecTok::Comma,
            Tok::Equals => SpecTok::Equals,
            Tok::Colon => SpecTok::Colon,
            Tok::Semicolon => SpecTok::Semicolon,
            Tok::Dot => SpecTok::Dot,
            Tok::Newline => SpecTok::Newline,
            Tok::Plus => SpecTok::Plus,
            Tok::Minus => SpecTok::Minus,
            Tok::Star => SpecTok::Star,
            Tok::Slash => SpecTok::Slash,
            Tok::Percent => SpecTok::Percent,
            Tok::Caret => SpecTok::Caret,
            Tok::EqEq => SpecTok::EqEq,
            Tok::BangEq => SpecTok::BangEq,
            Tok::Lt => SpecTok::Lt,
            Tok::Gt => SpecTok::Gt,
            Tok::LtEq => SpecTok::LtEq,
            Tok::GtEq => SpecTok::GtEq,
            Tok::LtLt => SpecTok::LtLt,
            Tok::GtGt => SpecTok::GtGt,
            Tok::PlusEq => SpecTok::PlusEq,
            Tok::MinusEq => SpecTok::MinusEq,
            Tok::StarEq => SpecTok::StarEq,
            Tok::SlashEq => SpecTok::SlashEq,
            Tok::PercentEq => SpecTok::PercentEq,
            Tok::PlusPlus => SpecTok::PlusPlus,
            Tok::MinusMinus => SpecTok::MinusMinus,
            Tok::Question => SpecTok::Question,
            Tok::Amp => SpecTok::Amp,
            Tok::Pipe => SpecTok::Pipe,
            Tok::Tilde => SpecTok::Tilde,
            Tok::CaretCaret => SpecTok::CaretCaret,
            Tok::ColonColon => SpecTok::ColonColon,
            Tok::Arrow => SpecTok::Arrow,
        }
    }
}

impl View for Token {
    type V = SpecToken;

    open spec fn view(&self) -> SpecToken {
        SpecToken { tok: self.tok@, line: self.line as int, col: self.col as int }
    }
}

impl View for LexError {
    type V = SpecLexError;

    open spec fn view(&self) -> SpecLexError {
        SpecLexError { line: self.line as int, col: self.col as int, message: self.message@ }
    }
}

pub open spec fn tokens_view(ts: Seq<Token>) -> Seq<SpecToken> {
    ts.map_values(|t: Token| t@)
}

pub open spec fn is_digit(c: char) -> bool {
    '0' <= c && c <= '9'
}

pub open spec fn is_alpha(c: char) -> bool {
    ('a' <= c && c <= 'z') || ('A' <= c && c <= 'Z')
}

pub open spec fn is_word_start_spec(c: char) -> bool {
    is_alpha(c) || c == '_'
}

pub open spec fn is_word_cont_spec(c: char) -> bool {
    is_alpha(c) || is_digit(c) || c == '_'
}

/// The character after position `i`, if any.
pub open spec fn peek_next(cs: Seq<char>, i: int) -> Option<char> {
    let len = cs.len();
    if i + 1 < len {
        Some(cs[i + 1])
    } else {
        None
    }
}

/// Operator and punctuation table, longest match first: the token and its width.
pub open spec fn punct_spec(c: char, n: Option<char>) -> Option<(SpecTok, int)> {
    if c == '(' {
        Some((SpecTok::LParen, 1))
    } else if c == ')' {
        Some((SpecTok::RParen, 1))
    } else if c == '[' {
        Some((SpecTok::LBracket, 1))
    } else if c == ']' {
        Some((SpecTok::RBracket, 1))
    } else if c == '{' {
        Some((SpecTok::LBrace, 1))
    } else if c == '}' {
        Some((SpecTok::RBrace, 1))
    } else if c == ',' {
        Some((SpecTok::Comma, 1))
    } else if c == ';' {
        Some((SpecTok::Semicolon, 1))
    } else if c == '.' {
        Some((SpecTok::Dot, 1))
    } else if c == '?' {
        Some((SpecTok::Question, 1))
    } else if c == '~' {
        Some((SpecTok::Tilde, 1))
    } else if c == '&' {
        Some((SpecTok::Amp, 1))
    } else if c == '|' {
        Some((SpecTok::Pipe, 1))
    } else if c == ':' {
        if n == Some(':') {
            Some((SpecTok::ColonColon, 2))
        } else {
            Some((SpecTok::Colon, 1))
        }
    } else if c == '+' {
        if n == Some('+') {
            Some((SpecTok::PlusPlus, 2))
        } else if n == Some('=') {
            Some((SpecTok::PlusEq, 2))
        } else {
            Some((SpecTok::Plus, 1))
        }
    } else if c == '-' {
        if n == Some('-') {
            Some((SpecTok::MinusMinus, 2))
        } else if n == Some('=') {
            Some((SpecTok::MinusEq, 2))
        } else if n == Some('>') {
            Some((SpecTok::Arrow, 2))
        } else {
            Some((SpecTok::Minus, 1))
        }
    } else if c == '*' {
        if n == Some('=') {
            Some((SpecTok::StarEq, 2))
        } else {
            Some((SpecTok::Star, 1))
        }
    } else if c == '/' {
        if n == Some('=') {
            Some((SpecTok::SlashEq, 2))
        } else {
            Some((SpecTok::Slash, 1))
        }
    } else if c == '%' {
        if n == Some('=') {
            Some((SpecTok::PercentEq, 2))
        } else {
            Some((SpecTok::Percent, 1))
        }
    } else if c == '^' {
        if n == Some('^') {
            Some((SpecTok::CaretCaret, 2))
        } else {
            Some((SpecTok::Caret, 1))
        }
    } else if c == '=' {
        if n == Some('=') {
            Some((SpecTok::EqEq, 2))
        } else {
            Some((SpecTok::Equals, 1))
        }
    } else if c == '!' {
        if n == Some('=') {
            Some((SpecTok::BangEq, 2))
        } else {
            None
        }
    } else if c == '<' {
        if n == Some('<') {
            Some((SpecTok::LtLt, 2))
        } else if n == Some('=') {
            Some((SpecTok::LtEq, 2))
        } else {
            Some((SpecTok::Lt, 1))
        }
    } else if c == '>' {
        if n == Some('>') {
            Some((SpecTok::GtGt, 2))
        } else if n == Some('=') {
            Some((SpecTok::GtEq, 2))
        } else {
            Some((SpecTok::Gt, 1))
        }
    } else {
        None
    }
}

/// The operator and punctuation tokens, the longest match first: the
/// two-character ones `++ += -- -= -> *= /= %= ^^ == != << <= >> >= ::`,
/// and the one-character ones `( ) [ ] { } , ; . ? ~ & | : + - * / % ^ = <
/// >`. A `!` alone is no token.
pub proof fn law_punctuation_table()
    ensures
        punct_spec('+', Some('+')) == Some((SpecTok::PlusPlus, 2int)),
        punct_spec('+', Some('=')) == Some((SpecTok::PlusEq, 2int)),
        punct_spec('-', Some('-')) == Some((SpecTok::MinusMinus, 2int)),
        punct_spec('-', Some('=')) == Some((SpecTok::MinusEq, 2int)),
        punct_spec('-', Some('>')) == Some((SpecTok::Arrow, 2int)),
        punct_spec('*', Some('=')) == Some((SpecTok::StarEq, 2int)),
        punct_spec('/', Some('=')) == Some((SpecTok::SlashEq, 2int)),
        punct_spec('%', Some('=')) == Some((SpecTok::PercentEq, 2int)),
        punct_spec('^', Some('^')) == Some((SpecTok::CaretCaret, 2int)),
        punct_spec('=', Some('=')) == Some((SpecTok::EqEq, 2int)),
        punct_spec('!', Some('=')) == Some((SpecTok::BangEq, 2int)),
        punct_spec('<', Some('<')) == Some((SpecTok::LtLt, 2int)),
        punct_spec('<', Some('=')) == Some((SpecTok::LtEq, 2int)),
        punct_spec('>', Some('>')) == Some((SpecTok::GtGt, 2int)),
        punct_spec('>', Some('=')) == Some((SpecTok::GtEq, 2int)),
        punct_spec(':', Some(':')) == Some((SpecTok::ColonColon, 2int)),
        punct_spec('(', None) == Some((SpecTok::LParen, 1int)),
        punct_spec(')', None) == Some((SpecTok::RParen, 1int)),
        punct_spec('[', None) == Some((SpecTok::LBracket, 1int)),
        punct_spec(']', None) == Some((SpecTok::RBracket, 1int)),
        punct_spec('{', None) == Some((SpecTok::LBrace, 1int)),
        punct_spec('}', None) == Some((SpecTok::RBrace, 1int)),
        punct_spec(',', None) == Some((SpecTok::Comma, 1int)),
        punct_spec(';', None) == Some((SpecTok::Semicolon, 1int)),
        punct_spec('.', None) == Some((SpecTok::Dot, 1int)),
        punct_spec('?', None) == Some((SpecTok::Question, 1int)),
        punct_spec('~', None) == Some((SpecTok::Tilde, 1int)),
        punct_spec('&', None) == Some((SpecTok::Amp, 1int)),
        punct_spec('|', None) == Some((SpecTok::Pipe, 1int)),
        punct_spec(':', None) == Some((SpecTok::Colon, 1int)),
        punct_spec('+', None) == Some((SpecTok::Plus, 1int)),
        punct_spec('-', None) == Some((SpecTok::Minus, 1int)),
        punct_spec('*', None) == Some((SpecTok::Star, 1int)),
        punct_spec('/', None) == Some((SpecTok::Slash, 1int)),
        punct_spec('%', None) == Some((SpecTok::Percent, 1int)),
        punct_spec('^', None) == Some((SpecTok::Caret, 1int)),
        punct_spec('=', None) == Some((SpecTok::Equals, 1int)),
        punct_spec('<', None) == Some((SpecTok::Lt, 1int)),
        punct_spec('>', None) == Some((SpecTok::Gt, 1int)),
        punct_spec('!', None) is None,
{
}

/// First index at or after `j` holding a newline (or the end of input).
pub open spec fn line_end(cs: Seq<char>, j: int) -> int
    decreases cs.len() - j,
{
    if j >= cs.len() || j < 0 || cs[j] == '\n' {
        j
    } else {
        line_end(cs, j + 1)
    }
}

/// First index at or after `j` whose character fails `is_digit`.
pub open spec fn digits_end(cs: Seq<char>, j: int) -> int
    decreases cs.len() - j,
{
    if j >= cs.len() || j < 0 || !is_digit(cs[j]) {
        j
    } else {
        digits_end(cs, j + 1)
    }
}

/// First index at or after `j` whose character cannot continue a word.
pub open spec fn word_end(cs: Seq<char>, j: int) -> int
    decreases cs.len() - j,
{
    if j >= cs.len() || j < 0 || !is_word_cont_spec(cs[j]) {
        j
    } else {
        word_end(cs, j + 1)
    }
}

/// Decimal value of a run of digits.
pub open spec fn digits_value(s: Seq<char>) -> int
    decreases s.len(),
{
    if s.len() == 0 {
        0
    } else {
        digits_value(s.drop_last()) * 10 + (s.last() as int - '0' as int)
    }
}

/// What a backslash followed by `c` stands for inside a string literal.
pub open spec fn escape_spec(c: char) -> Seq<char> {
    if c == 'n' {
        seq!['\n']
    } else if c == 't' {
        seq!['\t']
    } else if c == 'r' {
        seq!['\r']
    } else if c == '\\' {
        seq!['\\']
    } else if c == '"' {
        seq!['"']
    } else if c == '{' {
        seq!['{']
    } else if c == '}' {
        seq!['}']
    } else {
        seq!['\\', c]
    }
}

/// Scanning the source of one `{...}` interpolation (the opening brace already
/// consumed): the expression text, the index of the closing brace and the
/// position of that brace, or `None` when input ends first.
pub open spec fn scan_interp(cs: Seq<char>, k: int, line: int, col: int, depth: int, expr: Seq<char>)
    -> Option<(Seq<char>, int, int, int)>
    decreases cs.len() - k,
{
    if k >= cs.len() || k < 0 {
        None
    } else {
        let ch = cs[k];
        let d = if ch == '{' {
            depth + 1
        } else if ch == '}' {
            depth - 1
        } else {
            depth
        };
        if ch == '}' && d == 0 {
            Some((expr, k, line, col))
        } else if ch == '\n' {
            scan_interp(cs, k + 1, line + 1, 1, d, expr.push(ch))
        } else {
            scan_interp(cs, k + 1, line, col + 1, d, expr.push(ch))
        }
    }
}

pub enum StrScan {
    /// Parts, index after the closing quote, and the position after it.
    Done(Seq<SpecStrPart>, int, int, int),
    /// Input ended inside the literal.
    Open,
    /// Input ended inside an interpolation.
    OpenInterp,
}

/// Finish a literal: the pending text becomes a part unless it is empty and
/// some part already exists.
pub open spec fn close_parts(parts: Seq<SpecStrPart>, buf: Seq<char>) -> Seq<SpecStrPart> {
    if buf.len() > 0 || parts.len() == 0 {
        parts.push(SpecStrPart::Lit(buf))
    } else {
        parts
    }
}

pub open spec fn flush_parts(parts: Seq<SpecStrPart>, buf: Seq<char>) -> Seq<SpecStrPart> {
    if buf.len() > 0 {
        parts.push(SpecStrPart::Lit(buf))
    } else {
        parts
    }
}

/// Scanning the body of a string literal from index `j` (after the opening quote).
pub open spec fn scan_str(
    cs: Seq<char>,
    j: int,
    line: int,
    col: int,
    parts: Seq<SpecStrPart>,
    buf: Seq<char>,
    interp: bool,
) -> StrScan
    decreases cs.len() - j,
{
    if j >= cs.len() || j < 0 {
        StrScan::Open
    } else if cs[j] == '"' {
        StrScan::Done(close_parts(parts, buf), j + 1, line, col + 1)
    } else if cs[j] == '\\' && j + 1 < cs.len() {
        scan_str(cs, j + 2, line, col + 2, parts, buf + escape_spec(cs[j + 1]), interp)
    } else if interp && cs[j] == '{' {
        match scan_interp(cs, j + 1, line, col + 1, 1, seq![]) {
            Some((expr, k, l2, c2)) => {
                if j < k < cs.len() {
                    scan_str(
                        cs,
                        k + 1,
                        l2,
                        c2 + 1,
                        flush_parts(parts, buf).push(SpecStrPart::Expr(expr)),
                        seq![],
                        interp,
                    )
                } else {
                    StrScan::OpenInterp
                }
            },
            None => StrScan::OpenInterp,
        }
    } else if cs[j] == '\n' {
        scan_str(cs, j + 1, line + 1, 1, parts, buf.push('\n'), interp)
    } else {
        scan_str(cs, j + 1, line, col + 1, parts, buf.push(cs[j]), interp)
    }
}

pub open spec fn lex_err(line: int, col: int, message: Seq<char>) -> SpecLexError {
    SpecLexError { line, col, message }
}

pub open spec fn at(tok: SpecTok, line: int, col: int) -> SpecToken {
    SpecToken { tok, line, col }
}

/// The tokenization of `cs` from index `i` at position (`line`, `col`), with
/// `acc` the tokens produced so far. A final `Newline` token always closes the
/// stream.
pub open spec fn lex_spec(cs: Seq<char>, i: int, line: int, col: int, acc: Seq<SpecToken>) -> Result<
    Seq<SpecToken>,
    SpecLexError,
>
    decreases cs.len() - i,
{
    if i >= cs.len() || i < 0 {
        Ok(acc.push(at(SpecTok::Newline, line, col)))
    } else {
        let c = cs[i];
        let n = peek_next(cs, i);
        if c == '\n' {
            lex_spec(cs, i + 1, line + 1, 1, acc.push(at(SpecTok::Newline, line, col)))
        } else if c == ' ' || c == '\t' || c == '\r' {
            lex_spec(cs, i + 1, line, col + 1, acc)
        } else if c == '#' || (c == '/' && n == Some('/')) {
            let j = line_end(cs, i + 1);
            if i < j <= cs.len() {
                lex_spec(cs, j, line, col + (j - i), acc)
            } else {
                Err(lex_err(line, col, seq![]))
            }
        } else if punct_spec(c, n) is Some {
            let (t, w) = punct_spec(c, n)->0;
            if w > 0 {
                lex_spec(cs, i + w, line, col + w, acc.push(at(t, line, col)))
            } else {
                Err(lex_err(line, col, seq![]))
            }
        } else if c == '"' || (c == 'f' && n == Some('"')) {
            let start = if c == 'f' {
                i + 2
            } else {
                i + 1
            };
            match scan_str(cs, start, line, col + (start - i), seq![], seq![], c == 'f') {
                StrScan::Done(parts, next, l2, c2) => {
                    if i < next <= cs.len() {
                        lex_spec(cs, next, l2, c2, acc.push(at(SpecTok::Str(parts), line, col)))
                    } else {
                        Err(lex_err(line, col, seq![]))
                    }
                },
                StrScan::Open => Err(lex_err(line, col, "unterminated string"@)),
                StrScan::OpenInterp => Err(lex_err(line, col, "unterminated `{...}` in string"@)),
            }
        } else if is_digit(c) {
            let j = digits_end(cs, i);
            if j + 1 < cs.len() && j >= 0 && cs[j] == '.' && is_digit(cs[j + 1]) {
                let k = digits_end(cs, j + 1);
                if i < k <= cs.len() {
                    lex_spec(
                        cs,
                        k,
                        line,
                        col + (k - i),
                        acc.push(at(SpecTok::Float(cs.subrange(i, k)), line, col)),
                    )
                } else {
                    Err(lex_err(line, col, seq![]))
                }
            } else if i < j <= cs.len() {
                let v = digits_value(cs.subrange(i, j));
                if v > i64::MAX {
                    Err(lex_err(line, col, "bad number "@ + cs.subrange(i, j)))
                } else {
                    lex_spec(cs, j, line, col + (j - i), acc.push(at(SpecTok::Int(v as i64), line, col)))
                }
            } else {
                Err(lex_err(line, col, seq![]))
            }
        } else if is_word_start_spec(c) {
            let j = word_end(cs, i);
            if i < j <= cs.len() {
                lex_spec(cs, j, line, col + (j - i), acc.push(at(SpecTok::Word(cs.subrange(i, j)), line, col)))
            } else {
                Err(lex_err(line, col, seq![]))
            }
        } else {
            Err(lex_err(line, col, "unexpected character '"@ + seq![c] + "'"@))
        }
    }
}

/// The tokenization of a whole source text.
pub open spec fn tokenize_spec(src: Seq<char>) -> Result<Seq<SpecToken>, SpecLexError> {
    lex_spec(src, 0, 1, 1, seq![])
}

// ---------------------------------------------------------------------------
// Lemmas on the scanning functions
// ---------------------------------------------------------------------------

pub proof fn lemma_line_end(cs: Seq<char>, j: int)
    requires
        0 <= j <= cs.len(),
    ensures
        j <= line_end(cs, j) <= cs.len(),
        forall|k: int| j <= k < line_end(cs, j) ==> cs[k] != '\n',
        line_end(cs, j) < cs.len() ==> cs[line_end(cs, j)] == '\n',
    decreases cs.len() - j,
{
    if j < cs.len() && cs[j] != '\n' {
        lemma_line_end(cs, j + 1);
    }
}

pub proof fn lemma_digits_end(cs: Seq<char>, j: int)
    requires
        0 <= j <= cs.len(),
    ensures
        j <= digits_end(cs, j) <= cs.len(),
        forall|k: int| j <= k < digits_end(cs, j) ==> is_digit(cs[k]),
        digits_end(cs, j) < cs.len() ==> !is_digit(cs[digits_end(cs, j)]),
    decreases cs.len() - j,
{
    if j < cs.len() && is_digit(cs[j]) {
        lemma_digits_end(cs, j + 1);
    }
}

pub proof fn lemma_word_end(cs: Seq<char>, j: int)
    requires
        0 <= j <= cs.len(),
    ensures
        j <= word_end(cs, j) <= cs.len(),
        forall|k: int| j <= k < word_end(cs, j) ==> is_word_cont_spec(cs[k]),
        word_end(cs, j) < cs.len() ==> !is_word_cont_spec(cs[word_end(cs, j)]),
    decreases cs.len() - j,
{
    if j < cs.len() && is_word_cont_spec(cs[j]) {
        lemma_word_end(cs, j + 1);
    }
}

pub proof fn lemma_digits_value_nonneg(s: Seq<char>)
    requires
        forall|k: int| 0 <= k < s.len() ==> is_digit(s[k]),
    ensures
        digits_value(s) >= 0,
    decreases s.len(),
{
    if s.len() > 0 {
        lemma_digits_value_nonneg(s.drop_last());
    }
}

/// A longer run of digits never has a smaller value than its prefix.
pub proof fn lemma_digits_value_mono(s: Seq<char>, k: int)
    requires
        0 <= k <= s.len(),
        forall|m: int| 0 <= m < s.len() ==> is_digit(s[m]),
    ensures
        digits_value(s.subrange(0, k)) <= digits_value(s),
    decreases s.len() - k,
{
    if k < s.len() {
        lemma_digits_value_mono(s, k + 1);
        let p = s.subrange(0, k + 1);
        assert(p.drop_last() =~= s.subrange(0, k));
        lemma_digits_value_nonneg(s.subrange(0, k));
    } else {
        assert(s.subrange(0, k) =~= s);
    }
}

// ---------------------------------------------------------------------------
// Executable scanner
// ---------------------------------------------------------------------------

fn is_digit_exec(c: char) -> (r: bool)
    ensures
        r == is_digit(c),
{
    '0' <= c && c <= '9'
}

fn is_word_start(c: char) -> (r: bool)
    ensures
        r == is_word_start_spec(c),
{
    ('a' <= c && c <= 'z') || ('A' <= c && c <= 'Z') || c == '_'
}

fn is_word_cont(c: char) -> (r: bool)
    ensures
        r == is_word_cont_spec(c),
{
    ('a' <= c && c <= 'z') || ('A' <= c && c <= 'Z') || ('0' <= c && c <= '9') || c == '_'
}

fn next_char(cs: &Vec<char>, i: usize) -> (r: Option<char>)
    requires
        i < cs@.len(),
    ensures
        r == peek_next(cs@, i as int),
{
    let len = cs.len();
    if i + 1 < len {
        Some(cs[i + 1])
    } else {
        None
    }
}

fn punct(c: char, n: Option<char>) -> (r: Option<(Tok, usize)>)
    ensures
        match r {
            Some((t, w)) => punct_spec(c, n) == Some((t@, w as int)),
            None => punct_spec(c, n) is None,
        },
{
    let two_is = |x: char| -> (b: bool)
        ensures
            b == (n == Some(x)),
        {
            match n {
                Some(m) => m == x,
                None => false,
            }
        };
    if c == '(' {
        Some((Tok::LParen, 1))
    } else if c == ')' {
        Some((Tok::RParen, 1))
    } else if c == '[' {
        Some((Tok::LBracket, 1))
    } else if c == ']' {
        Some((Tok::RBracket, 1))
    } else if c == '{' {
        Some((Tok::LBrace, 1))
    } else if c == '}' {
        Some((Tok::RBrace, 1))
    } else if c == ',' {
        Some((Tok::Comma, 1))
    } else if c == ';' {
        Some((Tok::Semicolon, 1))
    } else if c == '.' {
        Some((Tok::Dot, 1))
    } else if c == '?' {
        Some((Tok::Question, 1))
    } else if c == '~' {
        Some((Tok::Tilde, 1))
    } else if c == '&' {
        Some((Tok::Amp, 1))
    } else if c == '|' {
        Some((Tok::Pipe, 1))
    } else if c == ':' {
        if two_is(':') {
            Some((Tok::ColonColon, 2))
        } else {
            Some((Tok::Colon, 1))
        }
    } else if c == '+' {
        if two_is('+') {
            Some((Tok::PlusPlus, 2))
        } else if two_is('=') {
            Some((Tok::PlusEq, 2))
        } else {
            Some((Tok::Plus, 1))
        }
    } else if c == '-' {
        if two_is('-') {
            Some((Tok::MinusMinus, 2))
        } else if two_is('=') {
            Some((Tok::MinusEq, 2))
        } else if two_is('>') {
            Some((Tok::Arrow, 2))
        } else {
            Some((Tok::Minus, 1))
        }
    } else if c == '*' {
        if two_is('=') {
            Some((Tok::StarEq, 2))
        } else {
            Some((Tok::Star, 1))
        }
    } else if c == '/' {
        if two_is('=') {
            Some((Tok::SlashEq, 2))
        } else {
            Some((Tok::Slash, 1))
        }
    } else if c == '%' {
        if two_is('=') {
            Some((Tok::PercentEq, 2))
        } else {
            Some((Tok::Percent, 1))
        }
    } else if c == '^' {
        if two_is('^') {
            Some((Tok::CaretCaret, 2))
        } else {
            Some((Tok::Caret, 1))
        }
    } else if c == '=' {
        if two_is('=') {
            Some((Tok::EqEq, 2))
        } else {
            Some((Tok::Equals, 1))
        }
    } else if c == '!' {
        if two_is('=') {
            Some((Tok::BangEq, 2))
        } else {
            None
        }
    } else if c == '<' {
        if two_is('<') {
            Some((Tok::LtLt, 2))
        } else if two_is('=') {
            Some((Tok::LtEq, 2))
        } else {
            Some((Tok::Lt, 1))
        }
    } else if c == '>' {
        if two_is('>') {
            Some((Tok::GtGt, 2))
        } else if two_is('=') {
            Some((Tok::GtEq, 2))
        } else {
            Some((Tok::Gt, 1))
        }
    } else {
        None
    }
}


pub proof fn lemma_line_end_at(cs: Seq<char>, m: int, j: int)
    requires
        0 <= m <= j <= cs.len(),
        forall|k: int| m <= k < j ==> cs[k] != '\n',
        j == cs.len() || cs[j] == '\n',
    ensures
        line_end(cs, m) == j,
    decreases j - m,
{
    if m < j {
        lemma_line_end_at(cs, m + 1, j);
    }
}

pub proof fn lemma_digits_end_at(cs: Seq<char>, m: int, j: int)
    requires
        0 <= m <= j <= cs.len(),
        forall|k: int| m <= k < j ==> is_digit(cs[k]),
        j == cs.len() || !is_digit(cs[j]),
    ensures
        digits_end(cs, m) == j,
    decreases j - m,
{
    if m < j {
        lemma_digits_end_at(cs, m + 1, j);
    }
}

pub proof fn lemma_word_end_at(cs: Seq<char>, m: int, j: int)
    requires
        0 <= m <= j <= cs.len(),
        forall|k: int| m <= k < j ==> is_word_cont_spec(cs[k]),
        j == cs.len() || !is_word_cont_spec(cs[j]),
    ensures
        word_end(cs, m) == j,
    decreases j - m,
{
    if m < j {
        lemma_word_end_at(cs, m + 1, j);
    }
}

proof fn lemma_push_tokens(ts: Seq<Token>, t: Token)
    ensures
        tokens_view(ts.push(t)) == tokens_view(ts).push(t@),
{
    assert(tokens_view(ts.push(t)) =~= tokens_view(ts).push(t@));
}

proof fn lemma_push_parts(ps: Seq<StrPart>, p: StrPart)
    ensures
        parts_view(ps.push(p)) == parts_view(ps).push(p@),
{
    assert(parts_view(ps.push(p)) =~= parts_view(ps).push(p@));
}

/// Appends what `\c` stands for inside a string literal.
fn push_escape(buf: &mut String, c: char)
    ensures
        final(buf)@ == old(buf)@ + escape_spec(c),
{
    if c == 'n' {
        push_char(buf, '\n');
    } else if c == 't' {
        push_char(buf, '\t');
    } else if c == 'r' {
        push_char(buf, '\r');
    } else if c == '\\' {
        push_char(buf, '\\');
    } else if c == '"' {
        push_char(buf, '"');
    } else if c == '{' {
        push_char(buf, '{');
    } else if c == '}' {
        push_char(buf, '}');
    } else {
        push_char(buf, '\\');
        push_char(buf, c);
    }
    assert(final(buf)@ =~= old(buf)@ + escape_spec(c));
}

/// Scans a string literal body starting at `start` (just after the opening
/// quote). `Err(true)` means the input ended inside an interpolation,
/// `Err(false)` inside the literal.
fn scan_string(cs: &Vec<char>, start: usize, line0: usize, col0: usize, interp: bool) -> (r: Result<
    (Vec<StrPart>, usize, usize, usize),
    bool,
>)
    requires
        start <= cs@.len() <= isize::MAX,
        1 <= line0 <= start + 1,
        1 <= col0 <= start + 1,
    ensures
        match r {
            Ok((ps, next, l, c)) => {
                &&& scan_str(cs@, start as int, line0 as int, col0 as int, seq![], seq![], interp)
                    == StrScan::Done(parts_view(ps@), next as int, l as int, c as int)
                &&& start < next <= cs@.len()
                &&& 1 <= l <= next + 1
                &&& 1 <= c <= next + 1
            },
            Err(b) => scan_str(cs@, start as int, line0 as int, col0 as int, seq![], seq![], interp)
                == (if b {
                StrScan::OpenInterp
            } else {
                StrScan::Open
            }),
        },
{
    let len = cs.len();
    let mut parts: Vec<StrPart> = Vec::new();
    let mut buf = String::new();
    let mut j = start;
    let mut line = line0;
    let mut col = col0;
    assert(parts_view(parts@) =~= Seq::<SpecStrPart>::empty());
    loop
        invariant
            start <= j <= len,
            len == cs@.len(),
            len <= isize::MAX,
            1 <= line <= j + 1,
            1 <= col <= j + 1,
            scan_str(cs@, start as int, line0 as int, col0 as int, seq![], seq![], interp)
                == scan_str(cs@, j as int, line as int, col as int, parts_view(parts@), buf@, interp),
        decreases len - j,
    {
        if j >= len {
            return Err(false);
        }
        let ch = cs[j];
        if ch == '"' {
            if !buf.as_str().is_empty() || parts.len() == 0 {
                let ghost old_parts = parts@;
                parts.push(StrPart::Lit(buf));
                proof {
                    lemma_push_parts(old_parts, parts@.last());
                }
            }
            return Ok((parts, j + 1, line, col + 1));
        }
        if ch == '\\' && j + 1 < len {
            push_escape(&mut buf, cs[j + 1]);
            j += 2;
            col += 2;
            continue ;
        }
        if interp && ch == '{' {
            let ghost pv = parts_view(parts@);
            let ghost bv = buf@;
            if !buf.as_str().is_empty() {
                let ghost old_parts = parts@;
                parts.push(StrPart::Lit(buf));
                proof {
                    lemma_push_parts(old_parts, parts@.last());
                }
                buf = String::new();
            }
            let ghost flushed = parts_view(parts@);
            let mut k = j + 1;
            let mut l = line;
            let mut c = col + 1;
            let mut depth: usize = 1;
            let mut expr = String::new();
            loop
                invariant_except_break
                    1 <= depth <= k + 1,
                    scan_interp(cs@, j + 1, line as int, col + 1, 1, seq![]) == scan_interp(
                        cs@,
                        k as int,
                        l as int,
                        c as int,
                        depth as int,
                        expr@,
                    ),
                invariant
                    j < k <= len,
                    j < len,
                    cs@[j as int] == '{',
                    interp,
                    scan_str(cs@, start as int, line0 as int, col0 as int, seq![], seq![], interp)
                        == scan_str(cs@, j as int, line as int, col as int, pv, bv, interp),
                    parts_view(parts@) == flush_parts(pv, bv),
                    buf@ == Seq::<char>::empty(),
                    1 <= line <= j + 1,
                    1 <= col <= j + 1,
                    len == cs@.len(),
                    len <= isize::MAX,
                    1 <= l <= k + 1,
                    1 <= c <= k + 1,
                ensures
                    k < len,
                    scan_interp(cs@, j + 1, line as int, col + 1, 1, seq![]) == Some(
                        (expr@, k as int, l as int, c as int),
                    ),
                decreases len - k,
            {
                if k >= len {
                    proof {
                        assert(scan_str(cs@, j as int, line as int, col as int, pv, bv, interp)
                            == StrScan::OpenInterp);
                    }
                    return Err(true);
                }
                let ch2 = cs[k];
                if ch2 == '{' {
                    depth += 1;
                } else if ch2 == '}' {
                    depth -= 1;
                    if depth == 0 {
                        break ;
                    }
                }
                if ch2 == '\n' {
                    l += 1;
                    c = 1;
                } else {
                    c += 1;
                }
                push_char(&mut expr, ch2);
                k += 1;
            }
            let ghost before = parts@;
            parts.push(StrPart::Expr(expr));
            proof {
                lemma_push_parts(before, parts@.last());
                assert(buf@ =~= Seq::<char>::empty());
            }
            j = k + 1;
            line = l;
            col = c + 1;
            continue ;
        }
        push_char(&mut buf, ch);
        if ch == '\n' {
            line += 1;
            col = 1;
        } else {
            col += 1;
        }
        j += 1;
    }
}

/// Parses a run of ASCII digits as an `i64`; `None` when the value does not fit.
fn parse_digits(cs: &Vec<char>, from: usize, to: usize) -> (r: Option<i64>)
    requires
        from <= to <= cs@.len(),
        forall|k: int| from <= k < to ==> is_digit(cs@[k]),
    ensures
        match r {
            Some(v) => v as int == digits_value(cs@.subrange(from as int, to as int)),
            None => digits_value(cs@.subrange(from as int, to as int)) > i64::MAX,
        },
{
    let ghost s = cs@.subrange(from as int, to as int);
    let mut acc: i64 = 0;
    let mut k = from;
    assert(s.subrange(0, 0) =~= Seq::<char>::empty());
    while k < to
        invariant
            from <= k <= to <= cs@.len(),
            s == cs@.subrange(from as int, to as int),
            forall|m: int| from <= m < to ==> is_digit(cs@[m]),
            acc >= 0,
            acc as int == digits_value(s.subrange(0, k - from)),
        decreases to - k,
    {
        let d = (cs[k] as u32 - '0' as u32) as i64;
        let ghost pre = s.subrange(0, k - from);
        let ghost next = s.subrange(0, k + 1 - from);
        assert(next.drop_last() =~= pre);
        assert(next.last() == cs@[k as int]);
        match acc.checked_mul(10) {
            Some(m) => match m.checked_add(d) {
                Some(v) => {
                    acc = v;
                },
                None => {
                    proof {
                        lemma_digits_value_mono(s, k + 1 - from);
                    }
                    return None;
                },
            },
            None => {
                proof {
                    lemma_digits_value_mono(s, k + 1 - from);
                }
                return None;
            },
        }
        k += 1;
    }
    assert(s.subrange(0, to - from) =~= s);
    Some(acc)
}


fn next_is(n: Option<char>, x: char) -> (r: bool)
    ensures
        r == (n == Some(x)),
{
    match n {
        Some(m) => m == x,
        None => false,
    }
}

fn push_token(tokens: &mut Vec<Token>, t: Token)
    ensures
        tokens_view(final(tokens)@) == tokens_view(old(tokens)@).push(t@),
{
    let ghost before = tokens@;
    tokens.push(t);
    proof {
        lemma_push_tokens(before, t);
    }
}

fn mk(tok: Tok, line: usize, col: usize) -> (t: Token)
    ensures
        t@ == at(tok@, line as int, col as int),
        t.tok == tok,
{
    Token { tok, line, col }
}

/// Turns source text into tokens. Every token carries the 1-based line and
/// column of its first character; the stream always ends with a `Newline`.
///
/// Plain `"..."` literals keep `{` and `}` as text; `f"..."` literals split
/// `{expr}` sources into separate parts.
pub fn tokenize(source: &str) -> (r: Result<Vec<Token>, LexError>)
    requires
        source@.len() <= isize::MAX,
    ensures
        match r {
            Ok(ts) => tokenize_spec(source@) == Ok::<Seq<SpecToken>, SpecLexError>(tokens_view(ts@)),
            Err(e) => tokenize_spec(source@) == Err::<Seq<SpecToken>, SpecLexError>(e@),
        },
        r matches Ok(ts) ==> stream_shape(ts@),
{
    let cs = str_chars(source);
    let len = cs.len();
    let mut tokens: Vec<Token> = Vec::new();
    let mut line: usize = 1;
    let mut col: usize = 1;
    let mut i: usize = 0;
    assert(tokens_view(tokens@) =~= Seq::<SpecToken>::empty());
    while i < len
        invariant
            i <= len,
            len == cs@.len(),
            cs@ == source@,
            len <= isize::MAX,
            1 <= line <= i + 1,
            1 <= col <= i + 1,
            tokenize_spec(cs@) == lex_spec(cs@, i as int, line as int, col as int, tokens_view(tokens@)),
        decreases len - i,
    {
        let c = cs[i];
        let n = next_char(&cs, i);
        let ghost acc = tokens_view(tokens@);
        if c == '\n' {
            let t = mk(Tok::Newline, line, col);
            push_token(&mut tokens, t);
            line += 1;
            col = 1;
            i += 1;
            continue ;
        }
        if c == ' ' || c == '\t' || c == '\r' {
            col += 1;
            i += 1;
            continue ;
        }
        if c == '#' || (c == '/' && next_is(n, '/')) {
            let mut j = i + 1;
            while j < len && cs[j] != '\n'
                invariant
                    i < j <= len,
                    len == cs@.len(),
                    forall|k: int| i + 1 <= k < j ==> cs@[k] != '\n',
                decreases len - j,
            {
                j += 1;
            }
            proof {
                lemma_line_end_at(cs@, i + 1, j as int);
            }
            col += j - i;
            i = j;
            continue ;
        }
        match punct(c, n) {
            Some((tok, w)) => {
                let t = mk(tok, line, col);
                push_token(&mut tokens, t);
                i += w;
                col += w;
                continue ;
            },
            None => {},
        }
        if c == '"' || (c == 'f' && next_is(n, '"')) {
            let start = if c == 'f' {
                i + 2
            } else {
                i + 1
            };
            match scan_string(&cs, start, line, col + (start - i), c == 'f') {
                Ok((parts, next, l2, c2)) => {
                    let t = mk(Tok::Str(parts), line, col);
                    push_token(&mut tokens, t);
                    i = next;
                    line = l2;
                    col = c2;
                    continue ;
                },
                Err(interp_open) => {
                    let message = if interp_open {
                        String::from_str("unterminated `{...}` in string")
                    } else {
                        String::from_str("unterminated string")
                    };
                    return Err(LexError { line, col, message });
                },
            }
        }
        if is_digit_exec(c) {
            let mut j = i;
            while j < len && is_digit_exec(cs[j])
                invariant
                    i <= j <= len,
                    len == cs@.len(),
                    forall|k: int| i <= k < j ==> is_digit(cs@[k]),
                decreases len - j,
            {
                j += 1;
            }
            proof {
                lemma_digits_end_at(cs@, i as int, j as int);
            }
            if j + 1 < len && cs[j] == '.' && is_digit_exec(cs[j + 1]) {
                let mut k = j + 1;
                while k < len && is_digit_exec(cs[k])
                    invariant
                        j + 1 <= k <= len,
                        len == cs@.len(),
                        forall|m: int| j + 1 <= m < k ==> is_digit(cs@[m]),
                    decreases len - k,
                {
                    k += 1;
                }
                proof {
                    lemma_digits_end_at(cs@, j + 1, k as int);
                }
                let lit = chars_to_string(&cs, i, k);
                let t = mk(Tok::Float(lit), line, col);
                push_token(&mut tokens, t);
                col += k - i;
                i = k;
                continue ;
            }
            match parse_digits(&cs, i, j) {
                Some(v) => {
                    let t = mk(Tok::Int(v), line, col);
                    push_token(&mut tokens, t);
                    col += j - i;
                    i = j;
                    continue ;
                },
                None => {
                    let mut message = String::from_str("bad number ");
                    let lit = chars_to_string(&cs, i, j);
                    message.append(lit.as_str());
                    return Err(LexError { line, col, message });
                },
            }
        }
        if is_word_start(c) {
            let mut j = i;
            while j < len && is_word_cont(cs[j])
                invariant
                    i <= j <= len,
                    len == cs@.len(),
                    forall|k: int| i <= k < j ==> is_word_cont_spec(cs@[k]),
                decreases len - j,
            {
                j += 1;
            }
            proof {
                lemma_word_end_at(cs@, i as int, j as int);
            }
            let w = chars_to_string(&cs, i, j);
            let t = mk(Tok::Word(w), line, col);
            push_token(&mut tokens, t);
            col += j - i;
            i = j;
            continue ;
        }
        let mut message = String::from_str("unexpected character '");
        push_char(&mut message, c);
        message.append("'");
        assert(message@ == "unexpected character '"@ + seq![c] + "'"@);
        assert(!is_word_start_spec(c));
        assert(!is_digit(c));
        assert(punct_spec(c, n) is None);
        assert(lex_spec(cs@, i as int, line as int, col as int, acc) == Err::<Seq<SpecToken>, SpecLexError>(lex_err(line as int, col as int, message@)));
        return Err(LexError { line, col, message });
    }
    let t = mk(Tok::Newline, line, col);
    push_token(&mut tokens, t);
    proof {
        assert(tokenize_spec(source@) == Ok::<Seq<SpecToken>, SpecLexError>(tokens_view(tokens@)));
        lemma_stream_shape(source@, tokens@);
    }
    Ok(tokens)
}

/// The tokens of a successful tokenization have the shape `stream_shape`
/// says.
proof fn lemma_stream_shape(src: Seq<char>, ts: Seq<Token>)
    requires
        tokenize_spec(src) == Ok::<Seq<SpecToken>, SpecLexError>(tokens_view(ts)),
    ensures
        stream_shape(ts),
{
    law_stream_ends_with_newline(src, 0, 1, 1, seq![]);
    law_token_positions_increase(src);
    let v = tokens_view(ts);
    assert(v.len() == ts.len());
    assert forall|k: int| 0 <= k < ts.len() implies #[trigger] v[k] == ts[k]@ by {}
    assert(ts.last()@ == v.last());
    assert forall|k: int| 0 <= k < ts.len() implies #[trigger] ts[k].line >= 1 && ts[k].col >= 1 by {
        assert(v[k] == ts[k]@);
    }
    assert forall|k: int| 0 <= k && k + 1 < ts.len() implies (#[trigger] ts[k].line < ts[k + 1].line || (
    ts[k].line == ts[k + 1].line && ts[k].col < ts[k + 1].col)) by {
        assert(v[k] == ts[k]@);
        assert(v[k + 1] == ts[k + 1]@);
    }
}

/// A token stream as the tokenizer gives it: at least one token, the last a
/// `Newline`, every position at line 1, column 1 or later, and each token
/// strictly after the one before it.
pub open spec fn stream_shape(ts: Seq<Token>) -> bool {
    &&& ts.len() > 0
    &&& ts.last().tok is Newline
    &&& forall|k: int| 0 <= k < ts.len() ==> #[trigger] ts[k].line >= 1 && ts[k].col >= 1
    &&& forall|k: int|
        0 <= k && k + 1 < ts.len() ==> (#[trigger] ts[k].line < ts[k + 1].line || (ts[k].line == ts[k + 1].line
            && ts[k].col < ts[k + 1].col))
}


// ---------------------------------------------------------------------------
// Laws
// ---------------------------------------------------------------------------

proof fn lemma_plain_scan(cs: Seq<char>, j: int, line: int, col: int, buf: Seq<char>)
    ensures
        match scan_str(cs, j, line, col, seq![], buf, false) {
            StrScan::Done(parts, _, _, _) => parts.len() == 1 && parts[0] is Lit,
            StrScan::Open => true,
            StrScan::OpenInterp => false,
        },
    decreases cs.len() - j,
{
    if j >= cs.len() || j < 0 {
    } else if cs[j] == '"' {
    } else if cs[j] == '\\' && j + 1 < cs.len() {
        lemma_plain_scan(cs, j + 2, line, col + 2, buf + escape_spec(cs[j + 1]));
    } else if cs[j] == '\n' {
        lemma_plain_scan(cs, j + 1, line + 1, 1, buf.push('\n'));
    } else {
        lemma_plain_scan(cs, j + 1, line, col + 1, buf.push(cs[j]));
    }
}

/// A plain (non-`f`) string literal never interpolates: once closed it is a
/// single literal part, whatever braces it contains.
pub proof fn law_plain_string_is_one_literal(cs: Seq<char>, j: int, line: int, col: int)
    ensures
        scan_str(cs, j, line, col, seq![], seq![], false) is Done ==> {
            let parts = scan_str(cs, j, line, col, seq![], seq![], false)->Done_0;
            parts.len() == 1 && parts[0] is Lit
        },
        scan_str(cs, j, line, col, seq![], seq![], false) !is OpenInterp,
{
    lemma_plain_scan(cs, j, line, col, seq![]);
}

/// Inside a string literal a backslash and the character after it stand for
/// one character: `\n` a newline, `\t` a tab, `\r` a carriage return, `\\`
/// a backslash, `\"` a quote, `\{` and `\}` a brace. Any other escape is
/// kept as written, backslash included. Scanning goes on two characters
/// later with that text appended.
pub proof fn law_escape_sequences(
    cs: Seq<char>,
    j: int,
    line: int,
    col: int,
    parts: Seq<SpecStrPart>,
    buf: Seq<char>,
    interp: bool,
)
    requires
        0 <= j,
        j + 1 < cs.len(),
        cs[j] == '\\',
    ensures
        ({
            let rest = |text: Seq<char>| scan_str(cs, j + 2, line, col + 2, parts, buf + text, interp);
            let here = scan_str(cs, j, line, col, parts, buf, interp);
            &&& cs[j + 1] == 'n' ==> here == rest(seq!['\n'])
            &&& cs[j + 1] == 't' ==> here == rest(seq!['\t'])
            &&& cs[j + 1] == 'r' ==> here == rest(seq!['\r'])
            &&& cs[j + 1] == '\\' ==> here == rest(seq!['\\'])
            &&& cs[j + 1] == '"' ==> here == rest(seq!['"'])
            &&& cs[j + 1] == '{' ==> here == rest(seq!['{'])
            &&& cs[j + 1] == '}' ==> here == rest(seq!['}'])
            &&& (cs[j + 1] != 'n' && cs[j + 1] != 't' && cs[j + 1] != 'r' && cs[j + 1] != '\\'
                && cs[j + 1] != '"' && cs[j + 1] != '{' && cs[j + 1] != '}') ==> here == rest(
                seq!['\\', cs[j + 1]],
            )
        }),
{
}

/// Every successful tokenization ends with a `Newline` token, so statement
/// parsing always finds a terminator.
pub proof fn law_stream_ends_with_newline(cs: Seq<char>, i: int, line: int, col: int, acc: Seq<SpecToken>)
    ensures
        lex_spec(cs, i, line, col, acc) is Ok ==> {
            let ts = lex_spec(cs, i, line, col, acc)->Ok_0;
            ts.len() > 0 && ts.last().tok is Newline && ts.len() > acc.len()
        },
    decreases cs.len() - i,
{
    if i >= cs.len() || i < 0 {
    } else {
        let c = cs[i];
        let n = peek_next(cs, i);
        if c == '\n' {
            law_stream_ends_with_newline(cs, i + 1, line + 1, 1, acc.push(at(SpecTok::Newline, line, col)));
        } else if c == ' ' || c == '\t' || c == '\r' {
            law_stream_ends_with_newline(cs, i + 1, line, col + 1, acc);
        } else if c == '#' || (c == '/' && n == Some('/')) {
            let j = line_end(cs, i + 1);
            if i < j <= cs.len() {
                law_stream_ends_with_newline(cs, j, line, col + (j - i), acc);
            }
        } else if punct_spec(c, n) is Some {
            let (t, w) = punct_spec(c, n)->0;
            if w > 0 {
                law_stream_ends_with_newline(cs, i + w, line, col + w, acc.push(at(t, line, col)));
            }
        } else if c == '"' || (c == 'f' && n == Some('"')) {
            let start = if c == 'f' {
                i + 2
            } else {
                i + 1
            };
            match scan_str(cs, start, line, col + (start - i), seq![], seq![], c == 'f') {
                StrScan::Done(parts, next, l2, c2) => {
                    if i < next <= cs.len() {
                        law_stream_ends_with_newline(
                            cs,
                            next,
                            l2,
                            c2,
                            acc.push(at(SpecTok::Str(parts), line, col)),
                        );
                    }
                },
                _ => {},
            }
        } else if is_digit(c) {
            let j = digits_end(cs, i);
            if j + 1 < cs.len() && j >= 0 && cs[j] == '.' && is_digit(cs[j + 1]) {
                let k = digits_end(cs, j + 1);
                if i < k <= cs.len() {
                    law_stream_ends_with_newline(
                        cs,
                        k,
                        line,
                        col + (k - i),
                        acc.push(at(SpecTok::Float(cs.subrange(i, k)), line, col)),
                    );
                }
            } else if i < j <= cs.len() {
                let v = digits_value(cs.subrange(i, j));
                if v <= i64::MAX {
                    law_stream_ends_with_newline(
                        cs,
                        j,
                        line,
                        col + (j - i),
                        acc.push(at(SpecTok::Int(v as i64), line, col)),
                    );
                }
            }
        } else if is_word_start_spec(c) {
            let j = word_end(cs, i);
            if i < j <= cs.len() {
                law_stream_ends_with_newline(
                    cs,
                    j,
                    line,
                    col + (j - i),
                    acc.push(at(SpecTok::Word(cs.subrange(i, j)), line, col)),
                );
            }
        }
    }
}

/// Token `a` stands before position (`line`, `col`).
pub open spec fn pos_before(a: SpecToken, line: int, col: int) -> bool {
    a.line < line || (a.line == line && a.col < col)
}

/// Every position is at line 1 or later and column 1 or later, and each
/// token stands strictly after the one before it.
pub open spec fn positions_increase(ts: Seq<SpecToken>) -> bool {
    &&& forall|k: int| 0 <= k < ts.len() ==> #[trigger] ts[k].line >= 1 && ts[k].col >= 1
    &&& forall|k: int| 0 <= k && k + 1 < ts.len() ==> pos_before(#[trigger] ts[k], ts[k + 1].line, ts[k + 1].col)
}

proof fn lemma_push_increase(acc: Seq<SpecToken>, t: SpecToken)
    requires
        positions_increase(acc),
        t.line >= 1,
        t.col >= 1,
        acc.len() > 0 ==> pos_before(acc.last(), t.line, t.col),
    ensures
        positions_increase(acc.push(t)),
{
    let ts = acc.push(t);
    assert forall|k: int| 0 <= k && k + 1 < ts.len() implies pos_before(#[trigger] ts[k], ts[k + 1].line, ts[k + 1].col) by {
        if k + 1 < acc.len() {
            assert(ts[k] == acc[k] && ts[k + 1] == acc[k + 1]);
        } else {
            assert(ts[k] == acc.last());
        }
    }
}

/// An interpolation ends at or after where it starts.
proof fn lemma_interp_forward(cs: Seq<char>, k: int, line: int, col: int, depth: int, expr: Seq<char>)
    ensures
        scan_interp(cs, k, line, col, depth, expr) matches Some((_, _, l2, c2)) ==> (l2 > line || (l2 == line
            && c2 >= col)) && (col >= 1 ==> c2 >= 1),
    decreases cs.len() - k,
{
    if k >= cs.len() || k < 0 {
    } else {
        let ch = cs[k];
        let d = if ch == '{' {
            depth + 1
        } else if ch == '}' {
            depth - 1
        } else {
            depth
        };
        if ch == '}' && d == 0 {
        } else if ch == '\n' {
            lemma_interp_forward(cs, k + 1, line + 1, 1, d, expr.push(ch));
        } else {
            lemma_interp_forward(cs, k + 1, line, col + 1, d, expr.push(ch));
        }
    }
}

/// A string literal ends strictly after where its body starts.
proof fn lemma_str_forward(
    cs: Seq<char>,
    j: int,
    line: int,
    col: int,
    parts: Seq<SpecStrPart>,
    buf: Seq<char>,
    interp: bool,
)
    ensures
        scan_str(cs, j, line, col, parts, buf, interp) matches StrScan::Done(_, _, l2, c2) ==> (l2 > line || (l2
            == line && c2 > col)) && (col >= 1 ==> c2 >= 1),
    decreases cs.len() - j,
{
    if j >= cs.len() || j < 0 {
    } else if cs[j] == '"' {
    } else if cs[j] == '\\' && j + 1 < cs.len() {
        lemma_str_forward(cs, j + 2, line, col + 2, parts, buf + escape_spec(cs[j + 1]), interp);
    } else if interp && cs[j] == '{' {
        lemma_interp_forward(cs, j + 1, line, col + 1, 1, seq![]);
        match scan_interp(cs, j + 1, line, col + 1, 1, seq![]) {
            Some((expr, k, l2, c2)) => {
                if j < k < cs.len() {
                    lemma_str_forward(
                        cs,
                        k + 1,
                        l2,
                        c2 + 1,
                        flush_parts(parts, buf).push(SpecStrPart::Expr(expr)),
                        seq![],
                        interp,
                    );
                }
            },
            None => {},
        }
    } else if cs[j] == '\n' {
        lemma_str_forward(cs, j + 1, line + 1, 1, parts, buf.push('\n'), interp);
    } else {
        lemma_str_forward(cs, j + 1, line, col + 1, parts, buf.push(cs[j]), interp);
    }
}

proof fn lemma_lex_positions(cs: Seq<char>, i: int, line: int, col: int, acc: Seq<SpecToken>)
    requires
        positions_increase(acc),
        line >= 1,
        col >= 1,
        acc.len() > 0 ==> pos_before(acc.last(), line, col),
    ensures
        lex_spec(cs, i, line, col, acc) is Ok ==> positions_increase(lex_spec(cs, i, line, col, acc)->Ok_0),
    decreases cs.len() - i,
{
    if i >= cs.len() || i < 0 {
        lemma_push_increase(acc, at(SpecTok::Newline, line, col));
    } else {
        let c = cs[i];
        let n = peek_next(cs, i);
        if c == '\n' {
            let t = at(SpecTok::Newline, line, col);
            lemma_push_increase(acc, t);
            lemma_lex_positions(cs, i + 1, line + 1, 1, acc.push(t));
        } else if c == ' ' || c == '\t' || c == '\r' {
            lemma_lex_positions(cs, i + 1, line, col + 1, acc);
        } else if c == '#' || (c == '/' && n == Some('/')) {
            let j = line_end(cs, i + 1);
            if i < j <= cs.len() {
                lemma_lex_positions(cs, j, line, col + (j - i), acc);
            }
        } else if punct_spec(c, n) is Some {
            let (t, w) = punct_spec(c, n)->0;
            if w > 0 {
                lemma_push_increase(acc, at(t, line, col));
                lemma_lex_positions(cs, i + w, line, col + w, acc.push(at(t, line, col)));
            }
        } else if c == '"' || (c == 'f' && n == Some('"')) {
            let start = if c == 'f' {
                i + 2
            } else {
                i + 1
            };
            lemma_str_forward(cs, start, line, col + (start - i), seq![], seq![], c == 'f');
            match scan_str(cs, start, line, col + (start - i), seq![], seq![], c == 'f') {
                StrScan::Done(parts, next, l2, c2) => {
                    if i < next <= cs.len() {
                        let t = at(SpecTok::Str(parts), line, col);
                        lemma_push_increase(acc, t);
                        lemma_lex_positions(cs, next, l2, c2, acc.push(t));
                    }
                },
                _ => {},
            }
        } else if is_digit(c) {
            let j = digits_end(cs, i);
            if j + 1 < cs.len() && j >= 0 && cs[j] == '.' && is_digit(cs[j + 1]) {
                let k = digits_end(cs, j + 1);
                if i < k <= cs.len() {
                    let t = at(SpecTok::Float(cs.subrange(i, k)), line, col);
                    lemma_push_increase(acc, t);
                    lemma_lex_positions(cs, k, line, col + (k - i), acc.push(t));
                }
            } else if i < j <= cs.len() {
                let v = digits_value(cs.subrange(i, j));
                if v <= i64::MAX {
                    let t = at(SpecTok::Int(v as i64), line, col);
                    lemma_push_increase(acc, t);
                    lemma_lex_positions(cs, j, line, col + (j - i), acc.push(t));
                }
            }
        } else if is_word_start_spec(c) {
            let j = word_end(cs, i);
            if i < j <= cs.len() {
                let t = at(SpecTok::Word(cs.subrange(i, j)), line, col);
                lemma_push_increase(acc, t);
                lemma_lex_positions(cs, j, line, col + (j - i), acc.push(t));
            }
        }
    }
}

/// Token positions start at line 1, column 1 or later, and strictly
/// increase through the stream: each token stands after the one before it.
pub proof fn law_token_positions_increase(src: Seq<char>)
    ensures
        tokenize_spec(src) is Ok ==> positions_increase(tokenize_spec(src)->Ok_0),
{
    lemma_lex_positions(src, 0, 1, 1, seq![]);
}

/// A name as the language spells it: a letter or `_`, then letters, digits
/// and `_`.
pub open spec fn is_identifier(w: Seq<char>) -> bool {
    w.len() > 0 && is_word_start_spec(w[0]) && forall|j: int| 0 <= j < w.len() ==> is_word_cont_spec(#[trigger] w[j])
}

/// A number as the language spells it: digits, a `.`, digits.
pub open spec fn is_decimal_text(f: Seq<char>) -> bool {
    exists|d: int|
        0 < d < f.len() - 1 && #[trigger] f[d] == '.' && forall|j: int| 0 <= j < f.len() && j != d ==> is_digit(#[trigger] f[j])
}

/// What each word and number token holds.
pub open spec fn token_texts_ok(ts: Seq<SpecToken>) -> bool {
    forall|k: int|
        0 <= k < ts.len() ==> match #[trigger] ts[k].tok {
            SpecTok::Word(w) => is_identifier(w),
            SpecTok::Int(v) => v >= 0,
            SpecTok::Float(f) => is_decimal_text(f),
            _ => true,
        }
}

proof fn lemma_push_text_ok(acc: Seq<SpecToken>, t: SpecToken)
    requires
        token_texts_ok(acc),
        token_texts_ok(seq![t]),
    ensures
        token_texts_ok(acc.push(t)),
{
    assert forall|k: int| 0 <= k < acc.push(t).len() implies match #[trigger] acc.push(t)[k].tok {
        SpecTok::Word(w) => is_identifier(w),
        SpecTok::Int(v) => v >= 0,
        SpecTok::Float(f) => is_decimal_text(f),
        _ => true,
    } by {
        if k < acc.len() {
            assert(acc.push(t)[k] == acc[k]);
        } else {
            assert(acc.push(t)[k] == seq![t][0]);
        }
    }
}

proof fn lemma_lex_texts(cs: Seq<char>, i: int, line: int, col: int, acc: Seq<SpecToken>)
    requires
        token_texts_ok(acc),
    ensures
        lex_spec(cs, i, line, col, acc) is Ok ==> token_texts_ok(lex_spec(cs, i, line, col, acc)->Ok_0),
    decreases cs.len() - i,
{
    if i >= cs.len() || i < 0 {
        lemma_push_text_ok(acc, at(SpecTok::Newline, line, col));
    } else {
        let c = cs[i];
        let n = peek_next(cs, i);
        if c == '\n' {
            let t = at(SpecTok::Newline, line, col);
            lemma_push_text_ok(acc, t);
            lemma_lex_texts(cs, i + 1, line + 1, 1, acc.push(t));
        } else if c == ' ' || c == '\t' || c == '\r' {
            lemma_lex_texts(cs, i + 1, line, col + 1, acc);
        } else if c == '#' || (c == '/' && n == Some('/')) {
            let j = line_end(cs, i + 1);
            if i < j <= cs.len() {
                lemma_lex_texts(cs, j, line, col + (j - i), acc);
            }
        } else if punct_spec(c, n) is Some {
            let (t, w) = punct_spec(c, n)->0;
            if w > 0 {
                lemma_push_text_ok(acc, at(t, line, col));
                lemma_lex_texts(cs, i + w, line, col + w, acc.push(at(t, line, col)));
            }
        } else if c == '"' || (c == 'f' && n == Some('"')) {
            let start = if c == 'f' {
                i + 2
            } else {
                i + 1
            };
            match scan_str(cs, start, line, col + (start - i), seq![], seq![], c == 'f') {
                StrScan::Done(parts, next, l2, c2) => {
                    if i < next <= cs.len() {
                        let t = at(SpecTok::Str(parts), line, col);
                        lemma_push_text_ok(acc, t);
                        lemma_lex_texts(cs, next, l2, c2, acc.push(t));
                    }
                },
                _ => {},
            }
        } else if is_digit(c) {
            let j = digits_end(cs, i);
            lemma_digits_end(cs, i);
            if j + 1 < cs.len() && j >= 0 && cs[j] == '.' && is_digit(cs[j + 1]) {
                let k = digits_end(cs, j + 1);
                lemma_digits_end(cs, j + 1);
                if i < k <= cs.len() {
                    let f = cs.subrange(i, k);
                    assert(f[j - i] == '.');
                    assert forall|m: int| 0 <= m < f.len() && m != j - i implies is_digit(#[trigger] f[m]) by {
                        assert(f[m] == cs[i + m]);
                    }
                    assert(is_decimal_text(f));
                    let t = at(SpecTok::Float(f), line, col);
                    lemma_push_text_ok(acc, t);
                    lemma_lex_texts(cs, k, line, col + (k - i), acc.push(t));
                }
            } else if i < j <= cs.len() {
                let v = digits_value(cs.subrange(i, j));
                assert forall|m: int| 0 <= m < cs.subrange(i, j).len() implies is_digit(cs.subrange(i, j)[m]) by {
                    assert(cs.subrange(i, j)[m] == cs[i + m]);
                }
                lemma_digits_value_nonneg(cs.subrange(i, j));
                if v <= i64::MAX {
                    let t = at(SpecTok::Int(v as i64), line, col);
                    lemma_push_text_ok(acc, t);
                    lemma_lex_texts(cs, j, line, col + (j - i), acc.push(t));
                }
            }
        } else if is_word_start_spec(c) {
            let j = word_end(cs, i);
            lemma_word_end(cs, i);
            if i < j <= cs.len() {
                let w = cs.subrange(i, j);
                assert forall|m: int| 0 <= m < w.len() implies is_word_cont_spec(#[trigger] w[m]) by {
                    assert(w[m] == cs[i + m]);
                }
                let t = at(SpecTok::Word(w), line, col);
                lemma_push_text_ok(acc, t);
                lemma_lex_texts(cs, j, line, col + (j - i), acc.push(t));
            }
        }
    }
}

/// The words and numbers of a tokenized source are spelled as the language
/// says: every word token is an identifier (`[A-Za-z_][A-Za-z0-9_]*`),
/// every integer is non-negative (a minus sign is a token of its own), and
/// every float is digits, a `.` and digits.
pub proof fn law_token_texts(src: Seq<char>)
    ensures
        tokenize_spec(src) is Ok ==> token_texts_ok(tokenize_spec(src)->Ok_0),
{
    lemma_lex_texts(src, 0, 1, 1, seq![]);
}

} // verus!
