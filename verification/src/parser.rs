//! Recursive-descent parser: token stream to `Program`.
//!
//! Every parse function takes the current nesting depth; re-entering the
//! expression or block grammar deeper than `MAX_PARSE_DEPTH` levels is reported
//! as a parse error instead of exhausting the native stack.
use vstd::prelude::*;

use crate::ast::{
    AssignTarget, BashAction, BinOp, CallSegment, Expr, Function, ImplBlock, InterpPart, Literal, Program,
    Stmt, StructDef, UnaryOp,
};
use crate::commands::{is_known_command, is_known_command_spec};
use crate::lexer::{parts_view, tokenize, SpecStrPart, StrPart, Tok, Token};
use crate::numfmt::{dec_signed, i64_to_dec};
use crate::text::{str_chars, string_is, strings_view};
use crate::collections::{join_str, join_texts};
use crate::grammar_steps::{
    lemma_and_ok, lemma_and_rest, lemma_arg_loop, lemma_arglist_ok, lemma_args_loop, lemma_args_ok, lemma_atom_ok,
    lemma_comparison_ok, lemma_expr_ok, lemma_level_ok, lemma_level_rest, lemma_list_loop, lemma_map_loop,
    lemma_not_ok, lemma_operand_ok, lemma_or_ok, lemma_or_rest, lemma_postfix_ok, lemma_power_ok, lemma_primary_ok,
    lemma_segs_loop, lemma_segs_ok, lemma_unary_ok, lemma_word_run,
};
use crate::grammar::{expr_err, items_err, lemma_command_word, phrase_err, stmt_err, Nt};
use crate::grammar_steps::lemma_phrase_err;
use crate::grammar::{
    assign_op_at, block_ok, call_ok, chain_end, colon_block, def_starts, impl_body, impl_ok, impl_starts,
    items_start, method_starts, methods_end, stmt_starts, struct_ok, struct_starts, else_ok, expr_line_ok, function_ok, header_ok, items_ok, line_end, params_ok, program_ok,
    stmt_ok,
};
use crate::grammar_steps::{lemma_block_ok, lemma_colon_block, lemma_else_ok, lemma_stmt_ok};
use crate::grammar::{
    and_ok, and_rest, arg_loop, arglist_ok, args_loop, args_ok, atom_ok, comparison_ok, expr_ok, kind_at, level_ok,
    level_rest, list_loop, map_loop, not_ok, operand_ok, or_ok, or_rest, owed, postfix_ok, power_ok, primary_ok,
    segs_loop, segs_ok, unary_ok, word_run,
};

verus! {

/// How deeply expressions and blocks may nest.
pub const MAX_PARSE_DEPTH: usize = 128;

#[derive(Debug)]
pub struct ParseError {
    pub line: usize,
    pub col: usize,
    pub message: String,
}

/// Parser state: the token stream and the index of the next token.
pub struct P {
    pub tokens: Vec<Token>,
    pub pos: usize,
}

/// A reported position is either "end of input" (0, 0) or the position of a
/// token of the stream.
pub open spec fn points_at(ts: Seq<Token>, line: usize, col: usize) -> bool {
    (line == 0 && col == 0) || exists|k: int| 0 <= k < ts.len() && ts[k].line == line && ts[k].col == col
}

/// A parse step that `e` says fails for want of an operand fails, pointing
/// at that token.
pub open spec fn erred<T>(e: Option<int>, ts: Seq<Token>, r: Result<T, ParseError>) -> bool {
    e matches Some(q) ==> (0 <= q < ts.len() && (r matches Err(er) && er.line == ts[q].line && er.col == ts[q].col))
}

/// The contract shared by all parse steps: the token stream is untouched, the
/// cursor only moves forward and stays in bounds, a `strict` step consumes at
/// least one token when it succeeds, and an error points at a real token.
pub open spec fn steps<T>(old: P, new: P, r: Result<T, ParseError>, strict: bool) -> bool {
    &&& new.tokens@ == old.tokens@
    &&& old.pos <= new.pos <= new.tokens@.len()
    &&& (strict && r is Ok) ==> old.pos < new.pos
    &&& r matches Err(e) ==> points_at(old.tokens@, e.line, e.col)
}

pub open spec fn wf(p: P) -> bool {
    p.pos <= p.tokens@.len()
}

/// Token kinds, for comparisons that ignore payloads.
#[derive(Clone, Copy, PartialEq, Eq, Structural)]
pub enum K {
    Word,
    Str,
    Int,
    Float,
    LParen,
    RParen,
    LBracket,
    RBracket,
    LBrace,
    RBrace,
    Comma,
    Equals,
    Colon,
    Semicolon,
    Dot,
    Newline,
    Plus,
    Minus,
    Star,
    Slash,
    Percent,
    Caret,
    EqEq,
    BangEq,
    Lt,
    Gt,
    LtEq,
    GtEq,
    LtLt,
    GtGt,
    PlusEq,
    MinusEq,
    StarEq,
    SlashEq,
    PercentEq,
    PlusPlus,
    MinusMinus,
    Question,
    Amp,
    Pipe,
    Tilde,
    CaretCaret,
    ColonColon,
    Arrow,
}

/// The kind of a token: its constructor.
pub open spec fn kind_spec(t: Tok) -> K {
    match t {
        Tok::Word(_) => K::Word,
        Tok::Str(_) => K::Str,
        Tok::Int(_) => K::Int,
        Tok::Float(_) => K::Float,
        Tok::LParen => K::LParen,
        Tok::RParen => K::RParen,
        Tok::LBracket => K::LBracket,
        Tok::RBracket => K::RBracket,
        Tok::LBrace => K::LBrace,
        Tok::RBrace => K::RBrace,
        Tok::Comma => K::Comma,
        Tok::Equals => K::Equals,
        Tok::Colon => K::Colon,
        Tok::Semicolon => K::Semicolon,
        Tok::Dot => K::Dot,
        Tok::Newline => K::Newline,
        Tok::Plus => K::Plus,
        Tok::Minus => K::Minus,
        Tok::Star => K::Star,
        Tok::Slash => K::Slash,
        Tok::Percent => K::Percent,
        Tok::Caret => K::Caret,
        Tok::EqEq => K::EqEq,
        Tok::BangEq => K::BangEq,
        Tok::Lt => K::Lt,
        Tok::Gt => K::Gt,
        Tok::LtEq => K::LtEq,
        Tok::GtEq => K::GtEq,
        Tok::LtLt => K::LtLt,
        Tok::GtGt => K::GtGt,
        Tok::PlusEq => K::PlusEq,
        Tok::MinusEq => K::MinusEq,
        Tok::StarEq => K::StarEq,
        Tok::SlashEq => K::SlashEq,
        Tok::PercentEq => K::PercentEq,
        Tok::PlusPlus => K::PlusPlus,
        Tok::MinusMinus => K::MinusMinus,
        Tok::Question => K::Question,
        Tok::Amp => K::Amp,
        Tok::Pipe => K::Pipe,
        Tok::Tilde => K::Tilde,
        Tok::CaretCaret => K::CaretCaret,
        Tok::ColonColon => K::ColonColon,
        Tok::Arrow => K::Arrow,
    }
}

/// A token that ends a statement: a newline or a semicolon.
pub open spec fn blank(t: Tok) -> bool {
    t is Newline || t is Semicolon
}

/// The token at `i` is the word `w`.
pub open spec fn word_at(ts: Seq<Token>, i: int, w: Seq<char>) -> bool {
    &&& 0 <= i < ts.len()
    &&& ts[i].tok matches Tok::Word(s) && s@ == w
}

/// The first position at or after `i` that does not hold a blank token.
pub open spec fn skip_blank(ts: Seq<Token>, i: int) -> int
    decreases ts.len() - i,
{
    if 0 <= i < ts.len() && blank(ts[i].tok) {
        skip_blank(ts, i + 1)
    } else {
        i
    }
}

pub fn kind_of(t: &Tok) -> (r: K)
    ensures
        r == kind_spec(*t),
{
    match t {
        Tok::Word(_) => K::Word,
        Tok::Str(_) => K::Str,
        Tok::Int(_) => K::Int,
        Tok::Float(_) => K::Float,
        Tok::LParen => K::LParen,
        Tok::RParen => K::RParen,
        Tok::LBracket => K::LBracket,
        Tok::RBracket => K::RBracket,
        Tok::LBrace => K::LBrace,
        Tok::RBrace => K::RBrace,
        Tok::Comma => K::Comma,
        Tok::Equals => K::Equals,
        Tok::Colon => K::Colon,
        Tok::Semicolon => K::Semicolon,
        Tok::Dot => K::Dot,
        Tok::Newline => K::Newline,
        Tok::Plus => K::Plus,
        Tok::Minus => K::Minus,
        Tok::Star => K::Star,
        Tok::Slash => K::Slash,
        Tok::Percent => K::Percent,
        Tok::Caret => K::Caret,
        Tok::EqEq => K::EqEq,
        Tok::BangEq => K::BangEq,
        Tok::Lt => K::Lt,
        Tok::Gt => K::Gt,
        Tok::LtEq => K::LtEq,
        Tok::GtEq => K::GtEq,
        Tok::LtLt => K::LtLt,
        Tok::GtGt => K::GtGt,
        Tok::PlusEq => K::PlusEq,
        Tok::MinusEq => K::MinusEq,
        Tok::StarEq => K::StarEq,
        Tok::SlashEq => K::SlashEq,
        Tok::PercentEq => K::PercentEq,
        Tok::PlusPlus => K::PlusPlus,
        Tok::MinusMinus => K::MinusMinus,
        Tok::Question => K::Question,
        Tok::Amp => K::Amp,
        Tok::Pipe => K::Pipe,
        Tok::Tilde => K::Tilde,
        Tok::CaretCaret => K::CaretCaret,
        Tok::ColonColon => K::ColonColon,
        Tok::Arrow => K::Arrow,
    }
}

fn msg(s: &str) -> (r: String)
    ensures
        r@ == s@,
{
    String::from_str(s)
}

fn msg3(a: &str, b: &str, c: &str) -> (r: String)
    ensures
        r@ == a@ + b@ + c@,
{
    let mut r = String::from_str(a);
    r.append(b);
    r.append(c);
    r
}

/// Decimal rendering of a signed integer.
pub fn i64_to_string(n: i64) -> (r: String)
    ensures
        r@ == dec_signed(n as int),
{
    i64_to_dec(n)
}

/// A short description of a token for error messages.
/// How a token is named in error messages.
pub open spec fn describe_spec(t: Tok) -> Seq<char> {
    match t {
        Tok::Word(w) => "Word(\""@ + w@ + "\")"@,
        Tok::Str(_) => "Str(..)"@,
        Tok::Int(n) => "Int("@ + dec_signed(n as int) + ")"@,
        Tok::Float(f) => "Float("@ + f@ + ")"@,
        Tok::LParen => "LParen"@,
        Tok::RParen => "RParen"@,
        Tok::LBracket => "LBracket"@,
        Tok::RBracket => "RBracket"@,
        Tok::LBrace => "LBrace"@,
        Tok::RBrace => "RBrace"@,
        Tok::Comma => "Comma"@,
        Tok::Equals => "Equals"@,
        Tok::Colon => "Colon"@,
        Tok::Semicolon => "Semicolon"@,
        Tok::Dot => "Dot"@,
        Tok::Newline => "Newline"@,
        Tok::Plus => "Plus"@,
        Tok::Minus => "Minus"@,
        Tok::Star => "Star"@,
        Tok::Slash => "Slash"@,
        Tok::Percent => "Percent"@,
        Tok::Caret => "Caret"@,
        Tok::EqEq => "EqEq"@,
        Tok::BangEq => "BangEq"@,
        Tok::Lt => "Lt"@,
        Tok::Gt => "Gt"@,
        Tok::LtEq => "LtEq"@,
        Tok::GtEq => "GtEq"@,
        Tok::LtLt => "LtLt"@,
        Tok::GtGt => "GtGt"@,
        Tok::PlusEq => "PlusEq"@,
        Tok::MinusEq => "MinusEq"@,
        Tok::StarEq => "StarEq"@,
        Tok::SlashEq => "SlashEq"@,
        Tok::PercentEq => "PercentEq"@,
        Tok::PlusPlus => "PlusPlus"@,
        Tok::MinusMinus => "MinusMinus"@,
        Tok::Question => "Question"@,
        Tok::Amp => "Amp"@,
        Tok::Pipe => "Pipe"@,
        Tok::Tilde => "Tilde"@,
        Tok::CaretCaret => "CaretCaret"@,
        Tok::ColonColon => "ColonColon"@,
        Tok::Arrow => "Arrow"@,
    }
}

pub fn describe_tok(t: &Tok) -> (r: String)
    ensures
        r@ == describe_spec(*t),
{
    match t {
        Tok::Word(w) => {
            let mut s = String::from_str("Word(\"");
            s.append(w.as_str());
            s.append("\")");
            s
        },
        Tok::Str(_) => String::from_str("Str(..)"),
        Tok::Int(n) => {
            let mut s = String::from_str("Int(");
            let d = i64_to_string(*n);
            s.append(d.as_str());
            s.append(")");
            s
        },
        Tok::Float(f) => {
            let mut s = String::from_str("Float(");
            s.append(f.as_str());
            s.append(")");
            s
        },
        Tok::LParen => String::from_str("LParen"),
        Tok::RParen => String::from_str("RParen"),
        Tok::LBracket => String::from_str("LBracket"),
        Tok::RBracket => String::from_str("RBracket"),
        Tok::LBrace => String::from_str("LBrace"),
        Tok::RBrace => String::from_str("RBrace"),
        Tok::Comma => String::from_str("Comma"),
        Tok::Equals => String::from_str("Equals"),
        Tok::Colon => String::from_str("Colon"),
        Tok::Semicolon => String::from_str("Semicolon"),
        Tok::Dot => String::from_str("Dot"),
        Tok::Newline => String::from_str("Newline"),
        Tok::Plus => String::from_str("Plus"),
        Tok::Minus => String::from_str("Minus"),
        Tok::Star => String::from_str("Star"),
        Tok::Slash => String::from_str("Slash"),
        Tok::Percent => String::from_str("Percent"),
        Tok::Caret => String::from_str("Caret"),
        Tok::EqEq => String::from_str("EqEq"),
        Tok::BangEq => String::from_str("BangEq"),
        Tok::Lt => String::from_str("Lt"),
        Tok::Gt => String::from_str("Gt"),
        Tok::LtEq => String::from_str("LtEq"),
        Tok::GtEq => String::from_str("GtEq"),
        Tok::LtLt => String::from_str("LtLt"),
        Tok::GtGt => String::from_str("GtGt"),
        Tok::PlusEq => String::from_str("PlusEq"),
        Tok::MinusEq => String::from_str("MinusEq"),
        Tok::StarEq => String::from_str("StarEq"),
        Tok::SlashEq => String::from_str("SlashEq"),
        Tok::PercentEq => String::from_str("PercentEq"),
        Tok::PlusPlus => String::from_str("PlusPlus"),
        Tok::MinusMinus => String::from_str("MinusMinus"),
        Tok::Question => String::from_str("Question"),
        Tok::Amp => String::from_str("Amp"),
        Tok::Pipe => String::from_str("Pipe"),
        Tok::Tilde => String::from_str("Tilde"),
        Tok::CaretCaret => String::from_str("CaretCaret"),
        Tok::ColonColon => String::from_str("ColonColon"),
        Tok::Arrow => String::from_str("Arrow"),
    }
}

impl P {
    pub fn new(tokens: Vec<Token>) -> (p: P)
        ensures
            p.tokens@ == tokens@,
            p.pos == 0,
    {
        P { tokens, pos: 0 }
    }

    /// Kind of the token `off` places ahead of the cursor.
    pub fn kind(&self, off: usize) -> (r: Option<K>)
        requires
            wf(*self),
        ensures
            r == if off < self.tokens@.len() - self.pos {
                Some(kind_spec(self.tokens@[self.pos + off].tok))
            } else {
                None::<K>
            },
    {
        if off < self.tokens.len() - self.pos {
            Some(kind_of(&self.tokens[self.pos + off].tok))
        } else {
            None
        }
    }

    pub fn kind_is(&self, off: usize, k: K) -> (r: bool)
        requires
            wf(*self),
        ensures
            r == (off < self.tokens@.len() - self.pos && kind_spec(self.tokens@[self.pos + off].tok) == k),
    {
        match self.kind(off) {
            Some(x) => x == k,
            None => false,
        }
    }

    /// The text of the word `off` places ahead, if that token is a word.
    pub fn word(&self, off: usize) -> (r: Option<&String>)
        requires
            wf(*self),
        ensures
            match r {
                Some(s) => off < self.tokens@.len() - self.pos && self.tokens@[self.pos + off].tok == Tok::Word(
                    *s,
                ),
                None => !(off < self.tokens@.len() - self.pos && self.tokens@[self.pos + off].tok is Word),
            },
    {
        if off < self.tokens.len() - self.pos {
            match &self.tokens[self.pos + off].tok {
                Tok::Word(w) => Some(w),
                _ => None,
            }
        } else {
            None
        }
    }

    pub fn is_word(&self, off: usize, w: &str) -> (r: bool)
        requires
            wf(*self),
        ensures
            r == word_at(self.tokens@, self.pos + off, w@),
    {
        match self.word(off) {
            Some(s) => string_is(s, w),
            None => false,
        }
    }

    /// Line of the current token, or 0 at end of input.
    pub fn line_here(&self) -> (r: usize)
        requires
            wf(*self),
        ensures
            r == if self.pos < self.tokens@.len() {
                self.tokens@[self.pos as int].line
            } else {
                0
            },
    {
        if self.pos < self.tokens.len() {
            self.tokens[self.pos].line
        } else {
            0
        }
    }

    pub fn col_here(&self) -> (r: usize)
        requires
            wf(*self),
        ensures
            r == if self.pos < self.tokens@.len() {
                self.tokens@[self.pos as int].col
            } else {
                0
            },
    {
        if self.pos < self.tokens.len() {
            self.tokens[self.pos].col
        } else {
            0
        }
    }

    pub fn advance(&mut self)
        requires
            old(self).pos < old(self).tokens@.len(),
        ensures
            final(self).pos == old(self).pos + 1,
            final(self).tokens@ == old(self).tokens@,
    {
        let n = self.tokens.len();
        assert(self.pos < n);
        self.pos = self.pos + 1;
    }

    /// An error at the current token (or at end of input).
    pub fn err_here(&self, message: String) -> (e: ParseError)
        requires
            wf(*self),
        ensures
            points_at(self.tokens@, e.line, e.col),
            e.message == message,
            self.pos < self.tokens@.len() ==> e.line == self.tokens@[self.pos as int].line && e.col
                == self.tokens@[self.pos as int].col,
    {
        if self.pos < self.tokens.len() {
            let t = &self.tokens[self.pos];
            assert(self.tokens@[self.pos as int] == *t);
            ParseError { line: t.line, col: t.col, message }
        } else {
            ParseError { line: 0, col: 0, message }
        }
    }

    /// An error at the token with index `idx`.
    pub fn err_at(&self, idx: usize, message: String) -> (e: ParseError)
        requires
            idx < self.tokens@.len(),
        ensures
            points_at(self.tokens@, e.line, e.col),
            e.message == message,
            e.line == self.tokens@[idx as int].line && e.col == self.tokens@[idx as int].col,
    {
        let t = &self.tokens[idx];
        assert(self.tokens@[idx as int] == *t);
        ParseError { line: t.line, col: t.col, message }
    }

    pub fn skip_newlines(&mut self)
        requires
            wf(*old(self)),
        ensures
            final(self).tokens@ == old(self).tokens@,
            old(self).pos <= final(self).pos <= final(self).tokens@.len(),
            final(self).pos == skip_blank(old(self).tokens@, old(self).pos as int),
    {
        while self.kind_is(0, K::Newline) || self.kind_is(0, K::Semicolon)
            invariant
                self.tokens@ == old(self).tokens@,
                old(self).pos <= self.pos <= self.tokens@.len(),
                skip_blank(self.tokens@, self.pos as int) == skip_blank(old(self).tokens@, old(self).pos as int),
            decreases self.tokens@.len() - self.pos,
        {
            self.advance();
        }
    }

    pub fn expect_newline(&mut self) -> (r: Result<(), ParseError>)
        requires
            wf(*old(self)),
        ensures
            steps(*old(self), *final(self), r, false),
            r is Ok <==> (old(self).pos >= old(self).tokens@.len() || blank(
                old(self).tokens@[old(self).pos as int].tok,
            )),
            r is Ok ==> final(self).pos == if old(self).pos < old(self).tokens@.len() {
                old(self).pos + 1
            } else {
                old(self).pos as int
            },
            r is Err ==> final(self).pos == old(self).pos,
    {
        if self.kind_is(0, K::Newline) || self.kind_is(0, K::Semicolon) {
            self.advance();
            Ok(())
        } else if self.pos >= self.tokens.len() {
            Ok(())
        } else {
            Err(self.err_here(msg("expected end of line")))
        }
    }

    /// Consumes the word `w`; returns the line of that token.
    pub fn expect_word(&mut self, w: &str) -> (r: Result<usize, ParseError>)
        requires
            wf(*old(self)),
        ensures
            steps(*old(self), *final(self), r, true),
            r is Ok <==> word_at(old(self).tokens@, old(self).pos as int, w@),
            r matches Ok(l) ==> l == old(self).tokens@[old(self).pos as int].line && final(self).pos == old(
                self,
            ).pos + 1,
    {
        if self.is_word(0, w) {
            let line = self.tokens[self.pos].line;
            self.advance();
            Ok(line)
        } else {
            Err(self.err_here(msg3("expected `", w, "`")))
        }
    }

    /// Consumes a token of kind `k`.
    pub fn expect_kind(&mut self, k: K, label: &str) -> (r: Result<(), ParseError>)
        requires
            wf(*old(self)),
        ensures
            steps(*old(self), *final(self), r, true),
            r is Ok <==> (old(self).pos < old(self).tokens@.len() && kind_spec(
                old(self).tokens@[old(self).pos as int].tok,
            ) == k),
            r is Ok ==> final(self).pos == old(self).pos + 1,
    {
        if self.kind_is(0, k) {
            self.advance();
            Ok(())
        } else {
            Err(self.err_here(msg3("expected ", label, "")))
        }
    }

    /// Consumes a word token and returns its text.
    pub fn take_word(&mut self) -> (r: Option<String>)
        requires
            wf(*old(self)),
        ensures
            final(self).tokens@ == old(self).tokens@,
            r is Some ==> final(self).pos == old(self).pos + 1,
            r is None ==> final(self).pos == old(self).pos,
            final(self).pos <= final(self).tokens@.len(),
            match r {
                Some(s) => old(self).pos < old(self).tokens@.len() && old(self).tokens@[old(
                    self,
                ).pos as int].tok == Tok::Word(s),
                None => !(old(self).pos < old(self).tokens@.len() && old(self).tokens@[old(
                    self,
                ).pos as int].tok is Word),
            },
    {
        let w = match self.word(0) {
            Some(s) => s.clone(),
            None => {
                return None;
            },
        };
        self.advance();
        Some(w)
    }
}

/// The message of an input that nests deeper than the parser goes.
pub open spec fn deep_message() -> Seq<char> {
    "expression or block nested too deeply"@
}

/// `n` opening brackets `(` in a row from `i`.
pub open spec fn paren_run(ts: Seq<Token>, i: int, n: int) -> bool {
    forall|k: int| 0 <= k < n ==> 0 <= i + k < ts.len() && (#[trigger] ts[i + k]).tok is LParen
}

/// More `(` in a row from `i` than the levels left below `MAX_PARSE_DEPTH`
/// when reading at nesting level `depth`.
#[verifier::opaque]
pub open spec fn too_deep(ts: Seq<Token>, i: int, depth: usize) -> bool {
    depth <= MAX_PARSE_DEPTH && paren_run(ts, i, MAX_PARSE_DEPTH - depth + 1)
}

proof fn lemma_too_deep_next(ts: Seq<Token>, i: int, depth: usize)
    requires
        too_deep(ts, i, depth),
    ensures
        0 <= i < ts.len() && ts[i].tok is LParen,
        depth < MAX_PARSE_DEPTH ==> too_deep(ts, i + 1, (depth + 1) as usize),
{
    reveal(too_deep);
    assert(ts[i + 0].tok is LParen);
    if depth < MAX_PARSE_DEPTH {
        assert forall|k: int| 0 <= k < MAX_PARSE_DEPTH - (depth + 1) + 1 implies 0 <= i + 1 + k < ts.len() && (
        #[trigger] ts[i + 1 + k]).tok is LParen by {
            assert(ts[i + (k + 1)].tok is LParen);
        }
    }
}

/// Moves one nesting level deeper, or reports that the input nests too deeply.
fn deeper(p: &P, depth: usize) -> (r: Result<usize, ParseError>)
    requires
        wf(*p),
    ensures
        match r {
            Ok(d) => d == depth + 1 && d <= MAX_PARSE_DEPTH,
            Err(e) => points_at(p.tokens@, e.line, e.col) && e.message@ == deep_message(),
        },
        r is Err <==> depth >= MAX_PARSE_DEPTH,
{
    if depth >= MAX_PARSE_DEPTH {
        Err(p.err_here(msg("expression or block nested too deeply")))
    } else {
        Ok(depth + 1)
    }
}

/// `end` or `end<digits>`.
/// `end` followed by digits only (`end`, `end0`, `end12`).
pub open spec fn end_marker_spec(w: Seq<char>) -> bool {
    &&& w.len() >= 3
    &&& w[0] == 'e' && w[1] == 'n' && w[2] == 'd'
    &&& forall|k: int| 3 <= k < w.len() ==> '0' <= #[trigger] w[k] <= '9'
}

fn is_end_marker(w: &String) -> (r: bool)
    ensures
        r == end_marker_spec(w@),
{
    let cs = str_chars(w.as_str());
    if cs.len() < 3 || cs[0] != 'e' || cs[1] != 'n' || cs[2] != 'd' {
        return false;
    }
    let mut k: usize = 3;
    while k < cs.len()
        invariant
            cs@ == w@,
            3 <= k <= cs@.len(),
            cs@[0] == 'e' && cs@[1] == 'n' && cs@[2] == 'd',
            forall|i: int| 3 <= i < k ==> '0' <= #[trigger] cs@[i] <= '9',
        decreases cs.len() - k,
    {
        if !('0' <= cs[k] && cs[k] <= '9') {
            return false;
        }
        k += 1;
    }
    true
}

fn clone_parts(ps: &Vec<StrPart>) -> (r: Vec<StrPart>)
    ensures
        parts_view(r@) == parts_view(ps@),
{
    let mut out: Vec<StrPart> = Vec::new();
    let mut k: usize = 0;
    while k < ps.len()
        invariant
            k <= ps@.len(),
            parts_view(out@) == parts_view(ps@.take(k as int)),
        decreases ps.len() - k,
    {
        let part = match &ps[k] {
            StrPart::Lit(s) => StrPart::Lit(s.clone()),
            StrPart::Expr(s) => StrPart::Expr(s.clone()),
        };
        assert(part@ == ps@[k as int]@);
        let ghost before = out@;
        out.push(part);
        proof {
            assert(ps@.take(k + 1) =~= ps@.take(k as int).push(ps@[k as int]));
            assert(parts_view(out@) =~= parts_view(before).push(ps@[k as int]@));
            assert(parts_view(ps@.take(k + 1)) =~= parts_view(ps@.take(k as int)).push(ps@[k as int]@));
        }
        k += 1;
    }
    assert(ps@.take(ps@.len() as int) =~= ps@);
    out
}

fn int_here(p: &P) -> (r: i64)
    requires
        wf(*p),
    ensures
        p.pos < p.tokens@.len() ==> (p.tokens@[p.pos as int].tok matches Tok::Int(n) ==> r == n),
{
    if p.pos < p.tokens.len() {
        match &p.tokens[p.pos].tok {
            Tok::Int(n) => *n,
            _ => 0,
        }
    } else {
        0
    }
}

fn float_here(p: &P) -> (r: String)
    requires
        wf(*p),
    ensures
        p.pos < p.tokens@.len() ==> (p.tokens@[p.pos as int].tok matches Tok::Float(f) ==> r@ == f@),
{
    if p.pos < p.tokens.len() {
        match &p.tokens[p.pos].tok {
            Tok::Float(f) => f.clone(),
            _ => String::new(),
        }
    } else {
        String::new()
    }
}

fn parts_here(p: &P) -> (r: Vec<StrPart>)
    requires
        wf(*p),
    ensures
        p.pos < p.tokens@.len() ==> (p.tokens@[p.pos as int].tok matches Tok::Str(ps) ==> parts_view(r@)
            == parts_view(ps@)),
        !(p.pos < p.tokens@.len() && p.tokens@[p.pos as int].tok is Str) ==> r@.len() == 0,
{
    if p.pos < p.tokens.len() {
        match &p.tokens[p.pos].tok {
            Tok::Str(parts) => clone_parts(parts),
            _ => Vec::new(),
        }
    } else {
        Vec::new()
    }
}

/// The literal text of string parts, in order (interpolated parts left out).
pub open spec fn lit_concat(ps: Seq<SpecStrPart>) -> Seq<char>
    decreases ps.len(),
{
    if ps.len() == 0 {
        seq![]
    } else {
        lit_concat(ps.drop_last()) + match ps.last() {
            SpecStrPart::Lit(t) => t,
            SpecStrPart::Expr(_) => seq![],
        }
    }
}

/// Concatenation of the literal parts of a string token.
fn literal_text(parts: &Vec<StrPart>) -> (r: String)
    ensures
        r@ == lit_concat(parts_view(parts@)),
{
    let mut s = String::new();
    let mut k: usize = 0;
    while k < parts.len()
        invariant
            k <= parts@.len(),
            s@ == lit_concat(parts_view(parts@.take(k as int))),
        decreases parts.len() - k,
    {
        proof {
            assert(parts_view(parts@.take(k + 1)).drop_last() =~= parts_view(parts@.take(k as int)));
        }
        match &parts[k] {
            StrPart::Lit(t) => s.append(t.as_str()),
            StrPart::Expr(_) => {},
        }
        k += 1;
    }
    assert(parts@.take(parts@.len() as int) =~= parts@);
    s
}

/// The first position at or after `k` of a keyword argument named `key`.
pub open spec fn key_index(ns: Seq<(String, Expr)>, key: Seq<char>, k: int) -> Option<int>
    decreases ns.len() - k,
{
    if k < 0 || k >= ns.len() {
        None
    } else if ns[k].0@ == key {
        Some(k)
    } else {
        key_index(ns, key, k + 1)
    }
}

/// Records a keyword argument; a repeated keyword keeps its last value.
fn insert_named(named: &mut Vec<(String, Expr)>, key: String, value: Expr)
    ensures
        match key_index(old(named)@, key@, 0) {
            Some(i) => final(named)@ == old(named)@.update(i, (key, value)),
            None => final(named)@ == old(named)@.push((key, value)),
        },
{
    let mut k: usize = 0;
    while k < named.len()
        invariant
            named@ == old(named)@,
            k <= named@.len(),
            key_index(named@, key@, 0) == key_index(named@, key@, k as int),
        decreases named.len() - k,
    {
        if named[k].0 == key {
            named.set(k, (key, value));
            return ;
        }
        k += 1;
    }
    named.push((key, value));
}

/// Expression precedence (low to high): ternary, or, and, not, comparison,
/// bit-or, bit-xor, bit-and, shift, add/sub, mul/div/mod, power
/// (right-associative), unary, postfix, primary.
/// The binary operator a token stands for.
pub open spec fn binop_of_kind(k: K) -> Option<BinOp> {
    match k {
        K::Caret => Some(BinOp::Pow),
        K::Star => Some(BinOp::Mul),
        K::Slash => Some(BinOp::Div),
        K::Percent => Some(BinOp::Mod),
        K::Plus => Some(BinOp::Add),
        K::Minus => Some(BinOp::Sub),
        K::LtLt => Some(BinOp::Shl),
        K::GtGt => Some(BinOp::Shr),
        K::Amp => Some(BinOp::BitAnd),
        K::CaretCaret => Some(BinOp::BitXor),
        K::Pipe => Some(BinOp::BitOr),
        K::EqEq => Some(BinOp::Eq),
        K::BangEq => Some(BinOp::Ne),
        K::Lt => Some(BinOp::Lt),
        K::Gt => Some(BinOp::Gt),
        K::LtEq => Some(BinOp::Le),
        K::GtEq => Some(BinOp::Ge),
        _ => None,
    }
}

/// How tightly a binary operator binds: comparisons 2, `|` 3, `^^` 4, `&` 5,
/// shifts 6, `+ -` 7, `* / %` 8, `^` 9 (the word operators, 0).
pub open spec fn prec(op: BinOp) -> int {
    match op {
        BinOp::Eq | BinOp::Ne | BinOp::Lt | BinOp::Gt | BinOp::Le | BinOp::Ge => 2,
        BinOp::BitOr => 3,
        BinOp::BitXor => 4,
        BinOp::BitAnd => 5,
        BinOp::Shl | BinOp::Shr => 6,
        BinOp::Add | BinOp::Sub => 7,
        BinOp::Mul | BinOp::Div | BinOp::Mod => 8,
        BinOp::Pow => 9,
        BinOp::And | BinOp::Or => 0,
    }
}

/// The symbol operators and how tightly they bind: `+ - * / %` are the
/// arithmetic operators, `^` is power, `<< >>` shifts, `&`, `^^` and `|` the
/// bitwise and, xor and or, `== != < > <= >=` the comparisons; no other
/// token is a binary operator. From loosest to tightest: comparisons, `|`,
/// `^^`, `&`, shifts, `+ -`, `* / %`, and `^`.
pub proof fn law_operator_table(k: K)
    ensures
        binop_of_kind(K::Plus) == Some(BinOp::Add),
        binop_of_kind(K::Minus) == Some(BinOp::Sub),
        binop_of_kind(K::Star) == Some(BinOp::Mul),
        binop_of_kind(K::Slash) == Some(BinOp::Div),
        binop_of_kind(K::Percent) == Some(BinOp::Mod),
        binop_of_kind(K::Caret) == Some(BinOp::Pow),
        binop_of_kind(K::LtLt) == Some(BinOp::Shl),
        binop_of_kind(K::GtGt) == Some(BinOp::Shr),
        binop_of_kind(K::Amp) == Some(BinOp::BitAnd),
        binop_of_kind(K::CaretCaret) == Some(BinOp::BitXor),
        binop_of_kind(K::Pipe) == Some(BinOp::BitOr),
        binop_of_kind(K::EqEq) == Some(BinOp::Eq),
        binop_of_kind(K::BangEq) == Some(BinOp::Ne),
        binop_of_kind(K::Lt) == Some(BinOp::Lt),
        binop_of_kind(K::Gt) == Some(BinOp::Gt),
        binop_of_kind(K::LtEq) == Some(BinOp::Le),
        binop_of_kind(K::GtEq) == Some(BinOp::Ge),
        binop_of_kind(k) is Some ==> (k is Plus || k is Minus || k is Star || k is Slash || k is Percent || k is Caret || k is LtLt || k is GtGt || k is Amp || k is CaretCaret || k is Pipe || k is EqEq || k is BangEq || k is Lt || k is Gt || k is LtEq || k is GtEq),
        prec(BinOp::Eq) == prec(BinOp::Ne) == prec(BinOp::Lt) == prec(BinOp::Gt) == prec(BinOp::Le) == prec(
            BinOp::Ge,
        ),
        prec(BinOp::Eq) < prec(BinOp::BitOr) < prec(BinOp::BitXor) < prec(BinOp::BitAnd) < prec(BinOp::Shl),
        prec(BinOp::Shl) == prec(BinOp::Shr),
        prec(BinOp::Shl) < prec(BinOp::Add) == prec(BinOp::Sub) < prec(BinOp::Mul),
        prec(BinOp::Mul) == prec(BinOp::Div) == prec(BinOp::Mod) < prec(BinOp::Pow),
{
}

/// The token at `k` is the operator `op`, written on `line`.
pub open spec fn op_at(ts: Seq<Token>, k: int, op: BinOp, line: usize) -> bool {
    0 <= k < ts.len() && binop_of_kind(kind_spec(ts[k].tok)) == Some(op) && ts[k].line == line
}

/// No operator binding at least as tightly as level `lvl` (comparisons
/// aside) stands at `j`: an expression parsed at that level ends there.
pub open spec fn no_op_from(ts: Seq<Token>, j: int, lvl: int) -> bool {
    !(0 <= j < ts.len() && (binop_of_kind(kind_spec(ts[j].tok)) matches Some(op) && prec(op) >= lvl && prec(
        op,
    ) != 2))
}

/// A token that extends the value before it: a call, an index or a field.
pub open spec fn postfix_tok(t: Tok) -> bool {
    t is LParen || t is LBracket || t is Dot
}

/// A token of an expression built from numbers, names and symbol operators:
/// an operator, `?`, `:`, or a single-token operand that nothing extends.
pub open spec fn simple_tok(ts: Seq<Token>, k: int) -> bool {
    let next_extends = k + 1 < ts.len() && postfix_tok(ts[k + 1].tok);
    match ts[k].tok {
        Tok::Int(_) | Tok::Float(_) => !next_extends,
        Tok::Word(w) => !(w@ == "fn"@ || w@ == "and"@ || w@ == "or"@ || w@ == "not"@) && !next_extends && !(k + 1
            < ts.len() && (ts[k + 1].tok is ColonColon || ts[k + 1].tok is LBrace || ts[k + 1].tok is Word)),
        t => binop_of_kind(kind_spec(t)) is Some || t is Tilde || t is Question || t is Colon,
    }
}

pub open spec fn simple_span(ts: Seq<Token>, i: int, j: int) -> bool {
    forall|k: int| i <= k < j ==> simple_tok(ts, k)
}

/// The operand a single token stands for.
pub open spec fn leaf_expr(ts: Seq<Token>, i: int, e: Expr) -> bool {
    match ts[i].tok {
        Tok::Int(n) => e == Expr::Lit(Literal::Int(n)),
        Tok::Float(f) => e matches Expr::Lit(Literal::Float(g)) && g@ == f@,
        Tok::Word(w) => match keyword_literal(w@) {
            Some(l) => e == Expr::Lit(l),
            None => e matches Expr::Var(v) && v@ == w@,
        },
        _ => false,
    }
}

/// `e` is the tree of the tokens `ts[i..j]` read at precedence level `lvl`:
/// 1 `c ? a : b`, 2 a comparison (not chained), 3 to 8 the left-associative
/// operators `|`, `^^`, `&`, shifts, `+ -`, `* / %`, 9 a right-associative
/// `^` over unary operands, 10 prefix `-`, `~` and `+`, 11 a single operand.
pub open spec fn level_at(ts: Seq<Token>, i: int, j: int, e: Expr, lvl: int) -> bool
    decreases e, 12 - lvl, j - i,
{
    if lvl <= 1 {
        match e {
            Expr::Ternary { cond, then_expr, else_expr, line } => exists|k1: int, k2: int|
                #![trigger ts[k1], ts[k2]]
                i < k1 < k2 < j && ts[k1].tok is Question && ts[k1].line == line && ts[k2].tok is Colon
                    && level_at(ts, i, k1, *cond, 2) && level_at(ts, k1 + 1, k2, *then_expr, 1) && level_at(
                    ts,
                    k2 + 1,
                    j,
                    *else_expr,
                    1,
                ),
            _ => level_at(ts, i, j, e, 2),
        }
    } else if lvl <= 8 {
        match e {
            Expr::Binary { op, lhs, rhs, line } => if prec(op) == lvl {
                let left_lvl = if lvl == 2 {
                    3
                } else {
                    lvl
                };
                exists|k: int|
                    #![trigger ts[k]]
                    i < k < j && op_at(ts, k, op, line) && level_at(ts, i, k, *lhs, left_lvl) && level_at(
                        ts,
                        k + 1,
                        j,
                        *rhs,
                        lvl + 1,
                    )
            } else {
                level_at(ts, i, j, e, lvl + 1)
            },
            _ => level_at(ts, i, j, e, lvl + 1),
        }
    } else if lvl == 9 {
        match e {
            Expr::Binary { op, lhs, rhs, line } => if op == BinOp::Pow {
                exists|k: int|
                    #![trigger ts[k]]
                    i < k < j && op_at(ts, k, op, line) && level_at(ts, i, k, *lhs, 10) && level_at(
                        ts,
                        k + 1,
                        j,
                        *rhs,
                        9,
                    )
            } else {
                level_at(ts, i, j, e, 10)
            },
            _ => level_at(ts, i, j, e, 10),
        }
    } else if lvl == 10 {
        if !(0 <= i < j <= ts.len()) {
            false
        } else {
            match ts[i].tok {
                Tok::Minus => match e {
                    Expr::Unary { op, expr, line } => op == UnaryOp::Neg && line == ts[i].line && level_at(
                        ts,
                        i + 1,
                        j,
                        *expr,
                        10,
                    ),
                    _ => false,
                },
                Tok::Tilde => match e {
                    Expr::Unary { op, expr, line } => op == UnaryOp::BitNot && line == ts[i].line && level_at(
                        ts,
                        i + 1,
                        j,
                        *expr,
                        10,
                    ),
                    _ => false,
                },
                Tok::Plus => level_at(ts, i + 1, j, e, 10),
                _ => level_at(ts, i, j, e, 11),
            }
        }
    } else {
        0 <= i < ts.len() && j == i + 1 && leaf_expr(ts, i, e)
    }
}

/// How tightly the outermost operator of a tree binds (100 for an operand or
/// a prefix operator).
pub open spec fn top_prec(e: Expr) -> int {
    match e {
        Expr::Ternary { .. } => 1,
        Expr::Binary { op, .. } => prec(op),
        _ => 100,
    }
}

/// A tree read at level `lvl` has no looser operator at its top.
proof fn lemma_level_top(ts: Seq<Token>, i: int, j: int, e: Expr, lvl: int)
    requires
        level_at(ts, i, j, e, lvl),
        1 <= lvl <= 11,
    ensures
        top_prec(e) >= lvl,
    decreases e, 12 - lvl, j - i,
{
    if lvl <= 1 {
        match e {
            Expr::Ternary { .. } => {},
            _ => {
                lemma_level_top(ts, i, j, e, 2);
            },
        }
    } else if lvl <= 8 {
        match e {
            Expr::Binary { op, lhs, rhs, line } => {
                if prec(op) != lvl {
                    lemma_level_top(ts, i, j, e, lvl + 1);
                }
            },
            _ => {
                lemma_level_top(ts, i, j, e, lvl + 1);
            },
        }
    } else if lvl == 9 {
        match e {
            Expr::Binary { op, .. } => {
                if op != BinOp::Pow {
                    lemma_level_top(ts, i, j, e, 10);
                }
            },
            _ => {
                lemma_level_top(ts, i, j, e, 10);
            },
        }
    } else if lvl == 10 {
        match ts[i].tok {
            Tok::Plus => {
                lemma_level_top(ts, i + 1, j, e, 10);
            },
            Tok::Minus | Tok::Tilde => {},
            _ => {
                lemma_level_top(ts, i, j, e, 11);
            },
        }
    }
}

/// A tree read at a tighter level is also read at a looser one.
proof fn lemma_level_lift(ts: Seq<Token>, i: int, j: int, e: Expr, lvl: int)
    requires
        level_at(ts, i, j, e, lvl + 1),
        1 <= lvl <= 10,
    ensures
        level_at(ts, i, j, e, lvl),
{
    lemma_level_top(ts, i, j, e, lvl + 1);
}

/// An operand token: a number or a name.
pub open spec fn operand_tok(t: Tok) -> bool {
    t is Int || t is Float || t is Word
}

/// A tree read at any level ends with an operand.
proof fn lemma_level_ends_with_operand(ts: Seq<Token>, i: int, j: int, e: Expr, lvl: int)
    requires
        level_at(ts, i, j, e, lvl),
    ensures
        0 <= i < j <= ts.len(),
        operand_tok(ts[j - 1].tok),
    decreases e, 12 - lvl, j - i,
{
    if lvl <= 1 {
        match e {
            Expr::Ternary { cond, then_expr, else_expr, line } => {
                let (k1, k2) = choose|k1: int, k2: int|
                    #![trigger ts[k1], ts[k2]]
                    i < k1 < k2 < j && ts[k1].tok is Question && ts[k1].line == line && ts[k2].tok is Colon
                        && level_at(ts, i, k1, *cond, 2) && level_at(ts, k1 + 1, k2, *then_expr, 1) && level_at(
                        ts,
                        k2 + 1,
                        j,
                        *else_expr,
                        1,
                    );
                lemma_level_ends_with_operand(ts, i, k1, *cond, 2);
                lemma_level_ends_with_operand(ts, k2 + 1, j, *else_expr, 1);
            },
            _ => {
                lemma_level_ends_with_operand(ts, i, j, e, 2);
            },
        }
    } else if lvl <= 9 {
        match e {
            Expr::Binary { op, lhs, rhs, line } => {
                if (lvl <= 8 && prec(op) == lvl) || (lvl == 9 && op == BinOp::Pow) {
                    let left_lvl = if lvl == 2 {
                        3
                    } else if lvl == 9 {
                        10
                    } else {
                        lvl
                    };
                    let right_lvl = if lvl == 9 {
                        9
                    } else {
                        lvl + 1
                    };
                    let k = choose|k: int|
                        #![trigger ts[k]]
                        i < k < j && op_at(ts, k, op, line) && level_at(ts, i, k, *lhs, left_lvl) && level_at(
                            ts,
                            k + 1,
                            j,
                            *rhs,
                            right_lvl,
                        );
                    lemma_level_ends_with_operand(ts, i, k, *lhs, left_lvl);
                    lemma_level_ends_with_operand(ts, k + 1, j, *rhs, right_lvl);
                } else {
                    lemma_level_ends_with_operand(ts, i, j, e, lvl + 1);
                }
            },
            _ => {
                lemma_level_ends_with_operand(ts, i, j, e, lvl + 1);
            },
        }
    } else if lvl == 10 {
        match ts[i].tok {
            Tok::Minus | Tok::Tilde => match e {
                Expr::Unary { expr, .. } => {
                    lemma_level_ends_with_operand(ts, i + 1, j, *expr, 10);
                },
                _ => {},
            },
            Tok::Plus => {
                lemma_level_ends_with_operand(ts, i + 1, j, e, 10);
            },
            _ => {
                lemma_level_ends_with_operand(ts, i, j, e, 11);
            },
        }
    }
}

/// Inside a tree read at level `lvl` (2 or tighter), a token that follows an
/// operand is an operator binding at least as tightly as `lvl`.
proof fn lemma_operator_after_operand(ts: Seq<Token>, i: int, j: int, e: Expr, lvl: int, k: int)
    requires
        level_at(ts, i, j, e, lvl),
        2 <= lvl <= 11,
        i < k < j,
        operand_tok(ts[k - 1].tok),
    ensures
        binop_of_kind(kind_spec(ts[k].tok)) matches Some(op) && prec(op) >= lvl,
    decreases e, 12 - lvl, j - i,
{
    if lvl <= 9 {
        match e {
            Expr::Binary { op, lhs, rhs, line } => {
                if (lvl <= 8 && prec(op) == lvl) || (lvl == 9 && op == BinOp::Pow) {
                    let left_lvl = if lvl == 2 {
                        3
                    } else if lvl == 9 {
                        10
                    } else {
                        lvl
                    };
                    let right_lvl = if lvl == 9 {
                        9
                    } else {
                        lvl + 1
                    };
                    let m = choose|m: int|
                        #![trigger ts[m]]
                        i < m < j && op_at(ts, m, op, line) && level_at(ts, i, m, *lhs, left_lvl) && level_at(
                            ts,
                            m + 1,
                            j,
                            *rhs,
                            right_lvl,
                        );
                    if k < m {
                        lemma_operator_after_operand(ts, i, m, *lhs, left_lvl, k);
                    } else if k > m + 1 {
                        lemma_operator_after_operand(ts, m + 1, j, *rhs, right_lvl, k);
                    }
                } else {
                    lemma_operator_after_operand(ts, i, j, e, lvl + 1, k);
                }
            },
            _ => {
                lemma_operator_after_operand(ts, i, j, e, lvl + 1, k);
            },
        }
    } else if lvl == 10 {
        match ts[i].tok {
            Tok::Minus | Tok::Tilde => match e {
                Expr::Unary { expr, .. } => {
                    if k > i + 1 {
                        lemma_operator_after_operand(ts, i + 1, j, *expr, 10, k);
                    }
                },
                _ => {},
            },
            Tok::Plus => {
                if k > i + 1 {
                    lemma_operator_after_operand(ts, i + 1, j, e, 10, k);
                }
            },
            _ => {
                assert(level_at(ts, i, j, e, 11));
            },
        }
    }
}

/// Two trees are the same, names and float literals compared by their text.
pub open spec fn same_tree(a: Expr, b: Expr) -> bool
    decreases a,
{
    match a {
        Expr::Lit(la) => match b {
            Expr::Lit(lb) => match (la, lb) {
                (Literal::Float(x), Literal::Float(y)) => x@ == y@,
                (Literal::Str(x), Literal::Str(y)) => x@ == y@,
                _ => la == lb,
            },
            _ => false,
        },
        Expr::Var(x) => b matches Expr::Var(y) && x@ == y@,
        Expr::Unary { op, expr, line } => match b {
            Expr::Unary { op: op2, expr: expr2, line: line2 } => op == op2 && line == line2 && same_tree(
                *expr,
                *expr2,
            ),
            _ => false,
        },
        Expr::Binary { op, lhs, rhs, line } => match b {
            Expr::Binary { op: op2, lhs: lhs2, rhs: rhs2, line: line2 } => op == op2 && line == line2
                && same_tree(*lhs, *lhs2) && same_tree(*rhs, *rhs2),
            _ => false,
        },
        _ => false,
    }
}

proof fn lemma_tree_unique(ts: Seq<Token>, i: int, j: int, e1: Expr, e2: Expr, lvl: int)
    requires
        level_at(ts, i, j, e1, lvl),
        level_at(ts, i, j, e2, lvl),
        2 <= lvl <= 11,
    ensures
        same_tree(e1, e2),
    decreases e1, 12 - lvl, j - i,
{
    if lvl <= 9 {
        let own1 = match e1 {
            Expr::Binary { op, .. } => (lvl <= 8 && prec(op) == lvl) || (lvl == 9 && op == BinOp::Pow),
            _ => false,
        };
        let own2 = match e2 {
            Expr::Binary { op, .. } => (lvl <= 8 && prec(op) == lvl) || (lvl == 9 && op == BinOp::Pow),
            _ => false,
        };
        let left_lvl = if lvl == 2 {
            3
        } else if lvl == 9 {
            10
        } else {
            lvl
        };
        let right_lvl = if lvl == 9 {
            9
        } else {
            lvl + 1
        };
        if own1 && own2 {
            match (e1, e2) {
                (
                    Expr::Binary { op: op1, lhs: l1, rhs: r1, line: line1 },
                    Expr::Binary { op: op2, lhs: l2, rhs: r2, line: line2 },
                ) => {
                    let m1 = choose|m: int|
                        #![trigger ts[m]]
                        i < m < j && op_at(ts, m, op1, line1) && level_at(ts, i, m, *l1, left_lvl) && level_at(
                            ts,
                            m + 1,
                            j,
                            *r1,
                            right_lvl,
                        );
                    let m2 = choose|m: int|
                        #![trigger ts[m]]
                        i < m < j && op_at(ts, m, op2, line2) && level_at(ts, i, m, *l2, left_lvl) && level_at(
                            ts,
                            m + 1,
                            j,
                            *r2,
                            right_lvl,
                        );
                    lemma_level_ends_with_operand(ts, i, m1, *l1, left_lvl);
                    lemma_level_ends_with_operand(ts, i, m2, *l2, left_lvl);
                    if lvl == 9 {
                        if m1 < m2 {
                            lemma_operator_after_operand(ts, i, m2, *l2, 10, m1);
                        } else if m2 < m1 {
                            lemma_operator_after_operand(ts, i, m1, *l1, 10, m2);
                        }
                    } else {
                        if m1 + 1 < m2 {
                            lemma_operator_after_operand(ts, m1 + 1, j, *r1, right_lvl, m2);
                        } else if m2 + 1 < m1 {
                            lemma_operator_after_operand(ts, m2 + 1, j, *r2, right_lvl, m1);
                        }
                    }
                    assert(m1 == m2);
                    lemma_tree_unique(ts, i, m1, *l1, *l2, left_lvl);
                    lemma_tree_unique(ts, m1 + 1, j, *r1, *r2, right_lvl);
                },
                _ => {},
            }
        } else if own1 {
            match e1 {
                Expr::Binary { op: op1, lhs: l1, rhs: r1, line: line1 } => {
                    let m1 = choose|m: int|
                        #![trigger ts[m]]
                        i < m < j && op_at(ts, m, op1, line1) && level_at(ts, i, m, *l1, left_lvl) && level_at(
                            ts,
                            m + 1,
                            j,
                            *r1,
                            right_lvl,
                        );
                    lemma_level_ends_with_operand(ts, i, m1, *l1, left_lvl);
                    lemma_operator_after_operand(ts, i, j, e2, lvl + 1, m1);
                },
                _ => {},
            }
        } else if own2 {
            match e2 {
                Expr::Binary { op: op2, lhs: l2, rhs: r2, line: line2 } => {
                    let m2 = choose|m: int|
                        #![trigger ts[m]]
                        i < m < j && op_at(ts, m, op2, line2) && level_at(ts, i, m, *l2, left_lvl) && level_at(
                            ts,
                            m + 1,
                            j,
                            *r2,
                            right_lvl,
                        );
                    lemma_level_ends_with_operand(ts, i, m2, *l2, left_lvl);
                    lemma_operator_after_operand(ts, i, j, e1, lvl + 1, m2);
                },
                _ => {},
            }
        } else {
            lemma_tree_unique(ts, i, j, e1, e2, lvl + 1);
        }
    } else if lvl == 10 {
        match ts[i].tok {
            Tok::Minus | Tok::Tilde => match (e1, e2) {
                (Expr::Unary { expr: x1, .. }, Expr::Unary { expr: x2, .. }) => {
                    lemma_tree_unique(ts, i + 1, j, *x1, *x2, 10);
                },
                _ => {},
            },
            Tok::Plus => {
                lemma_tree_unique(ts, i + 1, j, e1, e2, 10);
            },
            _ => {
                lemma_tree_unique(ts, i, j, e1, e2, 11);
            },
        }
    } else {
        match ts[i].tok {
            Tok::Word(w) => match keyword_literal(w@) {
                Some(l) => {},
                None => {},
            },
            _ => {},
        }
    }
}

/// An expression of numbers, names and symbol operators without `? :` has a
/// single tree: two trees of the same tokens at the same level are the same
/// (names and float literals compared by their text).
pub proof fn law_expression_tree_is_unique(ts: Seq<Token>, i: int, j: int, e1: Expr, e2: Expr, lvl: int)
    requires
        1 <= lvl <= 11,
        level_at(ts, i, j, e1, lvl),
        level_at(ts, i, j, e2, lvl),
        forall|k: int| i <= k < j ==> !(#[trigger] ts[k].tok is Question),
    ensures
        same_tree(e1, e2),
{
    if lvl == 1 {
        assert(!(e1 is Ternary));
        assert(!(e2 is Ternary));
        lemma_tree_unique(ts, i, j, e1, e2, 2);
    } else {
        lemma_tree_unique(ts, i, j, e1, e2, lvl);
    }
}

/// A read never runs past a line break that follows only numbers, names and
/// symbol operators: such a line break ends the expression.
pub open spec fn no_blank_in(ts: Seq<Token>, i: int, j: int) -> bool {
    forall|q: int| i <= q < j && #[trigger] simple_span(ts, i, q) ==> !blank(ts[q].tok)
}

/// Joining two reads across a token that is not blank.
proof fn lemma_no_blank_join(ts: Seq<Token>, i: int, k: int, j: int)
    requires
        i <= k < j <= ts.len(),
        no_blank_in(ts, i, k),
        !blank(ts[k].tok),
        no_blank_in(ts, k + 1, j),
    ensures
        no_blank_in(ts, i, j),
{
    assert forall|q: int| i <= q < j && #[trigger] simple_span(ts, i, q) implies !blank(ts[q].tok) by {
        if q > k {
            assert(simple_span(ts, k + 1, q));
        }
    }
}

/// A read that starts on a token that is not blank and either is a single
/// token or starts with a token that is not simple.
proof fn lemma_no_blank_head(ts: Seq<Token>, i: int, j: int)
    requires
        0 <= i < j <= ts.len(),
        !blank(ts[i].tok),
        j == i + 1 || !simple_tok(ts, i),
    ensures
        no_blank_in(ts, i, j),
{
    assert forall|q: int| i <= q < j && #[trigger] simple_span(ts, i, q) implies !blank(ts[q].tok) by {
        if q > i {
            assert(simple_tok(ts, i));
        }
    }
}

/// What a parse at level `lvl` gives: on success, the tree of the tokens it
/// consumed when they form a simple expression, and it stops before any
/// operator it could still have taken.
pub open spec fn reads_at(ts: Seq<Token>, i: int, j: int, r: Result<Expr, ParseError>, lvl: int) -> bool {
    r matches Ok(e) ==> ((simple_span(ts, i, j) ==> level_at(ts, i, j, e, lvl)) && no_blank_in(ts, i, j) && no_op_from(
        ts,
        j,
        if lvl < 3 {
            3
        } else {
            lvl
        },
    ) && (lvl <= 1 ==> !(0 <= j < ts.len() && ts[j].tok is Question)))
}

/// The operator of level `lvl` that a token kind stands for.
pub open spec fn op_of_level(k: Option<K>, lvl: int) -> Option<BinOp> {
    match k {
        Some(kk) => match binop_of_kind(kk) {
            Some(op) => if prec(op) == lvl {
                Some(op)
            } else {
                None
            },
            None => None,
        },
        None => None,
    }
}

/// The tokens `ts[i..j]` are one or more `not` words followed by an operand
/// of them built from numbers, names and symbol operators, with no `?` or `:`.
pub open spec fn not_span(ts: Seq<Token>, i: int, j: int) -> bool
    decreases j - i,
{
    if !(0 <= i < j) || !word_at(ts, i, "not"@) {
        false
    } else if word_at(ts, i + 1, "not"@) {
        not_span(ts, i + 1, j)
    } else {
        i + 1 < j && simple_span(ts, i + 1, j) && forall|k: int|
            i + 1 <= k < j ==> !(#[trigger] ts[k].tok is Question) && !(ts[k].tok is Colon)
    }
}

/// `e` is the tree of a `not` span: each `not` negates what follows it, and
/// the operand is read as a comparison.
pub open spec fn not_read(ts: Seq<Token>, i: int, j: int, e: Expr) -> bool
    decreases j - i,
{
    if !(0 <= i < j) {
        false
    } else {
        match e {
            Expr::Unary { op, expr, line } => op == UnaryOp::Not && line == ts[i].line && if word_at(
                ts,
                i + 1,
                "not"@,
            ) {
                not_read(ts, i + 1, j, *expr)
            } else {
                level_at(ts, i + 1, j, *expr, 2)
            },
            _ => false,
        }
    }
}

/// A successful read of a `not` span gives its tree.
pub open spec fn reads_not(ts: Seq<Token>, i: int, j: int, r: Result<Expr, ParseError>) -> bool {
    r matches Ok(e) ==> (not_span(ts, i, j) ==> not_read(ts, i, j, e))
}

/// Inside a `not` span there is no `and`, `or` or `?`.
proof fn lemma_not_span_inside(ts: Seq<Token>, i: int, j: int, k: int)
    requires
        not_span(ts, i, j),
        i < k < j,
    ensures
        !word_at(ts, k, "and"@),
        !word_at(ts, k, "or"@),
        !(ts[k].tok is Question),
    decreases j - i,
{
    reveal_strlit("not");
    reveal_strlit("and");
    reveal_strlit("or");
    assert("not"@.len() != "or"@.len());
    assert("not"@[0] != "and"@[0]);
    if word_at(ts, i + 1, "not"@) {
        if k > i + 1 {
            lemma_not_span_inside(ts, i + 1, j, k);
        }
    } else {
        assert(simple_tok(ts, k));
    }
}

pub fn parse_expr(p: &mut P, depth: usize) -> (r: Result<Expr, ParseError>)
    requires
        wf(*old(p)),
        depth <= MAX_PARSE_DEPTH,
    ensures
        steps(*old(p), *final(p), r, true),
        reads_at(old(p).tokens@, old(p).pos as int, final(p).pos as int, r, 1),
        reads_not(old(p).tokens@, old(p).pos as int, final(p).pos as int, r),
        too_deep(old(p).tokens@, old(p).pos as int, depth) ==> (r matches Err(e) && e.message@ == deep_message()),
        owed(expr_ok(old(p).tokens@, old(p).pos as int, depth as int), r, final(p).pos as int),
        erred(phrase_err(old(p).tokens@, old(p).pos as int, depth as int, Nt::Expr), old(p).tokens@, r),
    decreases MAX_PARSE_DEPTH - depth, 22int,
{
    parse_ternary(p, depth)
}

fn parse_ternary(p: &mut P, depth: usize) -> (r: Result<Expr, ParseError>)
    requires
        wf(*old(p)),
        depth <= MAX_PARSE_DEPTH,
    ensures
        steps(*old(p), *final(p), r, true),
        reads_at(old(p).tokens@, old(p).pos as int, final(p).pos as int, r, 1),
        reads_not(old(p).tokens@, old(p).pos as int, final(p).pos as int, r),
        too_deep(old(p).tokens@, old(p).pos as int, depth) ==> (r matches Err(e) && e.message@ == deep_message()),
        owed(expr_ok(old(p).tokens@, old(p).pos as int, depth as int), r, final(p).pos as int),
        erred(phrase_err(old(p).tokens@, old(p).pos as int, depth as int, Nt::Expr), old(p).tokens@, r),
    decreases MAX_PARSE_DEPTH - depth, 21int,
{
    proof {
        lemma_phrase_err(old(p).tokens@, old(p).pos as int, depth as int, Nt::Expr);
    }
    proof {
        lemma_expr_ok(old(p).tokens@, old(p).pos as int, depth as int);
    }
    let ghost ts = p.tokens@;
    let ghost i = p.pos as int;
    let cond = parse_logical_or(p, depth)?;
    let ghost k1 = p.pos as int;
    if p.kind_is(0, K::Question) {
        let line = p.line_here();
        p.advance();
        let d = deeper(p, depth)?;
        let then_expr = parse_ternary(p, d)?;
        let ghost k2 = p.pos as int;
        p.expect_kind(K::Colon, "`:` in ternary")?;
        let else_expr = parse_ternary(p, d)?;
        let ghost (cg, tg, eg) = (cond, then_expr, else_expr);
        let e = Expr::Ternary {
            cond: Box::new(cond),
            then_expr: Box::new(then_expr),
            else_expr: Box::new(else_expr),
            line,
        };
        proof {
            let j = p.pos as int;
            lemma_no_blank_join(ts, k1 + 1, k2, j);
            lemma_no_blank_join(ts, i, k1, j);
            if not_span(ts, i, j) {
                lemma_not_span_inside(ts, i, j, k1);
            }
            if simple_span(ts, i, j) {
                assert(simple_span(ts, i, k1));
                assert(simple_span(ts, k1 + 1, k2));
                assert(simple_span(ts, k2 + 1, j));
                assert(i < k1 < k2 < j && ts[k1].tok is Question && ts[k1].line == line && ts[k2].tok is Colon
                    && level_at(ts, i, k1, cg, 2) && level_at(ts, k1 + 1, k2, tg, 1) && level_at(
                    ts,
                    k2 + 1,
                    j,
                    eg,
                    1,
                ));
                assert(level_at(ts, i, j, e, 1));
            }
        }
        return Ok(e);
    }
    proof {
        if simple_span(ts, i, k1) {
            lemma_level_lift(ts, i, k1, cond, 1);
        }
    }
    Ok(cond)
}

fn parse_logical_or(p: &mut P, depth: usize) -> (r: Result<Expr, ParseError>)
    requires
        wf(*old(p)),
        depth <= MAX_PARSE_DEPTH,
    ensures
        steps(*old(p), *final(p), r, true),
        reads_at(old(p).tokens@, old(p).pos as int, final(p).pos as int, r, 2),
        reads_not(old(p).tokens@, old(p).pos as int, final(p).pos as int, r),
        too_deep(old(p).tokens@, old(p).pos as int, depth) ==> (r matches Err(e) && e.message@ == deep_message()),
        owed(or_ok(old(p).tokens@, old(p).pos as int, depth as int), r, final(p).pos as int),
        erred(phrase_err(old(p).tokens@, old(p).pos as int, depth as int, Nt::Or), old(p).tokens@, r),
    decreases MAX_PARSE_DEPTH - depth, 20int,
{
    proof {
        lemma_phrase_err(old(p).tokens@, old(p).pos as int, depth as int, Nt::Or);
    }
    proof {
        lemma_or_ok(old(p).tokens@, old(p).pos as int, depth as int);
    }
    let ghost ts = p.tokens@;
    let ghost start = p.pos as int;
    let mut left = parse_logical_and(p, depth)?;
    while p.is_word(0, "or")
        invariant
            p.tokens@ == old(p).tokens@,
            ts == old(p).tokens@,
            start == old(p).pos,
            old(p).pos < p.pos <= p.tokens@.len(),
            depth <= MAX_PARSE_DEPTH,
            simple_span(ts, start, p.pos as int) ==> level_at(ts, start, p.pos as int, left, 2),
            no_blank_in(ts, start, p.pos as int),
            phrase_err(ts, start, depth as int, Nt::Or) is Some ==> phrase_err(ts, p.pos as int, depth as int, Nt::OrRest) == phrase_err(ts, start, depth as int, Nt::Or),
            or_ok(ts, start, depth as int) is Some ==> or_rest(ts, p.pos as int, depth as int) == or_ok(ts, start, depth as int),
            !too_deep(ts, start, depth),
            no_op_from(ts, p.pos as int, 3),
            reads_not(ts, start, p.pos as int, Ok::<Expr, ParseError>(left)),
        decreases p.tokens@.len() - p.pos,
    {
        proof {
            lemma_or_rest(ts, p.pos as int, depth as int);
            lemma_phrase_err(ts, p.pos as int, depth as int, Nt::OrRest);
        }
        let line = p.line_here();
        let ghost k = p.pos as int;
        p.advance();
        let right = parse_logical_and(p, depth)?;
        left = Expr::Binary { op: BinOp::Or, lhs: Box::new(left), rhs: Box::new(right), line };
        proof {
            lemma_no_blank_join(ts, start, k, p.pos as int);
        }
        assert(!simple_tok(ts, k));
        proof {
            if not_span(ts, start, p.pos as int) {
                lemma_not_span_inside(ts, start, p.pos as int, k);
            }
        }
    }
    proof {
        lemma_or_rest(ts, p.pos as int, depth as int);
        lemma_phrase_err(ts, p.pos as int, depth as int, Nt::OrRest);
    }
    Ok(left)
}

fn parse_logical_and(p: &mut P, depth: usize) -> (r: Result<Expr, ParseError>)
    requires
        wf(*old(p)),
        depth <= MAX_PARSE_DEPTH,
    ensures
        steps(*old(p), *final(p), r, true),
        reads_at(old(p).tokens@, old(p).pos as int, final(p).pos as int, r, 2),
        reads_not(old(p).tokens@, old(p).pos as int, final(p).pos as int, r),
        too_deep(old(p).tokens@, old(p).pos as int, depth) ==> (r matches Err(e) && e.message@ == deep_message()),
        owed(and_ok(old(p).tokens@, old(p).pos as int, depth as int), r, final(p).pos as int),
        erred(phrase_err(old(p).tokens@, old(p).pos as int, depth as int, Nt::And), old(p).tokens@, r),
    decreases MAX_PARSE_DEPTH - depth, 19int,
{
    proof {
        lemma_phrase_err(old(p).tokens@, old(p).pos as int, depth as int, Nt::And);
    }
    proof {
        lemma_and_ok(old(p).tokens@, old(p).pos as int, depth as int);
    }
    let ghost ts = p.tokens@;
    let ghost start = p.pos as int;
    let mut left = parse_logical_not(p, depth)?;
    while p.is_word(0, "and")
        invariant
            p.tokens@ == old(p).tokens@,
            ts == old(p).tokens@,
            start == old(p).pos,
            old(p).pos < p.pos <= p.tokens@.len(),
            depth <= MAX_PARSE_DEPTH,
            simple_span(ts, start, p.pos as int) ==> level_at(ts, start, p.pos as int, left, 2),
            no_blank_in(ts, start, p.pos as int),
            phrase_err(ts, start, depth as int, Nt::And) is Some ==> phrase_err(ts, p.pos as int, depth as int, Nt::AndRest) == phrase_err(ts, start, depth as int, Nt::And),
            and_ok(ts, start, depth as int) is Some ==> and_rest(ts, p.pos as int, depth as int) == and_ok(ts, start, depth as int),
            !too_deep(ts, start, depth),
            no_op_from(ts, p.pos as int, 3),
            reads_not(ts, start, p.pos as int, Ok::<Expr, ParseError>(left)),
        decreases p.tokens@.len() - p.pos,
    {
        proof {
            lemma_and_rest(ts, p.pos as int, depth as int);
            lemma_phrase_err(ts, p.pos as int, depth as int, Nt::AndRest);
        }
        let line = p.line_here();
        let ghost k = p.pos as int;
        p.advance();
        let right = parse_logical_not(p, depth)?;
        left = Expr::Binary { op: BinOp::And, lhs: Box::new(left), rhs: Box::new(right), line };
        proof {
            lemma_no_blank_join(ts, start, k, p.pos as int);
        }
        assert(!simple_tok(ts, k));
        proof {
            if not_span(ts, start, p.pos as int) {
                lemma_not_span_inside(ts, start, p.pos as int, k);
            }
        }
    }
    proof {
        lemma_and_rest(ts, p.pos as int, depth as int);
        lemma_phrase_err(ts, p.pos as int, depth as int, Nt::AndRest);
    }
    Ok(left)
}

fn parse_logical_not(p: &mut P, depth: usize) -> (r: Result<Expr, ParseError>)
    requires
        wf(*old(p)),
        depth <= MAX_PARSE_DEPTH,
    ensures
        steps(*old(p), *final(p), r, true),
        reads_at(old(p).tokens@, old(p).pos as int, final(p).pos as int, r, 2),
        reads_not(old(p).tokens@, old(p).pos as int, final(p).pos as int, r),
        too_deep(old(p).tokens@, old(p).pos as int, depth) ==> (r matches Err(e) && e.message@ == deep_message()),
        owed(not_ok(old(p).tokens@, old(p).pos as int, depth as int), r, final(p).pos as int),
        erred(phrase_err(old(p).tokens@, old(p).pos as int, depth as int, Nt::Not), old(p).tokens@, r),
    decreases MAX_PARSE_DEPTH - depth, 18int,
{
    proof {
        lemma_phrase_err(old(p).tokens@, old(p).pos as int, depth as int, Nt::Not);
    }
    proof {
        lemma_not_ok(old(p).tokens@, old(p).pos as int, depth as int);
    }
    proof {
        if too_deep(old(p).tokens@, old(p).pos as int, depth) {
            lemma_too_deep_next(old(p).tokens@, old(p).pos as int, depth);
        }
    }
    if p.is_word(0, "not") {
        let ghost ts = p.tokens@;
        let ghost i = p.pos as int;
        let line = p.line_here();
        p.advance();
        let d = deeper(p, depth)?;
        let inner = parse_logical_not(p, d)?;
        assert(!simple_tok(ts, i));
        return Ok(Expr::Unary { op: UnaryOp::Not, expr: Box::new(inner), line });
    }
    parse_comparison(p, depth)
}

fn comparison_op(k: Option<K>) -> (r: Option<BinOp>)
    ensures
        r == op_of_level(k, 2),
{
    match k {
        Some(K::EqEq) => Some(BinOp::Eq),
        Some(K::BangEq) => Some(BinOp::Ne),
        Some(K::Lt) => Some(BinOp::Lt),
        Some(K::Gt) => Some(BinOp::Gt),
        Some(K::LtEq) => Some(BinOp::Le),
        Some(K::GtEq) => Some(BinOp::Ge),
        _ => None,
    }
}

fn parse_comparison(p: &mut P, depth: usize) -> (r: Result<Expr, ParseError>)
    requires
        wf(*old(p)),
        depth <= MAX_PARSE_DEPTH,
    ensures
        steps(*old(p), *final(p), r, true),
        reads_at(old(p).tokens@, old(p).pos as int, final(p).pos as int, r, 2),
        too_deep(old(p).tokens@, old(p).pos as int, depth) ==> (r matches Err(e) && e.message@ == deep_message()),
        owed(comparison_ok(old(p).tokens@, old(p).pos as int, depth as int), r, final(p).pos as int),
        erred(phrase_err(old(p).tokens@, old(p).pos as int, depth as int, Nt::Comparison), old(p).tokens@, r),
    decreases MAX_PARSE_DEPTH - depth, 17int,
{
    proof {
        lemma_phrase_err(old(p).tokens@, old(p).pos as int, depth as int, Nt::Comparison);
    }
    proof {
        lemma_comparison_ok(old(p).tokens@, old(p).pos as int, depth as int);
    }
    let ghost ts = p.tokens@;
    let ghost i = p.pos as int;
    let left = parse_bit_or(p, depth)?;
    let ghost m = p.pos as int;
    let k = p.kind(0);
    match comparison_op(k) {
        Some(op) => {
            let line = p.line_here();
            if p.pos < p.tokens.len() {
                p.advance();
            }
            let right = parse_bit_or(p, depth)?;
            let ghost (lg, rg) = (left, right);
            let e = Expr::Binary { op, lhs: Box::new(left), rhs: Box::new(right), line };
            proof {
                let j = p.pos as int;
                lemma_no_blank_join(ts, i, m, j);
                if simple_span(ts, i, j) {
                    assert(simple_span(ts, i, m));
                    assert(simple_span(ts, m + 1, j));
                    assert(i < m < j && op_at(ts, m, op, line) && level_at(ts, i, m, lg, 3) && level_at(
                        ts,
                        m + 1,
                        j,
                        rg,
                        3,
                    ));
                    assert(level_at(ts, i, j, e, 2));
                }
            }
            Ok(e)
        },
        None => {
            proof {
                if simple_span(ts, i, m) {
                    lemma_level_lift(ts, i, m, left, 2);
                }
            }
            Ok(left)
        },
    }
}

fn parse_bit_or(p: &mut P, depth: usize) -> (r: Result<Expr, ParseError>)
    requires
        wf(*old(p)),
        depth <= MAX_PARSE_DEPTH,
    ensures
        steps(*old(p), *final(p), r, true),
        reads_at(old(p).tokens@, old(p).pos as int, final(p).pos as int, r, 3),
        too_deep(old(p).tokens@, old(p).pos as int, depth) ==> (r matches Err(e) && e.message@ == deep_message()),
        owed(level_ok(old(p).tokens@, old(p).pos as int, depth as int, 3), r, final(p).pos as int),
        erred(phrase_err(old(p).tokens@, old(p).pos as int, depth as int, Nt::Level(3)), old(p).tokens@, r),
    decreases MAX_PARSE_DEPTH - depth, 16int,
{
    proof {
        lemma_phrase_err(old(p).tokens@, old(p).pos as int, depth as int, Nt::Operand(3));
    }
    proof {
        lemma_phrase_err(old(p).tokens@, old(p).pos as int, depth as int, Nt::Level(3));
    }
    proof {
        lemma_level_ok(old(p).tokens@, old(p).pos as int, depth as int, 3);
        lemma_operand_ok(old(p).tokens@, old(p).pos as int, depth as int, 3);
    }
    let ghost ts = p.tokens@;
    let ghost start = p.pos as int;
    let mut left = parse_bit_xor(p, depth)?;
    proof {
        if simple_span(ts, start, p.pos as int) {
            lemma_level_lift(ts, start, p.pos as int, left, 3);
        }
    }
    while p.kind_is(0, K::Pipe)
        invariant
            p.tokens@ == old(p).tokens@,
            ts == old(p).tokens@,
            start == old(p).pos,
            old(p).pos < p.pos <= p.tokens@.len(),
            depth <= MAX_PARSE_DEPTH,
            simple_span(ts, start, p.pos as int) ==> level_at(ts, start, p.pos as int, left, 3),
            no_blank_in(ts, start, p.pos as int),
            phrase_err(ts, start, depth as int, Nt::Level(3)) is Some ==> phrase_err(ts, p.pos as int, depth as int, Nt::LevelRest(3)) == phrase_err(ts, start, depth as int, Nt::Level(3)),
            level_ok(ts, start, depth as int, 3) is Some ==> level_rest(ts, p.pos as int, depth as int, 3) == level_ok(ts, start, depth as int, 3),
            !too_deep(ts, start, depth),
            no_op_from(ts, p.pos as int, 4),
        decreases p.tokens@.len() - p.pos,
    {
        proof {
            lemma_level_rest(ts, p.pos as int, depth as int, 3);
            lemma_operand_ok(ts, p.pos + 1, depth as int, 3);
            lemma_phrase_err(ts, p.pos as int, depth as int, Nt::LevelRest(3));
            lemma_phrase_err(ts, p.pos + 1, depth as int, Nt::Operand(3));
        }
        let line = p.line_here();
        let ghost k = p.pos as int;
        p.advance();
        let right = parse_bit_xor(p, depth)?;
        let ghost (lg, rg) = (left, right);
        left = Expr::Binary { op: BinOp::BitOr, lhs: Box::new(left), rhs: Box::new(right), line };
        proof {
            lemma_no_blank_join(ts, start, k, p.pos as int);
        }
        proof {
            let j = p.pos as int;
            if simple_span(ts, start, j) {
                assert(simple_span(ts, start, k));
                assert(simple_span(ts, k + 1, j));
                assert(start < k < j && op_at(ts, k, BinOp::BitOr, line) && level_at(ts, start, k, lg, 3)
                    && level_at(ts, k + 1, j, rg, 4));
                assert(level_at(ts, start, j, left, 3));
            }
        }
    }
    proof {
        lemma_level_rest(ts, p.pos as int, depth as int, 3);
        lemma_phrase_err(ts, p.pos as int, depth as int, Nt::LevelRest(3));
    }
    Ok(left)
}

fn parse_bit_xor(p: &mut P, depth: usize) -> (r: Result<Expr, ParseError>)
    requires
        wf(*old(p)),
        depth <= MAX_PARSE_DEPTH,
    ensures
        steps(*old(p), *final(p), r, true),
        reads_at(old(p).tokens@, old(p).pos as int, final(p).pos as int, r, 4),
        too_deep(old(p).tokens@, old(p).pos as int, depth) ==> (r matches Err(e) && e.message@ == deep_message()),
        owed(level_ok(old(p).tokens@, old(p).pos as int, depth as int, 4), r, final(p).pos as int),
        erred(phrase_err(old(p).tokens@, old(p).pos as int, depth as int, Nt::Level(4)), old(p).tokens@, r),
    decreases MAX_PARSE_DEPTH - depth, 15int,
{
    proof {
        lemma_phrase_err(old(p).tokens@, old(p).pos as int, depth as int, Nt::Operand(4));
    }
    proof {
        lemma_phrase_err(old(p).tokens@, old(p).pos as int, depth as int, Nt::Level(4));
    }
    proof {
        lemma_level_ok(old(p).tokens@, old(p).pos as int, depth as int, 4);
        lemma_operand_ok(old(p).tokens@, old(p).pos as int, depth as int, 4);
    }
    let ghost ts = p.tokens@;
    let ghost start = p.pos as int;
    let mut left = parse_bit_and(p, depth)?;
    proof {
        if simple_span(ts, start, p.pos as int) {
            lemma_level_lift(ts, start, p.pos as int, left, 4);
        }
    }
    while p.kind_is(0, K::CaretCaret)
        invariant
            p.tokens@ == old(p).tokens@,
            ts == old(p).tokens@,
            start == old(p).pos,
            old(p).pos < p.pos <= p.tokens@.len(),
            depth <= MAX_PARSE_DEPTH,
            simple_span(ts, start, p.pos as int) ==> level_at(ts, start, p.pos as int, left, 4),
            no_blank_in(ts, start, p.pos as int),
            phrase_err(ts, start, depth as int, Nt::Level(4)) is Some ==> phrase_err(ts, p.pos as int, depth as int, Nt::LevelRest(4)) == phrase_err(ts, start, depth as int, Nt::Level(4)),
            level_ok(ts, start, depth as int, 4) is Some ==> level_rest(ts, p.pos as int, depth as int, 4) == level_ok(ts, start, depth as int, 4),
            !too_deep(ts, start, depth),
            no_op_from(ts, p.pos as int, 5),
        decreases p.tokens@.len() - p.pos,
    {
        proof {
            lemma_level_rest(ts, p.pos as int, depth as int, 4);
            lemma_operand_ok(ts, p.pos + 1, depth as int, 4);
            lemma_phrase_err(ts, p.pos as int, depth as int, Nt::LevelRest(4));
            lemma_phrase_err(ts, p.pos + 1, depth as int, Nt::Operand(4));
        }
        let line = p.line_here();
        let ghost k = p.pos as int;
        p.advance();
        let right = parse_bit_and(p, depth)?;
        let ghost (lg, rg) = (left, right);
        left = Expr::Binary { op: BinOp::BitXor, lhs: Box::new(left), rhs: Box::new(right), line };
        proof {
            lemma_no_blank_join(ts, start, k, p.pos as int);
        }
        proof {
            let j = p.pos as int;
            if simple_span(ts, start, j) {
                assert(simple_span(ts, start, k));
                assert(simple_span(ts, k + 1, j));
                assert(start < k < j && op_at(ts, k, BinOp::BitXor, line) && level_at(ts, start, k, lg, 4)
                    && level_at(ts, k + 1, j, rg, 5));
                assert(level_at(ts, start, j, left, 4));
            }
        }
    }
    proof {
        lemma_level_rest(ts, p.pos as int, depth as int, 4);
        lemma_phrase_err(ts, p.pos as int, depth as int, Nt::LevelRest(4));
    }
    Ok(left)
}

fn parse_bit_and(p: &mut P, depth: usize) -> (r: Result<Expr, ParseError>)
    requires
        wf(*old(p)),
        depth <= MAX_PARSE_DEPTH,
    ensures
        steps(*old(p), *final(p), r, true),
        reads_at(old(p).tokens@, old(p).pos as int, final(p).pos as int, r, 5),
        too_deep(old(p).tokens@, old(p).pos as int, depth) ==> (r matches Err(e) && e.message@ == deep_message()),
        owed(level_ok(old(p).tokens@, old(p).pos as int, depth as int, 5), r, final(p).pos as int),
        erred(phrase_err(old(p).tokens@, old(p).pos as int, depth as int, Nt::Level(5)), old(p).tokens@, r),
    decreases MAX_PARSE_DEPTH - depth, 14int,
{
    proof {
        lemma_phrase_err(old(p).tokens@, old(p).pos as int, depth as int, Nt::Operand(5));
    }
    proof {
        lemma_phrase_err(old(p).tokens@, old(p).pos as int, depth as int, Nt::Level(5));
    }
    proof {
        lemma_level_ok(old(p).tokens@, old(p).pos as int, depth as int, 5);
        lemma_operand_ok(old(p).tokens@, old(p).pos as int, depth as int, 5);
    }
    let ghost ts = p.tokens@;
    let ghost start = p.pos as int;
    let mut left = parse_shift(p, depth)?;
    proof {
        if simple_span(ts, start, p.pos as int) {
            lemma_level_lift(ts, start, p.pos as int, left, 5);
        }
    }
    while p.kind_is(0, K::Amp)
        invariant
            p.tokens@ == old(p).tokens@,
            ts == old(p).tokens@,
            start == old(p).pos,
            old(p).pos < p.pos <= p.tokens@.len(),
            depth <= MAX_PARSE_DEPTH,
            simple_span(ts, start, p.pos as int) ==> level_at(ts, start, p.pos as int, left, 5),
            no_blank_in(ts, start, p.pos as int),
            phrase_err(ts, start, depth as int, Nt::Level(5)) is Some ==> phrase_err(ts, p.pos as int, depth as int, Nt::LevelRest(5)) == phrase_err(ts, start, depth as int, Nt::Level(5)),
            level_ok(ts, start, depth as int, 5) is Some ==> level_rest(ts, p.pos as int, depth as int, 5) == level_ok(ts, start, depth as int, 5),
            !too_deep(ts, start, depth),
            no_op_from(ts, p.pos as int, 6),
        decreases p.tokens@.len() - p.pos,
    {
        proof {
            lemma_level_rest(ts, p.pos as int, depth as int, 5);
            lemma_operand_ok(ts, p.pos + 1, depth as int, 5);
            lemma_phrase_err(ts, p.pos as int, depth as int, Nt::LevelRest(5));
            lemma_phrase_err(ts, p.pos + 1, depth as int, Nt::Operand(5));
        }
        let line = p.line_here();
        let ghost k = p.pos as int;
        p.advance();
        let right = parse_shift(p, depth)?;
        let ghost (lg, rg) = (left, right);
        left = Expr::Binary { op: BinOp::BitAnd, lhs: Box::new(left), rhs: Box::new(right), line };
        proof {
            lemma_no_blank_join(ts, start, k, p.pos as int);
        }
        proof {
            let j = p.pos as int;
            if simple_span(ts, start, j) {
                assert(simple_span(ts, start, k));
                assert(simple_span(ts, k + 1, j));
                assert(start < k < j && op_at(ts, k, BinOp::BitAnd, line) && level_at(ts, start, k, lg, 5)
                    && level_at(ts, k + 1, j, rg, 6));
                assert(level_at(ts, start, j, left, 5));
            }
        }
    }
    proof {
        lemma_level_rest(ts, p.pos as int, depth as int, 5);
        lemma_phrase_err(ts, p.pos as int, depth as int, Nt::LevelRest(5));
    }
    Ok(left)
}

fn shift_op(k: Option<K>) -> (r: Option<BinOp>)
    ensures
        r == op_of_level(k, 6),
{
    match k {
        Some(K::LtLt) => Some(BinOp::Shl),
        Some(K::GtGt) => Some(BinOp::Shr),
        _ => None,
    }
}

fn additive_op(k: Option<K>) -> (r: Option<BinOp>)
    ensures
        r == op_of_level(k, 7),
{
    match k {
        Some(K::Plus) => Some(BinOp::Add),
        Some(K::Minus) => Some(BinOp::Sub),
        _ => None,
    }
}

fn multiplicative_op(k: Option<K>) -> (r: Option<BinOp>)
    ensures
        r == op_of_level(k, 8),
{
    match k {
        Some(K::Star) => Some(BinOp::Mul),
        Some(K::Slash) => Some(BinOp::Div),
        Some(K::Percent) => Some(BinOp::Mod),
        _ => None,
    }
}

fn parse_shift(p: &mut P, depth: usize) -> (r: Result<Expr, ParseError>)
    requires
        wf(*old(p)),
        depth <= MAX_PARSE_DEPTH,
    ensures
        steps(*old(p), *final(p), r, true),
        reads_at(old(p).tokens@, old(p).pos as int, final(p).pos as int, r, 6),
        too_deep(old(p).tokens@, old(p).pos as int, depth) ==> (r matches Err(e) && e.message@ == deep_message()),
        owed(level_ok(old(p).tokens@, old(p).pos as int, depth as int, 6), r, final(p).pos as int),
        erred(phrase_err(old(p).tokens@, old(p).pos as int, depth as int, Nt::Level(6)), old(p).tokens@, r),
    decreases MAX_PARSE_DEPTH - depth, 13int,
{
    proof {
        lemma_phrase_err(old(p).tokens@, old(p).pos as int, depth as int, Nt::Operand(6));
    }
    proof {
        lemma_phrase_err(old(p).tokens@, old(p).pos as int, depth as int, Nt::Level(6));
    }
    proof {
        lemma_level_ok(old(p).tokens@, old(p).pos as int, depth as int, 6);
        lemma_operand_ok(old(p).tokens@, old(p).pos as int, depth as int, 6);
    }
    let ghost ts = p.tokens@;
    let ghost start = p.pos as int;
    let mut left = parse_additive(p, depth)?;
    proof {
        if simple_span(ts, start, p.pos as int) {
            lemma_level_lift(ts, start, p.pos as int, left, 6);
        }
    }
    loop
        invariant
            p.tokens@ == old(p).tokens@,
            ts == old(p).tokens@,
            start == old(p).pos,
            old(p).pos < p.pos <= p.tokens@.len(),
            depth <= MAX_PARSE_DEPTH,
            simple_span(ts, start, p.pos as int) ==> level_at(ts, start, p.pos as int, left, 6),
            no_blank_in(ts, start, p.pos as int),
            phrase_err(ts, start, depth as int, Nt::Level(6)) is Some ==> phrase_err(ts, p.pos as int, depth as int, Nt::LevelRest(6)) == phrase_err(ts, start, depth as int, Nt::Level(6)),
            level_ok(ts, start, depth as int, 6) is Some ==> level_rest(ts, p.pos as int, depth as int, 6) == level_ok(ts, start, depth as int, 6),
            !too_deep(ts, start, depth),
            no_op_from(ts, p.pos as int, 7),
        ensures
            p.tokens@ == old(p).tokens@,
            old(p).pos < p.pos <= p.tokens@.len(),
            simple_span(ts, start, p.pos as int) ==> level_at(ts, start, p.pos as int, left, 6),
            no_blank_in(ts, start, p.pos as int),
            phrase_err(ts, start, depth as int, Nt::Level(6)) is Some ==> phrase_err(ts, p.pos as int, depth as int, Nt::LevelRest(6)) == phrase_err(ts, start, depth as int, Nt::Level(6)),
            level_ok(ts, start, depth as int, 6) is Some ==> level_rest(ts, p.pos as int, depth as int, 6) == level_ok(ts, start, depth as int, 6),
            !too_deep(ts, start, depth),
            no_op_from(ts, p.pos as int, 6),
        decreases p.tokens@.len() - p.pos,
    {
        proof {
            lemma_level_rest(ts, p.pos as int, depth as int, 6);
            lemma_operand_ok(ts, p.pos + 1, depth as int, 6);
            lemma_phrase_err(ts, p.pos as int, depth as int, Nt::LevelRest(6));
            lemma_phrase_err(ts, p.pos + 1, depth as int, Nt::Operand(6));
        }
        let op = match shift_op(p.kind(0)) {
            Some(op) => op,
            None => break,
        };
        let line = p.line_here();
        if p.pos >= p.tokens.len() {
            break;
        }
        let ghost k = p.pos as int;
        p.advance();
        let right = parse_additive(p, depth)?;
        let ghost (lg, rg) = (left, right);
        left = Expr::Binary { op, lhs: Box::new(left), rhs: Box::new(right), line };
        proof {
            lemma_no_blank_join(ts, start, k, p.pos as int);
        }
        proof {
            let j = p.pos as int;
            if simple_span(ts, start, j) {
                assert(simple_span(ts, start, k));
                assert(simple_span(ts, k + 1, j));
                assert(start < k < j && op_at(ts, k, op, line) && level_at(ts, start, k, lg, 6) && level_at(
                    ts,
                    k + 1,
                    j,
                    rg,
                    7,
                ));
                assert(level_at(ts, start, j, left, 6));
            }
        }
    }
    proof {
        lemma_level_rest(ts, p.pos as int, depth as int, 6);
        lemma_phrase_err(ts, p.pos as int, depth as int, Nt::LevelRest(6));
    }
    Ok(left)
}

fn parse_additive(p: &mut P, depth: usize) -> (r: Result<Expr, ParseError>)
    requires
        wf(*old(p)),
        depth <= MAX_PARSE_DEPTH,
    ensures
        steps(*old(p), *final(p), r, true),
        reads_at(old(p).tokens@, old(p).pos as int, final(p).pos as int, r, 7),
        too_deep(old(p).tokens@, old(p).pos as int, depth) ==> (r matches Err(e) && e.message@ == deep_message()),
        owed(level_ok(old(p).tokens@, old(p).pos as int, depth as int, 7), r, final(p).pos as int),
        erred(phrase_err(old(p).tokens@, old(p).pos as int, depth as int, Nt::Level(7)), old(p).tokens@, r),
    decreases MAX_PARSE_DEPTH - depth, 12int,
{
    proof {
        lemma_phrase_err(old(p).tokens@, old(p).pos as int, depth as int, Nt::Operand(7));
    }
    proof {
        lemma_phrase_err(old(p).tokens@, old(p).pos as int, depth as int, Nt::Level(7));
    }
    proof {
        lemma_level_ok(old(p).tokens@, old(p).pos as int, depth as int, 7);
        lemma_operand_ok(old(p).tokens@, old(p).pos as int, depth as int, 7);
    }
    let ghost ts = p.tokens@;
    let ghost start = p.pos as int;
    let mut left = parse_multiplicative(p, depth)?;
    proof {
        if simple_span(ts, start, p.pos as int) {
            lemma_level_lift(ts, start, p.pos as int, left, 7);
        }
    }
    loop
        invariant
            p.tokens@ == old(p).tokens@,
            ts == old(p).tokens@,
            start == old(p).pos,
            old(p).pos < p.pos <= p.tokens@.len(),
            depth <= MAX_PARSE_DEPTH,
            simple_span(ts, start, p.pos as int) ==> level_at(ts, start, p.pos as int, left, 7),
            no_blank_in(ts, start, p.pos as int),
            phrase_err(ts, start, depth as int, Nt::Level(7)) is Some ==> phrase_err(ts, p.pos as int, depth as int, Nt::LevelRest(7)) == phrase_err(ts, start, depth as int, Nt::Level(7)),
            level_ok(ts, start, depth as int, 7) is Some ==> level_rest(ts, p.pos as int, depth as int, 7) == level_ok(ts, start, depth as int, 7),
            !too_deep(ts, start, depth),
            no_op_from(ts, p.pos as int, 8),
        ensures
            p.tokens@ == old(p).tokens@,
            old(p).pos < p.pos <= p.tokens@.len(),
            simple_span(ts, start, p.pos as int) ==> level_at(ts, start, p.pos as int, left, 7),
            no_blank_in(ts, start, p.pos as int),
            phrase_err(ts, start, depth as int, Nt::Level(7)) is Some ==> phrase_err(ts, p.pos as int, depth as int, Nt::LevelRest(7)) == phrase_err(ts, start, depth as int, Nt::Level(7)),
            level_ok(ts, start, depth as int, 7) is Some ==> level_rest(ts, p.pos as int, depth as int, 7) == level_ok(ts, start, depth as int, 7),
            !too_deep(ts, start, depth),
            no_op_from(ts, p.pos as int, 7),
        decreases p.tokens@.len() - p.pos,
    {
        proof {
            lemma_level_rest(ts, p.pos as int, depth as int, 7);
            lemma_operand_ok(ts, p.pos + 1, depth as int, 7);
            lemma_phrase_err(ts, p.pos as int, depth as int, Nt::LevelRest(7));
            lemma_phrase_err(ts, p.pos + 1, depth as int, Nt::Operand(7));
        }
        let op = match additive_op(p.kind(0)) {
            Some(op) => op,
            None => break,
        };
        let line = p.line_here();
        if p.pos >= p.tokens.len() {
            break;
        }
        let ghost k = p.pos as int;
        p.advance();
        let right = parse_multiplicative(p, depth)?;
        let ghost (lg, rg) = (left, right);
        left = Expr::Binary { op, lhs: Box::new(left), rhs: Box::new(right), line };
        proof {
            lemma_no_blank_join(ts, start, k, p.pos as int);
        }
        proof {
            let j = p.pos as int;
            if simple_span(ts, start, j) {
                assert(simple_span(ts, start, k));
                assert(simple_span(ts, k + 1, j));
                assert(start < k < j && op_at(ts, k, op, line) && level_at(ts, start, k, lg, 7) && level_at(
                    ts,
                    k + 1,
                    j,
                    rg,
                    8,
                ));
                assert(level_at(ts, start, j, left, 7));
            }
        }
    }
    proof {
        lemma_level_rest(ts, p.pos as int, depth as int, 7);
        lemma_phrase_err(ts, p.pos as int, depth as int, Nt::LevelRest(7));
    }
    Ok(left)
}

fn parse_multiplicative(p: &mut P, depth: usize) -> (r: Result<Expr, ParseError>)
    requires
        wf(*old(p)),
        depth <= MAX_PARSE_DEPTH,
    ensures
        steps(*old(p), *final(p), r, true),
        reads_at(old(p).tokens@, old(p).pos as int, final(p).pos as int, r, 8),
        too_deep(old(p).tokens@, old(p).pos as int, depth) ==> (r matches Err(e) && e.message@ == deep_message()),
        owed(level_ok(old(p).tokens@, old(p).pos as int, depth as int, 8), r, final(p).pos as int),
        erred(phrase_err(old(p).tokens@, old(p).pos as int, depth as int, Nt::Level(8)), old(p).tokens@, r),
    decreases MAX_PARSE_DEPTH - depth, 11int,
{
    proof {
        lemma_phrase_err(old(p).tokens@, old(p).pos as int, depth as int, Nt::Operand(8));
    }
    proof {
        lemma_phrase_err(old(p).tokens@, old(p).pos as int, depth as int, Nt::Level(8));
    }
    proof {
        lemma_level_ok(old(p).tokens@, old(p).pos as int, depth as int, 8);
        lemma_operand_ok(old(p).tokens@, old(p).pos as int, depth as int, 8);
    }
    let ghost ts = p.tokens@;
    let ghost start = p.pos as int;
    let mut left = parse_power(p, depth)?;
    proof {
        if simple_span(ts, start, p.pos as int) {
            lemma_level_lift(ts, start, p.pos as int, left, 8);
        }
    }
    loop
        invariant
            p.tokens@ == old(p).tokens@,
            ts == old(p).tokens@,
            start == old(p).pos,
            old(p).pos < p.pos <= p.tokens@.len(),
            depth <= MAX_PARSE_DEPTH,
            simple_span(ts, start, p.pos as int) ==> level_at(ts, start, p.pos as int, left, 8),
            no_blank_in(ts, start, p.pos as int),
            phrase_err(ts, start, depth as int, Nt::Level(8)) is Some ==> phrase_err(ts, p.pos as int, depth as int, Nt::LevelRest(8)) == phrase_err(ts, start, depth as int, Nt::Level(8)),
            level_ok(ts, start, depth as int, 8) is Some ==> level_rest(ts, p.pos as int, depth as int, 8) == level_ok(ts, start, depth as int, 8),
            !too_deep(ts, start, depth),
            no_op_from(ts, p.pos as int, 9),
        ensures
            p.tokens@ == old(p).tokens@,
            old(p).pos < p.pos <= p.tokens@.len(),
            simple_span(ts, start, p.pos as int) ==> level_at(ts, start, p.pos as int, left, 8),
            no_blank_in(ts, start, p.pos as int),
            phrase_err(ts, start, depth as int, Nt::Level(8)) is Some ==> phrase_err(ts, p.pos as int, depth as int, Nt::LevelRest(8)) == phrase_err(ts, start, depth as int, Nt::Level(8)),
            level_ok(ts, start, depth as int, 8) is Some ==> level_rest(ts, p.pos as int, depth as int, 8) == level_ok(ts, start, depth as int, 8),
            !too_deep(ts, start, depth),
            no_op_from(ts, p.pos as int, 8),
        decreases p.tokens@.len() - p.pos,
    {
        proof {
            lemma_level_rest(ts, p.pos as int, depth as int, 8);
            lemma_operand_ok(ts, p.pos + 1, depth as int, 8);
            lemma_phrase_err(ts, p.pos as int, depth as int, Nt::LevelRest(8));
            lemma_phrase_err(ts, p.pos + 1, depth as int, Nt::Operand(8));
        }
        let op = match multiplicative_op(p.kind(0)) {
            Some(op) => op,
            None => break,
        };
        let line = p.line_here();
        if p.pos >= p.tokens.len() {
            break;
        }
        let ghost k = p.pos as int;
        p.advance();
        let right = parse_power(p, depth)?;
        let ghost (lg, rg) = (left, right);
        left = Expr::Binary { op, lhs: Box::new(left), rhs: Box::new(right), line };
        proof {
            lemma_no_blank_join(ts, start, k, p.pos as int);
        }
        proof {
            let j = p.pos as int;
            if simple_span(ts, start, j) {
                assert(simple_span(ts, start, k));
                assert(simple_span(ts, k + 1, j));
                assert(start < k < j && op_at(ts, k, op, line) && level_at(ts, start, k, lg, 8) && level_at(
                    ts,
                    k + 1,
                    j,
                    rg,
                    9,
                ));
                assert(level_at(ts, start, j, left, 8));
            }
        }
    }
    proof {
        lemma_level_rest(ts, p.pos as int, depth as int, 8);
        lemma_phrase_err(ts, p.pos as int, depth as int, Nt::LevelRest(8));
    }
    Ok(left)
}

fn parse_power(p: &mut P, depth: usize) -> (r: Result<Expr, ParseError>)
    requires
        wf(*old(p)),
        depth <= MAX_PARSE_DEPTH,
    ensures
        steps(*old(p), *final(p), r, true),
        reads_at(old(p).tokens@, old(p).pos as int, final(p).pos as int, r, 9),
        too_deep(old(p).tokens@, old(p).pos as int, depth) ==> (r matches Err(e) && e.message@ == deep_message()),
        owed(power_ok(old(p).tokens@, old(p).pos as int, depth as int), r, final(p).pos as int),
        erred(phrase_err(old(p).tokens@, old(p).pos as int, depth as int, Nt::Power), old(p).tokens@, r),
    decreases MAX_PARSE_DEPTH - depth, 10int,
{
    proof {
        lemma_phrase_err(old(p).tokens@, old(p).pos as int, depth as int, Nt::Power);
    }
    proof {
        lemma_power_ok(old(p).tokens@, old(p).pos as int, depth as int);
    }
    let ghost ts = p.tokens@;
    let ghost i = p.pos as int;
    let left = parse_unary(p, depth)?;
    let ghost m = p.pos as int;
    if p.kind_is(0, K::Caret) {
        let line = p.line_here();
        p.advance();
        let d = deeper(p, depth)?;
        let right = parse_power(p, d)?;
        let ghost (lg, rg) = (left, right);
        let e = Expr::Binary { op: BinOp::Pow, lhs: Box::new(left), rhs: Box::new(right), line };
        proof {
            let j = p.pos as int;
            lemma_no_blank_join(ts, i, m, j);
            if simple_span(ts, i, j) {
                assert(simple_span(ts, i, m));
                assert(simple_span(ts, m + 1, j));
                assert(i < m < j && op_at(ts, m, BinOp::Pow, line) && level_at(ts, i, m, lg, 10) && level_at(
                    ts,
                    m + 1,
                    j,
                    rg,
                    9,
                ));
                assert(level_at(ts, i, j, e, 9));
            }
        }
        return Ok(e);
    }
    proof {
        if simple_span(ts, i, m) {
            lemma_level_lift(ts, i, m, left, 9);
        }
    }
    Ok(left)
}

fn parse_unary(p: &mut P, depth: usize) -> (r: Result<Expr, ParseError>)
    requires
        wf(*old(p)),
        depth <= MAX_PARSE_DEPTH,
    ensures
        steps(*old(p), *final(p), r, true),
        reads_at(old(p).tokens@, old(p).pos as int, final(p).pos as int, r, 10),
        too_deep(old(p).tokens@, old(p).pos as int, depth) ==> (r matches Err(e) && e.message@ == deep_message()),
        owed(unary_ok(old(p).tokens@, old(p).pos as int, depth as int), r, final(p).pos as int),
        erred(phrase_err(old(p).tokens@, old(p).pos as int, depth as int, Nt::Unary), old(p).tokens@, r),
    decreases MAX_PARSE_DEPTH - depth, 9int,
{
    proof {
        lemma_phrase_err(old(p).tokens@, old(p).pos as int, depth as int, Nt::Unary);
    }
    proof {
        lemma_unary_ok(old(p).tokens@, old(p).pos as int, depth as int);
    }
    proof {
        if too_deep(old(p).tokens@, old(p).pos as int, depth) {
            lemma_too_deep_next(old(p).tokens@, old(p).pos as int, depth);
        }
    }
    let ghost ts = p.tokens@;
    let ghost i = p.pos as int;
    if p.kind_is(0, K::Minus) {
        let line = p.line_here();
        p.advance();
        let d = deeper(p, depth)?;
        let inner = parse_unary(p, d)?;
        proof {
            lemma_no_blank_join(ts, i, i, p.pos as int);
        }
        return Ok(Expr::Unary { op: UnaryOp::Neg, expr: Box::new(inner), line });
    }
    if p.kind_is(0, K::Plus) {
        p.advance();
        let d = deeper(p, depth)?;
        let r = parse_unary(p, d);
        proof {
            if r is Ok {
                lemma_no_blank_join(ts, i, i, p.pos as int);
            }
        }
        return r;
    }
    if p.kind_is(0, K::Tilde) {
        let line = p.line_here();
        p.advance();
        let d = deeper(p, depth)?;
        let inner = parse_unary(p, d)?;
        proof {
            lemma_no_blank_join(ts, i, i, p.pos as int);
        }
        return Ok(Expr::Unary { op: UnaryOp::BitNot, expr: Box::new(inner), line });
    }
    parse_primary(p, depth)
}

fn parse_primary(p: &mut P, depth: usize) -> (r: Result<Expr, ParseError>)
    requires
        wf(*old(p)),
        depth <= MAX_PARSE_DEPTH,
    ensures
        steps(*old(p), *final(p), r, true),
        reads_at(old(p).tokens@, old(p).pos as int, final(p).pos as int, r, 11),
        too_deep(old(p).tokens@, old(p).pos as int, depth) ==> (r matches Err(e) && e.message@ == deep_message()),
        owed(primary_ok(old(p).tokens@, old(p).pos as int, depth as int), r, final(p).pos as int),
        erred(phrase_err(old(p).tokens@, old(p).pos as int, depth as int, Nt::Primary), old(p).tokens@, r),
    decreases MAX_PARSE_DEPTH - depth, 8int,
{
    proof {
        lemma_phrase_err(old(p).tokens@, old(p).pos as int, depth as int, Nt::Primary);
    }
    proof {
        lemma_primary_ok(old(p).tokens@, old(p).pos as int, depth as int);
    }
    let ghost ts = p.tokens@;
    let ghost i = p.pos as int;
    let base = parse_atom(p, depth)?;
    let r = parse_postfix_chain(p, base, depth);
    proof {
        if r is Ok && simple_span(ts, i, p.pos as int) {
            assert(simple_tok(ts, i));
        }
        if r is Ok {
            lemma_no_blank_head(ts, i, p.pos as int);
        }
    }
    r
}

/// Arguments after an opening `(`, up to and including the closing `)`.
/// `args` are the arguments read from `i` up to and including the `)` that
/// ends at `end`: expressions, with commas between them skipped.
pub open spec fn args_from(ts: Seq<Token>, i: int, end: int, args: Seq<Expr>) -> bool
    decreases end - i,
{
    if !(0 <= i < end && i < ts.len()) {
        false
    } else if ts[i].tok is RParen {
        args.len() == 0 && end == i + 1
    } else if ts[i].tok is Comma {
        args_from(ts, i + 1, end, args)
    } else {
        args.len() > 0 && exists|m: int|
            #![trigger reads_at(ts, i, m, Ok::<Expr, ParseError>(args[0]), 1)]
            i < m <= end && reads_at(ts, i, m, Ok::<Expr, ParseError>(args[0]), 1) && args_from(
                ts,
                m,
                end,
                args.drop_first(),
            )
    }
}

/// The items of a list read from `i` up to and including the `]` that ends
/// at `end`: expressions, with commas between them skipped.
pub open spec fn items_from(ts: Seq<Token>, i: int, end: int, items: Seq<Expr>) -> bool
    decreases end - i,
{
    if !(0 <= i < end && i < ts.len()) {
        false
    } else if ts[i].tok is RBracket {
        items.len() == 0 && end == i + 1
    } else if ts[i].tok is Comma {
        items_from(ts, i + 1, end, items)
    } else {
        items.len() > 0 && exists|m: int|
            #![trigger reads_at(ts, i, m, Ok::<Expr, ParseError>(items[0]), 1)]
            i < m <= end && reads_at(ts, i, m, Ok::<Expr, ParseError>(items[0]), 1) && items_from(
                ts,
                m,
                end,
                items.drop_first(),
            )
    }
}

/// The entries of a map read from `i` up to and including the `}` that
/// ends at `end`: `key: value` pairs of expressions, with commas and line
/// breaks between them skipped.
pub open spec fn entries_from(ts: Seq<Token>, i: int, end: int, entries: Seq<(Expr, Expr)>) -> bool
    decreases end - i,
{
    if !(0 <= i < end && i < ts.len()) {
        false
    } else if ts[i].tok is RBrace {
        entries.len() == 0 && end == i + 1
    } else if ts[i].tok is Comma || ts[i].tok is Newline {
        entries_from(ts, i + 1, end, entries)
    } else {
        entries.len() > 0 && exists|c: int, m: int|
            #![trigger reads_at(ts, i, c, Ok::<Expr, ParseError>(entries[0].0), 1), reads_at(ts, c + 1, m, Ok::<Expr, ParseError>(entries[0].1), 1)]
            i < c < m <= end && ts[c].tok is Colon && reads_at(ts, i, c, Ok::<Expr, ParseError>(entries[0].0), 1)
                && reads_at(ts, c + 1, m, Ok::<Expr, ParseError>(entries[0].1), 1) && entries_from(
                ts,
                m,
                end,
                entries.drop_first(),
            )
    }
}

fn parse_args_until_rparen(p: &mut P, depth: usize) -> (r: Result<Vec<Expr>, ParseError>)
    requires
        wf(*old(p)),
        depth <= MAX_PARSE_DEPTH,
    ensures
        steps(*old(p), *final(p), r, true),
        r matches Ok(a) ==> args_from(old(p).tokens@, old(p).pos as int, final(p).pos as int, a@),
        owed(args_ok(old(p).tokens@, old(p).pos as int, depth as int), r, final(p).pos as int),
    decreases MAX_PARSE_DEPTH - depth, 1int,
{
    let ghost ts = p.tokens@;
    let ghost start = p.pos as int;
    proof {
        lemma_args_ok(ts, start, depth as int);
    }
    let d = deeper(p, depth)?;
    let mut args: Vec<Expr> = Vec::new();
    loop
        invariant_except_break
            args_ok(ts, start, depth as int) is Some ==> args_loop(ts, p.pos as int, d as int) == args_ok(ts, start, depth as int),
            forall|end: int, rest: Seq<Expr>|
                #[trigger] args_from(ts, p.pos as int, end, rest) ==> args_from(ts, start, end, args@ + rest),
        invariant
            p.tokens@ == old(p).tokens@,
            ts == old(p).tokens@,
            start == old(p).pos,
            old(p).pos <= p.pos <= p.tokens@.len(),
            d == depth + 1,
            d <= MAX_PARSE_DEPTH,
            depth <= MAX_PARSE_DEPTH,
        ensures
            p.tokens@ == old(p).tokens@,
            old(p).pos < p.pos <= p.tokens@.len(),
            args_from(ts, start, p.pos as int, args@),
            args_ok(ts, start, depth as int) is Some ==> args_ok(ts, start, depth as int) == Some(p.pos as int),
        decreases p.tokens@.len() - p.pos,
    {
        let ghost here = p.pos as int;
        proof {
            lemma_args_loop(ts, here, d as int);
        }
        let ghost before = args@;
        if p.kind_is(0, K::RParen) {
            p.advance();
            proof {
                assert(args_from(ts, here, here + 1, seq![]));
                assert(before + seq![] =~= before);
            }
            break;
        }
        if p.kind_is(0, K::Comma) {
            p.advance();
            proof {
                assert forall|end: int, rest: Seq<Expr>| #[trigger] args_from(ts, here + 1, end, rest) implies args_from(
                    ts,
                    start,
                    end,
                    before + rest,
                ) by {
                    assert(args_from(ts, here, end, rest));
                }
            }
            continue;
        }
        let e = parse_expr(p, d)?;
        args.push(e);
        proof {
            let m = p.pos as int;
            assert forall|end: int, rest: Seq<Expr>| #[trigger] args_from(ts, m, end, rest) implies args_from(
                ts,
                start,
                end,
                args@ + rest,
            ) by {
                let all = seq![e] + rest;
                assert(all.drop_first() =~= rest);
                assert(reads_at(ts, here, m, Ok::<Expr, ParseError>(all[0]), 1));
                assert(args_from(ts, m, end, all.drop_first()));
                assert(args_from(ts, here, end, all));
                assert(before + all =~= args@ + rest);
            }
        }
    }
    Ok(args)
}

/// Postfix chain: `[idx]`, `.name`, `(args)`, as in `f(x).field[0]`.
/// `e` is `base` under a chain of indexes, field accesses and calls.
pub open spec fn chains_to(e: Expr, base: Expr) -> bool
    decreases e,
{
    e == base || match e {
        Expr::Index { target, .. } => chains_to(*target, base),
        Expr::Field { target, .. } => chains_to(*target, base),
        Expr::CallValue { callee, .. } => chains_to(*callee, base),
        _ => false,
    }
}

fn parse_postfix_chain(p: &mut P, target: Expr, depth: usize) -> (r: Result<Expr, ParseError>)
    requires
        wf(*old(p)),
        depth <= MAX_PARSE_DEPTH,
    ensures
        steps(*old(p), *final(p), r, false),
        !(old(p).pos < old(p).tokens@.len() && postfix_tok(old(p).tokens@[old(p).pos as int].tok)) ==> (r
            == Ok::<Expr, ParseError>(target) && final(p).pos == old(p).pos),
        r matches Ok(e) ==> chains_to(e, target),
        r is Ok ==> !(final(p).pos < final(p).tokens@.len() && postfix_tok(
            final(p).tokens@[final(p).pos as int].tok,
        )),
        owed(postfix_ok(old(p).tokens@, old(p).pos as int, depth as int), r, final(p).pos as int),
    decreases MAX_PARSE_DEPTH - depth, 6int,
{
    let ghost original = target;
    let mut target = target;
    loop
        invariant
            postfix_ok(old(p).tokens@, old(p).pos as int, depth as int) is Some ==> postfix_ok(p.tokens@, p.pos as int, depth as int) == postfix_ok(old(p).tokens@, old(p).pos as int, depth as int),
            p.tokens@ == old(p).tokens@,
            old(p).pos <= p.pos <= p.tokens@.len(),
            depth <= MAX_PARSE_DEPTH,
            p.pos == old(p).pos ==> target == original,
            chains_to(target, original),
            p.pos > old(p).pos ==> (old(p).pos < old(p).tokens@.len() && postfix_tok(
                old(p).tokens@[old(p).pos as int].tok,
            )),
        ensures
            p.tokens@ == old(p).tokens@,
            old(p).pos <= p.pos <= p.tokens@.len(),
            p.pos == old(p).pos ==> target == original,
            chains_to(target, original),
            !(p.pos < p.tokens@.len() && postfix_tok(p.tokens@[p.pos as int].tok)),
            postfix_ok(old(p).tokens@, old(p).pos as int, depth as int) is Some ==> postfix_ok(old(p).tokens@, old(p).pos as int, depth as int) == Some(p.pos as int),
        decreases p.tokens@.len() - p.pos,
    {
        proof {
            lemma_postfix_ok(p.tokens@, p.pos as int, depth as int);
        }
        if p.kind_is(0, K::LBracket) {
            let line = p.line_here();
            p.advance();
            let d = deeper(p, depth)?;
            let key = parse_expr(p, d)?;
            p.expect_kind(K::RBracket, "`]`")?;
            target = Expr::Index { target: Box::new(target), key: Box::new(key), line };
            assert(old(p).pos <= p.pos);
        } else if p.kind_is(0, K::Dot) {
            let line = p.line_here();
            p.advance();
            let name = match p.take_word() {
                Some(w) => w,
                None => {
                    return Err(p.err_here(msg("expected field name after `.`")));
                },
            };
            target = Expr::Field { target: Box::new(target), name, line };
            assert(old(p).pos <= p.pos);
        } else if p.kind_is(0, K::LParen) {
            let line = p.line_here();
            p.advance();
            let args = parse_args_until_rparen(p, depth)?;
            target = Expr::CallValue { callee: Box::new(target), args, line };
        } else {
            break;
        }
    }
    Ok(target)
}

fn parse_lambda(p: &mut P, depth: usize) -> (r: Result<Expr, ParseError>)
    requires
        wf(*old(p)),
        depth <= MAX_PARSE_DEPTH,
    ensures
        steps(*old(p), *final(p), r, true),
    decreases MAX_PARSE_DEPTH - depth, 5int,
{
    let header_line = p.line_here();
    p.expect_word("fn")?;
    p.expect_kind(K::LParen, "`(`")?;
    let mut params: Vec<String> = Vec::new();
    loop
        invariant
            p.tokens@ == old(p).tokens@,
            old(p).pos < p.pos <= p.tokens@.len(),
        decreases p.tokens@.len() - p.pos,
    {
        if p.kind_is(0, K::RParen) {
            p.advance();
            break;
        }
        if p.kind_is(0, K::Comma) {
            p.advance();
            continue;
        }
        match p.take_word() {
            Some(w) => params.push(w),
            None => {
                return Err(p.err_here(msg("expected param name or `)`")));
            },
        }
    }
    if p.kind_is(0, K::Arrow) {
        p.advance();
        let d = deeper(p, depth)?;
        let expr = parse_expr(p, d)?;
        let mut body: Vec<Stmt> = Vec::new();
        body.push(Stmt::Return { expr: Some(expr), line: header_line });
        return Ok(Expr::Lambda { params, body, line: header_line });
    }
    if p.kind_is(0, K::Colon) {
        p.advance();
        p.expect_newline()?;
        let d = deeper(p, depth)?;
        let body = parse_block(p, 0, d)?;
        if p.is_word(0, "end") {
            p.advance();
            return Ok(Expr::Lambda { params, body, line: header_line });
        }
        return Err(p.err_here(msg("expected `end` to close lambda")));
    }
    Err(p.err_here(msg("expected `->` or `:` after lambda parameters")))
}

/// An `f"..."` literal becomes an interpolated-string expression whose `{...}`
/// sources are tokenized and parsed here; a literal without interpolation is a
/// plain string. Errors inside an interpolation are reported at the string.
/// Every part of a string literal is literal text.
pub open spec fn all_literal(ps: Seq<StrPart>) -> bool {
    forall|j: int| 0 <= j < ps.len() ==> #[trigger] ps[j] is Lit
}

/// `out` holds, part for part, the literal text and the interpolated
/// expressions of `ps`.
pub open spec fn interp_parts_of(out: Seq<InterpPart>, ps: Seq<StrPart>) -> bool {
    &&& out.len() == ps.len()
    &&& forall|j: int|
        0 <= j < ps.len() ==> match #[trigger] ps[j] {
            StrPart::Lit(t) => out[j] matches InterpPart::Lit(u) && u@ == t@,
            StrPart::Expr(_) => out[j] is Expr,
        }
}

fn build_string_expr(p: &P, at: usize, parts: Vec<StrPart>, depth: usize) -> (r: Result<Expr, ParseError>)
    requires
        at < p.tokens@.len(),
        depth <= MAX_PARSE_DEPTH,
    ensures
        r matches Err(e) ==> points_at(p.tokens@, e.line, e.col),
        all_literal(parts@) ==> (r matches Ok(Expr::Lit(Literal::Str(s))) && s@ == lit_concat(
            parts_view(parts@),
        )),
        !all_literal(parts@) ==> (r matches Ok(e) ==> (e matches Expr::InterpStr { parts: out, line }
            && line == p.tokens@[at as int].line && interp_parts_of(out@, parts@))),
    decreases MAX_PARSE_DEPTH - depth, 2int,
{
    let line = p.tokens[at].line;
    let mut has_interp = false;
    let mut k: usize = 0;
    while k < parts.len()
        invariant
            k <= parts@.len(),
            !has_interp <==> (forall|j: int| 0 <= j < k ==> #[trigger] parts@[j] is Lit),
        decreases parts.len() - k,
    {
        if let StrPart::Expr(_) = &parts[k] {
            has_interp = true;
        }
        k += 1;
    }
    if !has_interp {
        return Ok(Expr::Lit(Literal::Str(literal_text(&parts))));
    }
    if depth >= MAX_PARSE_DEPTH {
        return Err(p.err_at(at, msg("expression or block nested too deeply")));
    }
    let mut out: Vec<InterpPart> = Vec::new();
    let mut idx: usize = 0;
    while idx < parts.len()
        invariant
            depth < MAX_PARSE_DEPTH,
            at < p.tokens@.len(),
            idx <= parts@.len(),
            out@.len() == idx,
            forall|j: int|
                0 <= j < idx ==> match #[trigger] parts@[j] {
                    StrPart::Lit(t) => out@[j] matches InterpPart::Lit(u) && u@ == t@,
                    StrPart::Expr(_) => out@[j] is Expr,
                },
        decreases parts.len() - idx,
    {
        match &parts[idx] {
            StrPart::Lit(s) => out.push(InterpPart::Lit(s.clone())),
            StrPart::Expr(src) => {
                if src.as_str().unicode_len() > 1000000000 {
                    return Err(p.err_at(at, msg("interpolated expression too long")));
                }
                let tokens = match tokenize(src.as_str()) {
                    Ok(t) => t,
                    Err(e) => {
                        let mut m = String::from_str("interp: lex error: ");
                        m.append(e.message.as_str());
                        return Err(p.err_at(at, m));
                    },
                };
                let mut sub = P::new(tokens);
                sub.skip_newlines();
                match parse_expr(&mut sub, depth + 1) {
                    Ok(e) => out.push(InterpPart::Expr(e)),
                    Err(e) => {
                        let mut m = String::from_str("interp: ");
                        m.append(e.message.as_str());
                        return Err(p.err_at(at, m));
                    },
                }
            },
        }
        idx += 1;
    }
    Ok(Expr::InterpStr { parts: out, line })
}

fn parse_atom(p: &mut P, depth: usize) -> (r: Result<Expr, ParseError>)
    requires
        wf(*old(p)),
        depth <= MAX_PARSE_DEPTH,
    ensures
        steps(*old(p), *final(p), r, true),
        old(p).pos >= old(p).tokens@.len() ==> r is Err,
        old(p).pos < old(p).tokens@.len() ==> atom_leaf(old(p).tokens@, old(p).pos as int, r, final(p).pos as int),
        r is Ok ==> !blank(old(p).tokens@[old(p).pos as int].tok) && (simple_tok(old(p).tokens@, old(p).pos as int)
            ==> final(p).pos == old(p).pos + 1),
        too_deep(old(p).tokens@, old(p).pos as int, depth) ==> (r matches Err(e) && e.message@ == deep_message()),
        owed(atom_ok(old(p).tokens@, old(p).pos as int, depth as int), r, final(p).pos as int),
        erred(phrase_err(old(p).tokens@, old(p).pos as int, depth as int, Nt::Atom), old(p).tokens@, r),
    decreases MAX_PARSE_DEPTH - depth, 7int,
{
    proof {
        lemma_phrase_err(old(p).tokens@, old(p).pos as int, depth as int, Nt::Atom);
    }
    proof {
        if too_deep(old(p).tokens@, old(p).pos as int, depth) {
            lemma_too_deep_next(old(p).tokens@, old(p).pos as int, depth);
        }
    }
    proof {
        lemma_atom_ok(old(p).tokens@, old(p).pos as int, depth as int);
    }
    let k = match p.kind(0) {
        Some(k) => k,
        None => {
            return Err(p.err_here(msg("expected expression")));
        },
    };
    let head_line = p.line_here();
    let head_at = p.pos;
    if k == K::Str {
        let parts = parts_here(p);
        proof {
            if let Tok::Str(tp) = old(p).tokens@[old(p).pos as int].tok {
                if all_literal(tp@) {
                    assert(parts_view(parts@).len() == parts@.len());
                    assert(parts_view(tp@).len() == tp@.len());
                    assert forall|j: int| 0 <= j < parts@.len() implies #[trigger] parts@[j] is Lit by {
                        assert(parts_view(parts@)[j] == parts_view(tp@)[j]);
                        assert(tp@[j] is Lit);
                    }
                }
            }
        }
        p.advance();
        return build_string_expr(p, head_at, parts, depth);
    }
    if k == K::Int {
        let n = int_here(p);
        p.advance();
        return Ok(Expr::Lit(Literal::Int(n)));
    }
    if k == K::Float {
        let f = float_here(p);
        p.advance();
        return Ok(Expr::Lit(Literal::Float(f)));
    }
    if k == K::LBrace {
        p.advance();
        let d = deeper(p, depth)?;
        let mut entries: Vec<(Expr, Expr)> = Vec::new();
        let ghost ts = old(p).tokens@;
        let ghost mstart = p.pos as int;
        loop
            invariant_except_break
                forall|end: int, rest: Seq<(Expr, Expr)>|
                    #[trigger] entries_from(ts, p.pos as int, end, rest) ==> entries_from(ts, mstart, end, entries@ + rest),
                atom_ok(old(p).tokens@, old(p).pos as int, depth as int) is Some ==> map_loop(old(p).tokens@, p.pos as int, d as int) == atom_ok(old(p).tokens@, old(p).pos as int, depth as int),
            invariant
                ts == old(p).tokens@,
                mstart == old(p).pos + 1,
                p.tokens@ == old(p).tokens@,
                atom_open(old(p).tokens@, old(p).pos as int),
                !too_deep(old(p).tokens@, old(p).pos as int, depth),
                phrase_err(old(p).tokens@, old(p).pos as int, depth as int, Nt::Atom) is None,
                old(p).pos < p.pos <= p.tokens@.len(),
                d == depth + 1,
                d <= MAX_PARSE_DEPTH,
                depth <= MAX_PARSE_DEPTH,
            ensures
                entries_from(ts, mstart, p.pos as int, entries@),
                p.tokens@ == old(p).tokens@,
                atom_open(old(p).tokens@, old(p).pos as int),
                !too_deep(old(p).tokens@, old(p).pos as int, depth),
                phrase_err(old(p).tokens@, old(p).pos as int, depth as int, Nt::Atom) is None,
                old(p).pos < p.pos <= p.tokens@.len(),
                atom_ok(old(p).tokens@, old(p).pos as int, depth as int) is Some ==> atom_ok(old(p).tokens@, old(p).pos as int, depth as int) == Some(p.pos as int),
            decreases p.tokens@.len() - p.pos,
        {
            proof {
                lemma_map_loop(old(p).tokens@, p.pos as int, d as int);
            }
            let ghost here = p.pos as int;
            let ghost before = entries@;
            if p.kind_is(0, K::RBrace) {
                p.advance();
                proof {
                    assert(entries_from(ts, here, here + 1, seq![]));
                    assert(before + seq![] =~= before);
                }
                break;
            }
            if p.kind_is(0, K::Comma) || p.kind_is(0, K::Newline) {
                p.advance();
                proof {
                    assert forall|end: int, rest: Seq<(Expr, Expr)>| #[trigger] entries_from(ts, here + 1, end, rest) implies entries_from(
                        ts,
                        mstart,
                        end,
                        before + rest,
                    ) by {
                        assert(entries_from(ts, here, end, rest));
                    }
                }
                continue;
            }
            let key = parse_expr(p, d)?;
            let ghost c = p.pos as int;
            p.expect_kind(K::Colon, "`:`")?;
            let value = parse_expr(p, d)?;
            let ghost kv = (key, value);
            entries.push((key, value));
            proof {
                let m = p.pos as int;
                assert forall|end: int, rest: Seq<(Expr, Expr)>| #[trigger] entries_from(ts, m, end, rest) implies entries_from(
                    ts,
                    mstart,
                    end,
                    entries@ + rest,
                ) by {
                    let all = seq![kv] + rest;
                    assert(all.drop_first() =~= rest);
                    assert(reads_at(ts, here, c, Ok::<Expr, ParseError>(all[0].0), 1));
                    assert(reads_at(ts, c + 1, m, Ok::<Expr, ParseError>(all[0].1), 1));
                    assert(entries_from(ts, here, end, all));
                    assert(before + all =~= entries@ + rest);
                }
            }
        }
        return Ok(Expr::MapLit { entries, line: head_line });
    }
    if k == K::LParen {
        p.advance();
        let d = deeper(p, depth)?;
        let inner = parse_expr(p, d)?;
        let ghost m = p.pos as int;
        p.expect_kind(K::RParen, "`)`")?;
        assert(reads_at(old(p).tokens@, old(p).pos + 1, m, Ok::<Expr, ParseError>(inner), 1));
        return Ok(inner);
    }
    if k == K::LBracket {
        p.advance();
        let d = deeper(p, depth)?;
        let mut items: Vec<Expr> = Vec::new();
        let ghost ts = old(p).tokens@;
        let ghost start = p.pos as int;
        loop
            invariant_except_break
                forall|end: int, rest: Seq<Expr>|
                    #[trigger] items_from(ts, p.pos as int, end, rest) ==> items_from(ts, start, end, items@ + rest),
                atom_ok(old(p).tokens@, old(p).pos as int, depth as int) is Some ==> list_loop(old(p).tokens@, p.pos as int, d as int) == atom_ok(old(p).tokens@, old(p).pos as int, depth as int),
            invariant
                ts == old(p).tokens@,
                start == old(p).pos + 1,
                p.tokens@ == old(p).tokens@,
                atom_open(old(p).tokens@, old(p).pos as int),
                !too_deep(old(p).tokens@, old(p).pos as int, depth),
                phrase_err(old(p).tokens@, old(p).pos as int, depth as int, Nt::Atom) is None,
                old(p).pos < p.pos <= p.tokens@.len(),
                d == depth + 1,
                d <= MAX_PARSE_DEPTH,
                depth <= MAX_PARSE_DEPTH,
            ensures
                items_from(ts, start, p.pos as int, items@),
                p.tokens@ == old(p).tokens@,
                atom_open(old(p).tokens@, old(p).pos as int),
                !too_deep(old(p).tokens@, old(p).pos as int, depth),
                phrase_err(old(p).tokens@, old(p).pos as int, depth as int, Nt::Atom) is None,
                old(p).pos < p.pos <= p.tokens@.len(),
                atom_ok(old(p).tokens@, old(p).pos as int, depth as int) is Some ==> atom_ok(old(p).tokens@, old(p).pos as int, depth as int) == Some(p.pos as int),
            decreases p.tokens@.len() - p.pos,
        {
            proof {
                lemma_list_loop(old(p).tokens@, p.pos as int, d as int);
            }
            let ghost here = p.pos as int;
            let ghost before = items@;
            if p.kind_is(0, K::RBracket) {
                p.advance();
                proof {
                    assert(items_from(ts, here, here + 1, seq![]));
                    assert(before + seq![] =~= before);
                }
                break;
            }
            if p.kind_is(0, K::Comma) {
                p.advance();
                proof {
                    assert forall|end: int, rest: Seq<Expr>| #[trigger] items_from(ts, here + 1, end, rest) implies items_from(
                        ts,
                        start,
                        end,
                        before + rest,
                    ) by {
                        assert(items_from(ts, here, end, rest));
                    }
                }
                continue;
            }
            let e = parse_expr(p, d)?;
            let ghost eg = e;
            items.push(e);
            proof {
                let m = p.pos as int;
                assert forall|end: int, rest: Seq<Expr>| #[trigger] items_from(ts, m, end, rest) implies items_from(
                    ts,
                    start,
                    end,
                    items@ + rest,
                ) by {
                    let all = seq![eg] + rest;
                    assert(all.drop_first() =~= rest);
                    assert(reads_at(ts, here, m, Ok::<Expr, ParseError>(all[0]), 1));
                    assert(items_from(ts, here, end, all));
                    assert(before + all =~= items@ + rest);
                }
            }
        }
        return Ok(Expr::List(items));
    }
    if k == K::Word {
        let w = match p.word(0) {
            Some(s) => s.clone(),
            None => String::new(),
        };
        if string_is(&w, "true") {
            p.advance();
            return Ok(Expr::Lit(Literal::Bool(true)));
        }
        if string_is(&w, "false") {
            p.advance();
            return Ok(Expr::Lit(Literal::Bool(false)));
        }
        if string_is(&w, "nil") {
            p.advance();
            return Ok(Expr::Lit(Literal::Nil));
        }
        if string_is(&w, "fn") {
            return parse_lambda(p, depth);
        }
        // `Module::name` collapses into `Module_name`.
        if p.kind_is(1, K::ColonColon) {
            p.advance();
            p.advance();
            let nm = match p.take_word() {
                Some(s) => s,
                None => {
                    return Err(p.err_here(msg("expected name after `::`")));
                },
            };
            let mut combined = w;
            combined.append("_");
            combined.append(nm.as_str());
            if p.kind_is(0, K::LParen) {
                p.advance();
                let args = parse_args_until_rparen(p, depth)?;
                return Ok(Expr::FnCall { name: combined, args, line: head_line });
            }
            return Ok(Expr::Var(combined));
        }
        // `Name { x: 1, y: 2 }` when the braces look like a field list.
        if p.kind_is(1, K::LBrace) {
            let looks_like_struct = (p.kind_is(2, K::Word) && p.kind_is(3, K::Colon)) || p.kind_is(
                2,
                K::RBrace,
            );
            if looks_like_struct {
                p.advance();
                p.advance();
                let d = deeper(p, depth)?;
                let mut fields: Vec<(String, Expr)> = Vec::new();
                loop
                    invariant
                        p.tokens@ == old(p).tokens@,
                        atom_open(old(p).tokens@, old(p).pos as int),
                        !too_deep(old(p).tokens@, old(p).pos as int, depth),
                        phrase_err(old(p).tokens@, old(p).pos as int, depth as int, Nt::Atom) is None,
                        old(p).pos < p.pos <= p.tokens@.len(),
                        d == depth + 1,
                        d <= MAX_PARSE_DEPTH,
                        depth <= MAX_PARSE_DEPTH,
                        atom_ok(old(p).tokens@, old(p).pos as int, depth as int) is None,
                    decreases p.tokens@.len() - p.pos,
                {
                    p.skip_newlines();
                    if p.kind_is(0, K::RBrace) {
                        p.advance();
                        break;
                    }
                    if p.kind_is(0, K::Comma) {
                        p.advance();
                        continue;
                    }
                    let fname = match p.take_word() {
                        Some(f) => f,
                        None => {
                            return Err(p.err_here(msg("expected field name in struct literal")));
                        },
                    };
                    p.expect_kind(K::Colon, "`:`")?;
                    let v = parse_expr(p, d)?;
                    fields.push((fname, v));
                }
                return Ok(Expr::StructLit { name: w, fields, line: head_line });
            }
        }
        proof {
            lemma_command_word(w@);
        }
        if p.kind_is(1, K::LParen) {
            if is_known_command(w.as_str()) {
                let segments = parse_call_segments(p, depth)?;
                return Ok(Expr::Call { segments, line: head_line });
            }
            p.advance();
            p.advance();
            let args = parse_args_until_rparen(p, depth)?;
            return Ok(Expr::FnCall { name: w, args, line: head_line });
        }
        if p.kind_is(1, K::Word) {
            let segments = parse_call_segments(p, depth)?;
            return Ok(Expr::Call { segments, line: head_line });
        }
        p.advance();
        return Ok(Expr::Var(w));
    }
    let mut m = String::from_str("unexpected token in expression: ");
    let d = describe_tok(&p.tokens[p.pos].tok);
    m.append(d.as_str());
    Err(p.err_here(m))
}

/// The literal that a keyword stands for.
pub open spec fn keyword_literal(w: Seq<char>) -> Option<Literal> {
    if w == "true"@ {
        Some(Literal::Bool(true))
    } else if w == "false"@ {
        Some(Literal::Bool(false))
    } else if w == "nil"@ {
        Some(Literal::Nil)
    } else {
        None
    }
}

/// `true` and `false` are the boolean literals and `nil` the empty value;
/// every other word is a name.
pub proof fn law_keyword_literals(w: Seq<char>)
    ensures
        keyword_literal("true"@) == Some(Literal::Bool(true)),
        keyword_literal("false"@) == Some(Literal::Bool(false)),
        keyword_literal("nil"@) == Some(Literal::Nil),
        w != "true"@ && w != "false"@ && w != "nil"@ ==> keyword_literal(w) is None,
{
    reveal_strlit("true");
    reveal_strlit("false");
    reveal_strlit("nil");
    assert("true"@.len() == 4 && "false"@.len() == 5 && "nil"@.len() == 3);
}

/// The atoms that `atom_leaf` leaves open: strings, bracketed forms, and words
/// that start a lambda or are extended by what follows.
pub open spec fn atom_open(ts: Seq<Token>, i: int) -> bool {
    let extends = i + 1 < ts.len() && (ts[i + 1].tok is ColonColon || ts[i + 1].tok is LBrace || ts[i
        + 1].tok is LParen || ts[i + 1].tok is Word);
    0 <= i < ts.len() && match ts[i].tok {
        Tok::Word(w) => keyword_literal(w@) is None && (w@ == "fn"@ || extends),
        Tok::Str(_) | Tok::LBrace | Tok::LParen | Tok::LBracket => true,
        _ => false,
    }
}

/// What an atom is when it is a single token: a number, a keyword literal or a
/// plain name (a word followed by nothing that extends it); a token that cannot
/// start an expression is refused. Other atoms are left open here.
pub open spec fn atom_leaf(ts: Seq<Token>, i: int, r: Result<Expr, ParseError>, end: int) -> bool {
    let extends = i + 1 < ts.len() && (ts[i + 1].tok is ColonColon || ts[i + 1].tok is LBrace || ts[i
        + 1].tok is LParen || ts[i + 1].tok is Word);
    match ts[i].tok {
        Tok::Int(n) => r == Ok::<Expr, ParseError>(Expr::Lit(Literal::Int(n))) && end == i + 1,
        Tok::Float(f) => (r matches Ok(Expr::Lit(Literal::Float(g))) && g@ == f@) && end == i + 1,
        Tok::Word(w) => match keyword_literal(w@) {
            Some(l) => r == Ok::<Expr, ParseError>(Expr::Lit(l)) && end == i + 1,
            None => {
                &&& (w@ != "fn"@ && !extends) ==> ((r matches Ok(Expr::Var(v)) && v@ == w@) && end == i + 1)
                &&& (w@ != "fn"@ && i + 1 < ts.len() && ts[i + 1].tok is LParen) ==> (r matches Ok(e) ==> (word_call(
                    e,
                    w@,
                    is_known_command_spec(w@),
                    ts[i].line,
                ) && call_args_at(ts, i, end, e)))
                &&& (w@ != "fn"@ && i + 1 < ts.len() && ts[i + 1].tok is Word) ==> (r matches Ok(e) ==> (word_call(
                    e,
                    w@,
                    true,
                    ts[i].line,
                ) && call_args_at(ts, i, end, e)))
            },
        },
        Tok::LParen => r matches Ok(e) ==> paren_read(ts, i, end, e),
        Tok::LBracket => r matches Ok(e) ==> (e matches Expr::List(items) && items_from(ts, i + 1, end, items@)),
        Tok::LBrace => r matches Ok(e) ==> (e matches Expr::MapLit { entries, .. } && entries_from(
            ts,
            i + 1,
            end,
            entries@,
        )),
        Tok::Str(_) => true,
        t => r matches Err(e) && e.message@ == "unexpected token in expression: "@ + describe_spec(t),
    }
}

/// A bracketed expression at `i`: the tree of the expression read after
/// the `(`, up to the `)` that ends at `end`.
pub open spec fn paren_read(ts: Seq<Token>, i: int, end: int, e: Expr) -> bool {
    exists|m: int|
        #![trigger reads_at(ts, i + 1, m, Ok::<Expr, ParseError>(e), 1)]
        i + 1 < m < ts.len() && ts[m].tok is RParen && end == m + 1 && reads_at(ts, i + 1, m, Ok::<Expr, ParseError>(e), 1)
            && reads_not(ts, i + 1, m, Ok::<Expr, ParseError>(e))
}

/// A call that starts with the word `w` on line `line`: a command call whose
/// first segment starts with `w` when `command` holds, else a call of the
/// user function `w`.
pub open spec fn word_call(e: Expr, w: Seq<char>, command: bool, line: usize) -> bool {
    if command {
        e matches Expr::Call { segments, line: l } && l == line && segments@.len() > 0
            && segments@[0].words@.len() > 0 && segments@[0].words@[0]@ == w
    } else {
        e matches Expr::FnCall { name, line: l, .. } && l == line && name@ == w
    }
}

/// A user-function call whose arguments are read from `i + 2` to `end`, or
/// a command call whose segments are read from `i` to `end`.
pub open spec fn call_args_at(ts: Seq<Token>, i: int, end: int, e: Expr) -> bool {
    &&& e matches Expr::FnCall { args, .. } ==> args_from(ts, i + 2, end, args@)
    &&& e matches Expr::Call { segments, .. } ==> segs_from(ts, i, end, segments@)
}

/// The token `t` at `k` starts a keyword argument: a word followed by `=`.
pub open spec fn keyword_arg_at(ts: Seq<Token>, t: Token, k: int) -> bool {
    t.tok is Word && k + 1 < ts.len() && ts[k + 1].tok is Equals
}

/// A run of words, stopping before a `word =` keyword argument.
fn collect_word_run(p: &mut P) -> (r: Vec<String>)
    requires
        wf(*old(p)),
    ensures
        final(p).tokens@ == old(p).tokens@,
        final(p).pos == old(p).pos + r@.len(),
        final(p).pos <= final(p).tokens@.len(),
        forall|k: int| 0 <= k < r@.len() ==> old(p).tokens@[old(p).pos + k].tok == Tok::Word(#[trigger] r@[k]),
        forall|k: int|
            old(p).pos <= k < final(p).pos ==> !keyword_arg_at(old(p).tokens@, #[trigger] old(p).tokens@[k], k),
        final(p).pos < final(p).tokens@.len() ==> (!(final(p).tokens@[final(p).pos as int].tok is Word)
            || keyword_arg_at(final(p).tokens@, final(p).tokens@[final(p).pos as int], final(p).pos as int)),
        r@.len() == word_run(old(p).tokens@, old(p).pos as int),
{
    let mut out: Vec<String> = Vec::new();
    loop
        invariant
            word_run(old(p).tokens@, old(p).pos as int) == out@.len() + word_run(p.tokens@, p.pos as int),
            p.tokens@ == old(p).tokens@,
            p.pos == old(p).pos + out@.len(),
            p.pos <= p.tokens@.len(),
            forall|k: int| 0 <= k < out@.len() ==> old(p).tokens@[old(p).pos + k].tok == Tok::Word(#[trigger] out@[k]),
            forall|k: int|
                old(p).pos <= k < p.pos ==> !keyword_arg_at(old(p).tokens@, #[trigger] old(p).tokens@[k], k),
        ensures
            p.tokens@ == old(p).tokens@,
            p.pos == old(p).pos + out@.len(),
            p.pos <= p.tokens@.len(),
            forall|k: int| 0 <= k < out@.len() ==> old(p).tokens@[old(p).pos + k].tok == Tok::Word(#[trigger] out@[k]),
            forall|k: int|
                old(p).pos <= k < p.pos ==> !keyword_arg_at(old(p).tokens@, #[trigger] old(p).tokens@[k], k),
            p.pos < p.tokens@.len() ==> (!(p.tokens@[p.pos as int].tok is Word) || keyword_arg_at(
                p.tokens@,
                p.tokens@[p.pos as int],
                p.pos as int,
            )),
            word_run(old(p).tokens@, old(p).pos as int) == out@.len() + word_run(p.tokens@, p.pos as int),
            word_run(p.tokens@, p.pos as int) == 0,
        decreases p.tokens@.len() - p.pos,
    {
        proof {
            lemma_word_run(p.tokens@, p.pos as int);
        }
        if p.word(0).is_none() || p.kind_is(1, K::Equals) {
            break;
        }
        match p.take_word() {
            Some(w) => out.push(w),
            None => break,
        }
    }
    out
}

/// `( args )` where each argument is an expression or `name = expr`.
/// `named` with `key` set to `value`: the first entry with that key is
/// replaced, or the pair is added at the end.
pub open spec fn insert_named_spec(ns: Seq<(String, Expr)>, key: String, value: Expr) -> Seq<(String, Expr)> {
    match key_index(ns, key@, 0) {
        Some(i) => ns.update(i, (key, value)),
        None => ns.push((key, value)),
    }
}

/// The arguments of a call read from `i` up to the `)` that ends before
/// `end`: the positional expressions `pos` in order, and keyword arguments
/// `k = v` set in turn into `named`, which ends as `out`.
pub open spec fn arglist_from(
    ts: Seq<Token>,
    i: int,
    end: int,
    pos: Seq<Expr>,
    named: Seq<(String, Expr)>,
    out: Seq<(String, Expr)>,
) -> bool
    decreases end - i,
{
    if !(0 <= i < end && i < ts.len()) {
        false
    } else if ts[i].tok is RParen {
        pos.len() == 0 && end == i + 1 && out == named
    } else if ts[i].tok is Comma {
        arglist_from(ts, i + 1, end, pos, named, out)
    } else if ts[i].tok is Word && i + 1 < ts.len() && ts[i + 1].tok is Equals {
        exists|m: int, v: Expr|
            #![trigger reads_at(ts, i + 2, m, Ok::<Expr, ParseError>(v), 1)]
            i + 2 < m <= end && reads_at(ts, i + 2, m, Ok::<Expr, ParseError>(v), 1) && arglist_from(
                ts,
                m,
                end,
                pos,
                insert_named_spec(named, ts[i].tok->Word_0, v),
                out,
            )
    } else {
        pos.len() > 0 && exists|m: int|
            #![trigger reads_at(ts, i, m, Ok::<Expr, ParseError>(pos[0]), 1)]
            i < m <= end && reads_at(ts, i, m, Ok::<Expr, ParseError>(pos[0]), 1) && arglist_from(
                ts,
                m,
                end,
                pos.drop_first(),
                named,
                out,
            )
    }
}

fn parse_arglist(p: &mut P, depth: usize) -> (r: Result<(Vec<Expr>, Vec<(String, Expr)>), ParseError>)
    requires
        wf(*old(p)),
        depth <= MAX_PARSE_DEPTH,
    ensures
        steps(*old(p), *final(p), r, true),
        r matches Ok((ps, ns)) ==> old(p).pos < old(p).tokens@.len() && old(p).tokens@[old(p).pos as int].tok is LParen
            && arglist_from(old(p).tokens@, old(p).pos + 1, final(p).pos as int, ps@, seq![], ns@),
        owed(arglist_ok(old(p).tokens@, old(p).pos as int, depth as int), r, final(p).pos as int),
    decreases MAX_PARSE_DEPTH - depth, 3int,
{
    let ghost ts = p.tokens@;
    proof {
        lemma_arglist_ok(ts, old(p).pos as int, depth as int);
    }
    p.expect_kind(K::LParen, "`(`")?;
    let ghost start = p.pos as int;
    let d = deeper(p, depth)?;
    let mut positional: Vec<Expr> = Vec::new();
    let mut named: Vec<(String, Expr)> = Vec::new();
    loop
        invariant_except_break
            arglist_ok(ts, old(p).pos as int, depth as int) is Some ==> arg_loop(ts, p.pos as int, d as int) == arglist_ok(ts, old(p).pos as int, depth as int),
            forall|end: int, prest: Seq<Expr>, out: Seq<(String, Expr)>|
                #[trigger] arglist_from(ts, p.pos as int, end, prest, named@, out) ==> arglist_from(
                    ts,
                    start,
                    end,
                    positional@ + prest,
                    seq![],
                    out,
                ),
        invariant
            p.tokens@ == old(p).tokens@,
            ts == old(p).tokens@,
            start == old(p).pos + 1,
            old(p).pos < p.pos <= p.tokens@.len(),
            d == depth + 1,
            d <= MAX_PARSE_DEPTH,
            depth <= MAX_PARSE_DEPTH,
        ensures
            p.tokens@ == old(p).tokens@,
            old(p).pos < p.pos <= p.tokens@.len(),
            arglist_from(ts, start, p.pos as int, positional@, seq![], named@),
            arglist_ok(ts, old(p).pos as int, depth as int) is Some ==> arglist_ok(ts, old(p).pos as int, depth as int) == Some(p.pos as int),
        decreases p.tokens@.len() - p.pos,
    {
        let ghost here = p.pos as int;
        proof {
            lemma_arg_loop(ts, here, d as int);
        }
        let ghost (pb, nb) = (positional@, named@);
        if p.kind_is(0, K::RParen) {
            p.advance();
            proof {
                assert(arglist_from(ts, here, here + 1, seq![], nb, nb));
                assert(pb + seq![] =~= pb);
            }
            break;
        }
        if p.kind_is(0, K::Comma) {
            p.advance();
            proof {
                assert forall|end: int, prest: Seq<Expr>, out: Seq<(String, Expr)>|
                    #[trigger] arglist_from(ts, here + 1, end, prest, nb, out) implies arglist_from(
                    ts,
                    start,
                    end,
                    pb + prest,
                    seq![],
                    out,
                ) by {
                    assert(arglist_from(ts, here, end, prest, nb, out));
                }
            }
            continue;
        }
        if p.word(0).is_some() && p.kind_is(1, K::Equals) {
            let key = match p.take_word() {
                Some(w) => w,
                None => String::new(),
            };
            let ghost kg = key;
            if p.pos < p.tokens.len() {
                p.advance();
            }
            let v = parse_expr(p, d)?;
            let ghost vg = v;
            insert_named(&mut named, key, v);
            proof {
                let m = p.pos as int;
                assert(named@ == insert_named_spec(nb, kg, vg));
                assert(ts[here].tok->Word_0 == kg);
                assert forall|end: int, prest: Seq<Expr>, out: Seq<(String, Expr)>|
                    #[trigger] arglist_from(ts, m, end, prest, named@, out) implies arglist_from(
                    ts,
                    start,
                    end,
                    pb + prest,
                    seq![],
                    out,
                ) by {
                    assert(reads_at(ts, here + 2, m, Ok::<Expr, ParseError>(vg), 1));
                    assert(arglist_from(ts, here, end, prest, nb, out));
                }
            }
            continue;
        }
        let v = parse_expr(p, d)?;
        let ghost vg = v;
        positional.push(v);
        proof {
            let m = p.pos as int;
            assert forall|end: int, prest: Seq<Expr>, out: Seq<(String, Expr)>|
                #[trigger] arglist_from(ts, m, end, prest, named@, out) implies arglist_from(
                ts,
                start,
                end,
                positional@ + prest,
                seq![],
                out,
            ) by {
                let all = seq![vg] + prest;
                assert(all.drop_first() =~= prest);
                assert(reads_at(ts, here, m, Ok::<Expr, ParseError>(all[0]), 1));
                assert(arglist_from(ts, here, end, all, nb, out));
                assert(pb + all =~= positional@ + prest);
            }
        }
    }
    Ok((positional, named))
}

fn join_words(words: &Vec<String>, sep: &str) -> (r: String)
    ensures
        r@ == join_str(strings_view(words@), sep@),
{
    join_texts(words, sep)
}

/// One segment of a command call read from `i` up to `m`: a run of words,
/// then `(`, then its arguments.
pub open spec fn seg_read(ts: Seq<Token>, i: int, m: int, seg: CallSegment) -> bool {
    let n = seg.words@.len();
    &&& n > 0
    &&& 0 <= i && i + n < ts.len()
    &&& forall|k: int| 0 <= k < n ==> ts[i + k].tok == Tok::Word(#[trigger] seg.words@[k])
    &&& ts[i + n].tok is LParen
    &&& arglist_from(ts, i + n + 1, m, seg.positional@, seq![], seg.named@)
}

/// The segments of a command call read from `i` up to `end`, stopping
/// where no word (or only a keyword argument) follows.
pub open spec fn segs_from(ts: Seq<Token>, i: int, end: int, segs: Seq<CallSegment>) -> bool
    decreases segs.len(),
{
    if segs.len() == 0 {
        end == i && 0 <= i <= ts.len() && (i < ts.len() ==> (!(ts[i].tok is Word) || keyword_arg_at(ts, ts[i], i)))
    } else {
        exists|m: int|
            #![trigger seg_read(ts, i, m, segs[0])]
            seg_read(ts, i, m, segs[0]) && segs_from(ts, m, end, segs.drop_first())
    }
}

fn parse_call_segments(p: &mut P, depth: usize) -> (r: Result<Vec<CallSegment>, ParseError>)
    requires
        wf(*old(p)),
        depth <= MAX_PARSE_DEPTH,
    ensures
        steps(*old(p), *final(p), r, true),
        r matches Ok(segs) ==> segs@.len() > 0 && forall|i: int| 0 <= i < segs@.len() ==> #[trigger] segs@[i].words@.len() > 0,
        r matches Ok(segs) ==> old(p).pos < old(p).tokens@.len() && old(p).tokens@[old(p).pos as int].tok
            == Tok::Word(segs@[0].words@[0]),
        r matches Ok(segs) ==> segs_from(old(p).tokens@, old(p).pos as int, final(p).pos as int, segs@),
        owed(segs_ok(old(p).tokens@, old(p).pos as int, depth as int), r, final(p).pos as int),
    decreases MAX_PARSE_DEPTH - depth, 4int,
{
    let ghost ts = p.tokens@;
    proof {
        lemma_segs_ok(ts, old(p).pos as int, depth as int);
    }
    let mut segments: Vec<CallSegment> = Vec::new();
    loop
        invariant_except_break
            segs_ok(ts, old(p).pos as int, depth as int) is Some ==> segs_loop(ts, p.pos as int, depth as int) == segs_ok(ts, old(p).pos as int, depth as int),
            forall|end: int, rest: Seq<CallSegment>|
                #[trigger] segs_from(ts, p.pos as int, end, rest) ==> segs_from(
                    ts,
                    old(p).pos as int,
                    end,
                    segments@ + rest,
                ),
        invariant
            ts == old(p).tokens@,
            p.tokens@ == old(p).tokens@,
            old(p).pos <= p.pos <= p.tokens@.len(),
            segments@.len() > 0 ==> old(p).pos < p.pos,
            segments@.len() > 0 ==> old(p).pos < old(p).tokens@.len() && old(p).tokens@[old(p).pos as int].tok
                == Tok::Word(segments@[0].words@[0]),
            segments@.len() == 0 ==> p.pos == old(p).pos,
            forall|i: int| 0 <= i < segments@.len() ==> #[trigger] segments@[i].words@.len() > 0,
            depth <= MAX_PARSE_DEPTH,
            segs_ok(ts, old(p).pos as int, depth as int) is Some ==> word_run(ts, old(p).pos as int) > 0,
        ensures
            segs_ok(ts, old(p).pos as int, depth as int) is Some ==> segs_ok(ts, old(p).pos as int, depth as int) == Some(p.pos as int) && segments@.len() > 0,
            ts == old(p).tokens@,
            p.tokens@ == old(p).tokens@,
            old(p).pos <= p.pos <= p.tokens@.len(),
            segments@.len() > 0 ==> old(p).pos < p.pos,
            segments@.len() > 0 ==> old(p).pos < old(p).tokens@.len() && old(p).tokens@[old(p).pos as int].tok
                == Tok::Word(segments@[0].words@[0]),
            forall|i: int| 0 <= i < segments@.len() ==> #[trigger] segments@[i].words@.len() > 0,
            segs_from(ts, old(p).pos as int, p.pos as int, segments@),
        decreases p.tokens@.len() - p.pos,
    {
        let ghost here = p.pos as int;
        let ghost sb = segments@;
        proof {
            lemma_segs_loop(ts, here, depth as int);
        }
        let words = collect_word_run(p);
        if words.len() == 0 {
            proof {
                assert(segs_from(ts, here, here, seq![]));
                assert(sb + seq![] =~= sb);
            }
            break;
        }
        if !p.kind_is(0, K::LParen) {
            let joined = join_words(&words, " ");
            return Err(p.err_here(msg3("expected `(` after `", joined.as_str(), "`")));
        }
        let (positional, named) = parse_arglist(p, depth)?;
        let seg = CallSegment { words, positional, named };
        let ghost sg = seg;
        segments.push(seg);
        proof {
            let m = p.pos as int;
            assert(seg_read(ts, here, m, sg));
            assert forall|end: int, rest: Seq<CallSegment>|
                #[trigger] segs_from(ts, m, end, rest) implies segs_from(ts, old(p).pos as int, end, segments@ + rest) by {
                let all = seq![sg] + rest;
                assert(all.drop_first() =~= rest);
                assert(seg_read(ts, here, m, all[0]));
                assert(segs_from(ts, here, end, all));
                assert(sb + all =~= segments@ + rest);
            }
        }
    }
    if segments.len() == 0 {
        return Err(p.err_here(msg("expected command name")));
    }
    Ok(segments)
}

/// Where a block ends: at the end of input, before `end`, `rescue`, `else:`
/// or a `(`, before the `return(endN)` of a legacy function (at the top
/// level), or, in a nested block, before a line that starts at or left of
/// the header's column.
pub open spec fn block_stop(ts: Seq<Token>, j: int, min_col: usize) -> bool {
    ||| j >= ts.len()
    ||| min_col == 0 && word_at(ts, j, "return"@) && j + 2 < ts.len() && ts[j + 1].tok is LParen && (
    ts[j + 2].tok matches Tok::Word(w) && end_marker_spec(w@))
    ||| min_col == 0 && word_at(ts, j, "end"@)
    ||| 0 <= j < ts.len() && ts[j].tok is LParen
    ||| min_col > 0 && 0 <= j < ts.len() && ts[j].col <= min_col
    ||| word_at(ts, j, "else"@) && j + 1 < ts.len() && ts[j + 1].tok is Colon
    ||| word_at(ts, j, "rescue"@)
    ||| word_at(ts, j, "end"@)
}

/// The statement at `k`, as it is read there, taking the tokens up to `m`.
#[verifier::opaque]
pub open spec fn stmt_read(ts: Seq<Token>, k: int, m: int, s: Stmt) -> bool {
    k < m && stmt_outline(ts, k, Ok::<Stmt, ParseError>(s)) && stmt_detail(ts, k, Ok::<Stmt, ParseError>(s), m)
}

/// The statements of a block read from `j` up to `end`: blank tokens are
/// skipped, each statement is read at the next token, and the block ends at
/// the first block stop.
pub open spec fn block_from(ts: Seq<Token>, j: int, end: int, stmts: Seq<Stmt>, min_col: usize) -> bool
    decreases stmts.len(),
{
    let k = skip_blank(ts, j);
    if stmts.len() == 0 {
        block_stop(ts, k, min_col) && end == k
    } else {
        !block_stop(ts, k, min_col) && exists|m: int|
            #![trigger stmt_read(ts, k, m, stmts[0])]
            stmt_read(ts, k, m, stmts[0]) && block_from(ts, m, end, stmts.drop_first(), min_col)
    }
}

/// `s` is read at a token that stands to the right of column `min_col`.
pub open spec fn read_right_of(ts: Seq<Token>, s: Stmt, min_col: usize) -> bool {
    exists|k: int, m: int| 0 <= k < ts.len() && ts[k].col > min_col && #[trigger] stmt_read(ts, k, m, s)
}

/// The body of a block is what is indented more than its header: every
/// statement of a block nested under column `min_col` is read at a token
/// that stands to the right of that column.
pub proof fn law_block_statements_are_indented(ts: Seq<Token>, j: int, end: int, stmts: Seq<Stmt>, min_col: usize)
    requires
        block_from(ts, j, end, stmts, min_col),
        min_col > 0,
        0 <= j,
    ensures
        forall|i: int| 0 <= i < stmts.len() ==> read_right_of(ts, #[trigger] stmts[i], min_col),
    decreases stmts.len(),
{
    if stmts.len() > 0 {
        let k = skip_blank(ts, j);
        if j <= ts.len() {
            lemma_skip_blank_stops(ts, j);
        }
        assert(0 <= k < ts.len() && ts[k].col > min_col);
        let m = choose|m: int| stmt_read(ts, k, m, stmts[0]) && block_from(ts, m, end, stmts.drop_first(), min_col);
        assert(k < m) by {
            reveal(stmt_read);
        }
        assert(read_right_of(ts, stmts[0], min_col));
        law_block_statements_are_indented(ts, m, end, stmts.drop_first(), min_col);
        assert forall|i: int| 0 <= i < stmts.len() implies read_right_of(ts, #[trigger] stmts[i], min_col) by {
            if i > 0 {
                assert(stmts[i] == stmts.drop_first()[i - 1]);
            }
        }
    }
}

/// The statements with nested blocks: `if` (with `not` or an OS test),
/// `while`, `for` (both forms), `do`, `try`.
pub open spec fn compound(s: Stmt) -> bool {
    s is If || s is IfOs || s is While || s is For || s is CFor || s is DoWhile || s is Try
}

/// A block read from `j` up to `end` as `block_from` says, with the nested
/// blocks of each compound statement in it read the same way, at every
/// depth: their conditions, bodies, `else` parts and rescue parts are
/// fixed by the tokens.
#[verifier::opaque]
pub open spec fn deep_block(ts: Seq<Token>, j: int, end: int, stmts: Seq<Stmt>, min_col: usize) -> bool
    decreases stmts,
{
    let k = skip_blank(ts, j);
    if stmts.len() == 0 {
        block_stop(ts, k, min_col) && end == k
    } else {
        !block_stop(ts, k, min_col) && exists|m: int|
            #![trigger stmt_read(ts, k, m, stmts[0])]
            stmt_read(ts, k, m, stmts[0]) && (compound(stmts[0]) ==> match stmts[0] {
                Stmt::If { cond, body, else_body, .. } => exists|c_end: int, bend: int|
                    #![trigger expr_colon(ts, k + 1, c_end, cond), block_stop(ts, bend, ts[k].col)]
                    expr_colon(ts, k + 1, c_end, cond) && block_stop(ts, bend, ts[k].col) && deep_block(ts, after_line(ts, c_end), bend, body@, ts[k].col) && match else_body {
                    None => true,
                    Some(eb) => exists|eend: int|
                        #![trigger block_stop(ts, eend, ts[k].col)]
                        block_stop(ts, eend, ts[k].col) && deep_block(ts, after_line(ts, skip_blank(ts, bend) + 2), eend, eb@, ts[k].col),
                },
                Stmt::IfOs { body, else_body, .. } => exists|bend: int|
                    #![trigger block_stop(ts, bend, ts[k].col)]
                    block_stop(ts, bend, ts[k].col) && deep_block(ts, after_line(ts, after_not(ts, k + 1) + 2), bend, body@, ts[k].col) && match else_body {
                    None => true,
                    Some(eb) => exists|eend: int|
                        #![trigger block_stop(ts, eend, ts[k].col)]
                        block_stop(ts, eend, ts[k].col) && deep_block(ts, after_line(ts, skip_blank(ts, bend) + 2), eend, eb@, ts[k].col),
                },
                Stmt::While { cond, body, .. } => exists|c_end: int, bend: int|
                    #![trigger expr_colon(ts, k + 1, c_end, cond), block_stop(ts, bend, ts[k].col)]
                    expr_colon(ts, k + 1, c_end, cond) && block_stop(ts, bend, ts[k].col) && deep_block(ts, after_line(ts, c_end), bend, body@, ts[k].col),
                Stmt::For { iter, body, .. } => exists|c_end: int, bend: int|
                    #![trigger expr_colon(ts, k + 3, c_end, iter), block_stop(ts, bend, ts[k].col)]
                    expr_colon(ts, k + 3, c_end, iter) && block_stop(ts, bend, ts[k].col) && deep_block(ts, after_line(ts, c_end), bend, body@, ts[k].col),
                Stmt::DoWhile { body, .. } => exists|bend: int|
                    #![trigger block_stop(ts, bend, ts[k].col)]
                    block_stop(ts, bend, ts[k].col) && deep_block(ts, after_line(ts, k + 2), bend, body@, ts[k].col),
                Stmt::Try { body, rescue_var, rescue_body, .. } => exists|bend: int, rend: int|
                    #![trigger block_stop(ts, bend, ts[k].col), block_stop(ts, rend, ts[k].col)]
                    block_stop(ts, bend, ts[k].col) && deep_block(ts, after_line(ts, k + 2), bend, body@, ts[k].col) && block_stop(ts, rend, ts[k].col) && deep_block(ts, after_line(ts, skip_blank(ts, bend) + if rescue_var is Some { 4int } else { 2int }), rend, rescue_body@, ts[k].col),
                Stmt::CFor { body, .. } => exists|c: int, bend: int|
                    #![trigger ts[c], block_stop(ts, bend, ts[k].col)]
                    k < c && c + 1 < ts.len() && ts[c].tok is RParen && ts[c + 1].tok is Colon && block_stop(ts, bend, ts[k].col) && deep_block(ts, after_line(ts, c + 2), bend, body@, ts[k].col),
                _ => true,
            }) && deep_block(ts, m, end, stmts.drop_first(), min_col)
    }
}

/// A block is read deeply when its first statement is read, with its
/// nested blocks read deeply, and the rest of the block after it is too.
proof fn lemma_deep_block_cons(ts: Seq<Token>, j: int, m: int, end: int, stmts: Seq<Stmt>, min_col: usize)
    requires
        stmts.len() > 0,
        !block_stop(ts, skip_blank(ts, j), min_col),
        stmt_read(ts, skip_blank(ts, j), m, stmts[0]),
        compound(stmts[0]) ==> stmt_deep(ts, skip_blank(ts, j), stmts[0]),
        deep_block(ts, m, end, stmts.drop_first(), min_col),
    ensures
        deep_block(ts, j, end, stmts, min_col),
{
    reveal_with_fuel(deep_block, 1);
    reveal(stmt_deep);
}

/// An empty block stops at the first block stop past blank lines.
proof fn lemma_deep_block_nil(ts: Seq<Token>, j: int, min_col: usize)
    requires
        block_stop(ts, skip_blank(ts, j), min_col),
    ensures
        deep_block(ts, j, skip_blank(ts, j), seq![], min_col),
{
    reveal_with_fuel(deep_block, 1);
}

/// The block of an `else` that stands, past blank lines, at or after `i`,
/// read as `deep_block` says.
pub open spec fn else_deep(ts: Seq<Token>, i: int, col: usize, eb: Seq<Stmt>) -> bool {
    exists|eend: int|
        #![trigger block_stop(ts, eend, col)]
        block_stop(ts, eend, col) && deep_block(ts, after_line(ts, skip_blank(ts, i) + 2), eend, eb, col)
}

/// The nested blocks of the compound statement `s` read at `k`, each read as
/// `deep_block` says.
#[verifier::opaque]
pub open spec fn stmt_deep(ts: Seq<Token>, k: int, s: Stmt) -> bool {
    match s {
        Stmt::If { cond, body, else_body, .. } => exists|c_end: int, bend: int|
            #![trigger expr_colon(ts, k + 1, c_end, cond), block_stop(ts, bend, ts[k].col)]
            expr_colon(ts, k + 1, c_end, cond) && block_stop(ts, bend, ts[k].col) && deep_block(ts, after_line(ts, c_end), bend, body@, ts[k].col) && match else_body {
            None => true,
            Some(eb) => exists|eend: int|
                #![trigger block_stop(ts, eend, ts[k].col)]
                block_stop(ts, eend, ts[k].col) && deep_block(ts, after_line(ts, skip_blank(ts, bend) + 2), eend, eb@, ts[k].col),
        },
        Stmt::IfOs { body, else_body, .. } => exists|bend: int|
            #![trigger block_stop(ts, bend, ts[k].col)]
            block_stop(ts, bend, ts[k].col) && deep_block(ts, after_line(ts, after_not(ts, k + 1) + 2), bend, body@, ts[k].col) && match else_body {
            None => true,
            Some(eb) => exists|eend: int|
                #![trigger block_stop(ts, eend, ts[k].col)]
                block_stop(ts, eend, ts[k].col) && deep_block(ts, after_line(ts, skip_blank(ts, bend) + 2), eend, eb@, ts[k].col),
        },
        Stmt::While { cond, body, .. } => exists|c_end: int, bend: int|
            #![trigger expr_colon(ts, k + 1, c_end, cond), block_stop(ts, bend, ts[k].col)]
            expr_colon(ts, k + 1, c_end, cond) && block_stop(ts, bend, ts[k].col) && deep_block(ts, after_line(ts, c_end), bend, body@, ts[k].col),
        Stmt::For { iter, body, .. } => exists|c_end: int, bend: int|
            #![trigger expr_colon(ts, k + 3, c_end, iter), block_stop(ts, bend, ts[k].col)]
            expr_colon(ts, k + 3, c_end, iter) && block_stop(ts, bend, ts[k].col) && deep_block(ts, after_line(ts, c_end), bend, body@, ts[k].col),
        Stmt::DoWhile { body, .. } => exists|bend: int|
            #![trigger block_stop(ts, bend, ts[k].col)]
            block_stop(ts, bend, ts[k].col) && deep_block(ts, after_line(ts, k + 2), bend, body@, ts[k].col),
        Stmt::Try { body, rescue_var, rescue_body, .. } => exists|bend: int, rend: int|
            #![trigger block_stop(ts, bend, ts[k].col), block_stop(ts, rend, ts[k].col)]
            block_stop(ts, bend, ts[k].col) && deep_block(ts, after_line(ts, k + 2), bend, body@, ts[k].col) && block_stop(ts, rend, ts[k].col) && deep_block(ts, after_line(ts, skip_blank(ts, bend) + if rescue_var is Some { 4int } else { 2int }), rend, rescue_body@, ts[k].col),
        Stmt::CFor { body, .. } => exists|c: int, bend: int|
            #![trigger ts[c], block_stop(ts, bend, ts[k].col)]
            k < c && c + 1 < ts.len() && ts[c].tok is RParen && ts[c + 1].tok is Colon && block_stop(ts, bend, ts[k].col) && deep_block(ts, after_line(ts, c + 2), bend, body@, ts[k].col),
        _ => true,
    }
}

fn parse_block(p: &mut P, min_indent_col: usize, depth: usize) -> (r: Result<Vec<Stmt>, ParseError>)
    requires
        wf(*old(p)),
        depth <= MAX_PARSE_DEPTH,
    ensures
        steps(*old(p), *final(p), r, false),
        r is Ok ==> block_stop(final(p).tokens@, final(p).pos as int, min_indent_col) && !(final(p).pos
            < final(p).tokens@.len() && blank(final(p).tokens@[final(p).pos as int].tok)),
        ({
            let j = skip_blank(old(p).tokens@, old(p).pos as int);
            block_stop(old(p).tokens@, j, min_indent_col) ==> (r matches Ok(v) && v@.len() == 0
                && final(p).pos == j)
        }),
        r matches Ok(v) ==> block_from(old(p).tokens@, old(p).pos as int, final(p).pos as int, v@, min_indent_col),
        ({
            let j = skip_blank(old(p).tokens@, old(p).pos as int);
            !block_stop(old(p).tokens@, j, min_indent_col) && deep_assign_at(old(p).tokens@, j, depth) ==> (r matches Err(
                e,
            ) && e.message@ == deep_message())
        }),
        owed(block_ok(old(p).tokens@, old(p).pos as int, min_indent_col, depth as int), r, final(p).pos as int),
        r matches Ok(v) ==> deep_block(old(p).tokens@, old(p).pos as int, final(p).pos as int, v@, min_indent_col),
    decreases MAX_PARSE_DEPTH - depth, 40int,
{
    let ghost ts = p.tokens@;
    let ghost j0 = skip_blank(old(p).tokens@, old(p).pos as int);
    let mut stmts: Vec<Stmt> = Vec::new();
    loop
        invariant_except_break
            stmts@.len() == 0 ==> p.pos == old(p).pos,
            block_ok(ts, old(p).pos as int, min_indent_col, depth as int) is Some ==> block_ok(ts, p.pos as int, min_indent_col, depth as int) == block_ok(ts, old(p).pos as int, min_indent_col, depth as int),
            forall|end: int, rest: Seq<Stmt>|
                #[trigger] deep_block(ts, p.pos as int, end, rest, min_indent_col) ==> deep_block(
                    ts,
                    old(p).pos as int,
                    end,
                    stmts@ + rest,
                    min_indent_col,
                ),
            forall|end: int, rest: Seq<Stmt>|
                #[trigger] block_from(ts, p.pos as int, end, rest, min_indent_col) ==> block_from(
                    ts,
                    old(p).pos as int,
                    end,
                    stmts@ + rest,
                    min_indent_col,
                ),
        invariant
            ts == old(p).tokens@,
            p.tokens@ == old(p).tokens@,
            old(p).pos <= p.pos <= p.tokens@.len(),
            depth <= MAX_PARSE_DEPTH,
            j0 == skip_blank(old(p).tokens@, old(p).pos as int),
            stmts@.len() > 0 ==> !block_stop(old(p).tokens@, j0, min_indent_col),
            stmts@.len() > 0 ==> !deep_assign_at(old(p).tokens@, j0, depth),
        ensures
            p.tokens@ == old(p).tokens@,
            old(p).pos <= p.pos <= p.tokens@.len(),
            stmts@.len() == 0 ==> p.pos == j0,
            stmts@.len() > 0 ==> !block_stop(old(p).tokens@, j0, min_indent_col),
            stmts@.len() > 0 ==> !deep_assign_at(old(p).tokens@, j0, depth),
            block_stop(p.tokens@, p.pos as int, min_indent_col),
            !(p.pos < p.tokens@.len() && blank(p.tokens@[p.pos as int].tok)),
            block_from(ts, old(p).pos as int, p.pos as int, stmts@, min_indent_col),
            deep_block(ts, old(p).pos as int, p.pos as int, stmts@, min_indent_col),
            block_ok(ts, old(p).pos as int, min_indent_col, depth as int) is Some ==> block_ok(ts, old(p).pos as int, min_indent_col, depth as int) == Some(p.pos as int),
        decreases p.tokens@.len() - p.pos,
    {
        let ghost before = p.pos as int;
        let ghost sb = stmts@;
        p.skip_newlines();
        proof {
            lemma_block_ok(ts, before, min_indent_col, depth as int);
            lemma_skip_blank_stops(p.tokens@, before);
            if block_stop(ts, p.pos as int, min_indent_col) {
                lemma_deep_block_nil(ts, before, min_indent_col);
                assert(block_from(ts, before, p.pos as int, seq![], min_indent_col));
                assert(sb + seq![] =~= sb);
            }
        }
        if p.pos >= p.tokens.len() {
            break;
        }
        let tok_col = p.col_here();
        if min_indent_col == 0 {
            if p.is_word(0, "return") && p.kind_is(1, K::LParen) {
                let marker = match p.word(2) {
                    Some(w) => is_end_marker(w),
                    None => false,
                };
                if marker {
                    break;
                }
            }
            if p.is_word(0, "end") {
                break;
            }
        }
        if p.kind_is(0, K::LParen) {
            break;
        }
        if min_indent_col > 0 && tok_col <= min_indent_col {
            break;
        }
        if p.is_word(0, "else") && p.kind_is(1, K::Colon) {
            break;
        }
        if p.is_word(0, "rescue") || p.is_word(0, "end") {
            break;
        }
        assert(!block_stop(p.tokens@, p.pos as int, min_indent_col));
        let ghost k = p.pos as int;
        let stmt = parse_stmt(p, depth)?;
        let ghost sg = stmt;
        stmts.push(stmt);
        proof {
            let m = p.pos as int;
            reveal(stmt_read);
            assert(stmt_read(ts, k, m, sg));
            assert forall|end: int, rest: Seq<Stmt>|
                #[trigger] deep_block(ts, m, end, rest, min_indent_col) implies deep_block(
                ts,
                old(p).pos as int,
                end,
                stmts@ + rest,
                min_indent_col,
            ) by {
                let all = seq![sg] + rest;
                assert(all.drop_first() =~= rest);
                assert(stmt_read(ts, k, m, all[0]));
                lemma_deep_block_cons(ts, before, m, end, all, min_indent_col);
                assert(sb + all =~= stmts@ + rest);
            }
            assert forall|end: int, rest: Seq<Stmt>|
                #[trigger] block_from(ts, m, end, rest, min_indent_col) implies block_from(
                ts,
                old(p).pos as int,
                end,
                stmts@ + rest,
                min_indent_col,
            ) by {
                let all = seq![sg] + rest;
                assert(all.drop_first() =~= rest);
                assert(stmt_read(ts, k, m, all[0]));
                assert(block_from(ts, before, end, all, min_indent_col));
                assert(sb + all =~= stmts@ + rest);
            }
        }
    }
    Ok(stmts)
}

/// The operator of a compound assignment token (`+=`, `-=`, `*=`, `/=`, `%=`).
pub open spec fn compound_of_kind(k: K) -> Option<BinOp> {
    match k {
        K::PlusEq => Some(BinOp::Add),
        K::MinusEq => Some(BinOp::Sub),
        K::StarEq => Some(BinOp::Mul),
        K::SlashEq => Some(BinOp::Div),
        K::PercentEq => Some(BinOp::Mod),
        _ => None,
    }
}

fn compound_op(k: Option<K>) -> (r: Option<BinOp>)
    ensures
        r == match k {
            Some(kk) => compound_of_kind(kk),
            None => None,
        },
{
    match k {
        Some(K::PlusEq) => Some(BinOp::Add),
        Some(K::MinusEq) => Some(BinOp::Sub),
        Some(K::StarEq) => Some(BinOp::Mul),
        Some(K::SlashEq) => Some(BinOp::Div),
        Some(K::PercentEq) => Some(BinOp::Mod),
        _ => None,
    }
}

/// A compound assignment `N op= E` updates `N` with the arithmetic operator
/// written before the `=`: `+=` adds, `-=` subtracts, `*=` multiplies, `/=`
/// divides and `%=` takes the remainder. A statement read at a plain word
/// followed by one of these tokens is that update of that name.
pub proof fn law_compound_assignment_operator(ts: Seq<Token>, k: int, m: int, s: Stmt)
    requires
        stmt_read(ts, k, m, s),
        plain_word_at(ts, k),
        k + 1 < ts.len(),
        ts[k + 1].tok is PlusEq || ts[k + 1].tok is MinusEq || ts[k + 1].tok is StarEq
            || ts[k + 1].tok is SlashEq || ts[k + 1].tok is PercentEq,
    ensures
        s matches Stmt::CompoundAssign { target: AssignTarget::Name(n), op, .. } && (ts[k].tok matches Tok::Word(
            w,
        ) && n@ == w@) && (ts[k + 1].tok is PlusEq ==> op == BinOp::Add) && (ts[k + 1].tok is MinusEq ==> op
            == BinOp::Sub) && (ts[k + 1].tok is StarEq ==> op == BinOp::Mul) && (ts[k + 1].tok is SlashEq ==> op
            == BinOp::Div) && (ts[k + 1].tok is PercentEq ==> op == BinOp::Mod),
{
    reveal(stmt_read);
    reveal(compound_read);
}

/// `N++` adds one to `N` and `N--` subtracts one from it: a statement read at
/// a plain word followed by `++` or `--` is that update of that name.
pub proof fn law_increment_and_decrement(ts: Seq<Token>, k: int, m: int, s: Stmt)
    requires
        stmt_read(ts, k, m, s),
        plain_word_at(ts, k),
        k + 1 < ts.len(),
        ts[k + 1].tok is PlusPlus || ts[k + 1].tok is MinusMinus,
    ensures
        s matches Stmt::CompoundAssign { target: AssignTarget::Name(n), op, expr, .. } && (ts[k].tok matches Tok::Word(
            w,
        ) && n@ == w@) && expr == Expr::Lit(Literal::Int(1)) && (ts[k + 1].tok is PlusPlus ==> op == BinOp::Add)
            && (ts[k + 1].tok is MinusMinus ==> op == BinOp::Sub),
{
    reveal(stmt_read);
    reveal(step_read);
}

/// A mini-statement inside `for (init; cond; step)`: `set x = e`, `x = e`,
/// `x++`, `x--`, `x += e` (and `-= *= /=`). `None` when none of these starts here.
/// The operator of an update in a C-style `for` header (`++`, `--`, `+=`,
/// `-=`, `*=`, `/=`).
pub open spec fn cfor_op(k: K) -> Option<BinOp> {
    match k {
        K::PlusPlus | K::PlusEq => Some(BinOp::Add),
        K::MinusMinus | K::MinusEq => Some(BinOp::Sub),
        K::StarEq => Some(BinOp::Mul),
        K::SlashEq => Some(BinOp::Div),
        _ => None,
    }
}

/// The updates a C-style `for` header accepts and what they do: `++` and
/// `+=` add, `--` and `-=` subtract, `*=` multiplies, `/=` divides. No other
/// token is an update there (`%=` included).
pub proof fn law_for_header_update_operators(k: K)
    ensures
        cfor_op(K::PlusPlus) == Some(BinOp::Add),
        cfor_op(K::PlusEq) == Some(BinOp::Add),
        cfor_op(K::MinusMinus) == Some(BinOp::Sub),
        cfor_op(K::MinusEq) == Some(BinOp::Sub),
        cfor_op(K::StarEq) == Some(BinOp::Mul),
        cfor_op(K::SlashEq) == Some(BinOp::Div),
        !(k is PlusPlus || k is PlusEq || k is MinusMinus || k is MinusEq || k is StarEq || k is SlashEq)
            ==> cfor_op(k) is None,
{
}

/// The statement a `for (...)` header part `name <t> ...` makes, on `line`.
pub open spec fn cfor_stmt(s: Stmt, name: Seq<char>, t: Tok, line: usize) -> bool {
    match s {
        Stmt::CompoundAssign { target: AssignTarget::Name(n), op, expr, line: l } => n@ == name && l == line
            && cfor_op(kind_spec(t)) == Some(op) && ((t is PlusPlus || t is MinusMinus) ==> expr == Expr::Lit(
            Literal::Int(1),
        )),
        Stmt::Assign { target: AssignTarget::Name(n), is_const, line: l, .. } => n@ == name && l == line
            && !is_const && t is Equals,
        _ => false,
    }
}

/// Where the name of a `for (...)` header part stands: after `set`, if any.
pub open spec fn cfor_name_at(ts: Seq<Token>, i: int) -> int {
    if word_at(ts, i, "set"@) {
        i + 1
    } else {
        i
    }
}

/// Where a C-style `for` part with its name at `j` ends: right after `++`
/// or `--`, else at the end of the expression read after the operator.
pub open spec fn cfor_ends(ts: Seq<Token>, j: int, s: Stmt, end: int) -> bool {
    if j + 1 < ts.len() && (ts[j + 1].tok is PlusPlus || ts[j + 1].tok is MinusMinus) {
        end == j + 2
    } else {
        match s {
            Stmt::Assign { expr, .. } => j + 2 < end && reads_at(ts, j + 2, end, Ok::<Expr, ParseError>(expr), 1),
            Stmt::CompoundAssign { expr, .. } => j + 2 < end && reads_at(ts, j + 2, end, Ok::<Expr, ParseError>(expr), 1),
            _ => false,
        }
    }
}

/// A part of a C-style `for` header read at `i` up to `end`: a name (after
/// an optional `set`), its operator and, unless it is `++` or `--`, the
/// expression after it.
pub open spec fn cfor_part(ts: Seq<Token>, i: int, s: Stmt, end: int) -> bool {
    let j = cfor_name_at(ts, i);
    0 <= i < ts.len() && j + 1 < ts.len() && (ts[j].tok matches Tok::Word(n0) && cfor_stmt(s, n0@, ts[j + 1].tok, ts[i].line))
        && cfor_ends(ts, j, s, end)
}

fn parse_cfor_mini_stmt(p: &mut P, depth: usize) -> (r: Result<Option<Stmt>, ParseError>)
    requires
        wf(*old(p)),
        depth <= MAX_PARSE_DEPTH,
    ensures
        steps(*old(p), *final(p), r, false),
        old(p).pos >= old(p).tokens@.len() ==> (r matches Ok(None) && final(p).pos == old(p).pos),
        old(p).pos < old(p).tokens@.len() && !(old(p).tokens@[old(p).pos as int].tok is Word) ==> (r matches Ok(
            None,
        ) && final(p).pos == old(p).pos),
        ({
            let ts = old(p).tokens@;
            let i = old(p).pos as int;
            let j = cfor_name_at(ts, i);
            &&& r matches Ok(Some(s)) ==> (j + 1 < ts.len() && (ts[j].tok matches Tok::Word(n0) && cfor_stmt(
                s,
                n0@,
                ts[j + 1].tok,
                ts[i].line,
            )))
            &&& r matches Ok(None) ==> !(j + 1 < ts.len() && ts[j].tok is Word && (cfor_op(
                kind_spec(ts[j + 1].tok),
            ) is Some || ts[j + 1].tok is Equals))
        }),
        r matches Ok(Some(s)) ==> cfor_part(old(p).tokens@, old(p).pos as int, s, final(p).pos as int),
    decreases MAX_PARSE_DEPTH - depth, 36int,
{
    if p.pos >= p.tokens.len() {
        return Ok(None);
    }
    let line = p.line_here();
    let name = if p.is_word(0, "set") {
        p.advance();
        match p.take_word() {
            Some(w) => w,
            None => {
                return Err(p.err_here(msg("expected variable name")));
            },
        }
    } else {
        match p.take_word() {
            Some(w) => w,
            None => {
                return Ok(None);
            },
        }
    };
    let k = p.kind(0);
    if k == Some(K::PlusPlus) || k == Some(K::MinusMinus) {
        let op = if k == Some(K::PlusPlus) {
            BinOp::Add
        } else {
            BinOp::Sub
        };
        p.advance();
        return Ok(
            Some(
                Stmt::CompoundAssign {
                    target: AssignTarget::Name(name),
                    op,
                    expr: Expr::Lit(Literal::Int(1)),
                    line,
                },
            ),
        );
    }
    let op = if k == Some(K::PlusEq) {
        Some(BinOp::Add)
    } else if k == Some(K::MinusEq) {
        Some(BinOp::Sub)
    } else if k == Some(K::StarEq) {
        Some(BinOp::Mul)
    } else if k == Some(K::SlashEq) {
        Some(BinOp::Div)
    } else {
        None
    };
    match op {
        Some(op) => {
            p.advance();
            let expr = parse_expr(p, depth)?;
            return Ok(Some(Stmt::CompoundAssign { target: AssignTarget::Name(name), op, expr, line }));
        },
        None => {},
    }
    if k == Some(K::Equals) {
        p.advance();
        let expr = parse_expr(p, depth)?;
        return Ok(
            Some(Stmt::Assign { target: AssignTarget::Name(name), expr, is_const: false, line }),
        );
    }
    Ok(None)
}

/// `WORD (.field | [expr])+ (= | op=) expr`. `Ok(None)` when no assignment
/// operator follows the place expression.
/// An index or a field access continues a place at `j`.
pub open spec fn place_continues(ts: Seq<Token>, j: int) -> bool {
    0 <= j < ts.len() && (ts[j].tok is Dot || ts[j].tok is LBracket)
}

/// `=` or a compound assignment operator stands at `j`.
pub open spec fn assign_follows(ts: Seq<Token>, j: int) -> bool {
    0 <= j < ts.len() && (ts[j].tok is Equals || compound_of_kind(kind_spec(ts[j].tok)) is Some)
}

/// One accessor at `j`, ending before `next`: `.f` or `[key]` applied to
/// `base`, as the expression `e` and as the assignment target `t`.
pub open spec fn place_step(
    ts: Seq<Token>,
    j: int,
    next: int,
    base: Expr,
    e: Expr,
    t: AssignTarget,
    line: usize,
) -> bool {
    0 <= j < ts.len() && if ts[j].tok is Dot {
        next == j + 2 && j + 1 < ts.len() && (ts[j + 1].tok matches Tok::Word(f) && e == Expr::Field {
            target: Box::new(base),
            name: f,
            line,
        } && t == AssignTarget::Field { target: Box::new(base), name: f })
    } else {
        ts[j].tok is LBracket && exists|key: Expr|
            #![trigger reads_at(ts, j + 1, next - 1, Ok::<Expr, ParseError>(key), 1)]
            j + 1 < next - 1 && next - 1 < ts.len() && ts[next - 1].tok is RBracket && reads_at(
                ts,
                j + 1,
                next - 1,
                Ok::<Expr, ParseError>(key),
                1,
            ) && e == Expr::Index { target: Box::new(base), key: Box::new(key), line } && t
                == AssignTarget::Index { target: Box::new(base), key: Box::new(key) }
    }
}

/// The accessors from `j` to `end`, applied in turn to `base`, make the
/// target `t`: the last accessor is the target, those before it build the
/// expression it applies to.
pub open spec fn place_read(ts: Seq<Token>, j: int, end: int, base: Expr, t: AssignTarget, line: usize) -> bool
    decreases end - j,
{
    exists|next: int, e: Expr, t1: AssignTarget|
        #![trigger place_step(ts, j, next, base, e, t1, line)]
        j < next <= end && place_step(ts, j, next, base, e, t1, line) && if place_continues(ts, next) {
            place_read(ts, next, end, e, t, line)
        } else {
            end == next && t == t1
        }
}

/// `s` assigns to the target `t` with `=` or a compound operator at `end`,
/// and the expression read after it.
pub open spec fn place_assign(ts: Seq<Token>, end: int, s: Stmt, t: AssignTarget, line: usize) -> bool {
    match s {
        Stmt::Assign { target, expr, is_const, line: l } => target == t && !is_const && l == line && 0 <= end
            < ts.len() && ts[end].tok is Equals && exists|m: int|
            #![trigger reads_at(ts, end + 1, m, Ok::<Expr, ParseError>(expr), 1)]
            end + 1 < m && reads_at(ts, end + 1, m, Ok::<Expr, ParseError>(expr), 1),
        Stmt::CompoundAssign { target, op, expr, line: l } => target == t && l == line && 0 <= end < ts.len()
            && compound_of_kind(kind_spec(ts[end].tok)) == Some(op) && exists|m: int|
            #![trigger reads_at(ts, end + 1, m, Ok::<Expr, ParseError>(expr), 1)]
            end + 1 < m && reads_at(ts, end + 1, m, Ok::<Expr, ParseError>(expr), 1),
        _ => false,
    }
}

/// `s` is the assignment made by the accessors from `i` on, applied to the
/// variable `base`, and the `=` or compound operator after them.
#[verifier::opaque]
pub open spec fn place_assign_at(ts: Seq<Token>, i: int, base: String, s: Stmt, line: usize) -> bool {
    exists|end: int, t: AssignTarget|
        #![trigger place_read(ts, i, end, Expr::Var(base), t, line)]
        place_read(ts, i, end, Expr::Var(base), t, line) && place_assign(ts, end, s, t, line)
}

/// The expression that the accessors read so far make, the last one pending.
pub open spec fn pending_expr(base: Expr, f: Option<String>, k: Option<Expr>, line: usize) -> Expr {
    match (f, k) {
        (Some(f), _) => Expr::Field { target: Box::new(base), name: f, line },
        (None, Some(k)) => Expr::Index { target: Box::new(base), key: Box::new(k), line },
        _ => base,
    }
}

/// The target that the pending accessor makes.
pub open spec fn pending_target(base: Expr, f: Option<String>, k: Option<Expr>) -> AssignTarget {
    match (f, k) {
        (Some(f), _) => AssignTarget::Field { target: Box::new(base), name: f },
        (None, Some(k)) => AssignTarget::Index { target: Box::new(base), key: Box::new(k) },
        _ => AssignTarget::Index { target: Box::new(base), key: Box::new(base) },
    }
}

fn try_parse_place_assign(p: &mut P, base_name: String, line: usize, depth: usize) -> (r: Result<
    Option<Stmt>,
    ParseError,
>)
    requires
        wf(*old(p)),
        depth <= MAX_PARSE_DEPTH,
    ensures
        steps(*old(p), *final(p), r, false),
        old(p).pos < old(p).tokens@.len() ==> (r is Ok ==> old(p).pos < final(p).pos),
        r matches Ok(None) ==> !place_continues(final(p).tokens@, final(p).pos as int),
        place_continues(old(p).tokens@, old(p).pos + 1) ==> (r matches Ok(None) ==> !assign_follows(
            final(p).tokens@,
            final(p).pos as int,
        )),
        ({
            let start = if old(p).pos < old(p).tokens@.len() {
                old(p).pos + 1
            } else {
                old(p).pos as int
            };
            !place_continues(old(p).tokens@, start) ==> (r matches Ok(None) && final(p).pos == start)
        }),
        r matches Ok(Some(s)) ==> match s {
            Stmt::Assign { target, is_const, line: l, .. } => !is_const && l == line && !(target is Name),
            Stmt::CompoundAssign { target, line: l, .. } => l == line && !(target is Name),
            _ => false,
        },
        r matches Ok(Some(s)) ==> place_assign_at(old(p).tokens@, old(p).pos + 1, base_name, s, line),
        old(p).pos < old(p).tokens@.len() ==> (chain_end(old(p).tokens@, old(p).pos + 1, depth as int) matches Some(c)
            ==> if old(p).pos + 1 < c && assign_op_at(old(p).tokens@, c) {
            owed(expr_line_ok(old(p).tokens@, c + 1, depth as int), r, final(p).pos as int) && (r is Ok ==> r matches Ok(
                Some(_),
            ))
        } else {
            r matches Ok(None) && final(p).pos == c
        }),
    decreases MAX_PARSE_DEPTH - depth, 36int,
{
    let ghost ts = p.tokens@;
    let ghost base_e = Expr::Var(base_name);
    if p.pos < p.tokens.len() {
        p.advance();
    }
    let ghost start = p.pos as int;
    let ghost mut ran = false;
    let mut target_expr = Expr::Var(base_name);
    let mut last_field: Option<String> = None;
    let mut last_index: Option<Expr> = None;
    loop
        invariant
            p.tokens@ == old(p).tokens@,
            old(p).pos <= p.pos <= p.tokens@.len(),
            depth <= MAX_PARSE_DEPTH,
            start == if old(p).pos < old(p).tokens@.len() {
                old(p).pos + 1
            } else {
                old(p).pos as int
            },
            start <= p.pos,
            !ran ==> p.pos == start && last_field is None && last_index is None,
            ran ==> (last_field is Some) != (last_index is Some),
            ran ==> place_continues(old(p).tokens@, start),
            ts == old(p).tokens@,
            chain_end(ts, start, depth as int) is Some ==> chain_end(ts, p.pos as int, depth as int) == chain_end(ts, start, depth as int),
            !ran ==> target_expr == base_e,
            forall|end: int, t: AssignTarget|
                #[trigger] place_read(ts, p.pos as int, end, pending_expr(target_expr, last_field, last_index, line), t, line)
                    && place_continues(ts, p.pos as int) ==> place_read(ts, start, end, base_e, t, line),
            ran && !place_continues(ts, p.pos as int) ==> place_read(
                ts,
                start,
                p.pos as int,
                base_e,
                pending_target(target_expr, last_field, last_index),
                line,
            ),
        ensures
            p.tokens@ == old(p).tokens@,
            start <= p.pos <= p.tokens@.len(),
            !ran ==> p.pos == start && last_field is None && last_index is None,
            ran ==> (last_field is Some) != (last_index is Some),
            ran ==> place_continues(old(p).tokens@, start),
            !place_continues(p.tokens@, p.pos as int),
            chain_end(ts, start, depth as int) is Some ==> chain_end(ts, start, depth as int) == Some(p.pos as int),
            ran ==> place_read(ts, start, p.pos as int, base_e, pending_target(target_expr, last_field, last_index), line),
        decreases p.tokens@.len() - p.pos,
    {
        let is_dot = p.kind_is(0, K::Dot);
        let is_bracket = p.kind_is(0, K::LBracket);
        if !is_dot && !is_bracket {
            break;
        }
        let ghost j = p.pos as int;
        let ghost pe = pending_expr(target_expr, last_field, last_index, line);
        proof {
            ran = true;
        }
        match last_field.take() {
            Some(field) => {
                target_expr = Expr::Field { target: Box::new(target_expr), name: field, line };
            },
            None => match last_index.take() {
                Some(key) => {
                    target_expr = Expr::Index { target: Box::new(target_expr), key: Box::new(key), line };
                },
                None => {},
            },
        }
        p.advance();
        if is_dot {
            match p.take_word() {
                Some(f) => {
                    last_field = Some(f);
                },
                None => {
                    return Err(p.err_here(msg("expected field name after `.`")));
                },
            }
        } else {
            let key = parse_expr(p, depth)?;
            p.expect_kind(K::RBracket, "`]`")?;
            last_index = Some(key);
        }
        proof {
            let next = p.pos as int;
            let e2 = pending_expr(target_expr, last_field, last_index, line);
            let t2 = pending_target(target_expr, last_field, last_index);
            assert(target_expr == pe);
            assert(place_step(ts, j, next, pe, e2, t2, line));
            assert forall|end: int, t: AssignTarget|
                #[trigger] place_read(ts, next, end, e2, t, line) && place_continues(ts, next) implies place_read(
                ts,
                start,
                end,
                base_e,
                t,
                line,
            ) by {
                assert(place_read(ts, j, end, pe, t, line));
            }
            if !place_continues(ts, next) {
                assert(place_read(ts, j, next, pe, t2, line));
            }
        }
    }
    let ghost pt = pending_target(target_expr, last_field, last_index);
    let target = match (last_field, last_index) {
        (Some(field), None) => AssignTarget::Field { target: Box::new(target_expr), name: field },
        (None, Some(key)) => AssignTarget::Index { target: Box::new(target_expr), key: Box::new(key) },
        _ => {
            return Ok(None);
        },
    };
    if p.kind_is(0, K::Equals) {
        p.advance();
        let expr = parse_expr(p, depth)?;
        p.expect_newline()?;
        proof {
            reveal(place_assign_at);
        }
        return Ok(Some(Stmt::Assign { target, expr, is_const: false, line }));
    }
    match compound_op(p.kind(0)) {
        Some(op) => {
            p.advance();
            let expr = parse_expr(p, depth)?;
            p.expect_newline()?;
            proof {
                reveal(place_assign_at);
            }
            Ok(Some(Stmt::CompoundAssign { target, op, expr, line }))
        },
        None => Ok(None),
    }
}

/// The words, numbers and strings that follow `i`, as text, up to the first
/// other token.
pub open spec fn dsl_pieces(ts: Seq<Token>, i: int) -> Seq<Seq<char>>
    decreases ts.len() - i,
{
    if 0 <= i < ts.len() && arg_text(ts[i].tok) is Some {
        seq![arg_text(ts[i].tok)->0] + dsl_pieces(ts, i + 1)
    } else {
        seq![]
    }
}

/// The action a bash DSL line names and its argument: `web search ...`,
/// `generate ...`, `search ...` (or `web ...`), `complete ...`, anything else
/// counting as `generate`; the argument is the rest, joined by spaces.
pub open spec fn dsl_result(pieces: Seq<Seq<char>>) -> Option<(BashAction, Seq<char>)> {
    if pieces.len() == 0 {
        None
    } else {
        let head = pieces[0];
        let rest = pieces.drop_first();
        if head == "web"@ && rest.len() >= 1 && rest[0] == "search"@ {
            Some((BashAction::WebSearch, join_str(rest.drop_first(), " "@)))
        } else {
            let action = if head == "generate"@ {
                BashAction::Generate
            } else if head == "search"@ || head == "web"@ {
                BashAction::Search
            } else if head == "complete"@ {
                BashAction::CompleteOrError
            } else {
                BashAction::Generate
            };
            Some((action, join_str(rest, " "@)))
        }
    }
}

/// Right-hand side of a bash DSL line: the action keyword and its argument text.
fn parse_bash_dsl_rhs(p: &mut P) -> (r: Result<(BashAction, String), ParseError>)
    requires
        wf(*old(p)),
    ensures
        steps(*old(p), *final(p), r, false),
        match (r, dsl_result(dsl_pieces(old(p).tokens@, old(p).pos as int))) {
            (Ok((a, arg)), Some((b, text))) => a == b && arg@ == text,
            (Err(_), None) => true,
            _ => false,
        },
        r is Ok ==> final(p).pos == old(p).pos + dsl_pieces(old(p).tokens@, old(p).pos as int).len(),
{
    let ghost ts = p.tokens@;
    let ghost i = p.pos as int;
    let mut tokens: Vec<String> = Vec::new();
    loop
        invariant
            p.tokens@ == old(p).tokens@,
            ts == old(p).tokens@,
            i == old(p).pos,
            old(p).pos <= p.pos <= p.tokens@.len(),
            dsl_pieces(ts, i) == strings_view(tokens@) + dsl_pieces(ts, p.pos as int),
            p.pos == i + tokens@.len(),
        ensures
            p.tokens@ == old(p).tokens@,
            old(p).pos <= p.pos <= p.tokens@.len(),
            dsl_pieces(ts, i) == strings_view(tokens@),
            p.pos == i + tokens@.len(),
        decreases p.tokens@.len() - p.pos,
    {
        if p.pos >= p.tokens.len() {
            break;
        }
        let piece = match &p.tokens[p.pos].tok {
            Tok::Word(w) => w.clone(),
            Tok::Str(parts) => literal_text(parts),
            Tok::Int(n) => i64_to_string(*n),
            _ => {
                break;
            },
        };
        p.advance();
        tokens.push(piece);
    }
    if tokens.len() == 0 {
        return Err(ParseError { line: 0, col: 0, message: msg("empty bash DSL line") });
    }
    let ghost pieces = strings_view(tokens@);
    let head = tokens.remove(0);
    assert(strings_view(tokens@) =~= pieces.drop_first());
    assert(head@ == pieces[0]);
    if string_is(&head, "web") && tokens.len() >= 1 && string_is(&tokens[0], "search") {
        let ghost rest = strings_view(tokens@);
        tokens.remove(0);
        assert(strings_view(tokens@) =~= rest.drop_first());
        return Ok((BashAction::WebSearch, join_words(&tokens, " ")));
    }
    let action = if string_is(&head, "generate") {
        BashAction::Generate
    } else if string_is(&head, "search") || string_is(&head, "web") {
        BashAction::Search
    } else if string_is(&head, "complete") {
        BashAction::CompleteOrError
    } else {
        BashAction::Generate
    };
    Ok((action, join_words(&tokens, " ")))
}

/// A word that is not a command, followed by `(`: a user-function call.
pub open spec fn fn_call_start(ts: Seq<Token>, i: int) -> bool {
    0 <= i && i + 1 < ts.len() && (ts[i].tok matches Tok::Word(w) && !is_known_command_spec(w@)) && ts[i
        + 1].tok is LParen
}

/// The statement that a line starting with a plain word at `i` makes: an
/// expression statement around a call of a user function, or a command call
/// whose first segment starts with that word.
#[verifier::opaque]
pub open spec fn call_stmt(ts: Seq<Token>, i: int, s: Stmt, line: usize) -> bool {
    match s {
        Stmt::ExprStmt { expr, line: l } => l == line && fn_call_start(ts, i) && (ts[i].tok matches Tok::Word(w)
            && exists|f: Expr| #[trigger] chains_to(expr, f) && word_call(f, w@, false, line)),
        Stmt::Call { segments, line: l } => l == line && !fn_call_start(ts, i) && segments@.len() > 0
            && segments@[0].words@.len() > 0 && 0 <= i < ts.len() && ts[i].tok == Tok::Word(segments@[0].words@[0]),
        _ => false,
    }
}

/// The arguments of a call statement at `i` that ends at `end`: the
/// segments of a command call, or the arguments of the user-function call
/// under the postfix chain, then the line break.
#[verifier::opaque]
pub open spec fn call_stmt_args(ts: Seq<Token>, i: int, end: int, s: Stmt) -> bool {
    match s {
        Stmt::Call { segments, .. } => exists|m: int|
            #![trigger segs_from(ts, i, m, segments@)]
            segs_from(ts, i, m, segments@) && line_ends_at(ts, m, end),
        Stmt::ExprStmt { expr, .. } => exists|f: Expr, m: int|
            #![trigger chains_to(expr, f), args_from(ts, i + 2, m, f->FnCall_args@)]
            chains_to(expr, f) && f is FnCall && args_from(ts, i + 2, m, f->FnCall_args@),
        _ => true,
    }
}

fn parse_call_or_fncall_stmt(p: &mut P, line: usize, depth: usize) -> (r: Result<Stmt, ParseError>)
    requires
        wf(*old(p)),
        depth <= MAX_PARSE_DEPTH,
    ensures
        steps(*old(p), *final(p), r, true),
        r matches Ok(s) ==> call_stmt(old(p).tokens@, old(p).pos as int, s, line),
        r matches Ok(s) ==> (s is ExprStmt || s is Call) && stmt_line(s) == line,
        r matches Ok(s) ==> call_stmt_args(old(p).tokens@, old(p).pos as int, final(p).pos as int, s),
        owed(call_ok(old(p).tokens@, old(p).pos as int, depth as int), r, final(p).pos as int),
    decreases MAX_PARSE_DEPTH - depth, 35int,
{
    proof {
        reveal(call_stmt);
        reveal(call_stmt_args);
    }
    if p.word(0).is_some() && p.kind_is(1, K::LParen) {
        let w = match p.word(0) {
            Some(s) => s.clone(),
            None => String::new(),
        };
        proof {
            lemma_command_word(w@);
        }
        if !is_known_command(w.as_str()) {
            p.advance();
            p.advance();
            let args = parse_args_until_rparen(p, depth)?;
            let ghost am = p.pos as int;
            let f = Expr::FnCall { name: w, args, line };
            let ghost fg = f;
            let chained = parse_postfix_chain(p, f, depth)?;
            p.expect_newline()?;
            assert(chains_to(chained, fg) && word_call(fg, w@, false, line));
            assert(args_from(old(p).tokens@, old(p).pos + 2, am, fg->FnCall_args@));
            return Ok(Stmt::ExprStmt { expr: chained, line });
        }
    }
    let segments = parse_call_segments(p, depth)?;
    let ghost sm = p.pos as int;
    p.expect_newline()?;
    assert(segs_from(old(p).tokens@, old(p).pos as int, sm, segments@));
    let st = Stmt::Call { segments, line };
    assert(call_stmt_args(old(p).tokens@, old(p).pos as int, p.pos as int, st)) by {
        reveal(call_stmt_args);
        assert(line_ends_at(old(p).tokens@, sm, p.pos as int));
        assert(segs_from(old(p).tokens@, old(p).pos as int, sm, st->Call_segments@));
    }
    Ok(st)
}

fn parse_optional_else(p: &mut P, cond_col: usize, depth: usize) -> (r: Result<Option<Vec<Stmt>>, ParseError>)
    requires
        wf(*old(p)),
        depth <= MAX_PARSE_DEPTH,
    ensures
        steps(*old(p), *final(p), r, false),
        ({
            let ts = old(p).tokens@;
            let j = skip_blank(ts, old(p).pos as int);
            if word_at(ts, j, "else"@) && ts[j].col == cond_col {
                r is Ok ==> r matches Ok(Some(_))
            } else {
                r matches Ok(None) && final(p).pos == j
            }
        }),
        owed(else_ok(old(p).tokens@, old(p).pos as int, cond_col, depth as int), r, final(p).pos as int),
        r matches Ok(Some(eb)) ==> else_deep(old(p).tokens@, old(p).pos as int, cond_col, eb@),
    decreases MAX_PARSE_DEPTH - depth, 34int,
{
    proof {
        lemma_else_ok(old(p).tokens@, old(p).pos as int, cond_col, depth as int);
    }
    p.skip_newlines();
    proof {
        lemma_colon_block(old(p).tokens@, p.pos + 1, cond_col, depth as int);
    }
    if p.is_word(0, "else") && p.col_here() == cond_col {
        p.advance();
        p.expect_kind(K::Colon, "`:`")?;
        p.expect_newline()?;
        let d = deeper(p, depth)?;
        let ghost bstart = p.pos as int;
        let body = parse_block(p, cond_col, d)?;
        let ghost eend = p.pos as int;
        proof {
            let ts = old(p).tokens@;
            let j = skip_blank(ts, old(p).pos as int);
            assert(bstart == after_line(ts, j + 2));
            assert(deep_block(ts, after_line(ts, j + 2), eend, body@, cond_col));
            assert(block_stop(ts, eend, cond_col));
            assert(else_deep(ts, old(p).pos as int, cond_col, body@));
        }
        return Ok(Some(body));
    }
    Ok(None)
}

/// The operating-system names of a legacy `if linux:` test.
pub open spec fn os_word(w: Seq<char>) -> bool {
    w == "linux"@ || w == "macos"@ || w == "darwin"@ || w == "windows"@ || w == "bsd"@
}

fn is_os_word(w: &String) -> (r: bool)
    ensures
        r == os_word(w@),
{
    string_is(w, "linux") || string_is(w, "macos") || string_is(w, "darwin") || string_is(w, "windows")
        || string_is(w, "bsd")
}

/// Value of a token used as an `ai_generate` argument.
/// The text a keyword value of `ai_generate` stands for.
pub open spec fn arg_text(t: Tok) -> Option<Seq<char>> {
    match t {
        Tok::Str(parts) => Some(lit_concat(parts_view(parts@))),
        Tok::Int(n) => Some(dec_signed(n as int)),
        Tok::Word(w) => Some(w@),
        _ => None,
    }
}

fn ai_arg_value(t: &Tok) -> (r: Option<String>)
    ensures
        match (r, arg_text(*t)) {
            (Some(a), Some(b)) => a@ == b,
            (None, None) => true,
            _ => false,
        },
{
    match t {
        Tok::Str(parts) => Some(literal_text(parts)),
        Tok::Int(n) => Some(i64_to_string(*n)),
        Tok::Word(w) => Some(w.clone()),
        _ => None,
    }
}

/// The line a statement was written on.
pub open spec fn stmt_line(s: Stmt) -> usize {
    match s {
        Stmt::Call { line, .. } => line,
        Stmt::Assign { line, .. } => line,
        Stmt::CompoundAssign { line, .. } => line,
        Stmt::IfOs { line, .. } => line,
        Stmt::If { line, .. } => line,
        Stmt::While { line, .. } => line,
        Stmt::Break { line, .. } => line,
        Stmt::Continue { line, .. } => line,
        Stmt::Try { line, .. } => line,
        Stmt::Assert { line, .. } => line,
        Stmt::For { line, .. } => line,
        Stmt::BashDsl { line, .. } => line,
        Stmt::Completed { line, .. } => line,
        Stmt::Error { line, .. } => line,
        Stmt::AiGenerate { line, .. } => line,
        Stmt::Return { line, .. } => line,
        Stmt::ExprStmt { line, .. } => line,
        Stmt::Switch { line, .. } => line,
        Stmt::DoWhile { line, .. } => line,
        Stmt::CFor { line, .. } => line,
    }
}

/// The words that open a statement of their own kind.
pub open spec fn stmt_keyword(w: Seq<char>) -> bool {
    ||| w == "completed"@
    ||| w == "error"@
    ||| w == "return"@
    ||| w == "set"@
    ||| w == "const"@
    ||| w == "if"@
    ||| w == "while"@
    ||| w == "break"@
    ||| w == "continue"@
    ||| w == "try"@
    ||| w == "assert"@
    ||| w == "for"@
    ||| w == "switch"@
    ||| w == "do"@
}

/// The kind of statement that a statement keyword opens.
pub open spec fn stmt_head(w: Seq<char>, s: Stmt) -> bool {
    if w == "completed"@ {
        s is Completed
    } else if w == "error"@ {
        s is Error
    } else if w == "return"@ {
        s is Return
    } else if w == "set"@ {
        s matches Stmt::Assign { target: AssignTarget::Name(_), is_const: false, .. }
    } else if w == "const"@ {
        s matches Stmt::Assign { target: AssignTarget::Name(_), is_const: true, .. }
    } else if w == "if"@ {
        s is If || s is IfOs
    } else if w == "while"@ {
        s is While
    } else if w == "break"@ {
        s is Break
    } else if w == "continue"@ {
        s is Continue
    } else if w == "try"@ {
        s is Try
    } else if w == "assert"@ {
        s is Assert
    } else if w == "for"@ {
        s is For || s is CFor
    } else if w == "switch"@ {
        s is Switch
    } else if w == "do"@ {
        s is DoWhile
    } else {
        true
    }
}

/// The statement keywords differ in length or in their first letter.
proof fn lemma_keyword_letters()
    ensures
        "completed"@.len() == 9 && "completed"@[0] == 'c',
        "error"@.len() == 5 && "error"@[0] == 'e',
        "return"@.len() == 6 && "return"@[0] == 'r',
        "set"@.len() == 3 && "set"@[0] == 's',
        "const"@.len() == 5 && "const"@[0] == 'c',
        "if"@.len() == 2 && "if"@[0] == 'i',
        "while"@.len() == 5 && "while"@[0] == 'w',
        "break"@.len() == 5 && "break"@[0] == 'b',
        "continue"@.len() == 8 && "continue"@[0] == 'c',
        "try"@.len() == 3 && "try"@[0] == 't',
        "assert"@.len() == 6 && "assert"@[0] == 'a',
        "for"@.len() == 3 && "for"@[0] == 'f',
        "switch"@.len() == 6 && "switch"@[0] == 's',
        "do"@.len() == 2 && "do"@[0] == 'd',
{
    reveal_strlit("completed");
    reveal_strlit("error");
    reveal_strlit("return");
    reveal_strlit("set");
    reveal_strlit("const");
    reveal_strlit("if");
    reveal_strlit("while");
    reveal_strlit("break");
    reveal_strlit("continue");
    reveal_strlit("try");
    reveal_strlit("assert");
    reveal_strlit("for");
    reveal_strlit("switch");
    reveal_strlit("do");
}

/// A statement begins with a word and has that word's line; a statement
/// keyword decides the kind of statement, `completed`, `break` and `continue` stand alone on
/// their line, and `set` or `const` assigns the name that follows it.
pub open spec fn stmt_outline(ts: Seq<Token>, i: int, r: Result<Stmt, ParseError>) -> bool {
    &&& i >= ts.len() ==> (r matches Err(e) && e.message@ == "unexpected end of input"@)
    &&& (0 <= i < ts.len() && !(ts[i].tok is Word)) ==> (r matches Err(e) && e.message@ == "unexpected token "@
        + describe_spec(ts[i].tok))
    &&& r matches Ok(s) ==> (0 <= i < ts.len() && (ts[i].tok matches Tok::Word(w) && stmt_head(w@, s)
        && stmt_line(s) == ts[i].line))
    &&& (word_at(ts, i, "completed"@) || word_at(ts, i, "break"@) || word_at(ts, i, "continue"@)) ==> (r is Ok
        <==> (i + 1 >= ts.len() || blank(ts[i + 1].tok)))
    &&& (word_at(ts, i, "set"@) || word_at(ts, i, "const"@)) ==> (r matches Ok(
        Stmt::Assign { target: AssignTarget::Name(n), .. },
    ) ==> word_at(ts, i + 1, n@))
}

/// The position after an optional `not` at `h`.
pub open spec fn after_not(ts: Seq<Token>, h: int) -> int {
    if word_at(ts, h, "not"@) {
        h + 1
    } else {
        h
    }
}

/// An operating-system name followed by `:` stands at `n`.
pub open spec fn os_test_at(ts: Seq<Token>, n: int) -> bool {
    0 <= n && n + 1 < ts.len() && (ts[n].tok matches Tok::Word(o) && os_word(o@)) && ts[n + 1].tok is Colon
}

/// What an `if` at `i` gives: `if [not] OS:` tests the operating system,
/// negated by the `not`; any other `if` has the condition read up to the
/// `:`, so that `if not c:` negates `c`.
#[verifier::opaque]
pub open spec fn if_stmt(ts: Seq<Token>, i: int, s: Stmt) -> bool {
    let h = i + 1;
    let n = after_not(ts, h);
    if os_test_at(ts, n) {
        s matches Stmt::IfOs { os, negate, .. } && negate == word_at(ts, h, "not"@) && ts[n].tok == Tok::Word(os)
    } else {
        s matches Stmt::If { cond, .. } && exists|end: int| #[trigger] expr_colon(ts, h, end, cond)
    }
}

/// `if OS:` and `if not OS:` test the operating system when OS is one of
/// `linux`, `macos`, `darwin`, `windows` and `bsd`: the statement read there
/// is an OS test of that name, negated exactly when `not` is written.
pub proof fn law_os_tests(ts: Seq<Token>, k: int, m: int, s: Stmt, negated: bool)
    requires
        stmt_read(ts, k, m, s),
        word_at(ts, k, "if"@),
        ({
            let n = if negated {
                k + 2
            } else {
                k + 1
            };
            &&& negated ==> word_at(ts, k + 1, "not"@)
            &&& n + 1 < ts.len()
            &&& ts[n].tok matches Tok::Word(o) && (o@ == "linux"@ || o@ == "macos"@ || o@ == "darwin"@
                || o@ == "windows"@ || o@ == "bsd"@)
            &&& ts[n + 1].tok is Colon
        }),
    ensures
        ({
            let n = if negated {
                k + 2
            } else {
                k + 1
            };
            s matches Stmt::IfOs { os, negate, .. } && negate == negated && ts[n].tok == Tok::Word(os)
        }),
{
    reveal(stmt_read);
    reveal(if_stmt);
    reveal_strlit("not");
    reveal_strlit("linux");
    reveal_strlit("macos");
    reveal_strlit("darwin");
    reveal_strlit("windows");
    reveal_strlit("bsd");
    if !negated {
        assert(!word_at(ts, k + 1, "not"@)) by {
            assert("not"@.len() == 3 && "linux"@.len() == 5 && "macos"@.len() == 5 && "darwin"@.len() == 6);
            assert("windows"@.len() == 7 && "bsd"@.len() == 3 && "not"@[0] != "bsd"@[0]);
        }
    }
}

/// Past the line break at `m` (or the end of input there).
pub open spec fn after_line(ts: Seq<Token>, m: int) -> int {
    if m < ts.len() {
        m + 1
    } else {
        m
    }
}

/// Whether an `else` follows a block that ended at `bend`: the word `else`
/// past blank lines, in the column `col` of its `if`.
pub open spec fn else_follows(ts: Seq<Token>, bend: int, col: usize) -> bool {
    let j = skip_blank(ts, bend);
    word_at(ts, j, "else"@) && ts[j].col == col
}

/// The `if` at `i` with condition `cond` read up to `c_end`, then a line
/// break, then the block `body` up to `bend`, nested under column `col`;
/// `has_else` tells whether `else` follows in that column.
pub open spec fn if_read(
    ts: Seq<Token>,
    i: int,
    col: usize,
    cond: Expr,
    body: Seq<Stmt>,
    has_else: bool,
    c_end: int,
    bend: int,
) -> bool {
    expr_colon(ts, i + 1, c_end, cond) && (c_end < ts.len() ==> blank(ts[c_end].tok)) && block_from(
        ts,
        after_line(ts, c_end),
        bend,
        body,
        col,
    ) && (has_else <==> else_follows(ts, bend, col))
}

/// The OS test at `i` (`if [not] OS:`), then a line break, then the block
/// `body` up to `bend`; `has_else` tells whether `else` follows.
pub open spec fn if_os_read(ts: Seq<Token>, i: int, col: usize, body: Seq<Stmt>, has_else: bool, bend: int) -> bool {
    let m = after_not(ts, i + 1) + 2;
    (m < ts.len() ==> blank(ts[m].tok)) && block_from(ts, after_line(ts, m), bend, body, col) && (has_else
        <==> else_follows(ts, bend, col))
}

/// The body of an `if` at `i`: the block read after the line break that
/// ends the `if` line, nested under the column of the `if`; there is an
/// `else` part exactly when `else` follows that block in the same column.
#[verifier::opaque]
pub open spec fn if_parts(ts: Seq<Token>, i: int, s: Stmt) -> bool {
    let col = ts[i].col;
    match s {
        Stmt::If { cond, body, else_body, .. } => exists|c_end: int, bend: int|
            #[trigger] if_read(ts, i, col, cond, body@, else_body is Some, c_end, bend),
        Stmt::IfOs { body, else_body, .. } => exists|bend: int|
            #[trigger] if_os_read(ts, i, col, body@, else_body is Some, bend),
        _ => true,
    }
}

/// `s` assigns to the name at `n` the expression read from `e0`; the line
/// break after the expression ends the statement at `end`.
#[verifier::opaque]
pub open spec fn assign_read(ts: Seq<Token>, n: int, e0: int, s: Stmt, is_const: bool, end: int) -> bool {
    s matches Stmt::Assign { target: AssignTarget::Name(name), expr, is_const: c, .. } && c == is_const && 0
        <= n < ts.len() && (ts[n].tok matches Tok::Word(w) && name@ == w@) && expr_line(ts, e0, end, expr)
}

/// The expression read from `e0` is `e`, and the line break after it ends
/// the line at `end`.
#[verifier::opaque]
pub open spec fn expr_line(ts: Seq<Token>, e0: int, end: int, e: Expr) -> bool {
    exists|m: int|
        #![trigger reads_at(ts, e0, m, Ok::<Expr, ParseError>(e), 1)]
        e0 < m <= ts.len() && reads_at(ts, e0, m, Ok::<Expr, ParseError>(e), 1) && reads_not(
            ts,
            e0,
            m,
            Ok::<Expr, ParseError>(e),
        ) && line_ends_at(ts, m, end)
}

/// The expression read from `e0` is `e`, and a `:` follows it, ending
/// before `end`.
#[verifier::opaque]
pub open spec fn expr_colon(ts: Seq<Token>, e0: int, end: int, e: Expr) -> bool {
    e0 < end - 1 < ts.len() && ts[end - 1].tok is Colon && reads_at(ts, e0, end - 1, Ok::<Expr, ParseError>(e), 1)
        && reads_not(ts, e0, end - 1, Ok::<Expr, ParseError>(e))
}

/// An expression that ends its line.
fn parse_expr_line(p: &mut P, depth: usize) -> (r: Result<Expr, ParseError>)
    requires
        wf(*old(p)),
        depth <= MAX_PARSE_DEPTH,
    ensures
        steps(*old(p), *final(p), r, true),
        r matches Ok(e) ==> expr_line(old(p).tokens@, old(p).pos as int, final(p).pos as int, e),
        owed(expr_line_ok(old(p).tokens@, old(p).pos as int, depth as int), r, final(p).pos as int),
        erred(expr_err(old(p).tokens@, old(p).pos as int, depth as int), old(p).tokens@, r),
        too_deep(old(p).tokens@, old(p).pos as int, depth) ==> (r matches Err(e) && e.message@ == deep_message()),
    decreases MAX_PARSE_DEPTH - depth, 23int,
{
    let e = parse_expr(p, depth)?;
    let ghost m = p.pos as int;
    p.expect_newline()?;
    proof {
        reveal(expr_line);
        assert(reads_at(old(p).tokens@, old(p).pos as int, m, Ok::<Expr, ParseError>(e), 1));
    }
    Ok(e)
}

/// An expression followed by `:`.
fn parse_expr_colon(p: &mut P, depth: usize) -> (r: Result<Expr, ParseError>)
    requires
        wf(*old(p)),
        depth <= MAX_PARSE_DEPTH,
    ensures
        steps(*old(p), *final(p), r, true),
        r matches Ok(e) ==> expr_colon(old(p).tokens@, old(p).pos as int, final(p).pos as int, e),
        expr_ok(old(p).tokens@, old(p).pos as int, depth as int) matches Some(m) ==> (kind_at(old(p).tokens@, m)
            == Some(K::Colon) ==> (r is Ok && final(p).pos == m + 1)),
        too_deep(old(p).tokens@, old(p).pos as int, depth) ==> (r matches Err(e) && e.message@ == deep_message()),
    decreases MAX_PARSE_DEPTH - depth, 23int,
{
    let e = parse_expr(p, depth)?;
    p.expect_kind(K::Colon, "`:`")?;
    proof {
        reveal(expr_colon);
    }
    Ok(e)
}

/// A line break at `m` (or the end of input there) ends a statement at `end`.
pub open spec fn line_ends_at(ts: Seq<Token>, m: int, end: int) -> bool {
    if m < ts.len() {
        blank(ts[m].tok) && end == m + 1
    } else {
        end == m
    }
}

/// A word that starts a bash DSL right-hand side.
pub open spec fn dsl_word_at(ts: Seq<Token>, k: int) -> bool {
    word_at(ts, k, "generate"@) || word_at(ts, k, "search"@) || word_at(ts, k, "web"@) || word_at(
        ts,
        k,
        "complete"@,
    )
}

/// The action of a bash DSL line is named by its first word: `generate`
/// generates, `search` searches, `web search` searches the web, `web`
/// alone searches, `complete` completes; any other first word generates.
/// The argument is the rest of the line (after `web search` for a web
/// search), its pieces joined by single spaces.
pub proof fn law_bash_dsl_actions(head: Seq<char>, rest: Seq<Seq<char>>)
    ensures
        dsl_result(seq!["generate"@] + rest) == Some((BashAction::Generate, join_str(rest, " "@))),
        dsl_result(seq!["search"@] + rest) == Some((BashAction::Search, join_str(rest, " "@))),
        dsl_result(seq!["complete"@] + rest) == Some((BashAction::CompleteOrError, join_str(rest, " "@))),
        dsl_result(seq!["web"@, "search"@] + rest) == Some((BashAction::WebSearch, join_str(rest, " "@))),
        !(rest.len() >= 1 && rest[0] == "search"@) ==> dsl_result(seq!["web"@] + rest) == Some(
            (BashAction::Search, join_str(rest, " "@)),
        ),
        head != "generate"@ && head != "search"@ && head != "web"@ && head != "complete"@ ==> dsl_result(
            seq![head] + rest,
        ) == Some((BashAction::Generate, join_str(rest, " "@))),
        dsl_result(seq![]) is None,
{
    reveal_strlit("generate");
    reveal_strlit("search");
    reveal_strlit("web");
    reveal_strlit("complete");
    assert("generate"@.len() == 8 && "search"@.len() == 6 && "web"@.len() == 3 && "complete"@.len() == 8);
    assert("generate"@[0] != "complete"@[0]);
    assert((seq!["generate"@] + rest).drop_first() =~= rest);
    assert((seq!["search"@] + rest).drop_first() =~= rest);
    assert((seq!["complete"@] + rest).drop_first() =~= rest);
    assert((seq!["web"@] + rest).drop_first() =~= rest);
    assert((seq![head] + rest).drop_first() =~= rest);
    let ws = seq!["web"@, "search"@] + rest;
    assert(ws.drop_first()[0] == "search"@);
    assert(ws.drop_first().drop_first() =~= rest);
}

/// A word that is not a statement keyword stands at `i`.
pub open spec fn plain_word_at(ts: Seq<Token>, i: int) -> bool {
    0 <= i < ts.len() && (ts[i].tok matches Tok::Word(w) && !stmt_keyword(w@))
}

/// The token after a plain word makes the line an assignment, an update or
/// a place expression rather than a call.
pub open spec fn assign_like_after(ts: Seq<Token>, i: int) -> bool {
    i + 1 < ts.len() && {
        let t = ts[i + 1].tok;
        t is Equals || compound_of_kind(kind_spec(t)) is Some || t is PlusPlus || t is MinusMinus || t is Dot
            || t is LBracket
    }
}

/// A `while` at `i`: the condition read up to the `:`, a line break, and
/// the body nested under the column of `while`.
#[verifier::opaque]
pub open spec fn while_read(ts: Seq<Token>, i: int, cond: Expr, body: Seq<Stmt>) -> bool {
    exists|c_end: int, bend: int|
        #![trigger expr_colon(ts, i + 1, c_end, cond), block_from(ts, after_line(ts, c_end), bend, body, ts[i].col)]
        expr_colon(ts, i + 1, c_end, cond) && (c_end < ts.len() ==> blank(ts[c_end].tok)) && block_from(
            ts,
            after_line(ts, c_end),
            bend,
            body,
            ts[i].col,
        )
}

/// A `for` at `i`: the loop variable is the word after `for`, then `in`,
/// the iterable read up to the `:`, a line break, and the body nested under
/// the column of `for`.
#[verifier::opaque]
pub open spec fn for_read(ts: Seq<Token>, i: int, var: String, iter: Expr, body: Seq<Stmt>) -> bool {
    &&& i + 1 < ts.len() && ts[i + 1].tok == Tok::Word(var)
    &&& word_at(ts, i + 2, "in"@)
    &&& exists|c_end: int, bend: int|
        #![trigger expr_colon(ts, i + 3, c_end, iter), block_from(ts, after_line(ts, c_end), bend, body, ts[i].col)]
        expr_colon(ts, i + 3, c_end, iter) && (c_end < ts.len() ==> blank(ts[c_end].tok)) && block_from(
            ts,
            after_line(ts, c_end),
            bend,
            body,
            ts[i].col,
        )
}

/// A `do:` at `i`: a line break, the body nested under the column of `do`,
/// then, past blank lines, `while` and the condition up to the line break
/// that ends the statement at `end`.
#[verifier::opaque]
pub open spec fn do_read(ts: Seq<Token>, i: int, body: Seq<Stmt>, cond: Expr, end: int) -> bool {
    &&& i + 1 < ts.len() && ts[i + 1].tok is Colon
    &&& (i + 2 < ts.len() ==> blank(ts[i + 2].tok))
    &&& exists|bend: int|
        #![trigger block_from(ts, after_line(ts, i + 2), bend, body, ts[i].col)]
        block_from(ts, after_line(ts, i + 2), bend, body, ts[i].col) && word_at(ts, skip_blank(ts, bend), "while"@)
            && expr_line(ts, skip_blank(ts, bend) + 1, end, cond)
}

/// An `assert(` at `i`: the condition, then either `)` or `,`, the message
/// and `)`.
#[verifier::opaque]
pub open spec fn assert_read(ts: Seq<Token>, i: int, cond: Expr, message: Option<Expr>) -> bool {
    &&& i + 1 < ts.len() && ts[i + 1].tok is LParen
    &&& exists|m: int|
        #![trigger reads_at(ts, i + 2, m, Ok::<Expr, ParseError>(cond), 1)]
        i + 2 < m < ts.len() && reads_at(ts, i + 2, m, Ok::<Expr, ParseError>(cond), 1) && match message {
            None => ts[m].tok is RParen,
            Some(msg) => ts[m].tok is Comma && exists|m2: int|
                #![trigger reads_at(ts, m + 1, m2, Ok::<Expr, ParseError>(msg), 1)]
                m + 1 < m2 < ts.len() && reads_at(ts, m + 1, m2, Ok::<Expr, ParseError>(msg), 1) && ts[m2].tok is RParen,
        }
}

/// A `try:` at `i`: a line break and the body nested under the column of
/// `try`; then, past blank lines and in that column, `rescue`, optionally
/// `as NAME` (the rescue variable), `:`, a line break and the rescue body.
#[verifier::opaque]
pub open spec fn try_read(ts: Seq<Token>, i: int, body: Seq<Stmt>, var: Option<String>, rescue: Seq<Stmt>) -> bool {
    let col = ts[i].col;
    &&& i + 1 < ts.len() && ts[i + 1].tok is Colon
    &&& (i + 2 < ts.len() ==> blank(ts[i + 2].tok))
    &&& exists|bend: int, c: int, rend: int|
        #![trigger block_from(ts, after_line(ts, i + 2), bend, body, col), block_from(ts, after_line(ts, c + 1), rend, rescue, col)]
        block_from(ts, after_line(ts, i + 2), bend, body, col) && ({
            let k = skip_blank(ts, bend);
            &&& word_at(ts, k, "rescue"@) && ts[k].col == col
            &&& match var {
                Some(n) => word_at(ts, k + 1, "as"@) && k + 2 < ts.len() && ts[k + 2].tok == Tok::Word(n) && c == k + 3,
                None => !(k + 1 < ts.len() && ts[k + 1].tok is Word) && c == k + 1,
            }
            &&& 0 <= c < ts.len() && ts[c].tok is Colon
            &&& (c + 1 < ts.len() ==> blank(ts[c + 1].tok))
            &&& block_from(ts, after_line(ts, c + 1), rend, rescue, col)
        })
}

/// A C-style `for (init; cond; step):` at `i`: the parts between the
/// brackets read in turn (each may be missing), then `:`, a line break, and
/// the body nested under the column of `for`.
#[verifier::opaque]
pub open spec fn cfor_read(
    ts: Seq<Token>,
    i: int,
    init: Option<Box<Stmt>>,
    cond: Option<Expr>,
    step: Option<Box<Stmt>>,
    body: Seq<Stmt>,
) -> bool {
    let col = ts[i].col;
    i + 1 < ts.len() && ts[i + 1].tok is LParen && exists|a: int, b: int, c: int, bend: int|
        #![trigger ts[a], ts[b], ts[c], block_stop(ts, bend, col)]
        i + 2 <= a < b < c && c + 1 < ts.len() && ts[a].tok is Semicolon && ts[b].tok is Semicolon && ts[c].tok is RParen
            && ts[c + 1].tok is Colon && (c + 2 < ts.len() ==> blank(ts[c + 2].tok)) && match init {
            Some(st) => cfor_part(ts, i + 2, *st, a),
            None => true,
        } && match cond {
            None => b == a + 1,
            Some(e) => reads_at(ts, a + 1, b, Ok::<Expr, ParseError>(e), 1),
        } && match step {
            Some(st) => cfor_part(ts, b + 1, *st, c),
            None => true,
        } && block_stop(ts, bend, col) && block_from(ts, after_line(ts, c + 2), bend, body, col)
}

/// The values of a `case` read from `i`: expressions separated by commas,
/// the last one ending at `c`.
pub open spec fn case_vals(ts: Seq<Token>, i: int, c: int, vals: Seq<Expr>) -> bool
    decreases vals.len(),
{
    vals.len() > 0 && exists|m: int|
        #![trigger reads_at(ts, i, m, Ok::<Expr, ParseError>(vals[0]), 1)]
        i < m && reads_at(ts, i, m, Ok::<Expr, ParseError>(vals[0]), 1) && if vals.len() == 1 {
            c == m
        } else {
            m < ts.len() && ts[m].tok is Comma && case_vals(ts, m + 1, c, vals.drop_first())
        }
}

/// The arms of a `switch` from `j` on, nested under column `col`, up to
/// `end`: each `case v, ...:` with its block (read at every depth), and
/// `default:` blocks, of
/// which the last one counts (`dcur` is the one seen so far, `dfinal` the
/// one that counts at the end).
pub open spec fn switch_arms(
    ts: Seq<Token>,
    j: int,
    end: int,
    cases: Seq<(Vec<Expr>, Vec<Stmt>)>,
    dcur: Option<Vec<Stmt>>,
    dfinal: Option<Vec<Stmt>>,
    col: usize,
) -> bool
    decreases cases.len(), ts.len() - j,
{
    let k = skip_blank(ts, j);
    if !(0 <= j <= k <= ts.len()) {
        false
    } else if k == ts.len() || ts[k].col <= col || !(word_at(ts, k, "case"@) || word_at(ts, k, "default"@)) {
        cases.len() == 0 && dfinal == dcur && end == k
    } else if word_at(ts, k, "case"@) {
        cases.len() > 0 && exists|c: int, m: int|
            #![trigger case_vals(ts, k + 1, c, cases[0].0@), deep_block(ts, after_line(ts, c + 1), m, cases[0].1@, ts[k].col)]
            case_vals(ts, k + 1, c, cases[0].0@) && c < ts.len() && ts[c].tok is Colon && (c + 1 < ts.len() ==> blank(
                ts[c + 1].tok,
            )) && deep_block(ts, after_line(ts, c + 1), m, cases[0].1@, ts[k].col) && switch_arms(
                ts,
                m,
                end,
                cases.drop_first(),
                dcur,
                dfinal,
                col,
            )
    } else {
        exists|m: int, b: Vec<Stmt>|
            #![trigger deep_block(ts, after_line(ts, k + 2), m, b@, ts[k].col)]
            k + 1 < ts.len() && ts[k + 1].tok is Colon && (k + 2 < ts.len() ==> blank(ts[k + 2].tok)) && deep_block(
                ts,
                after_line(ts, k + 2),
                m,
                b@,
                ts[k].col,
            ) && k < m <= ts.len() && switch_arms(ts, m, end, cases, Some(b), dfinal, col)
    }
}

/// A `switch` at `i`: the expression switched on, read up to the `:`, a
/// line break, and its arms nested under the column of `switch`.
#[verifier::opaque]
pub open spec fn switch_full(
    ts: Seq<Token>,
    i: int,
    expr: Expr,
    cases: Seq<(Vec<Expr>, Vec<Stmt>)>,
    default: Option<Vec<Stmt>>,
) -> bool {
    exists|c_end: int, end: int|
        #![trigger expr_colon(ts, i + 1, c_end, expr), switch_arms(ts, after_line(ts, c_end), end, cases, None, default, ts[i].col)]
        expr_colon(ts, i + 1, c_end, expr) && (c_end < ts.len() ==> blank(ts[c_end].tok)) && switch_arms(
            ts,
            after_line(ts, c_end),
            end,
            cases,
            None,
            default,
            ts[i].col,
        )
}

/// The parts of the compound statements: conditions, loop variables,
/// iterables, bodies, rescue parts and messages, as read from the tokens
/// after the statement's keyword at `i`.
pub open spec fn stmt_parts(ts: Seq<Token>, i: int, r: Result<Stmt, ParseError>, end: int) -> bool {
    &&& r matches Ok(Stmt::While { cond, body, .. }) ==> while_read(ts, i, cond, body@)
    &&& r matches Ok(Stmt::For { var, iter, body, .. }) ==> for_read(ts, i, var, iter, body@)
    &&& r matches Ok(Stmt::DoWhile { body, cond, .. }) ==> do_read(ts, i, body@, cond, end)
    &&& r matches Ok(Stmt::Assert { cond, message, .. }) ==> assert_read(ts, i, cond, message)
    &&& r matches Ok(Stmt::Try { body, rescue_var, rescue_body, .. }) ==> try_read(ts, i, body@, rescue_var, rescue_body@)
    &&& r matches Ok(Stmt::Switch { expr, cases, default, .. }) ==> switch_full(ts, i, expr, cases@, default)
    &&& r matches Ok(Stmt::CFor { init, cond, step, body, .. }) ==> cfor_read(ts, i, init, cond, step, body@)
}

/// A `return` at `i`: with no value before a line break or the end of
/// input, else the expression read after it, up to the line break.
#[verifier::opaque]
pub open spec fn return_read(ts: Seq<Token>, i: int, s: Stmt, end: int) -> bool {
    s matches Stmt::Return { expr, .. } && if i + 1 >= ts.len() || blank(ts[i + 1].tok) {
        expr is None
    } else {
        expr matches Some(e) && expr_line(ts, i + 1, end, e)
    }
}

/// `s` is the compound assignment `N op= E` whose name is the plain word at
/// `i` and whose operator is the one the token after it stands for.
#[verifier::opaque]
pub open spec fn compound_read(ts: Seq<Token>, i: int, s: Stmt) -> bool {
    0 <= i && i + 1 < ts.len() && (s matches Stmt::CompoundAssign { target: AssignTarget::Name(n), op, .. }
        && (ts[i].tok matches Tok::Word(w) && n@ == w@) && compound_of_kind(kind_spec(ts[i + 1].tok)) == Some(op))
}

/// `s` is the update `N++` (adding one) or `N--` (subtracting one) of the
/// plain word at `i`.
#[verifier::opaque]
pub open spec fn step_read(ts: Seq<Token>, i: int, s: Stmt) -> bool {
    0 <= i && i + 1 < ts.len() && (s matches Stmt::CompoundAssign { target: AssignTarget::Name(n), op, expr, .. }
        && (ts[i].tok matches Tok::Word(w) && n@ == w@) && expr == Expr::Lit(Literal::Int(1)) && op == if ts[i
        + 1].tok is PlusPlus {
        BinOp::Add
    } else {
        BinOp::Sub
    })
}

/// What the statement at `i` holds: the test of an `if`; the name and
/// expression of `set N = E`, `const N = E` and `N = E` alike; the action and
/// argument of a bash DSL line `N = generate ...`; and, for a line that starts
/// with any other word, a call (see `call_stmt`).
pub open spec fn stmt_detail(ts: Seq<Token>, i: int, r: Result<Stmt, ParseError>, end: int) -> bool {
    r matches Ok(s) ==> {
        &&& word_at(ts, i, "if"@) ==> if_stmt(ts, i, s)
        &&& word_at(ts, i, "return"@) ==> return_read(ts, i, s, end)
        &&& word_at(ts, i, "set"@) ==> assign_read(ts, i + 1, i + 3, s, false, end)
        &&& word_at(ts, i, "const"@) ==> assign_read(ts, i + 1, i + 3, s, true, end)
        &&& (plain_word_at(ts, i) && i + 1 < ts.len() && ts[i + 1].tok is Equals) ==> if dsl_word_at(ts, i + 2) {
            s matches Stmt::BashDsl { action, argument, .. } && dsl_result(dsl_pieces(ts, i + 2)) == Some(
                (action, argument@),
            )
        } else {
            assign_read(ts, i, i + 2, s, false, end)
        }
        &&& (plain_word_at(ts, i) && i + 1 < ts.len() && compound_of_kind(kind_spec(ts[i + 1].tok)) is Some)
            ==> compound_read(ts, i, s)
        &&& (plain_word_at(ts, i) && i + 1 < ts.len() && (ts[i + 1].tok is PlusPlus || ts[i + 1].tok is MinusMinus))
            ==> step_read(ts, i, s)
        &&& (plain_word_at(ts, i) && !word_at(ts, i, "ai_generate"@) && !assign_like_after(ts, i)) ==> (call_stmt(
            ts,
            i,
            s,
            ts[i].line,
        ) && call_stmt_args(ts, i, end, s))
    }
}

/// The rest of an `if` statement whose `if` is at the cursor.
fn parse_if_stmt(p: &mut P, head_col: usize, head_line: usize, depth: usize) -> (r: Result<Stmt, ParseError>)
    requires
        wf(*old(p)),
        depth <= MAX_PARSE_DEPTH,
        word_at(old(p).tokens@, old(p).pos as int, "if"@),
        head_col == old(p).tokens@[old(p).pos as int].col,
        head_line == old(p).tokens@[old(p).pos as int].line,
    ensures
        steps(*old(p), *final(p), r, true),
        r matches Ok(s) ==> (s is If || s is IfOs) && stmt_line(s) == head_line && if_stmt(
            old(p).tokens@,
            old(p).pos as int,
            s,
        ) && if_parts(old(p).tokens@, old(p).pos as int, s),
        owed(stmt_ok(old(p).tokens@, old(p).pos as int, depth as int), r, final(p).pos as int),
        r matches Ok(s) ==> stmt_deep(old(p).tokens@, old(p).pos as int, s),
    decreases MAX_PARSE_DEPTH - depth, 38int,
{
    proof {
        lemma_stmt_ok(old(p).tokens@, old(p).pos as int, depth as int);
        lemma_keyword_letters();
    }
    p.advance();
    let saved = p.pos;
    let mut negate = false;
    if p.is_word(0, "not") {
        p.advance();
        negate = true;
    }
    let is_legacy_os = match p.word(0) {
        Some(w) => is_os_word(w) && p.kind_is(1, K::Colon),
        None => false,
    };
    if is_legacy_os {
        let os = match p.take_word() {
            Some(w) => w,
            None => String::new(),
        };
        proof {
            lemma_colon_block(old(p).tokens@, p.pos as int, head_col, depth as int);
        }
        p.expect_kind(K::Colon, "`:`")?;
        let ghost m = p.pos as int;
        p.expect_newline()?;
        let d = deeper(p, depth)?;
        let ghost bstart = p.pos as int;
        let body = parse_block(p, head_col, d)?;
        let ghost bend = p.pos as int;
        let else_body = parse_optional_else(p, head_col, depth)?;
        proof {
            reveal(if_stmt);
            reveal(if_parts);
            assert(m == after_not(old(p).tokens@, old(p).pos + 1) + 2);
            assert(bstart == after_line(old(p).tokens@, m));
            assert(block_from(old(p).tokens@, after_line(old(p).tokens@, m), bend, body@, head_col));
        }
        let st = Stmt::IfOs { os, negate, body, else_body, line: head_line };
        proof {
            reveal(stmt_deep);
            let ts = old(p).tokens@;
            assert(block_stop(ts, bend, head_col));
            assert(deep_block(ts, after_line(ts, after_not(ts, old(p).pos + 1) + 2), bend, st->IfOs_body@, head_col));
            if let Some(eb) = st->IfOs_else_body {
                assert(else_deep(ts, bend, head_col, eb@));
            }
            assert(stmt_deep(ts, old(p).pos as int, st));
        }
        proof {
            reveal(if_parts);
            assert(if_os_read(old(p).tokens@, old(p).pos as int, head_col, st->IfOs_body@, st->IfOs_else_body is Some, bend));
            assert(if_parts(old(p).tokens@, old(p).pos as int, st));
        }
        return Ok(st);
    }
    p.pos = saved;
    proof {
        if expr_ok(old(p).tokens@, p.pos as int, depth as int) is Some {
            lemma_colon_block(old(p).tokens@, expr_ok(old(p).tokens@, p.pos as int, depth as int)->0, head_col, depth as int);
        }
    }
    let cond = parse_expr_colon(p, depth)?;
    let ghost c_end = p.pos as int;
    p.expect_newline()?;
    let d = deeper(p, depth)?;
    let body = parse_block(p, head_col, d)?;
    let ghost bend = p.pos as int;
    let else_body = parse_optional_else(p, head_col, depth)?;
    proof {
        reveal(if_stmt);
        reveal(if_parts);
        assert(expr_colon(old(p).tokens@, old(p).pos + 1, c_end, cond));
        assert(block_from(old(p).tokens@, after_line(old(p).tokens@, c_end), bend, body@, head_col));
    }
    let st = Stmt::If { cond, body, else_body, line: head_line };
    proof {
        reveal(stmt_deep);
        let ts = old(p).tokens@;
        assert(block_stop(ts, bend, head_col));
        assert(expr_colon(ts, old(p).pos + 1, c_end, st->If_cond));
        assert(deep_block(ts, after_line(ts, c_end), bend, st->If_body@, head_col));
        if let Some(eb) = st->If_else_body {
            assert(else_deep(ts, bend, head_col, eb@));
        }
        assert(stmt_deep(ts, old(p).pos as int, st));
    }
    proof {
        reveal(if_parts);
        assert(else_body is Some <==> else_follows(old(p).tokens@, bend, head_col));
        assert(c_end < old(p).tokens@.len() ==> blank(old(p).tokens@[c_end].tok));
        assert(if_read(old(p).tokens@, old(p).pos as int, head_col, st->If_cond, st->If_body@, st->If_else_body is Some, c_end, bend));
        assert(if_parts(old(p).tokens@, old(p).pos as int, st));
    }
    Ok(st)
}

/// The rest of a C-style `for (init; cond; step):` whose `for` is at the
/// cursor, the `(` right after it.
fn parse_cfor_stmt(p: &mut P, head_col: usize, head_line: usize, depth: usize) -> (r: Result<Stmt, ParseError>)
    requires
        wf(*old(p)),
        depth <= MAX_PARSE_DEPTH,
        word_at(old(p).tokens@, old(p).pos as int, "for"@),
        old(p).pos + 1 < old(p).tokens@.len() && old(p).tokens@[old(p).pos + 1].tok is LParen,
        head_col == old(p).tokens@[old(p).pos as int].col,
        head_line == old(p).tokens@[old(p).pos as int].line,
    ensures
        steps(*old(p), *final(p), r, true),
        r matches Ok(s) ==> s is CFor && stmt_line(s) == head_line,
        stmt_parts(old(p).tokens@, old(p).pos as int, r, final(p).pos as int),
        r matches Ok(s) ==> stmt_deep(old(p).tokens@, old(p).pos as int, s),
    decreases MAX_PARSE_DEPTH - depth, 37int,
{
    p.advance();
    p.advance();
    let init = parse_cfor_mini_stmt(p, depth)?;
    let ghost a = p.pos as int;
    p.expect_kind(K::Semicolon, "`;`")?;
    let cond = if p.kind_is(0, K::Semicolon) {
        None
    } else {
        Some(parse_expr(p, depth)?)
    };
    let ghost b = p.pos as int;
    p.expect_kind(K::Semicolon, "`;`")?;
    let step = if p.kind_is(0, K::RParen) {
        None
    } else {
        parse_cfor_mini_stmt(p, depth)?
    };
    let ghost c = p.pos as int;
    p.expect_kind(K::RParen, "`)`")?;
    p.expect_kind(K::Colon, "`:`")?;
    p.expect_newline()?;
    let d = deeper(p, depth)?;
    let body = parse_block(p, head_col, d)?;
    let ghost bend = p.pos as int;
    let ghost (ig, sg) = (init, step);
    let init = match init {
        Some(s) => Some(Box::new(s)),
        None => None,
    };
    let step = match step {
        Some(s) => Some(Box::new(s)),
        None => None,
    };
    let st = Stmt::CFor { init, cond, step, body, line: head_line };
    proof {
        reveal(cfor_read);
        let ts = old(p).tokens@;
        let i = old(p).pos as int;
        assert(ts[a].tok is Semicolon && ts[b].tok is Semicolon && ts[c].tok is RParen);
        assert(block_stop(ts, bend, ts[i].col));
        assert(block_from(ts, after_line(ts, c + 2), bend, st->CFor_body@, ts[i].col));
        if let Some(x) = ig {
            assert(cfor_part(ts, i + 2, x, a));
        }
        if let Some(x) = sg {
            assert(cfor_part(ts, b + 1, x, c));
        }
        assert(cfor_read(ts, i, st->CFor_init, st->CFor_cond, st->CFor_step, st->CFor_body@));
        reveal(stmt_deep);
        assert(deep_block(ts, after_line(ts, c + 2), bend, st->CFor_body@, ts[i].col));
        assert(stmt_deep(ts, i, st));
    }
    return Ok(st);
}

/// The rest of a `for` statement whose `for` is at the cursor: a C-style
/// `for (init; cond; step):` or `for NAME in expr:`.
fn parse_for_stmt(p: &mut P, head_col: usize, head_line: usize, depth: usize) -> (r: Result<Stmt, ParseError>)
    requires
        wf(*old(p)),
        depth <= MAX_PARSE_DEPTH,
        word_at(old(p).tokens@, old(p).pos as int, "for"@),
        head_col == old(p).tokens@[old(p).pos as int].col,
        head_line == old(p).tokens@[old(p).pos as int].line,
    ensures
        steps(*old(p), *final(p), r, true),
        r matches Ok(s) ==> (s is For || s is CFor) && stmt_line(s) == head_line,
        owed(stmt_ok(old(p).tokens@, old(p).pos as int, depth as int), r, final(p).pos as int),
        stmt_parts(old(p).tokens@, old(p).pos as int, r, final(p).pos as int),
        r matches Ok(s) ==> (compound(s) ==> stmt_deep(old(p).tokens@, old(p).pos as int, s)),
    decreases MAX_PARSE_DEPTH - depth, 38int,
{
    proof {
        lemma_stmt_ok(old(p).tokens@, old(p).pos as int, depth as int);
        lemma_keyword_letters();
    }
    if p.kind_is(1, K::LParen) {
        return parse_cfor_stmt(p, head_col, head_line, depth);
    }
    p.advance();
    let var = match p.take_word() {
        Some(w) => w,
        None => {
            return Err(p.err_here(msg("expected loop variable")));
        },
    };
    p.expect_word("in")?;
    proof {
        if expr_ok(old(p).tokens@, p.pos as int, depth as int) is Some {
            lemma_colon_block(
                old(p).tokens@,
                expr_ok(old(p).tokens@, p.pos as int, depth as int)->0,
                head_col,
                depth as int,
            );
        }
    }
    let iter = parse_expr_colon(p, depth)?;
    let ghost c_end = p.pos as int;
    p.expect_newline()?;
    let d = deeper(p, depth)?;
    let body = parse_block(p, head_col, d)?;
    let ghost bend = p.pos as int;
    let st = Stmt::For { var, iter, body, line: head_line };
    proof {
        reveal(stmt_deep);
        let ts = old(p).tokens@;
        let i = old(p).pos as int;
        assert(block_stop(ts, bend, ts[i].col));
        assert(expr_colon(ts, i + 3, c_end, st->For_iter));
        assert(deep_block(ts, after_line(ts, c_end), bend, st->For_body@, ts[i].col));
        assert(stmt_deep(ts, i, st));
    }
    proof {
        reveal(for_read);
        let ts = old(p).tokens@;
        let i = old(p).pos as int;
        assert(expr_colon(ts, i + 3, c_end, st->For_iter));
        assert(block_from(ts, after_line(ts, c_end), bend, st->For_body@, ts[i].col));
    }
    return Ok(st);
}

/// The rest of a `switch` statement whose `switch` is at the cursor.
fn parse_switch_stmt(p: &mut P, head_col: usize, head_line: usize, depth: usize) -> (r: Result<Stmt, ParseError>)
    requires
        wf(*old(p)),
        depth <= MAX_PARSE_DEPTH,
        word_at(old(p).tokens@, old(p).pos as int, "switch"@),
        head_col == old(p).tokens@[old(p).pos as int].col,
        head_line == old(p).tokens@[old(p).pos as int].line,
    ensures
        steps(*old(p), *final(p), r, true),
        r matches Ok(s) ==> s is Switch && stmt_line(s) == head_line,
        stmt_parts(old(p).tokens@, old(p).pos as int, r, final(p).pos as int),
    decreases MAX_PARSE_DEPTH - depth, 38int,
{
    let ghost ts = p.tokens@;
    p.advance();
    let expr = parse_expr_colon(p, depth)?;
    let ghost c_end = p.pos as int;
    p.expect_newline()?;
    let ghost arms = p.pos as int;
    assert(arms == after_line(ts, c_end));
    let d = deeper(p, depth)?;
    let mut cases: Vec<(Vec<Expr>, Vec<Stmt>)> = Vec::new();
    let mut default: Option<Vec<Stmt>> = None;
    assert(forall|end: int, rest: Seq<(Vec<Expr>, Vec<Stmt>)>, dfinal: Option<Vec<Stmt>>|
        #[trigger] switch_arms(ts, arms, end, rest, None, dfinal, head_col) ==> switch_arms(ts, arms, end, cases@ + rest, None, dfinal, head_col)) by {
        assert forall|rest: Seq<(Vec<Expr>, Vec<Stmt>)>| cases@ + rest =~= rest by {}
    }
    loop
        invariant_except_break
            forall|end: int, rest: Seq<(Vec<Expr>, Vec<Stmt>)>, dfinal: Option<Vec<Stmt>>|
                #[trigger] switch_arms(ts, p.pos as int, end, rest, default, dfinal, head_col) ==> switch_arms(
                    ts,
                    arms,
                    end,
                    cases@ + rest,
                    None,
                    dfinal,
                    head_col,
                ),
        invariant
            ts == old(p).tokens@,
            p.tokens@ == old(p).tokens@,
            old(p).pos < arms <= p.pos <= p.tokens@.len(),
            expr_colon(old(p).tokens@, old(p).pos + 1, c_end, expr),
            c_end < ts.len() ==> blank(ts[c_end].tok),
            arms == after_line(ts, c_end),
            head_col == old(p).tokens@[old(p).pos as int].col,
            d == depth + 1,
            d <= MAX_PARSE_DEPTH,
            depth <= MAX_PARSE_DEPTH,
        ensures
            p.tokens@ == old(p).tokens@,
            old(p).pos < p.pos <= p.tokens@.len(),
            expr_colon(old(p).tokens@, old(p).pos + 1, c_end, expr),
            c_end < ts.len() ==> blank(ts[c_end].tok),
            arms == after_line(ts, c_end),
            switch_arms(ts, arms, p.pos as int, cases@, None, default, head_col),
        decreases p.tokens@.len() - p.pos,
    {
        let ghost before = p.pos as int;
        let ghost cb = cases@;
        let ghost db = default;
        p.skip_newlines();
        let ghost k = p.pos as int;
        proof {
            lemma_skip_blank_stops(ts, before);
        }
        if p.pos >= p.tokens.len() {
            proof {
                assert(switch_arms(ts, before, k, seq![], db, db, head_col));
                assert(cb + seq![] =~= cb);
            }
            break;
        }
        let next_col = p.col_here();
        if next_col <= head_col {
            proof {
                assert(switch_arms(ts, before, k, seq![], db, db, head_col));
                assert(cb + seq![] =~= cb);
            }
            break;
        }
        if p.is_word(0, "case") {
            p.advance();
            let mut vals: Vec<Expr> = Vec::new();
            let first = parse_expr(p, depth)?;
            let ghost m1 = p.pos as int;
            let ghost fg = first;
            vals.push(first);
            proof {
                assert forall|c: int, rest: Seq<Expr>| #[trigger] vals_cont(ts, m1, c, rest) implies case_vals(
                    ts,
                    k + 1,
                    c,
                    vals@ + rest,
                ) by {
                    let all = vals@ + rest;
                    assert(all[0] == fg);
                    assert(all.drop_first() =~= rest);
                    assert(reads_at(ts, k + 1, m1, Ok::<Expr, ParseError>(all[0]), 1));
                }
            }
            while p.kind_is(0, K::Comma)
                invariant
                    ts == old(p).tokens@,
                    p.tokens@ == old(p).tokens@,
                    old(p).pos < k < p.pos <= p.tokens@.len(),
                    depth <= MAX_PARSE_DEPTH,
                    forall|c: int, rest: Seq<Expr>|
                        #[trigger] vals_cont(ts, p.pos as int, c, rest) ==> case_vals(ts, k + 1, c, vals@ + rest),
                decreases p.tokens@.len() - p.pos,
            {
                let ghost q = p.pos as int;
                let ghost vb = vals@;
                p.advance();
                let v = parse_expr(p, depth)?;
                let ghost vg = v;
                let ghost m = p.pos as int;
                vals.push(v);
                proof {
                    assert forall|c: int, rest: Seq<Expr>| #[trigger] vals_cont(ts, m, c, rest) implies case_vals(
                        ts,
                        k + 1,
                        c,
                        vals@ + rest,
                    ) by {
                        let all = seq![vg] + rest;
                        assert(all[0] == vg);
                        assert(all.drop_first() =~= rest);
                        assert(reads_at(ts, q + 1, m, Ok::<Expr, ParseError>(all[0]), 1));
                        assert(case_vals(ts, q + 1, c, all));
                        assert(vals_cont(ts, q, c, all));
                        assert(vb + all =~= vals@ + rest);
                    }
                }
            }
            let ghost c = p.pos as int;
            proof {
                assert(vals_cont(ts, c, c, seq![]));
                assert(vals@ + seq![] =~= vals@);
            }
            p.expect_kind(K::Colon, "`:`")?;
            p.expect_newline()?;
            let ghost bstart = p.pos as int;
            let case_body = parse_block(p, next_col, d)?;
            let ghost m = p.pos as int;
            let ghost arm = (vals, case_body);
            cases.push((vals, case_body));
            proof {
                assert(bstart == after_line(ts, c + 1));
                assert forall|end: int, rest: Seq<(Vec<Expr>, Vec<Stmt>)>, dfinal: Option<Vec<Stmt>>|
                    #[trigger] switch_arms(ts, m, end, rest, db, dfinal, head_col) implies switch_arms(
                    ts,
                    arms,
                    end,
                    cases@ + rest,
                    None,
                    dfinal,
                    head_col,
                ) by {
                    let all = seq![arm] + rest;
                    assert(all[0] == arm);
                    assert(all.drop_first() =~= rest);
                    assert(case_vals(ts, k + 1, c, all[0].0@));
                    assert(deep_block(ts, after_line(ts, c + 1), m, all[0].1@, ts[k].col));
                    assert(switch_arms(ts, before, end, all, db, dfinal, head_col));
                    assert(cb + all =~= cases@ + rest);
                }
            }
        } else if p.is_word(0, "default") {
            p.advance();
            p.expect_kind(K::Colon, "`:`")?;
            p.expect_newline()?;
            let body = parse_block(p, next_col, d)?;
            let ghost m = p.pos as int;
            let ghost bg = body;
            default = Some(body);
            proof {
                assert forall|end: int, rest: Seq<(Vec<Expr>, Vec<Stmt>)>, dfinal: Option<Vec<Stmt>>|
                    #[trigger] switch_arms(ts, m, end, rest, default, dfinal, head_col) implies switch_arms(
                    ts,
                    arms,
                    end,
                    cases@ + rest,
                    None,
                    dfinal,
                    head_col,
                ) by {
                    assert(deep_block(ts, after_line(ts, k + 2), m, bg@, ts[k].col));
                    assert(switch_arms(ts, before, end, rest, db, dfinal, head_col));
                }
            }
        } else {
            proof {
                assert(switch_arms(ts, before, k, seq![], db, db, head_col));
                assert(cb + seq![] =~= cb);
            }
            break;
        }
    }
    let st = Stmt::Switch { expr, cases, default, line: head_line };
    proof {
        reveal(switch_full);
        assert(expr_colon(old(p).tokens@, old(p).pos + 1, c_end, st->Switch_expr));
        assert(switch_arms(ts, after_line(ts, c_end), p.pos as int, st->Switch_cases@, None, st->Switch_default, ts[old(p).pos as int].col));
    }
    Ok(st)
}

/// More `case` values after position `i`: none, and the values end at `c`
/// there; or a comma and the values read after it.
pub open spec fn vals_cont(ts: Seq<Token>, i: int, c: int, rest: Seq<Expr>) -> bool {
    if rest.len() == 0 {
        c == i
    } else {
        0 <= i < ts.len() && ts[i].tok is Comma && case_vals(ts, i + 1, c, rest)
    }
}

/// `set N = ` or `N = ` followed by more `(` in a row than the nesting
/// levels left.
pub open spec fn deep_assign_at(ts: Seq<Token>, i: int, depth: usize) -> bool {
    ||| (word_at(ts, i, "set"@) && i + 2 < ts.len() && ts[i + 1].tok is Word && ts[i + 2].tok is Equals
        && too_deep(ts, i + 3, depth))
    ||| (plain_word_at(ts, i) && i + 1 < ts.len() && ts[i + 1].tok is Equals && too_deep(ts, i + 2, depth))
}

/// `set` is optional: `set N = E` and `N = E` read alike. When `set` at `i`
/// is followed by a plain name, `=` and an expression that does not start a
/// bash DSL line, the statement at `i` is well formed exactly when the one
/// at `i + 1` (the same line without `set`) is, ending at the same token,
/// and the two are described by the same assignment of `E` to `N`.
pub proof fn law_set_is_optional(ts: Seq<Token>, i: int, d: int)
    requires
        word_at(ts, i, "set"@),
        plain_word_at(ts, i + 1),
        i + 2 < ts.len(),
        ts[i + 2].tok is Equals,
        !dsl_word_at(ts, i + 3),
        0 <= d <= MAX_PARSE_DEPTH,
    ensures
        stmt_ok(ts, i, d) == stmt_ok(ts, i + 1, d),
        forall|s: Stmt, end: int|
            #![trigger stmt_detail(ts, i, Ok::<Stmt, ParseError>(s), end)]
            #![trigger stmt_detail(ts, i + 1, Ok::<Stmt, ParseError>(s), end)]
            stmt_detail(ts, i, Ok::<Stmt, ParseError>(s), end) == stmt_detail(ts, i + 1, Ok::<Stmt, ParseError>(s), end)
                && (stmt_detail(ts, i, Ok::<Stmt, ParseError>(s), end) <==> assign_read(ts, i + 1, i + 3, s, false, end)),
{
    lemma_keyword_letters();
    lemma_stmt_ok(ts, i, d);
    lemma_stmt_ok(ts, i + 1, d);
    reveal_strlit("set");
    reveal_strlit("ai_generate");
    assert(kind_at(ts, i + 2) == Some(K::Equals));
}

#[verifier::rlimit(80)]
#[verifier::spinoff_prover]
fn parse_stmt(p: &mut P, depth: usize) -> (r: Result<Stmt, ParseError>)
    requires
        wf(*old(p)),
        depth <= MAX_PARSE_DEPTH,
    ensures
        steps(*old(p), *final(p), r, true),
        stmt_outline(old(p).tokens@, old(p).pos as int, r),
        stmt_detail(old(p).tokens@, old(p).pos as int, r, final(p).pos as int),
        deep_assign_at(old(p).tokens@, old(p).pos as int, depth) ==> (r matches Err(e) && e.message@
            == deep_message()),
        owed(stmt_ok(old(p).tokens@, old(p).pos as int, depth as int), r, final(p).pos as int),
        erred(stmt_err(old(p).tokens@, old(p).pos as int, depth as int), old(p).tokens@, r),
        stmt_parts(old(p).tokens@, old(p).pos as int, r, final(p).pos as int),
        r matches Ok(s) ==> (compound(s) ==> stmt_deep(old(p).tokens@, old(p).pos as int, s)),
        r matches Ok(s) ==> (word_at(old(p).tokens@, old(p).pos as int, "if"@) ==> if_parts(
            old(p).tokens@,
            old(p).pos as int,
            s,
        )),
    decreases MAX_PARSE_DEPTH - depth, 39int,
{
    proof {
        lemma_stmt_ok(old(p).tokens@, old(p).pos as int, depth as int);
    }
    if p.pos >= p.tokens.len() {
        return Err(p.err_here(msg("unexpected end of input")));
    }
    let head_col = p.col_here();
    let head_line = p.line_here();
    let head_at = p.pos;
    let word = match p.word(0) {
        Some(w) => w.clone(),
        None => {
            let mut m = String::from_str("unexpected token ");
            let d = describe_tok(&p.tokens[p.pos].tok);
            m.append(d.as_str());
            return Err(p.err_here(m));
        },
    };

    proof {
        lemma_keyword_letters();
    }
    // `completed`, `break` and `continue` stand alone on their line.
    let completed = string_is(&word, "completed");
    let is_break = string_is(&word, "break");
    if completed || is_break || string_is(&word, "continue") {
        p.advance();
        p.expect_newline()?;
        if completed {
            return Ok(Stmt::Completed { line: head_line });
        }
        if is_break {
            return Ok(Stmt::Break { line: head_line });
        }
        return Ok(Stmt::Continue { line: head_line });
    }

    if string_is(&word, "error") {
        p.advance();
        if p.pos >= p.tokens.len() {
            return Err(p.err_at(head_at, msg("expected error code")));
        }
        if !p.kind_is(0, K::Int) {
            return Err(p.err_here(msg("expected error code (int)")));
        }
        let code = int_here(p);
        p.advance();
        let mut line_ref: i64 = 0;
        if p.is_word(0, "string") {
            p.advance();
            if p.pos >= p.tokens.len() {
                return Err(p.err_at(head_at, msg("expected line ref")));
            }
            if p.kind_is(0, K::Int) {
                line_ref = int_here(p);
            }
            p.advance();
        }
        p.expect_newline()?;
        return Ok(Stmt::Error { code, line_ref, line: head_line });
    }

    if string_is(&word, "return") {
        p.advance();
        if p.kind_is(0, K::Newline) || p.kind_is(0, K::Semicolon) || p.pos >= p.tokens.len() {
            p.expect_newline()?;
            proof {
                reveal(return_read);
            }
            return Ok(Stmt::Return { expr: None, line: head_line });
        }
        let expr = parse_expr_line(p, depth)?;
        proof {
            reveal(return_read);
        }
        return Ok(Stmt::Return { expr: Some(expr), line: head_line });
    }

    if string_is(&word, "set") || string_is(&word, "const") {
        let is_const = string_is(&word, "const");
        p.advance();
        let name = match p.take_word() {
            Some(w) => w,
            None => {
                return Err(p.err_here(msg("expected variable name")));
            },
        };
        p.expect_kind(K::Equals, "`=`")?;
        let expr = parse_expr_line(p, depth)?;
        proof {
            reveal(assign_read);
        }
        return Ok(Stmt::Assign { target: AssignTarget::Name(name), expr, is_const, line: head_line });
    }

    if string_is(&word, "if") {
        return parse_if_stmt(p, head_col, head_line, depth);
    }

    if string_is(&word, "while") {
        p.advance();
        proof {
            if expr_ok(old(p).tokens@, p.pos as int, depth as int) is Some {
                lemma_colon_block(
                    old(p).tokens@,
                    expr_ok(old(p).tokens@, p.pos as int, depth as int)->0,
                    head_col,
                    depth as int,
                );
            }
        }
        let cond = parse_expr_colon(p, depth)?;
        let ghost c_end = p.pos as int;
        p.expect_newline()?;
        let d = deeper(p, depth)?;
        let body = parse_block(p, head_col, d)?;
        let ghost bend = p.pos as int;
        let st = Stmt::While { cond, body, line: head_line };
        proof {
            reveal(stmt_deep);
            let ts = old(p).tokens@;
            let i = old(p).pos as int;
            assert(block_stop(ts, bend, ts[i].col));
            assert(expr_colon(ts, i + 1, c_end, st->While_cond));
            assert(deep_block(ts, after_line(ts, c_end), bend, st->While_body@, ts[i].col));
            assert(stmt_deep(ts, i, st));
        }
        proof {
            reveal(while_read);
            let ts = old(p).tokens@;
            let i = old(p).pos as int;
            assert(expr_colon(ts, i + 1, c_end, st->While_cond));
            assert(block_from(ts, after_line(ts, c_end), bend, st->While_body@, ts[i].col));
        }
        return Ok(st);
    }

    if string_is(&word, "try") {
        p.advance();
        p.expect_kind(K::Colon, "`:`")?;
        p.expect_newline()?;
        let d = deeper(p, depth)?;
        let body = parse_block(p, head_col, d)?;
        let ghost bend = p.pos as int;
        p.skip_newlines();
        let ghost k = p.pos as int;
        if p.pos >= p.tokens.len() {
            return Err(p.err_here(msg("expected `rescue:` after `try:` block")));
        }
        if !p.is_word(0, "rescue") || p.col_here() != head_col {
            return Err(p.err_here(msg("expected `rescue:` at the same column as `try:`")));
        }
        p.advance();
        let rescue_var = if p.word(0).is_some() {
            if !p.is_word(0, "as") {
                return Err(p.err_here(msg("expected `as <name>:` or just `:`")));
            }
            p.advance();
            match p.take_word() {
                Some(n) => Some(n),
                None => {
                    return Err(p.err_here(msg("expected identifier after `as`")));
                },
            }
        } else {
            None
        };
        let ghost c = p.pos as int;
        p.expect_kind(K::Colon, "`:`")?;
        p.expect_newline()?;
        let rescue_body = parse_block(p, head_col, d)?;
        let ghost rend = p.pos as int;
        let st = Stmt::Try { body, rescue_var, rescue_body, line: head_line };
        proof {
            reveal(stmt_deep);
            let ts = old(p).tokens@;
            let i = old(p).pos as int;
            assert(k == skip_blank(ts, bend));
            assert(c + 1 == skip_blank(ts, bend) + if st->Try_rescue_var is Some {
                4int
            } else {
                2int
            });
            assert(block_stop(ts, bend, ts[i].col));
            assert(block_stop(ts, rend, ts[i].col));
            assert(deep_block(ts, after_line(ts, i + 2), bend, st->Try_body@, ts[i].col));
            assert(deep_block(ts, after_line(ts, c + 1), rend, st->Try_rescue_body@, ts[i].col));
            assert(stmt_deep(ts, i, st));
        }
        proof {
            reveal(try_read);
            let ts = old(p).tokens@;
            let i = old(p).pos as int;
            assert(block_from(ts, after_line(ts, i + 2), bend, st->Try_body@, ts[i].col));
            assert(block_from(ts, after_line(ts, c + 1), rend, st->Try_rescue_body@, ts[i].col));
        }
        return Ok(st);
    }

    if string_is(&word, "assert") {
        p.advance();
        p.expect_kind(K::LParen, "`(`")?;
        let cond = parse_expr(p, depth)?;
        let ghost m = p.pos as int;
        let message = if p.kind_is(0, K::Comma) {
            p.advance();
            Some(parse_expr(p, depth)?)
        } else {
            None
        };
        let ghost m2 = p.pos as int;
        p.expect_kind(K::RParen, "`)`")?;
        p.expect_newline()?;
        let st = Stmt::Assert { cond, message, line: head_line };
        proof {
            reveal(assert_read);
            let ts = old(p).tokens@;
            let i = old(p).pos as int;
            assert(reads_at(ts, i + 2, m, Ok::<Expr, ParseError>(st->Assert_cond), 1));
            if let Some(msg) = st->Assert_message {
                assert(reads_at(ts, m + 1, m2, Ok::<Expr, ParseError>(msg), 1));
            }
        }
        return Ok(st);
    }

    if string_is(&word, "for") {
        return parse_for_stmt(p, head_col, head_line, depth);
    }

    if string_is(&word, "switch") {
        return parse_switch_stmt(p, head_col, head_line, depth);
    }

    if string_is(&word, "do") {
        p.advance();
        p.expect_kind(K::Colon, "`:`")?;
        p.expect_newline()?;
        let d = deeper(p, depth)?;
        let body = parse_block(p, head_col, d)?;
        let ghost bend = p.pos as int;
        p.skip_newlines();
        p.expect_word("while")?;
        let cond = parse_expr_line(p, depth)?;
        let st = Stmt::DoWhile { body, cond, line: head_line };
        proof {
            reveal(stmt_deep);
            let ts = old(p).tokens@;
            let i = old(p).pos as int;
            assert(block_stop(ts, bend, ts[i].col));
            assert(deep_block(ts, after_line(ts, i + 2), bend, st->DoWhile_body@, ts[i].col));
            assert(stmt_deep(ts, i, st));
        }
        proof {
            reveal(do_read);
            let ts = old(p).tokens@;
            let i = old(p).pos as int;
            assert(block_from(ts, after_line(ts, i + 2), bend, st->DoWhile_body@, ts[i].col));
        }
        return Ok(st);
    }

    // `WORD = ...`: an assignment, or a bash DSL line.
    if p.kind_is(1, K::Equals) {
        proof {
            if too_deep(old(p).tokens@, old(p).pos + 2, depth) {
                lemma_too_deep_next(old(p).tokens@, old(p).pos + 2, depth);
            }
        }
        let is_bash_dsl = p.is_word(2, "generate") || p.is_word(2, "search") || p.is_word(2, "web")
            || p.is_word(2, "complete");
        p.advance();
        p.advance();
        if is_bash_dsl {
            let (action, argument) = parse_bash_dsl_rhs(p)?;
            p.expect_newline()?;
            return Ok(Stmt::BashDsl { action, argument, line: head_line });
        }
        let expr = parse_expr_line(p, depth)?;
        proof {
            reveal(assign_read);
        }
        return Ok(Stmt::Assign { target: AssignTarget::Name(word), expr, is_const: false, line: head_line });
    }

    match compound_op(p.kind(1)) {
        Some(op) => {
            p.advance();
            p.advance();
            let expr = parse_expr(p, depth)?;
            p.expect_newline()?;
            proof {
                reveal(compound_read);
            }
            return Ok(Stmt::CompoundAssign { target: AssignTarget::Name(word), op, expr, line: head_line });
        },
        None => {},
    }

    if p.kind_is(1, K::PlusPlus) || p.kind_is(1, K::MinusMinus) {
        let op = if p.kind_is(1, K::PlusPlus) {
            BinOp::Add
        } else {
            BinOp::Sub
        };
        p.advance();
        p.advance();
        p.expect_newline()?;
        proof {
            reveal(step_read);
        }
        return Ok(
            Stmt::CompoundAssign {
                target: AssignTarget::Name(word),
                op,
                expr: Expr::Lit(Literal::Int(1)),
                line: head_line,
            },
        );
    }

    // `WORD.field = ...` / `WORD[i] op= ...`
    if p.kind_is(1, K::Dot) || p.kind_is(1, K::LBracket) {
        let saved = p.pos;
        let base = word.clone();
        match try_parse_place_assign(p, base, head_line, depth)? {
            Some(stmt) => {
                if p.pos > saved {
                    return Ok(stmt);
                }
            },
            None => {},
        }
        // Not an assignment: an expression such as a method call `p.move(1)`.
        p.pos = saved;
        let expr = parse_expr(p, depth)?;
        p.expect_newline()?;
        return Ok(Stmt::ExprStmt { expr, line: head_line });
    }

    if string_is(&word, "ai_generate") {
        p.advance();
        p.expect_kind(K::LParen, "`(`")?;
        let mut language = String::new();
        let mut task = String::new();
        loop
            invariant
                p.tokens@ == old(p).tokens@,
                old(p).pos < p.pos <= p.tokens@.len(),
                head_at < p.tokens@.len(),
                head_at == old(p).pos,
                old(p).tokens@[old(p).pos as int].tok == Tok::Word(word),
                word@ == "ai_generate"@,
                !deep_assign_at(old(p).tokens@, old(p).pos as int, depth),
                stmt_ok(old(p).tokens@, old(p).pos as int, depth as int) is None,
                stmt_err(old(p).tokens@, old(p).pos as int, depth as int) is None,
                !(word@ == "completed"@ || word@ == "break"@ || word@ == "continue"@),
            decreases p.tokens@.len() - p.pos,
        {
            if p.kind_is(0, K::RParen) {
                p.advance();
                break;
            }
            if p.kind_is(0, K::Comma) {
                p.advance();
                continue;
            }
            let key = match p.take_word() {
                Some(k) => k,
                None => {
                    return Err(p.err_here(msg("bad ai_generate args")));
                },
            };
            p.expect_kind(K::Equals, "`=`")?;
            if p.pos >= p.tokens.len() {
                return Err(p.err_at(head_at, msg("expected value")));
            }
            let value = match ai_arg_value(&p.tokens[p.pos].tok) {
                Some(v) => v,
                None => {
                    return Err(p.err_here(msg("expected value")));
                },
            };
            p.advance();
            if string_is(&key, "language") {
                language = value;
            } else if string_is(&key, "task") {
                task = value;
            }
        }
        p.expect_newline()?;
        return Ok(Stmt::AiGenerate { language, task, line: head_line });
    }

    parse_call_or_fncall_stmt(p, head_line, depth)
}

fn expect_end_marker(p: &mut P) -> (r: Result<(), ParseError>)
    requires
        wf(*old(p)),
    ensures
        steps(*old(p), *final(p), r, true),
{
    let ok = match p.word(0) {
        Some(w) => is_end_marker(w),
        None => false,
    };
    if ok {
        p.advance();
        Ok(())
    } else {
        Err(p.err_here(msg("expected `end`")))
    }
}

/// The field names of a struct body read from position `i` up to and
/// including its closing brace (blank tokens and commas skipped), and the
/// position after that brace; `None` when the body is malformed.
pub open spec fn struct_fields(ts: Seq<Token>, i: int) -> Option<(Seq<Seq<char>>, int)>
    decreases ts.len() - i,
{
    if 0 <= i < ts.len() {
        if blank(ts[i].tok) || ts[i].tok is Comma {
            struct_fields(ts, i + 1)
        } else if ts[i].tok is RBrace {
            Some((Seq::<Seq<char>>::empty(), i + 1))
        } else if ts[i].tok is Word {
            let w = match ts[i].tok {
                Tok::Word(w) => w@,
                _ => Seq::<char>::empty(),
            };
            match struct_fields(ts, i + 1) {
                Some((fs, e)) => Some((seq![w] + fs, e)),
                None => None,
            }
        } else {
            None
        }
    } else {
        None
    }
}

proof fn lemma_struct_fields_skip(ts: Seq<Token>, i: int)
    requires
        0 <= i <= ts.len(),
    ensures
        struct_fields(ts, i) == struct_fields(ts, skip_blank(ts, i)),
    decreases ts.len() - i,
{
    if 0 <= i < ts.len() && blank(ts[i].tok) {
        lemma_struct_fields_skip(ts, i + 1);
    }
}

fn parse_struct(p: &mut P) -> (r: Result<StructDef, ParseError>)
    requires
        wf(*old(p)),
    ensures
        steps(*old(p), *final(p), r, true),
        r matches Ok(sd) ==> (word_at(old(p).tokens@, old(p).pos as int, "struct"@) && sd.line == old(
            p,
        ).tokens@[old(p).pos as int].line && word_at(old(p).tokens@, old(p).pos + 1, sd.name@) && old(
            p,
        ).pos + 2 < old(p).tokens@.len() && old(p).tokens@[old(p).pos + 2].tok is LBrace && (struct_fields(
            old(p).tokens@,
            old(p).pos + 3,
        ) matches Some((fs, _)) && strings_view(sd.fields@) == fs)),
        owed(struct_ok(old(p).tokens@, old(p).pos as int), r, final(p).pos as int),
        r matches Ok(sd) ==> struct_at(old(p).tokens@, old(p).pos as int, sd),
{
    let header_at = p.pos;
    let line = p.expect_word("struct")?;
    if p.pos >= p.tokens.len() {
        return Err(p.err_at(header_at, msg("expected struct name")));
    }
    let name = match p.take_word() {
        Some(w) => w,
        None => {
            return Err(p.err_here(msg("expected struct name")));
        },
    };
    p.expect_kind(K::LBrace, "`{`")?;
    let ghost ts = old(p).tokens@;
    let ghost start = p.pos as int;
    assert(start == old(p).pos + 3);
    let mut fields: Vec<String> = Vec::new();
    proof {
        match struct_fields(ts, start) {
            Some((fs, e)) => {
                assert(strings_view(fields@) + fs =~= fs);
            },
            None => {},
        }
    }
    loop
        invariant_except_break
            struct_fields(ts, start) == match struct_fields(ts, p.pos as int) {
                Some((fs, e)) => Some((strings_view(fields@) + fs, e)),
                None => None,
            },
        invariant
            p.tokens@ == old(p).tokens@,
            ts == old(p).tokens@,
            old(p).pos < p.pos <= p.tokens@.len(),
            start == old(p).pos + 3,
        ensures
            p.tokens@ == old(p).tokens@,
            old(p).pos < p.pos <= p.tokens@.len(),
            struct_fields(ts, start) matches Some((fs, e)) && strings_view(fields@) == fs && e == p.pos as int,
        decreases p.tokens@.len() - p.pos,
    {
        let ghost here = p.pos as int;
        p.skip_newlines();
        proof {
            lemma_struct_fields_skip(ts, here);
            lemma_skip_blank_stops(ts, here);
        }
        if p.kind_is(0, K::RBrace) {
            proof {
                assert(strings_view(fields@) + Seq::<Seq<char>>::empty() =~= strings_view(fields@));
            }
            p.advance();
            break;
        }
        if p.kind_is(0, K::Comma) {
            p.advance();
            continue;
        }
        let ghost before = fields@;
        let ghost at = p.pos as int;
        match p.take_word() {
            Some(f) => fields.push(f),
            None => {
                proof {
                    assert(struct_fields(ts, p.pos as int) is None);
                    assert(struct_ok(ts, old(p).pos as int) is None);
                }
                return Err(p.err_here(msg("expected field name or `}`")));
            },
        }
        proof {
            let w = fields@[fields@.len() - 1]@;
            assert(strings_view(fields@) =~= strings_view(before) + seq![w]);
            match struct_fields(ts, at + 1) {
                Some((fs, e)) => {
                    assert(strings_view(fields@) + fs =~= strings_view(before) + (seq![w] + fs));
                },
                None => {},
            }
        }
    }
    p.expect_newline()?;
    Ok(StructDef { name, fields, line })
}

/// After the parameter name at `j`, either `= expr` read up to `k`, or no
/// default and `k` right after the name.
pub open spec fn default_at(ts: Seq<Token>, j: int, k: int, d: Option<Expr>) -> bool {
    match d {
        None => k == j + 1 && !(j + 1 < ts.len() && ts[j + 1].tok is Equals),
        Some(e) => j + 1 < ts.len() && ts[j + 1].tok is Equals && j + 2 < k && reads_at(
            ts,
            j + 2,
            k,
            Ok::<Expr, ParseError>(e),
            1,
        ),
    }
}

/// The parameters read from `j` up to the `)` that ends before `end`: names
/// separated by commas, each with its default value if it has one.
pub open spec fn params_from(
    ts: Seq<Token>,
    j: int,
    end: int,
    params: Seq<String>,
    defaults: Seq<Option<Expr>>,
) -> bool
    decreases end - j,
{
    0 <= j < end && j < ts.len() && params.len() > 0 && params.len() == defaults.len() && ts[j].tok
        == Tok::Word(params[0]) && exists|k: int|
        #![trigger default_at(ts, j, k, defaults[0])]
        j < k < end && k < ts.len() && default_at(ts, j, k, defaults[0]) && if ts[k].tok is Comma {
            params_from(ts, k + 1, end, params.drop_first(), defaults.drop_first())
        } else {
            ts[k].tok is RParen && end == k + 1 && params.len() == 1
        }
}

/// The parameters of the function whose header starts at `i`: none for `()`
/// or an arity `(N)`, else the names and defaults of the list.
pub open spec fn header_params(
    ts: Seq<Token>,
    i: int,
    params: Seq<String>,
    defaults: Seq<Option<Expr>>,
    hend: int,
) -> bool {
    let j = i + 3;
    if 0 <= j < ts.len() && ts[j].tok is RParen {
        params.len() == 0 && defaults.len() == 0 && hend == j + 1
    } else if 0 <= j < ts.len() && ts[j].tok is Int {
        params.len() == 0 && defaults.len() == 0 && j + 1 < ts.len() && ts[j + 1].tok is RParen && hend == j
            + 2
    } else {
        params_from(ts, j, hend, params, defaults)
    }
}

/// Where the body of a function whose header ends at `hend` starts: after
/// the `:` and its line break in the clean form, after the line break in the
/// legacy form.
pub open spec fn body_start(ts: Seq<Token>, hend: int) -> int {
    if hend < ts.len() && ts[hend].tok is Colon {
        if hend + 2 <= ts.len() {
            hend + 2
        } else {
            ts.len() as int
        }
    } else {
        skip_blank(
            ts,
            if hend + 1 <= ts.len() {
                hend + 1
            } else {
                ts.len() as int
            },
        )
    }
}

/// The function `f` read from the header at `i`: it has the line of the
/// `rach` and the name that follows it, its parameters and defaults end at
/// `hend`, and its body is the block read after the header, up to `bend`,
/// with the nested blocks of its statements read at every depth.
pub open spec fn function_read(ts: Seq<Token>, i: int, f: Function, hend: int, bend: int) -> bool {
    &&& 0 <= i < ts.len()
    &&& f.line == ts[i].line
    &&& word_at(ts, i + 1, f.name@)
    &&& header_params(ts, i, f.params@, f.defaults@, hend)
    &&& block_from(ts, body_start(ts, hend), bend, f.body@, 0)
    &&& deep_block(ts, body_start(ts, hend), bend, f.body@, 0)
}

/// The function read from the header at `i` is `f`.
pub open spec fn function_at(ts: Seq<Token>, i: int, f: Function) -> bool {
    exists|hend: int, bend: int| #[trigger] function_read(ts, i, f, hend, bend)
}

/// `rach NAME():` and a line break.
pub open spec fn clean_header_at(ts: Seq<Token>, i: int) -> bool {
    &&& word_at(ts, i, "rach"@)
    &&& i + 5 < ts.len()
    &&& ts[i + 1].tok is Word
    &&& ts[i + 2].tok is LParen
    &&& ts[i + 3].tok is RParen
    &&& ts[i + 4].tok is Colon
    &&& blank(ts[i + 5].tok)
}

/// `rach NAME():` whose first statement assigns an expression that nests
/// deeper than the parser goes.
pub open spec fn deep_function_at(ts: Seq<Token>, i: int) -> bool {
    let k = skip_blank(ts, i + 6);
    clean_header_at(ts, i) && !block_stop(ts, k, 0) && deep_assign_at(ts, k, 1)
}

fn parse_function(p: &mut P) -> (r: Result<Function, ParseError>)
    requires
        wf(*old(p)),
    ensures
        steps(*old(p), *final(p), r, true),
        r matches Ok(f) ==> (word_at(old(p).tokens@, old(p).pos as int, "rach"@) && f.line == old(
            p,
        ).tokens@[old(p).pos as int].line && word_at(old(p).tokens@, old(p).pos + 1, f.name@)
            && one_default_per_param(f)),
        r matches Ok(f) ==> function_at(old(p).tokens@, old(p).pos as int, f),
        deep_function_at(old(p).tokens@, old(p).pos as int) ==> (r matches Err(e) && e.message@ == deep_message()),
        owed(function_ok(old(p).tokens@, old(p).pos as int), r, final(p).pos as int),
{
    let ghost ts = p.tokens@;
    let header_at = p.pos;
    let line = p.expect_word("rach")?;
    if p.pos >= p.tokens.len() {
        return Err(p.err_at(header_at, msg("expected function name")));
    }
    let name = match p.take_word() {
        Some(w) => w,
        None => {
            return Err(p.err_here(msg("expected function name")));
        },
    };
    p.expect_kind(K::LParen, "`(`")?;
    assert(p.pos == old(p).pos + 3);
    let mut params: Vec<String> = Vec::new();
    let mut defaults: Vec<Option<Expr>> = Vec::new();
    let ghost header = word_at(old(p).tokens@, old(p).pos as int, "rach"@) && line == old(
        p,
    ).tokens@[old(p).pos as int].line && word_at(old(p).tokens@, old(p).pos + 1, name@);
    assert(header);
    if p.kind_is(0, K::RParen) {
        p.advance();
    } else if p.kind_is(0, K::Int) {
        p.advance();
        p.expect_kind(K::RParen, "`)`")?;
    } else if p.kind_is(0, K::Word) {
        let ghost j0 = p.pos as int;
        assert(j0 == old(p).pos + 3);
        loop
            invariant_except_break
                function_ok(ts, old(p).pos as int) is Some ==> params_ok(ts, p.pos as int) == params_ok(ts, j0),
                forall|end: int, ps: Seq<String>, ds: Seq<Option<Expr>>|
                    #[trigger] params_from(ts, p.pos as int, end, ps, ds) ==> params_from(
                        ts,
                        j0,
                        end,
                        params@ + ps,
                        defaults@ + ds,
                    ),
            invariant
                p.tokens@ == old(p).tokens@,
                ts == old(p).tokens@,
                old(p).pos < j0 <= p.pos <= p.tokens@.len(),
                params@.len() == defaults@.len(),
                !deep_function_at(ts, old(p).pos as int),
                function_ok(ts, old(p).pos as int) is Some ==> params_ok(ts, j0) is Some,
            ensures
                function_ok(ts, old(p).pos as int) is Some ==> params_ok(ts, j0) == Some(p.pos as int),
                p.tokens@ == old(p).tokens@,
                old(p).pos < p.pos <= p.tokens@.len(),
                params_from(ts, j0, p.pos as int, params@, defaults@),
            decreases p.tokens@.len() - p.pos,
        {
            let ghost jj = p.pos as int;
            let ghost (pb, db) = (params@, defaults@);
            match p.take_word() {
                Some(w) => params.push(w),
                None => {
                    return Err(p.err_here(msg("expected param name")));
                },
            }
            if p.kind_is(0, K::Equals) {
                p.advance();
                let e = parse_expr(p, 1)?;
                defaults.push(Some(e));
            } else {
                defaults.push(None);
            }
            let ghost k = p.pos as int;
            let ghost w1 = params@.last();
            let ghost d1 = defaults@.last();
            assert(default_at(ts, jj, k, d1));
            assert(params@ == pb.push(w1) && defaults@ == db.push(d1));
            if p.kind_is(0, K::Comma) {
                p.advance();
                proof {
                    assert forall|end: int, ps: Seq<String>, ds: Seq<Option<Expr>>|
                        #[trigger] params_from(ts, k + 1, end, ps, ds) implies params_from(
                        ts,
                        j0,
                        end,
                        params@ + ps,
                        defaults@ + ds,
                    ) by {
                        let ps2 = seq![w1] + ps;
                        let ds2 = seq![d1] + ds;
                        assert(ps2.drop_first() =~= ps);
                        assert(ds2.drop_first() =~= ds);
                        assert(default_at(ts, jj, k, ds2[0]));
                        assert(params_from(ts, jj, end, ps2, ds2));
                        assert(pb + ps2 =~= params@ + ps);
                        assert(db + ds2 =~= defaults@ + ds);
                    }
                }
            } else if p.kind_is(0, K::RParen) {
                p.advance();
                proof {
                    let ps2 = seq![w1];
                    let ds2 = seq![d1];
                    assert(default_at(ts, jj, k, ds2[0]));
                    assert(params_from(ts, jj, k + 1, ps2, ds2));
                    assert(pb + ps2 =~= params@);
                    assert(db + ds2 =~= defaults@);
                }
                break;
            } else {
                return Err(p.err_here(msg("expected `,` or `)` in param list")));
            }
        }
        assert(params_from(ts, j0, p.pos as int, params@, defaults@));
    } else {
        return Err(p.err_here(msg("expected params or arity")));
    }

    let ghost hend = p.pos as int;
    proof {
        lemma_colon_block(ts, hend, 0, 0);
    }
    let ghost plist = header_params(ts, old(p).pos as int, params@, defaults@, hend);
    assert(plist);
    // Clean form `rach name(...):` ... `end`; legacy form `rach name(...)` ...
    // `return(end)` `(end0)`.
    if p.kind_is(0, K::Colon) {
        p.advance();
        p.expect_newline()?;
        assert(p.pos == body_start(ts, hend));
        let body = parse_block(p, 0, 1)?;
        assert(block_from(ts, body_start(ts, hend), p.pos as int, body@, 0));
        let ghost bend = p.pos as int;
        if p.is_word(0, "end") {
            p.advance();
            let _ = p.expect_newline();
            let f = Function { name, params, defaults, body, line };
            assert(function_read(old(p).tokens@, old(p).pos as int, f, hend, bend));
    assert(function_at(old(p).tokens@, old(p).pos as int, f));
            return Ok(f);
        }
        return Err(p.err_here(msg("expected `end` to close function")));
    }
    p.expect_newline()?;
    p.skip_newlines();
    assert(p.pos == body_start(ts, hend));
    let body = parse_block(p, 0, 1)?;
    let ghost bend = p.pos as int;
    assert(block_from(ts, body_start(ts, hend), bend, body@, 0));
    p.expect_word("return")?;
    p.expect_kind(K::LParen, "`(`")?;
    expect_end_marker(p)?;
    p.expect_kind(K::RParen, "`)`")?;
    p.expect_newline()?;
    p.skip_newlines();
    p.expect_kind(K::LParen, "`(`")?;
    expect_end_marker(p)?;
    if p.kind_is(0, K::Int) {
        p.advance();
    }
    p.expect_kind(K::RParen, "`)`")?;
    p.expect_newline()?;
    let f = Function { name, params, defaults, body, line };
    assert(function_read(old(p).tokens@, old(p).pos as int, f, hend, bend));
    assert(function_at(old(p).tokens@, old(p).pos as int, f));
    Ok(f)
}

/// The module names of the `import` lines that open a token stream read
/// from position `j` (blank tokens skipped), and where they end; `None` when
/// an `import` line is malformed.
pub open spec fn import_run(ts: Seq<Token>, j: int) -> Option<(Seq<Seq<char>>, int)>
    decreases ts.len() - j,
{
    if 0 <= j < ts.len() && blank(ts[j].tok) {
        import_run(ts, j + 1)
    } else if word_at(ts, j, "import"@) {
        let k = j + 1;
        if k < ts.len() && ts[k].tok is Word {
            let name = match ts[k].tok {
                Tok::Word(w) => w@,
                _ => Seq::<char>::empty(),
            };
            let m = k + 1;
            if m >= ts.len() || blank(ts[m].tok) {
                let next = if m < ts.len() {
                    m + 1
                } else {
                    m
                };
                match import_run(ts, next) {
                    Some((names, e)) => Some((seq![name] + names, e)),
                    None => None,
                }
            } else {
                None
            }
        } else {
            None
        }
    } else {
        Some((Seq::<Seq<char>>::empty(), j))
    }
}

/// A program whose first function is the implicit `main` without parameters.
pub open spec fn implicit_main(prog: Program) -> bool {
    &&& prog.functions@.len() > 0
    &&& prog.functions@[0].name@ == "main"@
    &&& prog.functions@[0].params@.len() == 0
}

/// Skipping blank tokens ends at or after the start, on a token that is not
/// blank or at the end.
proof fn lemma_skip_blank_stops(ts: Seq<Token>, i: int)
    requires
        0 <= i <= ts.len(),
    ensures
        i <= skip_blank(ts, i) <= ts.len(),
        !(skip_blank(ts, i) < ts.len() && blank(ts[skip_blank(ts, i)].tok)),
    decreases ts.len() - i,
{
    if i < ts.len() && blank(ts[i].tok) {
        lemma_skip_blank_stops(ts, i + 1);
    }
}

/// Skipping blank tokens does not change the import lines read.
proof fn lemma_import_run_skip(ts: Seq<Token>, j: int)
    requires
        0 <= j <= ts.len(),
    ensures
        import_run(ts, j) == import_run(ts, skip_blank(ts, j)),
    decreases ts.len() - j,
{
    if 0 <= j < ts.len() && blank(ts[j].tok) {
        lemma_import_run_skip(ts, j + 1);
    }
}

/// Each parameter of a function has its default-value slot.
pub open spec fn one_default_per_param(f: Function) -> bool {
    f.params@.len() == f.defaults@.len()
}

/// `impl NAME:` opens a block of methods.
pub open spec fn impl_header(ts: Seq<Token>, i: int) -> bool {
    word_at(ts, i, "impl"@) && i + 2 < ts.len() && ts[i + 1].tok is Word && ts[i + 2].tok is Colon
}

/// A method takes the receiver `self` first, and each parameter has its
/// default-value slot.
pub open spec fn method_ok(f: Function) -> bool {
    one_default_per_param(f) && f.params@.len() > 0 && f.params@[0]@ == "self"@
}

/// `impl NAME:` then methods (`rach` definitions taking `self` first) up to
/// `end`.
fn parse_impl(p: &mut P) -> (r: Result<ImplBlock, ParseError>)
    requires
        wf(*old(p)),
    ensures
        steps(*old(p), *final(p), r, true),
        r matches Ok(b) ==> (word_at(old(p).tokens@, old(p).pos as int, "impl"@) && b.line == old(
            p,
        ).tokens@[old(p).pos as int].line && word_at(old(p).tokens@, old(p).pos + 1, b.name@) && forall|i: int|
            0 <= i < b.methods@.len() ==> method_ok(#[trigger] b.methods@[i])),
        owed(impl_ok(old(p).tokens@, old(p).pos as int), r, final(p).pos as int),
        impl_ok(old(p).tokens@, old(p).pos as int) is Some ==> (r matches Ok(b) && impl_at(
            old(p).tokens@,
            old(p).pos as int,
            b,
        )),
{
    let ghost ts = p.tokens@;
    let header_at = p.pos;
    let line = p.expect_word("impl")?;
    if p.pos >= p.tokens.len() {
        return Err(p.err_at(header_at, msg("expected struct name after `impl`")));
    }
    let name = match p.take_word() {
        Some(w) => w,
        None => {
            return Err(p.err_here(msg("expected struct name after `impl`")));
        },
    };
    p.expect_kind(K::Colon, "`:`")?;
    p.expect_newline()?;
    let ghost q = p.pos as int;
    let ghost ok = impl_ok(ts, old(p).pos as int);
    let ghost mut mstarts: Seq<int> = seq![];
    assert(ok is Some ==> q == impl_body(ts, old(p).pos as int));
    assert(seq![] + method_starts(ts, q) =~= method_starts(ts, q));
    let mut methods: Vec<Function> = Vec::new();
    loop
        invariant
            ts == old(p).tokens@,
            ok == impl_ok(ts, old(p).pos as int),
            ok is Some ==> q == impl_body(ts, old(p).pos as int),
            ok is Some ==> methods_end(ts, p.pos as int) == ok,
            ok is Some ==> method_starts(ts, q) == mstarts + method_starts(ts, p.pos as int),
            mstarts.len() == methods@.len(),
            forall|t: int| 0 <= t < methods@.len() ==> function_at(ts, mstarts[t], #[trigger] methods@[t]),
            p.tokens@ == old(p).tokens@,
            old(p).pos < p.pos <= p.tokens@.len(),
            header_at == old(p).pos,
            word_at(old(p).tokens@, old(p).pos as int, "impl"@),
            line == old(p).tokens@[old(p).pos as int].line,
            word_at(old(p).tokens@, old(p).pos + 1, name@),
            forall|i: int| 0 <= i < methods@.len() ==> method_ok(#[trigger] methods@[i]),
        decreases p.tokens@.len() - p.pos,
    {
        let ghost before = p.pos as int;
        p.skip_newlines();
        proof {
            if ok is Some {
                lemma_skip_blank_stops(ts, before);
                assert(skip_blank(ts, p.pos as int) == p.pos as int);
                assert(methods_end(ts, before) == methods_end(ts, p.pos as int));
                assert(method_starts(ts, before) == method_starts(ts, p.pos as int));
            }
        }
        if p.pos >= p.tokens.len() {
            return Err(p.err_at(header_at, msg("expected `end` to close impl block")));
        }
        if p.is_word(0, "end") {
            let ghost methods_g = methods@;
            p.advance();
            let _ = p.expect_newline();
            let b = ImplBlock { name, methods, line };
            proof {
                if ok is Some {
                    assert(mstarts + seq![] =~= mstarts);
                    assert(b.methods@ == methods_g);
                }
            }
            return Ok(b);
        }
        if !p.is_word(0, "rach") {
            return Err(p.err_here(msg("expected `rach` or `end` in impl block")));
        }
        let at = p.pos;
        let f = parse_function(p)?;
        if f.params.len() == 0 || !string_is(&f.params[0], "self") {
            let mut m = String::from_str("method `");
            m.append(f.name.as_str());
            m.append("` must take `self` as its first parameter");
            return Err(p.err_at(at, m));
        }
        let ghost fg = f;
        let ghost ms0 = mstarts;
        methods.push(f);
        proof {
            mstarts = mstarts.push(at as int);
            if ok is Some {
                assert(method_starts(ts, at as int) == seq![at as int] + method_starts(ts, p.pos as int));
                assert(ms0 + (seq![at as int] + method_starts(ts, p.pos as int)) =~= mstarts + method_starts(
                    ts,
                    p.pos as int,
                ));
            }
        }
    }
}

/// The statements read at the top level from `j` on, in source order: each
/// is read at a non-blank token at or after the end of the one before it
/// (definitions may stand between them), with the nested blocks of compound
/// statements read at every depth.
pub open spec fn top_stmts(ts: Seq<Token>, j: int, end: int, stmts: Seq<Stmt>) -> bool
    decreases stmts.len(),
{
    if stmts.len() == 0 {
        j <= end
    } else {
        exists|k: int, m: int|
            #![trigger stmt_read(ts, k, m, stmts[0])]
            j <= k && 0 <= k < ts.len() && !blank(ts[k].tok) && stmt_read(ts, k, m, stmts[0]) && (compound(stmts[0])
                ==> stmt_deep(ts, k, stmts[0])) && top_stmts(
                ts,
                m,
                end,
                stmts.drop_first(),
            )
    }
}

/// Top-level statements read from a later position are read from an
/// earlier one too.
proof fn lemma_top_stmts_earlier(ts: Seq<Token>, j1: int, j2: int, end: int, stmts: Seq<Stmt>)
    requires
        j1 <= j2,
        top_stmts(ts, j2, end, stmts),
    ensures
        top_stmts(ts, j1, end, stmts),
{
    if stmts.len() > 0 {
        let (k, m) = choose|k: int, m: int|
            #![trigger stmt_read(ts, k, m, stmts[0])]
            j2 <= k && 0 <= k < ts.len() && !blank(ts[k].tok) && stmt_read(ts, k, m, stmts[0]) && (compound(stmts[0])
                ==> stmt_deep(ts, k, stmts[0])) && top_stmts(
                ts,
                m,
                end,
                stmts.drop_first(),
            );
        assert(stmt_read(ts, k, m, stmts[0]));
    }
}

/// How a program of the grammar comes out: an implicit `main` first when
/// there are top-level statements or no definitions at all, holding
/// as many statements as stand at the top level; then the functions, each
/// read at its `rach`, in source order; and the structs and impl blocks,
/// each read where it starts, in source order.
pub open spec fn program_layout(ts: Seq<Token>, prog: Program) -> bool {
    let e = items_start(ts);
    let ds = def_starts(ts, e);
    let ss = stmt_starts(ts, e);
    let n: int = if ss.len() > 0 || (ds.len() == 0 && struct_starts(ts, e).len() == 0 && impl_starts(ts, e).len()
        == 0) {
        1
    } else {
        0
    };
    &&& prog.functions@.len() == n + ds.len()
    &&& forall|t: int| 0 <= t < ds.len() ==> function_at(ts, ds[t], #[trigger] prog.functions@[n + t])
    &&& n == 1 ==> (prog.functions@[0].name@ == "main"@ && prog.functions@[0].params@.len() == 0
        && prog.functions@[0].body@.len() == ss.len())
    &&& prog.structs@.len() == struct_starts(ts, e).len()
    &&& forall|t: int|
        0 <= t < struct_starts(ts, e).len() ==> struct_at(ts, struct_starts(ts, e)[t], #[trigger] prog.structs@[t])
    &&& prog.impls@.len() == impl_starts(ts, e).len()
    &&& forall|t: int| 0 <= t < impl_starts(ts, e).len() ==> impl_at(ts, impl_starts(ts, e)[t], #[trigger] prog.impls@[t])
}

/// The impl block `b` read at `i`: the line of `impl`, the name after it,
/// and its methods, each read at its `rach`, in order.
pub open spec fn impl_at(ts: Seq<Token>, i: int, b: ImplBlock) -> bool {
    let ms = method_starts(ts, impl_body(ts, i));
    &&& word_at(ts, i, "impl"@)
    &&& b.line == ts[i].line
    &&& word_at(ts, i + 1, b.name@)
    &&& b.methods@.len() == ms.len()
    &&& forall|t: int| 0 <= t < ms.len() ==> function_at(ts, ms[t], #[trigger] b.methods@[t])
}

/// The struct `sd` read at `i`: the line of `struct`, the name after it,
/// and the fields listed between the braces.
pub open spec fn struct_at(ts: Seq<Token>, i: int, sd: StructDef) -> bool {
    &&& word_at(ts, i, "struct"@)
    &&& sd.line == ts[i].line
    &&& word_at(ts, i + 1, sd.name@)
    &&& i + 2 < ts.len() && ts[i + 2].tok is LBrace
    &&& struct_fields(ts, i + 3) matches Some((fs, _)) && strings_view(sd.fields@) == fs
}

/// Parses a whole program: leading `import` lines, then function, struct
/// and `impl` definitions mixed with top-level statements. The statements are
/// collected in order into an implicit `main`, which comes first among the
/// functions and exists whenever there are statements or no definitions at
/// all; each of its statements is read, in source order, at its first token
/// and has that token's line. Every program of the grammar (`program_ok`)
/// parses, laid out as `program_layout` says; where the first failing item
/// lacks an operand (such as `x = (1 + ` at the end of a line), the error
/// points at the token that stands in its place; a program whose first
/// function opens with an assignment nested deeper than `MAX_PARSE_DEPTH` is
/// refused with the depth message. Every error points at a token of the
/// input, or at (0, 0) for end of input.
#[verifier::spinoff_prover]
#[verifier::rlimit(40)]
pub fn parse(tokens: Vec<Token>) -> (r: Result<Program, ParseError>)
    ensures
        r matches Err(e) ==> points_at(tokens@, e.line, e.col),
        import_run(tokens@, 0) is None ==> r is Err,
        r matches Ok(prog) ==> (import_run(tokens@, 0) matches Some((names, e)) && strings_view(prog.imports@)
            == names && (!(word_at(tokens@, e, "rach"@) || word_at(tokens@, e, "struct"@) || impl_header(
            tokens@,
            e,
        )) ==> implicit_main(prog))),
        r matches Ok(prog) ==> forall|i: int|
            0 <= i < prog.functions@.len() ==> one_default_per_param(#[trigger] prog.functions@[i]),
        r matches Ok(prog) ==> match import_run(tokens@, 0) {
            Some((names, e)) => !(word_at(tokens@, e, "rach"@) || word_at(tokens@, e, "struct"@) || impl_header(
                tokens@,
                e,
            )) ==> (top_stmts(tokens@, e, tokens@.len() as int, prog.functions@[0].body@) && (
            prog.functions@[0].body@.len() > 0 ==> prog.functions@[0].line == stmt_line(
                prog.functions@[0].body@[0],
            ))),
            None => true,
        },
        program_ok(tokens@) ==> (r matches Ok(prog) && program_layout(tokens@, prog)),
        match import_run(tokens@, 0) {
            Some((_, e)) => erred(items_err(tokens@, e), tokens@, r),
            None => true,
        },
        match import_run(tokens@, 0) {
            Some((_, e)) => deep_function_at(tokens@, e) ==> (r matches Err(er) && er.message@ == deep_message()),
            None => true,
        },
        r matches Ok(prog) ==> forall|i: int, k: int|
            0 <= i < prog.impls@.len() && 0 <= k < prog.impls@[i].methods@.len() ==> method_ok(
                #[trigger] prog.impls@[i].methods@[k],
            ),
{
    let mut p = P::new(tokens);
    let mut imports: Vec<String> = Vec::new();
    let mut structs: Vec<StructDef> = Vec::new();
    let ghost ts = tokens@;
    p.skip_newlines();
    proof {
        lemma_import_run_skip(ts, 0);
        lemma_skip_blank_stops(ts, 0);
        match import_run(ts, p.pos as int) {
            Some((ns, e)) => {
                assert(strings_view(imports@) + ns =~= ns);
            },
            None => {},
        }
    }
    while p.is_word(0, "import")
        invariant
            p.tokens@ == tokens@,
            ts == tokens@,
            p.pos <= p.tokens@.len(),
            !(p.pos < ts.len() && blank(ts[p.pos as int].tok)),
            import_run(ts, 0) == match import_run(ts, p.pos as int) {
                Some((ns, e)) => Some((strings_view(imports@) + ns, e)),
                None => None,
            },
        decreases p.tokens@.len() - p.pos,
    {
        proof {
            reveal_strlit("rach");
            reveal_strlit("import");
            assert("rach"@.len() != "import"@.len());
        }
        let import_at = p.pos;
        let ghost before = imports@;
        p.advance();
        if p.pos >= p.tokens.len() {
            return Err(p.err_at(import_at, msg("expected module name")));
        }
        match p.take_word() {
            Some(name) => imports.push(name),
            None => {
                return Err(p.err_here(msg("expected module name")));
            },
        }
        p.expect_newline()?;
        let ghost next = p.pos as int;
        p.skip_newlines();
        proof {
            lemma_import_run_skip(ts, next);
            lemma_skip_blank_stops(ts, next);
            let j = import_at as int;
            let name = imports@[imports@.len() - 1]@;
            assert(strings_view(imports@) =~= strings_view(before) + seq![name]);
            match import_run(ts, next) {
                Some((ns, e)) => {
                    assert(strings_view(imports@) + ns =~= strings_view(before) + (seq![name] + ns));
                },
                None => {},
            }
        }
    }
    proof {
        assert(strings_view(imports@) + Seq::<Seq<char>>::empty() =~= strings_view(imports@));
    }
    let ghost e = p.pos as int;
    let starts_with_def = p.is_word(0, "rach") || p.is_word(0, "struct") || (p.is_word(0, "impl")
        && p.kind_is(1, K::Word) && p.kind_is(2, K::Colon));
    let mut defs: Vec<Function> = Vec::new();
    let mut impls: Vec<ImplBlock> = Vec::new();
    let mut main_body: Vec<Stmt> = Vec::new();
    let mut main_line: usize = 1;
    let ghost mut dstarts: Seq<int> = seq![];
    let ghost mut sstarts: Seq<int> = seq![];
    let ghost mut tstarts: Seq<int> = seq![];
    let ghost mut istarts: Seq<int> = seq![];
    proof {
        assert(seq![] + impl_starts(ts, e) =~= impl_starts(ts, e));
        assert(seq![] + struct_starts(ts, e) =~= struct_starts(ts, e));
        assert(seq![] + def_starts(ts, e) =~= def_starts(ts, e));
        assert(seq![] + stmt_starts(ts, e) =~= stmt_starts(ts, e));
    }
    loop
        invariant
            p.tokens@ == tokens@,
            ts == tokens@,
            p.pos <= p.tokens@.len(),
            e <= p.pos,
            !(e < ts.len() && blank(ts[e].tok)),
            starts_with_def == (word_at(ts, e, "rach"@) || word_at(ts, e, "struct"@) || impl_header(ts, e)),
            forall|i: int| 0 <= i < defs@.len() ==> one_default_per_param(#[trigger] defs@[i]),
            forall|i: int, k: int|
                0 <= i < impls@.len() && 0 <= k < impls@[i].methods@.len() ==> method_ok(
                    #[trigger] impls@[i].methods@[k],
                ),
            !starts_with_def ==> (main_body@.len() > 0 || (p.pos == e && defs@.len() == 0 && structs@.len()
                == 0 && impls@.len() == 0)),
            forall|end: int, rest: Seq<Stmt>|
                #[trigger] top_stmts(ts, p.pos as int, end, rest) ==> top_stmts(ts, e, end, main_body@ + rest),
            main_body@.len() > 0 ==> main_line == stmt_line(main_body@[0]),
            deep_function_at(ts, e) ==> p.pos == e,
            program_ok(ts) ==> items_ok(ts, p.pos as int),
            items_err(ts, e) is Some ==> items_err(ts, p.pos as int) == items_err(ts, e),
            program_ok(ts) ==> def_starts(ts, e) == dstarts + def_starts(ts, p.pos as int),
            program_ok(ts) ==> stmt_starts(ts, e) == sstarts + stmt_starts(ts, p.pos as int),
            program_ok(ts) ==> impl_starts(ts, e) == istarts + impl_starts(ts, p.pos as int),
            istarts.len() == impls@.len(),
            program_ok(ts) ==> forall|t: int| 0 <= t < impls@.len() ==> impl_at(ts, istarts[t], #[trigger] impls@[t]),
            program_ok(ts) ==> struct_starts(ts, e) == tstarts + struct_starts(ts, p.pos as int),
            tstarts.len() == structs@.len(),
            forall|t: int| 0 <= t < structs@.len() ==> struct_at(ts, tstarts[t], #[trigger] structs@[t]),
            dstarts.len() == defs@.len(),
            sstarts.len() == main_body@.len(),
            forall|t: int| 0 <= t < defs@.len() ==> function_at(ts, dstarts[t], #[trigger] defs@[t]),
            match import_run(ts, 0) {
                Some((_, e2)) => e2 == e,
                None => false,
            },
        ensures
            p.tokens@ == tokens@,
            ts == tokens@,
            p.pos <= p.tokens@.len(),
            e <= p.pos,
            !(e < ts.len() && blank(ts[e].tok)),
            starts_with_def == (word_at(ts, e, "rach"@) || word_at(ts, e, "struct"@) || impl_header(ts, e)),
            forall|i: int| 0 <= i < defs@.len() ==> one_default_per_param(#[trigger] defs@[i]),
            forall|i: int, k: int|
                0 <= i < impls@.len() && 0 <= k < impls@[i].methods@.len() ==> method_ok(
                    #[trigger] impls@[i].methods@[k],
                ),
            !starts_with_def ==> (main_body@.len() > 0 || (p.pos == e && defs@.len() == 0 && structs@.len()
                == 0 && impls@.len() == 0)),
            forall|end: int, rest: Seq<Stmt>|
                #[trigger] top_stmts(ts, p.pos as int, end, rest) ==> top_stmts(ts, e, end, main_body@ + rest),
            main_body@.len() > 0 ==> main_line == stmt_line(main_body@[0]),
            deep_function_at(ts, e) ==> p.pos == e,
            program_ok(ts) ==> items_ok(ts, p.pos as int),
            items_err(ts, e) is Some ==> items_err(ts, p.pos as int) == items_err(ts, e),
            program_ok(ts) ==> def_starts(ts, e) == dstarts + def_starts(ts, p.pos as int),
            program_ok(ts) ==> stmt_starts(ts, e) == sstarts + stmt_starts(ts, p.pos as int),
            program_ok(ts) ==> impl_starts(ts, e) == istarts + impl_starts(ts, p.pos as int),
            istarts.len() == impls@.len(),
            program_ok(ts) ==> forall|t: int| 0 <= t < impls@.len() ==> impl_at(ts, istarts[t], #[trigger] impls@[t]),
            program_ok(ts) ==> struct_starts(ts, e) == tstarts + struct_starts(ts, p.pos as int),
            tstarts.len() == structs@.len(),
            forall|t: int| 0 <= t < structs@.len() ==> struct_at(ts, tstarts[t], #[trigger] structs@[t]),
            dstarts.len() == defs@.len(),
            sstarts.len() == main_body@.len(),
            forall|t: int| 0 <= t < defs@.len() ==> function_at(ts, dstarts[t], #[trigger] defs@[t]),
            match import_run(ts, 0) {
                Some((_, e2)) => e2 == e,
                None => false,
            },
            p.pos >= p.tokens@.len(),
        decreases p.tokens@.len() - p.pos,
    {
        let ghost before = p.pos as int;
        p.skip_newlines();
        proof {
            assert forall|end: int, rest: Seq<Stmt>|
                #[trigger] top_stmts(ts, p.pos as int, end, rest) implies top_stmts(ts, e, end, main_body@ + rest) by {
                lemma_top_stmts_earlier(ts, before, p.pos as int, end, rest);
            }
            if deep_function_at(ts, e) {
                assert(skip_blank(ts, e) == e);
                reveal_strlit("rach");
                reveal_strlit("struct");
                assert("rach"@.len() != "struct"@.len());
            }
        }
        proof {
            if items_err(ts, e) is Some {
                lemma_skip_blank_stops(ts, before);
                assert(skip_blank(ts, p.pos as int) == p.pos as int);
                assert(items_err(ts, before) == items_err(ts, p.pos as int));
            }
            if program_ok(ts) {
                lemma_skip_blank_stops(ts, before);
                assert(skip_blank(ts, p.pos as int) == p.pos as int);
                assert(def_starts(ts, before) == def_starts(ts, p.pos as int));
                assert(stmt_starts(ts, before) == stmt_starts(ts, p.pos as int));
                assert(struct_starts(ts, before) == struct_starts(ts, p.pos as int));
                assert(impl_starts(ts, before) == impl_starts(ts, p.pos as int));
            }
        }
        if p.pos >= p.tokens.len() {
            break;
        }
        let ghost here = p.pos as int;
        let ghost mb = main_body@;
        let ghost (ds0, ss0, ts0, is0) = (dstarts, sstarts, tstarts, istarts);
        if p.is_word(0, "rach") {
            let f = parse_function(&mut p)?;
            defs.push(f);
            proof {
                dstarts = dstarts.push(here);
                if program_ok(ts) {
                    assert(def_starts(ts, here) == seq![here] + def_starts(ts, p.pos as int));
                    assert(stmt_starts(ts, here) == stmt_starts(ts, p.pos as int));
                    assert(struct_starts(ts, here) == struct_starts(ts, p.pos as int));
                    assert(impl_starts(ts, here) == impl_starts(ts, p.pos as int));
                    assert(ds0 + (seq![here] + def_starts(ts, p.pos as int)) =~= dstarts + def_starts(ts, p.pos as int));
                }
            }
        } else if p.is_word(0, "struct") {
            let s = parse_struct(&mut p)?;
            structs.push(s);
            proof {
                tstarts = tstarts.push(here);
                if program_ok(ts) {
                    assert(def_starts(ts, here) == def_starts(ts, p.pos as int));
                    assert(stmt_starts(ts, here) == stmt_starts(ts, p.pos as int));
                    assert(struct_starts(ts, here) == seq![here] + struct_starts(ts, p.pos as int));
                    assert(impl_starts(ts, here) == impl_starts(ts, p.pos as int));
                    assert(ts0 + (seq![here] + struct_starts(ts, p.pos as int)) =~= tstarts + struct_starts(
                        ts,
                        p.pos as int,
                    ));
                }
            }
        } else if p.is_word(0, "impl") && p.kind_is(1, K::Word) && p.kind_is(2, K::Colon) {
            let b = parse_impl(&mut p)?;
            impls.push(b);
            proof {
                istarts = istarts.push(here);
                if program_ok(ts) {
                    assert(def_starts(ts, here) == def_starts(ts, p.pos as int));
                    assert(stmt_starts(ts, here) == stmt_starts(ts, p.pos as int));
                    assert(struct_starts(ts, here) == struct_starts(ts, p.pos as int));
                    assert(impl_starts(ts, here) == seq![here] + impl_starts(ts, p.pos as int));
                    assert(is0 + (seq![here] + impl_starts(ts, p.pos as int)) =~= istarts + impl_starts(
                        ts,
                        p.pos as int,
                    ));
                }
            }
        } else {
            if main_body.len() == 0 {
                main_line = p.line_here();
            }
            let stmt = parse_stmt(&mut p, 0)?;
            let ghost sg = stmt;
            main_body.push(stmt);
            proof {
                sstarts = sstarts.push(here);
                if program_ok(ts) {
                    assert(def_starts(ts, here) == def_starts(ts, p.pos as int));
                    assert(stmt_starts(ts, here) == seq![here] + stmt_starts(ts, p.pos as int));
                    assert(struct_starts(ts, here) == struct_starts(ts, p.pos as int));
                    assert(impl_starts(ts, here) == impl_starts(ts, p.pos as int));
                    assert(ss0 + (seq![here] + stmt_starts(ts, p.pos as int)) =~= sstarts + stmt_starts(ts, p.pos as int));
                }
            }
            proof {
                let m = p.pos as int;
                reveal(stmt_read);
                assert(stmt_read(ts, here, m, sg));
                assert forall|end: int, rest: Seq<Stmt>|
                    #[trigger] top_stmts(ts, m, end, rest) implies top_stmts(ts, e, end, main_body@ + rest) by {
                    let all = seq![sg] + rest;
                    assert(all.drop_first() =~= rest);
                    assert(stmt_read(ts, here, m, all[0]));
                    assert(top_stmts(ts, here, end, all));
                    assert(mb + all =~= main_body@ + rest);
                }
            }
        }
        proof {
            assert forall|end: int, rest: Seq<Stmt>|
                #[trigger] top_stmts(ts, p.pos as int, end, rest) implies top_stmts(ts, e, end, main_body@ + rest) by {
                if main_body@.len() == mb.len() {
                    lemma_top_stmts_earlier(ts, here, p.pos as int, end, rest);
                }
            }
        }
    }
    proof {
        let done = p.pos as int;
        if program_ok(ts) {
            assert(def_starts(ts, done) =~= seq![]);
            assert(stmt_starts(ts, done) =~= seq![]);
            assert(struct_starts(ts, done) =~= seq![]);
            assert(tstarts + seq![] =~= tstarts);
            assert(impl_starts(ts, done) =~= seq![]);
            assert(istarts + seq![] =~= istarts);
            assert(dstarts + seq![] =~= dstarts);
            assert(sstarts + seq![] =~= sstarts);
        }
        assert(top_stmts(ts, done, ts.len() as int, seq![]));
        assert(main_body@ + seq![] =~= main_body@);
    }
    let mut functions: Vec<Function> = Vec::new();
    let needs_main = main_body.len() > 0 || (defs.len() == 0 && structs.len() == 0 && impls.len() == 0);
    if needs_main {
        functions.push(
            Function {
                name: String::from_str("main"),
                params: Vec::new(),
                defaults: Vec::new(),
                body: main_body,
                line: main_line,
            },
        );
    }
    let ghost defs_before_append = defs@;
    functions.append(&mut defs);
    let ghost structs_g = structs@;
    let ghost impls_g = impls@;
    let prog = Program { imports, functions, structs, impls };
    proof {
        assert forall|i: int, k: int|
            0 <= i < prog.impls@.len() && 0 <= k < prog.impls@[i].methods@.len() implies method_ok(
            #[trigger] prog.impls@[i].methods@[k],
        ) by {
            assert(prog.impls@[i] == impls_g[i]);
        }
        if program_ok(ts) {
            let n: int = if needs_main {
                1
            } else {
                0
            };
            assert(items_start(ts) == e);
            assert(prog.structs@ == structs_g);
            assert forall|t: int| 0 <= t < dstarts.len() implies function_at(
                ts,
                dstarts[t],
                #[trigger] prog.functions@[n + t],
            ) by {
                assert(prog.functions@[n + t] == defs_before_append[t]);
            }
        }
    }
    assert(!starts_with_def ==> implicit_main(prog));
    Ok(prog)
}

} // verus!
