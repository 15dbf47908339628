//! The token grammar that the parser accepts, as recognizers over the token
//! stream. Each recognizer says where a well-formed phrase that starts at a
//! position ends, or `None` when the tokens there are not one; the parse
//! functions owe success, ending at that position, wherever a recognizer
//! gives one. `d` is the nesting level the phrase is read at: brackets,
//! prefix operators and nested blocks each go one level deeper, up to
//! `MAX_PARSE_DEPTH`.
use vstd::prelude::*;

use crate::commands::is_known_command_spec;
use crate::lexer::{Tok, Token};
use crate::parser::{
    after_not, all_literal, blank, block_stop, compound_of_kind, dsl_pieces, dsl_result, dsl_word_at, import_run,
    impl_header, keyword_arg_at, keyword_literal, kind_spec, op_of_level, os_test_at, skip_blank, stmt_keyword,
    struct_fields,
    word_at, K, MAX_PARSE_DEPTH,
};

verus! {

/// A parse step whose phrase is well formed (`ok` gives its end) succeeds
/// and stops at that end.
pub open spec fn owed<T, E>(ok: Option<int>, r: Result<T, E>, end: int) -> bool {
    ok matches Some(j) ==> (r is Ok && end == j)
}

/// The kind of the token at `i`, if there is one.
pub open spec fn kind_at(ts: Seq<Token>, i: int) -> Option<K> {
    if 0 <= i < ts.len() {
        Some(kind_spec(ts[i].tok))
    } else {
        None
    }
}

/// Positions and levels a recognizer may be asked about.
pub open spec fn in_range(ts: Seq<Token>, i: int, d: int) -> bool {
    0 <= d <= MAX_PARSE_DEPTH && 0 <= i <= ts.len()
}



















/// The phrases of the grammar: expression levels, the loops that read lists
/// of arguments and items, atoms and command segments.
pub enum Nt {
    Expr,
    Or,
    OrRest,
    And,
    AndRest,
    Not,
    Comparison,
    Level(int),
    Operand(int),
    LevelRest(int),
    Power,
    Unary,
    Primary,
    Postfix,
    Args,
    ArgsLoop,
    ListLoop,
    MapLoop,
    Atom,
    Segs,
    SegsLoop,
    Arglist,
    ArgLoop,
}

/// The order in which phrases that start at one position may refer to one
/// another.
pub open spec fn rank(nt: Nt) -> int {
    match nt {
        Nt::Expr => 40,
        Nt::Or => 39,
        Nt::OrRest => 39,
        Nt::And => 38,
        Nt::AndRest => 38,
        Nt::Not => 37,
        Nt::Comparison => 36,
        Nt::Level(lvl) => 30 - 2 * lvl,
        Nt::Operand(lvl) => 29 - 2 * lvl,
        Nt::LevelRest(lvl) => 30 - 2 * lvl,
        Nt::Power => 12,
        Nt::Unary => 11,
        Nt::Primary => 10,
        Nt::Postfix => 9,
        Nt::Args => 8,
        Nt::ArgsLoop => 41,
        Nt::ListLoop => 41,
        Nt::MapLoop => 41,
        Nt::Atom => 7,
        Nt::Segs => 6,
        Nt::SegsLoop => 5,
        Nt::Arglist => 4,
        Nt::ArgLoop => 41,
    }
}

/// Where the phrase `nt` that starts at `i`, read at nesting level `d`, ends.
#[verifier::opaque]
pub open spec fn phrase(ts: Seq<Token>, i: int, d: int, nt: Nt) -> Option<int>
    decreases MAX_PARSE_DEPTH - d, ts.len() - i, rank(nt),
{
    match nt {
        Nt::Expr => {
            if !in_range(ts, i, d) {
                None
            } else {
                match phrase(ts, i, d, Nt::Or) {
                    Some(j) => if i < j <= ts.len() && kind_at(ts, j) != Some(K::Question) {
                        Some(j)
                    } else {
                        None
                    },
                    None => None,
                }
            }
        },
        Nt::Or => {
            if !in_range(ts, i, d) {
                None
            } else {
                match phrase(ts, i, d, Nt::And) {
                    Some(j) => if i < j && j <= ts.len() {
                        phrase(ts, j, d, Nt::OrRest)
                    } else {
                        None
                    },
                    None => None,
                }
            }
        },
        Nt::OrRest => {
            let j = i;
            if !in_range(ts, j, d) {
                None
            } else if word_at(ts, j, "or"@) {
                match phrase(ts, j + 1, d, Nt::And) {
                    Some(k) => if j + 1 < k && k <= ts.len() {
                        phrase(ts, k, d, Nt::OrRest)
                    } else {
                        None
                    },
                    None => None,
                }
            } else {
                Some(j)
            }
        },
        Nt::And => {
            if !in_range(ts, i, d) {
                None
            } else {
                match phrase(ts, i, d, Nt::Not) {
                    Some(j) => if i < j && j <= ts.len() {
                        phrase(ts, j, d, Nt::AndRest)
                    } else {
                        None
                    },
                    None => None,
                }
            }
        },
        Nt::AndRest => {
            let j = i;
            if !in_range(ts, j, d) {
                None
            } else if word_at(ts, j, "and"@) {
                match phrase(ts, j + 1, d, Nt::Not) {
                    Some(k) => if j + 1 < k && k <= ts.len() {
                        phrase(ts, k, d, Nt::AndRest)
                    } else {
                        None
                    },
                    None => None,
                }
            } else {
                Some(j)
            }
        },
        Nt::Not => {
            if !in_range(ts, i, d) {
                None
            } else if word_at(ts, i, "not"@) {
                if d < MAX_PARSE_DEPTH {
                    phrase(ts, i + 1, d + 1, Nt::Not)
                } else {
                    None
                }
            } else {
                phrase(ts, i, d, Nt::Comparison)
            }
        },
        Nt::Comparison => {
            if !in_range(ts, i, d) {
                None
            } else {
                match phrase(ts, i, d, Nt::Level(3)) {
                    Some(m) => if i < m < ts.len() && op_of_level(kind_at(ts, m), 2) is Some {
                        phrase(ts, m + 1, d, Nt::Level(3))
                    } else if i < m && m <= ts.len() {
                        Some(m)
                    } else {
                        None
                    },
                    None => None,
                }
            }
        },
        Nt::Level(lvl) => {
            if !in_range(ts, i, d) || !(3 <= lvl <= 8) {
                None
            } else {
                match phrase(ts, i, d, Nt::Operand(lvl)) {
                    Some(j) => if i < j && j <= ts.len() {
                        phrase(ts, j, d, Nt::LevelRest(lvl))
                    } else {
                        None
                    },
                    None => None,
                }
            }
        },
        Nt::Operand(lvl) => {
            if !in_range(ts, i, d) || !(3 <= lvl <= 8) {
                None
            } else if lvl == 8 {
                phrase(ts, i, d, Nt::Power)
            } else {
                phrase(ts, i, d, Nt::Level(lvl + 1))
            }
        },
        Nt::LevelRest(lvl) => {
            let j = i;
            if !in_range(ts, j, d) || !(3 <= lvl <= 8) {
                None
            } else if j < ts.len() && op_of_level(kind_at(ts, j), lvl) is Some {
                match phrase(ts, j + 1, d, Nt::Operand(lvl)) {
                    Some(k) => if j + 1 < k && k <= ts.len() {
                        phrase(ts, k, d, Nt::LevelRest(lvl))
                    } else {
                        None
                    },
                    None => None,
                }
            } else {
                Some(j)
            }
        },
        Nt::Power => {
            if !in_range(ts, i, d) {
                None
            } else {
                match phrase(ts, i, d, Nt::Unary) {
                    Some(m) => if i < m < ts.len() && kind_at(ts, m) == Some(K::Caret) {
                        if d < MAX_PARSE_DEPTH {
                            phrase(ts, m + 1, d + 1, Nt::Power)
                        } else {
                            None
                        }
                    } else if i < m && m <= ts.len() {
                        Some(m)
                    } else {
                        None
                    },
                    None => None,
                }
            }
        },
        Nt::Unary => {
            if !in_range(ts, i, d) {
                None
            } else if kind_at(ts, i) == Some(K::Minus) || kind_at(ts, i) == Some(K::Tilde) || kind_at(ts, i) == Some(
                K::Plus,
            ) {
                if d < MAX_PARSE_DEPTH {
                    phrase(ts, i + 1, d + 1, Nt::Unary)
                } else {
                    None
                }
            } else {
                phrase(ts, i, d, Nt::Primary)
            }
        },
        Nt::Primary => {
            if !in_range(ts, i, d) {
                None
            } else {
                match phrase(ts, i, d, Nt::Atom) {
                    Some(j) => if i < j && j <= ts.len() {
                        phrase(ts, j, d, Nt::Postfix)
                    } else {
                        None
                    },
                    None => None,
                }
            }
        },
        Nt::Postfix => {
            let j = i;
            if !in_range(ts, j, d) {
                None
            } else if kind_at(ts, j) == Some(K::LBracket) {
                if d < MAX_PARSE_DEPTH {
                    match phrase(ts, j + 1, d + 1, Nt::Expr) {
                        Some(k) => if j + 1 < k < ts.len() && kind_at(ts, k) == Some(K::RBracket) {
                            phrase(ts, k + 1, d, Nt::Postfix)
                        } else {
                            None
                        },
                        None => None,
                    }
                } else {
                    None
                }
            } else if kind_at(ts, j) == Some(K::Dot) {
                if kind_at(ts, j + 1) == Some(K::Word) {
                    phrase(ts, j + 2, d, Nt::Postfix)
                } else {
                    None
                }
            } else if kind_at(ts, j) == Some(K::LParen) {
                match phrase(ts, j + 1, d, Nt::Args) {
                    Some(k) => if j + 1 < k && k <= ts.len() {
                        phrase(ts, k, d, Nt::Postfix)
                    } else {
                        None
                    },
                    None => None,
                }
            } else {
                Some(j)
            }
        },
        Nt::Args => {
            if !in_range(ts, i, d) || d >= MAX_PARSE_DEPTH {
                None
            } else {
                phrase(ts, i, d + 1, Nt::ArgsLoop)
            }
        },
        Nt::ArgsLoop => {
            if !in_range(ts, i, d) || i >= ts.len() {
                None
            } else if kind_at(ts, i) == Some(K::RParen) {
                Some(i + 1)
            } else if kind_at(ts, i) == Some(K::Comma) {
                phrase(ts, i + 1, d, Nt::ArgsLoop)
            } else {
                match phrase(ts, i, d, Nt::Expr) {
                    Some(k) => if i < k && k <= ts.len() {
                        phrase(ts, k, d, Nt::ArgsLoop)
                    } else {
                        None
                    },
                    None => None,
                }
            }
        },
        Nt::ListLoop => {
            if !in_range(ts, i, d) || i >= ts.len() {
                None
            } else if kind_at(ts, i) == Some(K::RBracket) {
                Some(i + 1)
            } else if kind_at(ts, i) == Some(K::Comma) {
                phrase(ts, i + 1, d, Nt::ListLoop)
            } else {
                match phrase(ts, i, d, Nt::Expr) {
                    Some(k) => if i < k && k <= ts.len() {
                        phrase(ts, k, d, Nt::ListLoop)
                    } else {
                        None
                    },
                    None => None,
                }
            }
        },
        Nt::MapLoop => {
            if !in_range(ts, i, d) || i >= ts.len() {
                None
            } else if kind_at(ts, i) == Some(K::RBrace) {
                Some(i + 1)
            } else if kind_at(ts, i) == Some(K::Comma) || kind_at(ts, i) == Some(K::Newline) {
                phrase(ts, i + 1, d, Nt::MapLoop)
            } else {
                match phrase(ts, i, d, Nt::Expr) {
                    Some(k) => if i < k < ts.len() && kind_at(ts, k) == Some(K::Colon) {
                        match phrase(ts, k + 1, d, Nt::Expr) {
                            Some(m) => if k + 1 < m && m <= ts.len() {
                                phrase(ts, m, d, Nt::MapLoop)
                            } else {
                                None
                            },
                            None => None,
                        }
                    } else {
                        None
                    },
                    None => None,
                }
            }
        },
        Nt::Atom => {
            if !in_range(ts, i, d) || i >= ts.len() {
                None
            } else {
                match ts[i].tok {
                    Tok::Int(_) | Tok::Float(_) => Some(i + 1),
                    Tok::Str(parts) => if all_literal(parts@) {
                        Some(i + 1)
                    } else {
                        None
                    },
                    Tok::LParen => if d < MAX_PARSE_DEPTH {
                        match phrase(ts, i + 1, d + 1, Nt::Expr) {
                            Some(k) => if i + 1 < k < ts.len() && kind_at(ts, k) == Some(K::RParen) {
                                Some(k + 1)
                            } else {
                                None
                            },
                            None => None,
                        }
                    } else {
                        None
                    },
                    Tok::LBracket => if d < MAX_PARSE_DEPTH {
                        phrase(ts, i + 1, d + 1, Nt::ListLoop)
                    } else {
                        None
                    },
                    Tok::LBrace => if d < MAX_PARSE_DEPTH {
                        phrase(ts, i + 1, d + 1, Nt::MapLoop)
                    } else {
                        None
                    },
                    Tok::Word(w) => if keyword_literal(w@) is Some {
                        Some(i + 1)
                    } else if w@ == "fn"@ || kind_at(ts, i + 1) == Some(K::ColonColon) || struct_brace(ts, i) {
                        None
                    } else if kind_at(ts, i + 1) == Some(K::LParen) {
                        if command_word(w@) {
                            phrase(ts, i, d, Nt::Segs)
                        } else {
                            phrase(ts, i + 2, d, Nt::Args)
                        }
                    } else if kind_at(ts, i + 1) == Some(K::Word) {
                        phrase(ts, i, d, Nt::Segs)
                    } else {
                        Some(i + 1)
                    },
                    _ => None,
                }
            }
        },
        Nt::Segs => {
            if !in_range(ts, i, d) || word_run(ts, i) <= 0 {
                None
            } else {
                phrase(ts, i, d, Nt::SegsLoop)
            }
        },
        Nt::SegsLoop => {
            let n = word_run(ts, i);
            if !in_range(ts, i, d) || n < 0 {
                None
            } else if n == 0 {
                Some(i)
            } else if kind_at(ts, i + n) == Some(K::LParen) {
                match phrase(ts, i + n, d, Nt::Arglist) {
                    Some(k) => if i + n < k && k <= ts.len() {
                        phrase(ts, k, d, Nt::SegsLoop)
                    } else {
                        None
                    },
                    None => None,
                }
            } else {
                None
            }
        },
        Nt::Arglist => {
            if !in_range(ts, i, d) || kind_at(ts, i) != Some(K::LParen) || d >= MAX_PARSE_DEPTH {
                None
            } else {
                phrase(ts, i + 1, d + 1, Nt::ArgLoop)
            }
        },
        Nt::ArgLoop => {
            if !in_range(ts, i, d) || i >= ts.len() {
                None
            } else if kind_at(ts, i) == Some(K::RParen) {
                Some(i + 1)
            } else if kind_at(ts, i) == Some(K::Comma) {
                phrase(ts, i + 1, d, Nt::ArgLoop)
            } else if kind_at(ts, i) == Some(K::Word) && kind_at(ts, i + 1) == Some(K::Equals) {
                match phrase(ts, i + 2, d, Nt::Expr) {
                    Some(k) => if i + 2 < k && k <= ts.len() {
                        phrase(ts, k, d, Nt::ArgLoop)
                    } else {
                        None
                    },
                    None => None,
                }
            } else {
                match phrase(ts, i, d, Nt::Expr) {
                    Some(k) => if i < k && k <= ts.len() {
                        phrase(ts, k, d, Nt::ArgLoop)
                    } else {
                        None
                    },
                    None => None,
                }
            }
        },
    }
}

/// An expression: `or` operands, and no `? :` after them.
pub open spec fn expr_ok(ts: Seq<Token>, i: int, d: int) -> Option<int> {
    phrase(ts, i, d, Nt::Expr)
}

/// `a or b or ...`.
pub open spec fn or_ok(ts: Seq<Token>, i: int, d: int) -> Option<int> {
    phrase(ts, i, d, Nt::Or)
}

pub open spec fn or_rest(ts: Seq<Token>, i: int, d: int) -> Option<int> {
    phrase(ts, i, d, Nt::OrRest)
}

/// `a and b and ...`.
pub open spec fn and_ok(ts: Seq<Token>, i: int, d: int) -> Option<int> {
    phrase(ts, i, d, Nt::And)
}

pub open spec fn and_rest(ts: Seq<Token>, i: int, d: int) -> Option<int> {
    phrase(ts, i, d, Nt::AndRest)
}

/// `not a`, one level deeper, or a comparison.
pub open spec fn not_ok(ts: Seq<Token>, i: int, d: int) -> Option<int> {
    phrase(ts, i, d, Nt::Not)
}

/// `a`, or `a op b` with one comparison operator.
pub open spec fn comparison_ok(ts: Seq<Token>, i: int, d: int) -> Option<int> {
    phrase(ts, i, d, Nt::Comparison)
}

/// The left-associative operators of level `lvl` (3 `|`, 4 `^^`, 5 `&`,
/// 6 shifts, 7 `+ -`, 8 `* / %`) between operands of the next level.
pub open spec fn level_ok(ts: Seq<Token>, i: int, d: int, lvl: int) -> Option<int> {
    phrase(ts, i, d, Nt::Level(lvl))
}

/// An operand of level `lvl`: one of the next level, or a power at level 8.
pub open spec fn operand_ok(ts: Seq<Token>, i: int, d: int, lvl: int) -> Option<int> {
    phrase(ts, i, d, Nt::Operand(lvl))
}

pub open spec fn level_rest(ts: Seq<Token>, i: int, d: int, lvl: int) -> Option<int> {
    phrase(ts, i, d, Nt::LevelRest(lvl))
}

/// `a ^ b`, right-associative, the right side one level deeper.
pub open spec fn power_ok(ts: Seq<Token>, i: int, d: int) -> Option<int> {
    phrase(ts, i, d, Nt::Power)
}

/// Prefix `-`, `~` or `+`, one level deeper, or a primary.
pub open spec fn unary_ok(ts: Seq<Token>, i: int, d: int) -> Option<int> {
    phrase(ts, i, d, Nt::Unary)
}

/// An atom followed by its postfix accesses.
pub open spec fn primary_ok(ts: Seq<Token>, i: int, d: int) -> Option<int> {
    phrase(ts, i, d, Nt::Primary)
}

/// Postfix accesses: `[key]` (the key one level deeper), `.name`, `(args)`.
pub open spec fn postfix_ok(ts: Seq<Token>, i: int, d: int) -> Option<int> {
    phrase(ts, i, d, Nt::Postfix)
}

/// Arguments after `(`, one level deeper, up to and including the `)`.
pub open spec fn args_ok(ts: Seq<Token>, i: int, d: int) -> Option<int> {
    phrase(ts, i, d, Nt::Args)
}

/// Expressions and commas up to and including a `)`.
pub open spec fn args_loop(ts: Seq<Token>, i: int, d: int) -> Option<int> {
    phrase(ts, i, d, Nt::ArgsLoop)
}

/// Items of a list after `[`, up to and including the `]`.
pub open spec fn list_loop(ts: Seq<Token>, i: int, d: int) -> Option<int> {
    phrase(ts, i, d, Nt::ListLoop)
}

/// Entries `key: value` of a map after `{`, up to and including the `}`.
pub open spec fn map_loop(ts: Seq<Token>, i: int, d: int) -> Option<int> {
    phrase(ts, i, d, Nt::MapLoop)
}

/// An atom: a number, a string without interpolation, a keyword literal, a
/// name, `(e)`, a list, a map, or a call of a word: a command call (the word
/// is a command, or words follow it) or a call of a user function.
pub open spec fn atom_ok(ts: Seq<Token>, i: int, d: int) -> Option<int> {
    phrase(ts, i, d, Nt::Atom)
}

/// A command call: one or more segments `words(args)`.
pub open spec fn segs_ok(ts: Seq<Token>, i: int, d: int) -> Option<int> {
    phrase(ts, i, d, Nt::Segs)
}

/// Segments from `i`, until no word starts another.
pub open spec fn segs_loop(ts: Seq<Token>, i: int, d: int) -> Option<int> {
    phrase(ts, i, d, Nt::SegsLoop)
}

/// `(` and the arguments of a segment, one level deeper: expressions and
/// keyword arguments `w = e`, up to and including the `)`.
pub open spec fn arglist_ok(ts: Seq<Token>, i: int, d: int) -> Option<int> {
    phrase(ts, i, d, Nt::Arglist)
}

pub open spec fn arg_loop(ts: Seq<Token>, i: int, d: int) -> Option<int> {
    phrase(ts, i, d, Nt::ArgLoop)
}

/// A token that no expression can start with.
pub open spec fn bad_start(ts: Seq<Token>, q: int) -> bool {
    0 <= q < ts.len() && !(ts[q].tok is Str || ts[q].tok is Int || ts[q].tok is Float || ts[q].tok is LBrace
        || ts[q].tok is LParen || ts[q].tok is LBracket || ts[q].tok is Word)
}

/// Where reading the phrase `nt` at `i` fails because an operand is
/// missing: the token that stands where an operand must start and cannot
/// start one (such as the line break after a trailing `+`). `None` where the
/// phrase is well formed, or fails for another reason.
#[verifier::opaque]
pub open spec fn phrase_err(ts: Seq<Token>, i: int, d: int, nt: Nt) -> Option<int>
    decreases MAX_PARSE_DEPTH - d, ts.len() - i, rank(nt),
{
    if !in_range(ts, i, d) {
        None
    } else {
        match nt {
            Nt::Expr => phrase_err(ts, i, d, Nt::Or),
            Nt::Or => match phrase(ts, i, d, Nt::And) {
                None => phrase_err(ts, i, d, Nt::And),
                Some(j) => if i < j <= ts.len() {
                    phrase_err(ts, j, d, Nt::OrRest)
                } else {
                    None
                },
            },
            Nt::OrRest => if word_at(ts, i, "or"@) {
                match phrase(ts, i + 1, d, Nt::And) {
                    None => phrase_err(ts, i + 1, d, Nt::And),
                    Some(k) => if i + 1 < k <= ts.len() {
                        phrase_err(ts, k, d, Nt::OrRest)
                    } else {
                        None
                    },
                }
            } else {
                None
            },
            Nt::And => match phrase(ts, i, d, Nt::Not) {
                None => phrase_err(ts, i, d, Nt::Not),
                Some(j) => if i < j <= ts.len() {
                    phrase_err(ts, j, d, Nt::AndRest)
                } else {
                    None
                },
            },
            Nt::AndRest => if word_at(ts, i, "and"@) {
                match phrase(ts, i + 1, d, Nt::Not) {
                    None => phrase_err(ts, i + 1, d, Nt::Not),
                    Some(k) => if i + 1 < k <= ts.len() {
                        phrase_err(ts, k, d, Nt::AndRest)
                    } else {
                        None
                    },
                }
            } else {
                None
            },
            Nt::Not => if word_at(ts, i, "not"@) {
                if d < MAX_PARSE_DEPTH {
                    phrase_err(ts, i + 1, d + 1, Nt::Not)
                } else {
                    None
                }
            } else {
                phrase_err(ts, i, d, Nt::Comparison)
            },
            Nt::Comparison => match phrase(ts, i, d, Nt::Level(3)) {
                None => phrase_err(ts, i, d, Nt::Level(3)),
                Some(m) => if i < m < ts.len() && op_of_level(kind_at(ts, m), 2) is Some {
                    phrase_err(ts, m + 1, d, Nt::Level(3))
                } else {
                    None
                },
            },
            Nt::Level(lvl) => if !(3 <= lvl <= 8) {
                None
            } else {
                match phrase(ts, i, d, Nt::Operand(lvl)) {
                    None => phrase_err(ts, i, d, Nt::Operand(lvl)),
                    Some(j) => if i < j <= ts.len() {
                        phrase_err(ts, j, d, Nt::LevelRest(lvl))
                    } else {
                        None
                    },
                }
            },
            Nt::Operand(lvl) => if !(3 <= lvl <= 8) {
                None
            } else if lvl == 8 {
                phrase_err(ts, i, d, Nt::Power)
            } else {
                phrase_err(ts, i, d, Nt::Level(lvl + 1))
            },
            Nt::LevelRest(lvl) => if !(3 <= lvl <= 8) {
                None
            } else if i < ts.len() && op_of_level(kind_at(ts, i), lvl) is Some {
                match phrase(ts, i + 1, d, Nt::Operand(lvl)) {
                    None => phrase_err(ts, i + 1, d, Nt::Operand(lvl)),
                    Some(k) => if i + 1 < k <= ts.len() {
                        phrase_err(ts, k, d, Nt::LevelRest(lvl))
                    } else {
                        None
                    },
                }
            } else {
                None
            },
            Nt::Power => match phrase(ts, i, d, Nt::Unary) {
                None => phrase_err(ts, i, d, Nt::Unary),
                Some(m) => if i < m < ts.len() && kind_at(ts, m) == Some(K::Caret) && d < MAX_PARSE_DEPTH {
                    phrase_err(ts, m + 1, d + 1, Nt::Power)
                } else {
                    None
                },
            },
            Nt::Unary => if kind_at(ts, i) == Some(K::Minus) || kind_at(ts, i) == Some(K::Tilde) || kind_at(
                ts,
                i,
            ) == Some(K::Plus) {
                if d < MAX_PARSE_DEPTH {
                    phrase_err(ts, i + 1, d + 1, Nt::Unary)
                } else {
                    None
                }
            } else {
                phrase_err(ts, i, d, Nt::Primary)
            },
            Nt::Primary => match phrase(ts, i, d, Nt::Atom) {
                None => phrase_err(ts, i, d, Nt::Atom),
                Some(_) => None,
            },
            Nt::Atom => if bad_start(ts, i) {
                Some(i)
            } else if kind_at(ts, i) == Some(K::LParen) && d < MAX_PARSE_DEPTH {
                match phrase(ts, i + 1, d + 1, Nt::Expr) {
                    None => phrase_err(ts, i + 1, d + 1, Nt::Expr),
                    Some(_) => None,
                }
            } else {
                None
            },
            _ => None,
        }
    }
}

/// One step of `phrase_err`.
pub open spec fn phrase_err_step(ts: Seq<Token>, i: int, d: int, nt: Nt) -> Option<int> {
    if !in_range(ts, i, d) {
        None
    } else {
        match nt {
            Nt::Expr => phrase_err(ts, i, d, Nt::Or),
            Nt::Or => match phrase(ts, i, d, Nt::And) {
                None => phrase_err(ts, i, d, Nt::And),
                Some(j) => if i < j <= ts.len() {
                    phrase_err(ts, j, d, Nt::OrRest)
                } else {
                    None
                },
            },
            Nt::OrRest => if word_at(ts, i, "or"@) {
                match phrase(ts, i + 1, d, Nt::And) {
                    None => phrase_err(ts, i + 1, d, Nt::And),
                    Some(k) => if i + 1 < k <= ts.len() {
                        phrase_err(ts, k, d, Nt::OrRest)
                    } else {
                        None
                    },
                }
            } else {
                None
            },
            Nt::And => match phrase(ts, i, d, Nt::Not) {
                None => phrase_err(ts, i, d, Nt::Not),
                Some(j) => if i < j <= ts.len() {
                    phrase_err(ts, j, d, Nt::AndRest)
                } else {
                    None
                },
            },
            Nt::AndRest => if word_at(ts, i, "and"@) {
                match phrase(ts, i + 1, d, Nt::Not) {
                    None => phrase_err(ts, i + 1, d, Nt::Not),
                    Some(k) => if i + 1 < k <= ts.len() {
                        phrase_err(ts, k, d, Nt::AndRest)
                    } else {
                        None
                    },
                }
            } else {
                None
            },
            Nt::Not => if word_at(ts, i, "not"@) {
                if d < MAX_PARSE_DEPTH {
                    phrase_err(ts, i + 1, d + 1, Nt::Not)
                } else {
                    None
                }
            } else {
                phrase_err(ts, i, d, Nt::Comparison)
            },
            Nt::Comparison => match phrase(ts, i, d, Nt::Level(3)) {
                None => phrase_err(ts, i, d, Nt::Level(3)),
                Some(m) => if i < m < ts.len() && op_of_level(kind_at(ts, m), 2) is Some {
                    phrase_err(ts, m + 1, d, Nt::Level(3))
                } else {
                    None
                },
            },
            Nt::Level(lvl) => if !(3 <= lvl <= 8) {
                None
            } else {
                match phrase(ts, i, d, Nt::Operand(lvl)) {
                    None => phrase_err(ts, i, d, Nt::Operand(lvl)),
                    Some(j) => if i < j <= ts.len() {
                        phrase_err(ts, j, d, Nt::LevelRest(lvl))
                    } else {
                        None
                    },
                }
            },
            Nt::Operand(lvl) => if !(3 <= lvl <= 8) {
                None
            } else if lvl == 8 {
                phrase_err(ts, i, d, Nt::Power)
            } else {
                phrase_err(ts, i, d, Nt::Level(lvl + 1))
            },
            Nt::LevelRest(lvl) => if !(3 <= lvl <= 8) {
                None
            } else if i < ts.len() && op_of_level(kind_at(ts, i), lvl) is Some {
                match phrase(ts, i + 1, d, Nt::Operand(lvl)) {
                    None => phrase_err(ts, i + 1, d, Nt::Operand(lvl)),
                    Some(k) => if i + 1 < k <= ts.len() {
                        phrase_err(ts, k, d, Nt::LevelRest(lvl))
                    } else {
                        None
                    },
                }
            } else {
                None
            },
            Nt::Power => match phrase(ts, i, d, Nt::Unary) {
                None => phrase_err(ts, i, d, Nt::Unary),
                Some(m) => if i < m < ts.len() && kind_at(ts, m) == Some(K::Caret) && d < MAX_PARSE_DEPTH {
                    phrase_err(ts, m + 1, d + 1, Nt::Power)
                } else {
                    None
                },
            },
            Nt::Unary => if kind_at(ts, i) == Some(K::Minus) || kind_at(ts, i) == Some(K::Tilde) || kind_at(
                ts,
                i,
            ) == Some(K::Plus) {
                if d < MAX_PARSE_DEPTH {
                    phrase_err(ts, i + 1, d + 1, Nt::Unary)
                } else {
                    None
                }
            } else {
                phrase_err(ts, i, d, Nt::Primary)
            },
            Nt::Primary => match phrase(ts, i, d, Nt::Atom) {
                None => phrase_err(ts, i, d, Nt::Atom),
                Some(_) => None,
            },
            Nt::Atom => if bad_start(ts, i) {
                Some(i)
            } else if kind_at(ts, i) == Some(K::LParen) && d < MAX_PARSE_DEPTH {
                match phrase(ts, i + 1, d + 1, Nt::Expr) {
                    None => phrase_err(ts, i + 1, d + 1, Nt::Expr),
                    Some(_) => None,
                }
            } else {
                None
            },
            _ => None,
        }
    }
}


/// Where an expression at `i` fails for want of an operand.
pub open spec fn expr_err(ts: Seq<Token>, i: int, d: int) -> Option<int> {
    phrase_err(ts, i, d, Nt::Expr)
}

/// Where a statement at `i` fails for want of an operand in the expression
/// it assigns or returns.
pub open spec fn stmt_err(ts: Seq<Token>, i: int, d: int) -> Option<int> {
    if !(0 <= i < ts.len()) || !(ts[i].tok is Word) || stmt_ok(ts, i, d) is Some {
        None
    } else {
        let w = word_text(ts, i);
        if w == "set"@ || w == "const"@ {
            if kind_at(ts, i + 1) == Some(K::Word) && kind_at(ts, i + 2) == Some(K::Equals) {
                expr_err(ts, i + 3, d)
            } else {
                None
            }
        } else if w == "return"@ {
            if i + 1 < ts.len() && !blank(ts[i + 1].tok) {
                expr_err(ts, i + 1, d)
            } else {
                None
            }
        } else if !stmt_keyword(w) && kind_at(ts, i + 1) == Some(K::Equals) && !dsl_word_at(ts, i + 2) {
            expr_err(ts, i + 2, d)
        } else {
            None
        }
    }
}

/// Where a program's top-level items from `j` on first fail for want of an
/// operand, every item before it being well formed.
pub open spec fn items_err(ts: Seq<Token>, j: int) -> Option<int>
    decreases ts.len() - j,
{
    let k = skip_blank(ts, j);
    if !(0 <= j <= k < ts.len()) {
        None
    } else if word_at(ts, k, "rach"@) {
        match function_ok(ts, k) {
            Some(m) => if k < m <= ts.len() {
                items_err(ts, m)
            } else {
                None
            },
            None => None,
        }
    } else if word_at(ts, k, "struct"@) {
        match struct_ok(ts, k) {
            Some(m) => if k < m <= ts.len() {
                items_err(ts, m)
            } else {
                None
            },
            None => None,
        }
    } else if impl_header(ts, k) {
        match impl_ok(ts, k) {
            Some(m) => if k < m <= ts.len() {
                items_err(ts, m)
            } else {
                None
            },
            None => None,
        }
    } else if word_at(ts, k, "import"@) {
        None
    } else {
        match stmt_ok(ts, k, 0) {
            Some(m) => if k < m <= ts.len() {
                items_err(ts, m)
            } else {
                None
            },
            None => stmt_err(ts, k, 0),
        }
    }
}

/// `w` starts a registered command.
#[verifier::opaque]
pub open spec fn command_word(w: Seq<char>) -> bool {
    is_known_command_spec(w)
}

pub proof fn lemma_command_word(w: Seq<char>)
    ensures
        command_word(w) == is_known_command_spec(w),
{
    reveal(command_word);
}

/// A word followed by `{` that opens a struct literal.
pub open spec fn struct_brace(ts: Seq<Token>, i: int) -> bool {
    kind_at(ts, i + 1) == Some(K::LBrace) && ((kind_at(ts, i + 2) == Some(K::Word) && kind_at(ts, i + 3) == Some(
        K::Colon,
    )) || kind_at(ts, i + 2) == Some(K::RBrace))
}


/// How many words from `i` a command segment takes (it stops before a
/// keyword argument `w =`).
#[verifier::opaque]
pub open spec fn word_run(ts: Seq<Token>, i: int) -> int
    decreases ts.len() - i,
{
    if 0 <= i < ts.len() && ts[i].tok is Word && !keyword_arg_at(ts, ts[i], i) {
        1 + word_run(ts, i + 1)
    } else {
        0
    }
}





// ---------------------------------------------------------------- statements

/// The end of a line at `m`: past a line break there, or the end of input.
pub open spec fn line_end(ts: Seq<Token>, m: int) -> Option<int> {
    if m == ts.len() {
        Some(m)
    } else if 0 <= m < ts.len() && blank(ts[m].tok) {
        Some(m + 1)
    } else {
        None
    }
}

/// An expression that ends its line.
pub open spec fn expr_line_ok(ts: Seq<Token>, i: int, d: int) -> Option<int> {
    match expr_ok(ts, i, d) {
        Some(m) => line_end(ts, m),
        None => None,
    }
}

/// The word of a plain statement that starts at `i`.
pub open spec fn word_text(ts: Seq<Token>, i: int) -> Seq<char> {
    match ts[i].tok {
        Tok::Word(w) => w@,
        _ => seq![],
    }
}

/// The accessors `.name` and `[key]` from `j` on, keys read at level `d`,
/// and where they end.
pub open spec fn chain_end(ts: Seq<Token>, j: int, d: int) -> Option<int>
    decreases ts.len() - j,
{
    if !in_range(ts, j, d) {
        None
    } else if kind_at(ts, j) == Some(K::Dot) {
        if kind_at(ts, j + 1) == Some(K::Word) {
            chain_end(ts, j + 2, d)
        } else {
            None
        }
    } else if kind_at(ts, j) == Some(K::LBracket) {
        match expr_ok(ts, j + 1, d) {
            Some(k) => if j + 1 < k < ts.len() && kind_at(ts, k) == Some(K::RBracket) {
                chain_end(ts, k + 1, d)
            } else {
                None
            },
            None => None,
        }
    } else {
        Some(j)
    }
}

/// `=` or a compound assignment operator at `c`.
pub open spec fn assign_op_at(ts: Seq<Token>, c: int) -> bool {
    0 <= c < ts.len() && (ts[c].tok is Equals || compound_of_kind(kind_spec(ts[c].tok)) is Some)
}

/// A statement that starts with a word and accessors at `i`: an assignment
/// to that place when an assignment operator follows the accessors, else an
/// expression (such as a method call) that ends its line.
pub open spec fn place_stmt_ok(ts: Seq<Token>, i: int, d: int) -> Option<int> {
    match chain_end(ts, i + 1, d) {
        Some(c) => if i + 1 < c && assign_op_at(ts, c) {
            expr_line_ok(ts, c + 1, d)
        } else {
            expr_line_ok(ts, i, d)
        },
        None => None,
    }
}

/// A call statement at `i`: a call of a user function (a word that is not
/// a command, then `(`) with its postfix accesses, or a command call; then
/// the end of the line.
pub open spec fn call_ok(ts: Seq<Token>, i: int, d: int) -> Option<int> {
    let w = word_text(ts, i);
    if 0 <= i < ts.len() && ts[i].tok is Word && kind_at(ts, i + 1) == Some(K::LParen) && !command_word(w) {
        match args_ok(ts, i + 2, d) {
            Some(k) => match postfix_ok(ts, k, d) {
                Some(m) => line_end(ts, m),
                None => None,
            },
            None => None,
        }
    } else {
        match segs_ok(ts, i, d) {
            Some(m) => line_end(ts, m),
            None => None,
        }
    }
}

/// The phrases of statements: a statement, a block nested under a column,
/// the optional `else` part after a block, and a `:` with a line break and
/// the block that follows, one level deeper.
pub enum Sn {
    Stmt,
    Block(usize),
    Else(usize),
    ColonBlock(usize),
}

pub open spec fn srank(nt: Sn) -> int {
    match nt {
        Sn::Stmt => 1,
        Sn::Block(_) => 2,
        Sn::Else(_) => 0,
        Sn::ColonBlock(_) => 0,
    }
}

/// Where the statement phrase `nt` that starts at `i` ends. Statements are
/// assignments (`set N = e`, `const N = e`, `N = e`, `N op= e`, `N++`,
/// `N--`, and to places `N[k].f = e`), expression statements `N.m(...)`, bash DSL lines, `return`, `completed`, `break`, `continue`, `if`
/// (with `not`, the operating-system test, and `else`), `while`, `for N in
/// e`, and calls of commands and user functions; blocks are statements up to
/// a block stop.
#[verifier::opaque]
pub open spec fn sphrase(ts: Seq<Token>, i: int, d: int, nt: Sn) -> Option<int>
    decreases MAX_PARSE_DEPTH - d, ts.len() - i, srank(nt),
{
    if !in_range(ts, i, d) {
        None
    } else {
        match nt {
            Sn::ColonBlock(col) => {
                if kind_at(ts, i) != Some(K::Colon) || d >= MAX_PARSE_DEPTH {
                    None
                } else {
                    match line_end(ts, i + 1) {
                        Some(q) => if i < q <= ts.len() {
                            sphrase(ts, q, d + 1, Sn::Block(col))
                        } else {
                            None
                        },
                        None => None,
                    }
                }
            },
            Sn::Block(col) => {
                let k = skip_blank(ts, i);
                if !(i <= k <= ts.len()) {
                    None
                } else if block_stop(ts, k, col) {
                    Some(k)
                } else {
                    match sphrase(ts, k, d, Sn::Stmt) {
                        Some(m) => if k < m <= ts.len() {
                            sphrase(ts, m, d, Sn::Block(col))
                        } else {
                            None
                        },
                        None => None,
                    }
                }
            },
            Sn::Else(col) => {
                let j = skip_blank(ts, i);
                if !(i <= j <= ts.len()) {
                    None
                } else if word_at(ts, j, "else"@) && ts[j].col == col {
                    sphrase(ts, j + 1, d, Sn::ColonBlock(col))
                } else {
                    Some(j)
                }
            },
            Sn::Stmt => {
                if i >= ts.len() || !(ts[i].tok is Word) {
                    None
                } else {
                    let w = word_text(ts, i);
                    let col = ts[i].col;
                    if w == "completed"@ || w == "break"@ || w == "continue"@ {
                        line_end(ts, i + 1)
                    } else if w == "return"@ {
                        if i + 1 >= ts.len() || blank(ts[i + 1].tok) {
                            line_end(ts, i + 1)
                        } else {
                            expr_line_ok(ts, i + 1, d)
                        }
                    } else if w == "set"@ || w == "const"@ {
                        if kind_at(ts, i + 1) == Some(K::Word) && kind_at(ts, i + 2) == Some(K::Equals) {
                            expr_line_ok(ts, i + 3, d)
                        } else {
                            None
                        }
                    } else if w == "if"@ {
                        let h = i + 1;
                        let n = after_not(ts, h);
                        let body = if os_test_at(ts, n) {
                            sphrase(ts, n + 1, d, Sn::ColonBlock(col))
                        } else {
                            match expr_ok(ts, h, d) {
                                Some(m) => if h < m < ts.len() {
                                    sphrase(ts, m, d, Sn::ColonBlock(col))
                                } else {
                                    None
                                },
                                None => None,
                            }
                        };
                        match body {
                            Some(b) => if i < b <= ts.len() {
                                sphrase(ts, b, d, Sn::Else(col))
                            } else {
                                None
                            },
                            None => None,
                        }
                    } else if w == "while"@ {
                        match expr_ok(ts, i + 1, d) {
                            Some(m) => if i + 1 < m < ts.len() {
                                sphrase(ts, m, d, Sn::ColonBlock(col))
                            } else {
                                None
                            },
                            None => None,
                        }
                    } else if w == "for"@ {
                        if kind_at(ts, i + 1) == Some(K::Word) && word_at(ts, i + 2, "in"@) {
                            match expr_ok(ts, i + 3, d) {
                                Some(m) => if i + 3 < m < ts.len() {
                                    sphrase(ts, m, d, Sn::ColonBlock(col))
                                } else {
                                    None
                                },
                                None => None,
                            }
                        } else {
                            None
                        }
                    } else if stmt_keyword(w) {
                        None
                    } else if kind_at(ts, i + 1) == Some(K::Equals) {
                        if dsl_word_at(ts, i + 2) {
                            if dsl_result(dsl_pieces(ts, i + 2)) is Some {
                                line_end(ts, i + 2 + dsl_pieces(ts, i + 2).len())
                            } else {
                                None
                            }
                        } else {
                            expr_line_ok(ts, i + 2, d)
                        }
                    } else if i + 1 < ts.len() && compound_of_kind(kind_spec(ts[i + 1].tok)) is Some {
                        expr_line_ok(ts, i + 2, d)
                    } else if kind_at(ts, i + 1) == Some(K::PlusPlus) || kind_at(ts, i + 1) == Some(K::MinusMinus) {
                        line_end(ts, i + 2)
                    } else if kind_at(ts, i + 1) == Some(K::Dot) || kind_at(ts, i + 1) == Some(K::LBracket) {
                        place_stmt_ok(ts, i, d)
                    } else if w == "ai_generate"@ {
                        None
                    } else {
                        call_ok(ts, i, d)
                    }
                }
            },
        }
    }
}

/// One step of a statement: what `stmt_ok` is at `i`, by the statement's
/// first word.
pub open spec fn stmt_step(ts: Seq<Token>, i: int, d: int) -> Option<int> {
    if i >= ts.len() || !(ts[i].tok is Word) {
        None
    } else {
        let w = word_text(ts, i);
        let col = ts[i].col;
        if w == "completed"@ || w == "break"@ || w == "continue"@ {
            line_end(ts, i + 1)
        } else if w == "return"@ {
            if i + 1 >= ts.len() || blank(ts[i + 1].tok) {
                line_end(ts, i + 1)
            } else {
                expr_line_ok(ts, i + 1, d)
            }
        } else if w == "set"@ || w == "const"@ {
            if kind_at(ts, i + 1) == Some(K::Word) && kind_at(ts, i + 2) == Some(K::Equals) {
                expr_line_ok(ts, i + 3, d)
            } else {
                None
            }
        } else if w == "if"@ {
            let h = i + 1;
            let n = after_not(ts, h);
            let body = if os_test_at(ts, n) {
                sphrase(ts, n + 1, d, Sn::ColonBlock(col))
            } else {
                match expr_ok(ts, h, d) {
                    Some(m) => if h < m < ts.len() {
                        sphrase(ts, m, d, Sn::ColonBlock(col))
                    } else {
                        None
                    },
                    None => None,
                }
            };
            match body {
                Some(b) => if i < b <= ts.len() {
                    sphrase(ts, b, d, Sn::Else(col))
                } else {
                    None
                },
                None => None,
            }
        } else if w == "while"@ {
            match expr_ok(ts, i + 1, d) {
                Some(m) => if i + 1 < m < ts.len() {
                    sphrase(ts, m, d, Sn::ColonBlock(col))
                } else {
                    None
                },
                None => None,
            }
        } else if w == "for"@ {
            if kind_at(ts, i + 1) == Some(K::Word) && word_at(ts, i + 2, "in"@) {
                match expr_ok(ts, i + 3, d) {
                    Some(m) => if i + 3 < m < ts.len() {
                        sphrase(ts, m, d, Sn::ColonBlock(col))
                    } else {
                        None
                    },
                    None => None,
                }
            } else {
                None
            }
        } else if stmt_keyword(w) {
            None
        } else if kind_at(ts, i + 1) == Some(K::Equals) {
            if dsl_word_at(ts, i + 2) {
                if dsl_result(dsl_pieces(ts, i + 2)) is Some {
                    line_end(ts, i + 2 + dsl_pieces(ts, i + 2).len())
                } else {
                    None
                }
            } else {
                expr_line_ok(ts, i + 2, d)
            }
        } else if i + 1 < ts.len() && compound_of_kind(kind_spec(ts[i + 1].tok)) is Some {
            expr_line_ok(ts, i + 2, d)
        } else if kind_at(ts, i + 1) == Some(K::PlusPlus) || kind_at(ts, i + 1) == Some(K::MinusMinus) {
            line_end(ts, i + 2)
        } else if kind_at(ts, i + 1) == Some(K::Dot) || kind_at(ts, i + 1) == Some(K::LBracket) {
            place_stmt_ok(ts, i, d)
        } else if w == "ai_generate"@ {
            None
        } else {
            call_ok(ts, i, d)
        }
    }
}

/// A statement.
pub open spec fn stmt_ok(ts: Seq<Token>, i: int, d: int) -> Option<int> {
    sphrase(ts, i, d, Sn::Stmt)
}

/// A block nested under `col`, up to where it stops.
pub open spec fn block_ok(ts: Seq<Token>, i: int, col: usize, d: int) -> Option<int> {
    sphrase(ts, i, d, Sn::Block(col))
}

/// A `:` at `m`, a line break, then a block nested under `col` one level
/// deeper, and where it stops.
pub open spec fn colon_block(ts: Seq<Token>, m: int, col: usize, d: int) -> Option<int> {
    sphrase(ts, m, d, Sn::ColonBlock(col))
}

/// The optional `else:` part, in column `col`, after a block that stopped
/// at `i`.
pub open spec fn else_ok(ts: Seq<Token>, i: int, col: usize, d: int) -> Option<int> {
    sphrase(ts, i, d, Sn::Else(col))
}

// ---------------------------------------------------------------- functions and programs

/// The parameters from `j` (after the `(`): names, each with an optional
/// `= default` read at level 1, separated by commas, up to and including
/// the `)`.
pub open spec fn params_ok(ts: Seq<Token>, j: int) -> Option<int>
    decreases ts.len() - j,
{
    if !(0 <= j < ts.len()) || !(ts[j].tok is Word) {
        None
    } else {
        let k = if kind_at(ts, j + 1) == Some(K::Equals) {
            match expr_ok(ts, j + 2, 1) {
                Some(m) => m,
                None => -1,
            }
        } else {
            j + 1
        };
        if !(j < k < ts.len()) {
            None
        } else if kind_at(ts, k) == Some(K::Comma) {
            params_ok(ts, k + 1)
        } else if kind_at(ts, k) == Some(K::RParen) {
            Some(k + 1)
        } else {
            None
        }
    }
}

/// A parameter list after `(`: empty, an arity `(N)`, or parameters.
pub open spec fn header_ok(ts: Seq<Token>, j: int) -> Option<int> {
    if kind_at(ts, j) == Some(K::RParen) {
        Some(j + 1)
    } else if kind_at(ts, j) == Some(K::Int) {
        if kind_at(ts, j + 1) == Some(K::RParen) {
            Some(j + 2)
        } else {
            None
        }
    } else {
        params_ok(ts, j)
    }
}

/// A function `rach NAME(params):`, a line break, its block, and `end`;
/// where the parse stops (past the line break after `end`, if there is one).
pub open spec fn function_ok(ts: Seq<Token>, i: int) -> Option<int> {
    if word_at(ts, i, "rach"@) && kind_at(ts, i + 1) == Some(K::Word) && kind_at(ts, i + 2) == Some(K::LParen) {
        match header_ok(ts, i + 3) {
            Some(h) => if i + 3 < h < ts.len() {
                match colon_block(ts, h, 0, 0) {
                    Some(b) => if word_at(ts, b, "end"@) {
                        Some(
                            if b + 1 < ts.len() && blank(ts[b + 1].tok) {
                                b + 2
                            } else {
                                b + 1
                            },
                        )
                    } else {
                        None
                    },
                    None => None,
                }
            } else {
                None
            },
            None => None,
        }
    } else {
        None
    }
}

/// A struct `struct NAME { fields }` and the end of its line.
pub open spec fn struct_ok(ts: Seq<Token>, i: int) -> Option<int> {
    if word_at(ts, i, "struct"@) && kind_at(ts, i + 1) == Some(K::Word) && kind_at(ts, i + 2) == Some(K::LBrace) {
        match struct_fields(ts, i + 3) {
            Some((_, e)) => line_end(ts, e),
            None => None,
        }
    } else {
        None
    }
}

/// The methods of an impl block from `j` on, each `rach NAME(self, ...)`,
/// up to its `end`: where the block stops (past the line break after
/// `end`, if there is one).
pub open spec fn methods_end(ts: Seq<Token>, j: int) -> Option<int>
    decreases ts.len() - j,
{
    let k = skip_blank(ts, j);
    if !(0 <= j <= k < ts.len()) {
        None
    } else if word_at(ts, k, "end"@) {
        Some(
            if k + 1 < ts.len() && blank(ts[k + 1].tok) {
                k + 2
            } else {
                k + 1
            },
        )
    } else if word_at(ts, k, "rach"@) && word_at(ts, k + 3, "self"@) {
        match function_ok(ts, k) {
            Some(m) => if k < m <= ts.len() {
                methods_end(ts, m)
            } else {
                None
            },
            None => None,
        }
    } else {
        None
    }
}

/// The positions of the methods of an impl block from `j` on, in order.
pub open spec fn method_starts(ts: Seq<Token>, j: int) -> Seq<int>
    decreases ts.len() - j,
{
    let k = skip_blank(ts, j);
    if !(0 <= j <= k < ts.len()) || word_at(ts, k, "end"@) {
        seq![]
    } else if word_at(ts, k, "rach"@) && word_at(ts, k + 3, "self"@) {
        match function_ok(ts, k) {
            Some(m) => if k < m <= ts.len() {
                seq![k] + method_starts(ts, m)
            } else {
                seq![]
            },
            None => seq![],
        }
    } else {
        seq![]
    }
}

/// An impl block `impl NAME:`, a line break, and its methods up to `end`.
pub open spec fn impl_ok(ts: Seq<Token>, i: int) -> Option<int> {
    if impl_header(ts, i) {
        match line_end(ts, i + 3) {
            Some(q) => methods_end(ts, q),
            None => None,
        }
    } else {
        None
    }
}

/// Where the methods of the impl block at `i` start.
pub open spec fn impl_body(ts: Seq<Token>, i: int) -> int {
    match line_end(ts, i + 3) {
        Some(q) => q,
        None => ts.len() as int,
    }
}

/// Top-level items from `j` on: functions, structs, impl blocks and statements, blank lines
/// between them, to the end of input.
pub open spec fn items_ok(ts: Seq<Token>, j: int) -> bool
    decreases ts.len() - j,
{
    let k = skip_blank(ts, j);
    if !(0 <= j <= k <= ts.len()) {
        false
    } else if k == ts.len() {
        true
    } else if word_at(ts, k, "rach"@) {
        match function_ok(ts, k) {
            Some(m) => k < m <= ts.len() && items_ok(ts, m),
            None => false,
        }
    } else if word_at(ts, k, "struct"@) {
        match struct_ok(ts, k) {
            Some(m) => k < m <= ts.len() && items_ok(ts, m),
            None => false,
        }
    } else if impl_header(ts, k) {
        match impl_ok(ts, k) {
            Some(m) => k < m <= ts.len() && items_ok(ts, m),
            None => false,
        }
    } else if word_at(ts, k, "import"@) {
        false
    } else {
        match stmt_ok(ts, k, 0) {
            Some(m) => k < m <= ts.len() && items_ok(ts, m),
            None => false,
        }
    }
}

/// A program of the grammar: `import` lines, then functions, structs, impl
/// blocks and top-level statements.
pub open spec fn program_ok(ts: Seq<Token>) -> bool {
    match import_run(ts, 0) {
        Some((_, e)) => items_ok(ts, e),
        None => false,
    }
}

/// Where the top-level items of a program start: after its `import` lines.
pub open spec fn items_start(ts: Seq<Token>) -> int {
    match import_run(ts, 0) {
        Some((_, e)) => e,
        None => 0,
    }
}

/// The positions of the top-level functions from `j` on, in order.
pub open spec fn def_starts(ts: Seq<Token>, j: int) -> Seq<int>
    decreases ts.len() - j,
{
    let k = skip_blank(ts, j);
    if !(0 <= j <= k < ts.len()) {
        seq![]
    } else if word_at(ts, k, "rach"@) {
        match function_ok(ts, k) {
            Some(m) => if k < m <= ts.len() {
                seq![k] + def_starts(ts, m)
            } else {
                seq![]
            },
            None => seq![],
        }
    } else if word_at(ts, k, "struct"@) {
        match struct_ok(ts, k) {
            Some(m) => if k < m <= ts.len() {
                def_starts(ts, m)
            } else {
                seq![]
            },
            None => seq![],
        }
    } else if impl_header(ts, k) {
        match impl_ok(ts, k) {
            Some(m) => if k < m <= ts.len() {
                def_starts(ts, m)
            } else {
                seq![]
            },
            None => seq![],
        }
    } else {
        match stmt_ok(ts, k, 0) {
            Some(m) => if k < m <= ts.len() {
                def_starts(ts, m)
            } else {
                seq![]
            },
            None => seq![],
        }
    }
}

/// The positions of the top-level statements from `j` on, in order.
pub open spec fn stmt_starts(ts: Seq<Token>, j: int) -> Seq<int>
    decreases ts.len() - j,
{
    let k = skip_blank(ts, j);
    if !(0 <= j <= k < ts.len()) {
        seq![]
    } else if word_at(ts, k, "rach"@) {
        match function_ok(ts, k) {
            Some(m) => if k < m <= ts.len() {
                stmt_starts(ts, m)
            } else {
                seq![]
            },
            None => seq![],
        }
    } else if word_at(ts, k, "struct"@) {
        match struct_ok(ts, k) {
            Some(m) => if k < m <= ts.len() {
                stmt_starts(ts, m)
            } else {
                seq![]
            },
            None => seq![],
        }
    } else if impl_header(ts, k) {
        match impl_ok(ts, k) {
            Some(m) => if k < m <= ts.len() {
                stmt_starts(ts, m)
            } else {
                seq![]
            },
            None => seq![],
        }
    } else {
        match stmt_ok(ts, k, 0) {
            Some(m) => if k < m <= ts.len() {
                seq![k] + stmt_starts(ts, m)
            } else {
                seq![]
            },
            None => seq![],
        }
    }
}

/// The positions of the top-level structs from `j` on, in order.
pub open spec fn struct_starts(ts: Seq<Token>, j: int) -> Seq<int>
    decreases ts.len() - j,
{
    let k = skip_blank(ts, j);
    if !(0 <= j <= k < ts.len()) {
        seq![]
    } else if word_at(ts, k, "rach"@) {
        match function_ok(ts, k) {
            Some(m) => if k < m <= ts.len() {
                struct_starts(ts, m)
            } else {
                seq![]
            },
            None => seq![],
        }
    } else if word_at(ts, k, "struct"@) {
        match struct_ok(ts, k) {
            Some(m) => if k < m <= ts.len() {
                seq![k] + struct_starts(ts, m)
            } else {
                seq![]
            },
            None => seq![],
        }
    } else if impl_header(ts, k) {
        match impl_ok(ts, k) {
            Some(m) => if k < m <= ts.len() {
                struct_starts(ts, m)
            } else {
                seq![]
            },
            None => seq![],
        }
    } else {
        match stmt_ok(ts, k, 0) {
            Some(m) => if k < m <= ts.len() {
                struct_starts(ts, m)
            } else {
                seq![]
            },
            None => seq![],
        }
    }
}

/// The positions of the top-level impl blocks from `j` on, in order.
pub open spec fn impl_starts(ts: Seq<Token>, j: int) -> Seq<int>
    decreases ts.len() - j,
{
    let k = skip_blank(ts, j);
    if !(0 <= j <= k < ts.len()) {
        seq![]
    } else if word_at(ts, k, "rach"@) {
        match function_ok(ts, k) {
            Some(m) => if k < m <= ts.len() {
                impl_starts(ts, m)
            } else {
                seq![]
            },
            None => seq![],
        }
    } else if word_at(ts, k, "struct"@) {
        match struct_ok(ts, k) {
            Some(m) => if k < m <= ts.len() {
                impl_starts(ts, m)
            } else {
                seq![]
            },
            None => seq![],
        }
    } else if impl_header(ts, k) {
        match impl_ok(ts, k) {
            Some(m) => if k < m <= ts.len() {
                seq![k] + impl_starts(ts, m)
            } else {
                seq![]
            },
            None => seq![],
        }
    } else {
        match stmt_ok(ts, k, 0) {
            Some(m) => if k < m <= ts.len() {
                impl_starts(ts, m)
            } else {
                seq![]
            },
            None => seq![],
        }
    }
}

} // verus!
