//! One step of each recognizer of the token grammar: when a phrase is well
//! formed, what its parts are and where they end.
use vstd::prelude::*;

use crate::grammar::{
    phrase, phrase_err, phrase_err_step, Nt, sphrase, stmt_ok, stmt_step, block_ok, else_ok, colon_block, line_end, in_range, Sn,
    and_ok, and_rest, arg_loop, arglist_ok, args_loop, args_ok, atom_ok, command_word, comparison_ok, expr_ok, kind_at, level_ok,
    level_rest, list_loop, map_loop, not_ok, operand_ok, or_ok, or_rest, postfix_ok, power_ok, primary_ok,
    segs_loop, segs_ok, struct_brace, unary_ok, word_run,
};
use crate::lexer::{Tok, Token};
use crate::parser::{all_literal, block_stop, keyword_arg_at, keyword_literal, op_of_level, skip_blank, word_at, K, MAX_PARSE_DEPTH};

verus! {


pub proof fn lemma_expr_ok(ts: Seq<Token>, i: int, d: int)
    ensures
        expr_ok(ts, i, d) matches Some(j) ==> (or_ok(ts, i, d) == Some(j) && i < j <= ts.len() && kind_at(ts, j)
            != Some(K::Question)),
{
    reveal_with_fuel(phrase, 1);
}

pub proof fn lemma_or_ok(ts: Seq<Token>, i: int, d: int)
    ensures
        or_ok(ts, i, d) is Some ==> (and_ok(ts, i, d) matches Some(j) && i < j <= ts.len() && or_rest(ts, j, d)
            == or_ok(ts, i, d)),
{
    reveal_with_fuel(phrase, 1);
}

pub proof fn lemma_or_rest(ts: Seq<Token>, j: int, d: int)
    ensures
        or_rest(ts, j, d) is Some ==> if word_at(ts, j, "or"@) {
            and_ok(ts, j + 1, d) matches Some(k) && j + 1 < k <= ts.len() && or_rest(ts, k, d) == or_rest(ts, j, d)
        } else {
            or_rest(ts, j, d) == Some(j)
        },
{
    reveal_with_fuel(phrase, 1);
}

pub proof fn lemma_and_ok(ts: Seq<Token>, i: int, d: int)
    ensures
        and_ok(ts, i, d) is Some ==> (not_ok(ts, i, d) matches Some(j) && i < j <= ts.len() && and_rest(ts, j, d)
            == and_ok(ts, i, d)),
{
    reveal_with_fuel(phrase, 1);
}

pub proof fn lemma_and_rest(ts: Seq<Token>, j: int, d: int)
    ensures
        and_rest(ts, j, d) is Some ==> if word_at(ts, j, "and"@) {
            not_ok(ts, j + 1, d) matches Some(k) && j + 1 < k <= ts.len() && and_rest(ts, k, d) == and_rest(ts, j, d)
        } else {
            and_rest(ts, j, d) == Some(j)
        },
{
    reveal_with_fuel(phrase, 1);
}

pub proof fn lemma_not_ok(ts: Seq<Token>, i: int, d: int)
    ensures
        not_ok(ts, i, d) is Some ==> if word_at(ts, i, "not"@) {
            d < MAX_PARSE_DEPTH && not_ok(ts, i + 1, d + 1) == not_ok(ts, i, d)
        } else {
            comparison_ok(ts, i, d) == not_ok(ts, i, d)
        },
{
    reveal_with_fuel(phrase, 1);
}

pub proof fn lemma_comparison_ok(ts: Seq<Token>, i: int, d: int)
    ensures
        comparison_ok(ts, i, d) is Some ==> (level_ok(ts, i, d, 3) matches Some(m) && i < m <= ts.len() && if m
            < ts.len() && op_of_level(kind_at(ts, m), 2) is Some {
            level_ok(ts, m + 1, d, 3) == comparison_ok(ts, i, d)
        } else {
            comparison_ok(ts, i, d) == Some(m)
        }),
{
    reveal_with_fuel(phrase, 1);
}

pub proof fn lemma_level_ok(ts: Seq<Token>, i: int, d: int, lvl: int)
    ensures
        level_ok(ts, i, d, lvl) is Some ==> (3 <= lvl <= 8 && (operand_ok(ts, i, d, lvl) matches Some(j) && i < j
            <= ts.len() && level_rest(ts, j, d, lvl) == level_ok(ts, i, d, lvl))),
{
    reveal_with_fuel(phrase, 1);
}

pub proof fn lemma_operand_ok(ts: Seq<Token>, i: int, d: int, lvl: int)
    ensures
        operand_ok(ts, i, d, lvl) is Some ==> (3 <= lvl <= 8 && operand_ok(ts, i, d, lvl) == if lvl == 8 {
            power_ok(ts, i, d)
        } else {
            level_ok(ts, i, d, lvl + 1)
        }),
{
    reveal_with_fuel(phrase, 1);
}

pub proof fn lemma_level_rest(ts: Seq<Token>, j: int, d: int, lvl: int)
    ensures
        level_rest(ts, j, d, lvl) is Some ==> if j < ts.len() && op_of_level(kind_at(ts, j), lvl) is Some {
            operand_ok(ts, j + 1, d, lvl) matches Some(k) && j + 1 < k <= ts.len() && level_rest(ts, k, d, lvl)
                == level_rest(ts, j, d, lvl)
        } else {
            level_rest(ts, j, d, lvl) == Some(j)
        },
{
    reveal_with_fuel(phrase, 1);
}

pub proof fn lemma_power_ok(ts: Seq<Token>, i: int, d: int)
    ensures
        power_ok(ts, i, d) is Some ==> (unary_ok(ts, i, d) matches Some(m) && i < m <= ts.len() && if m < ts.len()
            && kind_at(ts, m) == Some(K::Caret) {
            d < MAX_PARSE_DEPTH && power_ok(ts, m + 1, d + 1) == power_ok(ts, i, d)
        } else {
            power_ok(ts, i, d) == Some(m)
        }),
{
    reveal_with_fuel(phrase, 1);
}

pub proof fn lemma_unary_ok(ts: Seq<Token>, i: int, d: int)
    ensures
        unary_ok(ts, i, d) is Some ==> if kind_at(ts, i) == Some(K::Minus) || kind_at(ts, i) == Some(K::Tilde)
            || kind_at(ts, i) == Some(K::Plus) {
            d < MAX_PARSE_DEPTH && unary_ok(ts, i + 1, d + 1) == unary_ok(ts, i, d)
        } else {
            primary_ok(ts, i, d) == unary_ok(ts, i, d)
        },
{
    reveal_with_fuel(phrase, 1);
}

pub proof fn lemma_primary_ok(ts: Seq<Token>, i: int, d: int)
    ensures
        primary_ok(ts, i, d) is Some ==> (atom_ok(ts, i, d) matches Some(j) && i < j <= ts.len() && postfix_ok(
            ts,
            j,
            d,
        ) == primary_ok(ts, i, d)),
{
    reveal_with_fuel(phrase, 1);
}

pub proof fn lemma_postfix_ok(ts: Seq<Token>, j: int, d: int)
    ensures
        postfix_ok(ts, j, d) is Some ==> if kind_at(ts, j) == Some(K::LBracket) {
            d < MAX_PARSE_DEPTH && (expr_ok(ts, j + 1, d + 1) matches Some(k) && j + 1 < k < ts.len() && kind_at(ts, k)
                == Some(K::RBracket) && postfix_ok(ts, k + 1, d) == postfix_ok(ts, j, d))
        } else if kind_at(ts, j) == Some(K::Dot) {
            kind_at(ts, j + 1) == Some(K::Word) && postfix_ok(ts, j + 2, d) == postfix_ok(ts, j, d)
        } else if kind_at(ts, j) == Some(K::LParen) {
            args_ok(ts, j + 1, d) matches Some(k) && j + 1 < k <= ts.len() && postfix_ok(ts, k, d) == postfix_ok(
                ts,
                j,
                d,
            )
        } else {
            postfix_ok(ts, j, d) == Some(j)
        },
{
    reveal_with_fuel(phrase, 1);
}

pub proof fn lemma_args_ok(ts: Seq<Token>, i: int, d: int)
    ensures
        args_ok(ts, i, d) is Some ==> (d < MAX_PARSE_DEPTH && args_loop(ts, i, d + 1) == args_ok(ts, i, d)),
{
    reveal_with_fuel(phrase, 1);
}

pub proof fn lemma_args_loop(ts: Seq<Token>, i: int, d: int)
    ensures
        args_loop(ts, i, d) is Some ==> (i < ts.len() && if kind_at(ts, i) == Some(K::RParen) {
            args_loop(ts, i, d) == Some(i + 1)
        } else if kind_at(ts, i) == Some(K::Comma) {
            args_loop(ts, i + 1, d) == args_loop(ts, i, d)
        } else {
            expr_ok(ts, i, d) matches Some(k) && i < k <= ts.len() && args_loop(ts, k, d) == args_loop(ts, i, d)
        }),
{
    reveal_with_fuel(phrase, 1);
}

pub proof fn lemma_list_loop(ts: Seq<Token>, i: int, d: int)
    ensures
        list_loop(ts, i, d) is Some ==> (i < ts.len() && if kind_at(ts, i) == Some(K::RBracket) {
            list_loop(ts, i, d) == Some(i + 1)
        } else if kind_at(ts, i) == Some(K::Comma) {
            list_loop(ts, i + 1, d) == list_loop(ts, i, d)
        } else {
            expr_ok(ts, i, d) matches Some(k) && i < k <= ts.len() && list_loop(ts, k, d) == list_loop(ts, i, d)
        }),
{
    reveal_with_fuel(phrase, 1);
}

pub proof fn lemma_map_loop(ts: Seq<Token>, i: int, d: int)
    ensures
        map_loop(ts, i, d) is Some ==> (i < ts.len() && if kind_at(ts, i) == Some(K::RBrace) {
            map_loop(ts, i, d) == Some(i + 1)
        } else if kind_at(ts, i) == Some(K::Comma) || kind_at(ts, i) == Some(K::Newline) {
            map_loop(ts, i + 1, d) == map_loop(ts, i, d)
        } else {
            expr_ok(ts, i, d) matches Some(k) && i < k < ts.len() && kind_at(ts, k) == Some(K::Colon) && (expr_ok(
                ts,
                k + 1,
                d,
            ) matches Some(m) && k + 1 < m <= ts.len() && map_loop(ts, m, d) == map_loop(ts, i, d))
        }),
{
    reveal_with_fuel(phrase, 1);
}

pub proof fn lemma_atom_ok(ts: Seq<Token>, i: int, d: int)
    ensures
        atom_ok(ts, i, d) is Some ==> (0 <= i < ts.len() && match ts[i].tok {
            Tok::Int(_) | Tok::Float(_) => atom_ok(ts, i, d) == Some(i + 1),
            Tok::Str(parts) => all_literal(parts@) && atom_ok(ts, i, d) == Some(i + 1),
            Tok::LParen => d < MAX_PARSE_DEPTH && (expr_ok(ts, i + 1, d + 1) matches Some(k) && i + 1 < k < ts.len()
                && kind_at(ts, k) == Some(K::RParen) && atom_ok(ts, i, d) == Some(k + 1)),
            Tok::LBracket => d < MAX_PARSE_DEPTH && list_loop(ts, i + 1, d + 1) == atom_ok(ts, i, d),
            Tok::LBrace => d < MAX_PARSE_DEPTH && map_loop(ts, i + 1, d + 1) == atom_ok(ts, i, d),
            Tok::Word(w) => if keyword_literal(w@) is Some {
                atom_ok(ts, i, d) == Some(i + 1)
            } else {
                w@ != "fn"@ && kind_at(ts, i + 1) != Some(K::ColonColon) && !struct_brace(ts, i) && if kind_at(
                    ts,
                    i + 1,
                ) == Some(K::LParen) {
                    if command_word(w@) {
                        segs_ok(ts, i, d) == atom_ok(ts, i, d)
                    } else {
                        args_ok(ts, i + 2, d) == atom_ok(ts, i, d)
                    }
                } else if kind_at(ts, i + 1) == Some(K::Word) {
                    segs_ok(ts, i, d) == atom_ok(ts, i, d)
                } else {
                    atom_ok(ts, i, d) == Some(i + 1)
                }
            },
            _ => false,
        }),
{
    reveal_with_fuel(phrase, 1);
}

pub proof fn lemma_word_run(ts: Seq<Token>, i: int)
    ensures
        word_run(ts, i) == if 0 <= i < ts.len() && ts[i].tok is Word && !keyword_arg_at(ts, ts[i], i) {
            1 + word_run(ts, i + 1)
        } else {
            0
        },
{
    reveal_with_fuel(word_run, 1);
}

pub proof fn lemma_segs_ok(ts: Seq<Token>, i: int, d: int)
    ensures
        segs_ok(ts, i, d) is Some ==> (word_run(ts, i) > 0 && segs_loop(ts, i, d) == segs_ok(ts, i, d)),
{
    reveal_with_fuel(phrase, 1);
}

pub proof fn lemma_segs_loop(ts: Seq<Token>, i: int, d: int)
    ensures
        segs_loop(ts, i, d) is Some ==> ({
            let n = word_run(ts, i);
            if n == 0 {
                segs_loop(ts, i, d) == Some(i)
            } else {
                n > 0 && kind_at(ts, i + n) == Some(K::LParen) && (arglist_ok(ts, i + n, d) matches Some(k) && i + n
                    < k <= ts.len() && segs_loop(ts, k, d) == segs_loop(ts, i, d))
            }
        }),
{
    reveal_with_fuel(phrase, 1);
}

pub proof fn lemma_arglist_ok(ts: Seq<Token>, i: int, d: int)
    ensures
        arglist_ok(ts, i, d) is Some ==> (kind_at(ts, i) == Some(K::LParen) && d < MAX_PARSE_DEPTH && arg_loop(
            ts,
            i + 1,
            d + 1,
        ) == arglist_ok(ts, i, d)),
{
    reveal_with_fuel(phrase, 1);
}

pub proof fn lemma_arg_loop(ts: Seq<Token>, i: int, d: int)
    ensures
        arg_loop(ts, i, d) is Some ==> (i < ts.len() && if kind_at(ts, i) == Some(K::RParen) {
            arg_loop(ts, i, d) == Some(i + 1)
        } else if kind_at(ts, i) == Some(K::Comma) {
            arg_loop(ts, i + 1, d) == arg_loop(ts, i, d)
        } else if kind_at(ts, i) == Some(K::Word) && kind_at(ts, i + 1) == Some(K::Equals) {
            expr_ok(ts, i + 2, d) matches Some(k) && i + 2 < k <= ts.len() && arg_loop(ts, k, d) == arg_loop(ts, i, d)
        } else {
            expr_ok(ts, i, d) matches Some(k) && i < k <= ts.len() && arg_loop(ts, k, d) == arg_loop(ts, i, d)
        }),
{
    reveal_with_fuel(phrase, 1);
}

pub proof fn lemma_stmt_ok(ts: Seq<Token>, i: int, d: int)
    ensures
        stmt_ok(ts, i, d) == if in_range(ts, i, d) {
            stmt_step(ts, i, d)
        } else {
            None
        },
{
    reveal_with_fuel(sphrase, 1);
}

pub proof fn lemma_block_ok(ts: Seq<Token>, i: int, col: usize, d: int)
    ensures
        block_ok(ts, i, col, d) is Some ==> ({
            let k = skip_blank(ts, i);
            i <= k <= ts.len() && if block_stop(ts, k, col) {
                block_ok(ts, i, col, d) == Some(k)
            } else {
                stmt_ok(ts, k, d) matches Some(m) && k < m <= ts.len() && block_ok(ts, m, col, d) == block_ok(
                    ts,
                    i,
                    col,
                    d,
                )
            }
        }),
{
    reveal_with_fuel(sphrase, 1);
}

pub proof fn lemma_else_ok(ts: Seq<Token>, i: int, col: usize, d: int)
    ensures
        else_ok(ts, i, col, d) is Some ==> ({
            let j = skip_blank(ts, i);
            i <= j <= ts.len() && if word_at(ts, j, "else"@) && ts[j].col == col {
                colon_block(ts, j + 1, col, d) == else_ok(ts, i, col, d)
            } else {
                else_ok(ts, i, col, d) == Some(j)
            }
        }),
{
    reveal_with_fuel(sphrase, 1);
}

pub proof fn lemma_colon_block(ts: Seq<Token>, m: int, col: usize, d: int)
    ensures
        colon_block(ts, m, col, d) is Some ==> (kind_at(ts, m) == Some(K::Colon) && d < MAX_PARSE_DEPTH && (line_end(
            ts,
            m + 1,
        ) matches Some(q) && m < q <= ts.len() && block_ok(ts, q, col, d + 1) == colon_block(ts, m, col, d))),
{
    reveal_with_fuel(sphrase, 1);
}

pub proof fn lemma_phrase_err(ts: Seq<Token>, i: int, d: int, nt: Nt)
    ensures
        phrase_err(ts, i, d, nt) == phrase_err_step(ts, i, d, nt),
{
    reveal_with_fuel(phrase_err, 1);
}

} // verus!
