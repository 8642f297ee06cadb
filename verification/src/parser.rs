//! A recursive-descent parser from tokens to statements.
//!
//! Grammar for an expression (something that evaluates to a value):
//!
//! ```text
//! expression → equality ;
//! equality   → comparison ( ( "!=" | "==" ) comparison )* ;
//! comparison → term ( ( ">" | ">=" | "<" | "<=" ) term )* ;
//! term       → factor ( ( "-" | "+" ) factor )* ;
//! factor     → unary ( ( "/" | "*" ) unary )* ;
//! unary      → ( "!" | "-" ) unary | primary ;
//! primary    → literal | "(" expression ")" ;
//! ```
//!
//! and for a statement: `"print" expression ";"` or `expression ";"`.
//! A literal is a number, a string, `true`, `false` or `nil`; an identifier
//! is not an expression.

use vstd::prelude::*;
use vstd::string::StringExecFns;
use crate::expr::{is_binary_operator, is_unary_operator, well_formed, Expr};
use crate::stmt::{stmt_expr, stmt_well_formed, Stmt};
use crate::tokenizer::{Literal, Token, TokenType, TokenTypeModel};

verus! {

/// Why the tokens could not be parsed: the token where parsing stopped, and a
/// message.
#[derive(Debug, PartialEq)]
pub enum ParserError {
    SyntaxError(Token, String),
}

/// A parser error, its message as a sequence of characters.
pub enum ParserErrorModel {
    SyntaxError(Token, Seq<char>),
}

impl View for ParserError {
    type V = ParserErrorModel;

    open spec fn view(&self) -> ParserErrorModel {
        match self {
            ParserError::SyntaxError(t, m) => ParserErrorModel::SyntaxError(*t, m@),
        }
    }
}

/// The model of a parse result.
pub open spec fn result_model<T>(r: Result<T, ParserError>) -> Result<T, ParserErrorModel> {
    match r {
        Ok(v) => Ok(v),
        Err(e) => Err(e@),
    }
}

// ---------------------------------------------------------------------------
// The parser's specification. Each function takes the tokens and the position
// of the next token, and gives what is parsed there together with the
// position after it.
// ---------------------------------------------------------------------------

/// An expression parsed (or the error), and the position after it.
pub type ExprParse = (Result<Expr, ParserErrorModel>, int);

/// Whether some token at or after `p` ends the input.
pub open spec fn has_eof_from(ts: Seq<Token>, p: int) -> bool {
    exists|e: int| p <= e < ts.len() && (#[trigger] ts[e]).token_type is Eof
}

pub open spec fn at_end(ts: Seq<Token>, p: int) -> bool {
    0 <= p < ts.len() && ts[p].token_type is Eof
}

/// Whether the token at `p` is of kind `tt` (and the input has not ended).
pub open spec fn check(ts: Seq<Token>, p: int, tt: TokenType) -> bool {
    0 <= p < ts.len() && !at_end(ts, p) && ts[p].token_type@ == tt@
}

pub open spec fn advance(ts: Seq<Token>, p: int) -> int {
    if 0 <= p < ts.len() && !at_end(ts, p) {
        p + 1
    } else {
        p
    }
}

pub open spec fn check_any(ts: Seq<Token>, p: int, tts: Seq<TokenType>) -> bool {
    exists|i: int| 0 <= i < tts.len() && check(ts, p, #[trigger] tts[i])
}

pub open spec fn equality_ops() -> Seq<TokenType> {
    seq![TokenType::BangEqual, TokenType::EqualEqual]
}

pub open spec fn comparison_ops() -> Seq<TokenType> {
    seq![TokenType::Greater, TokenType::GreaterEqual, TokenType::Less, TokenType::LessEqual]
}

pub open spec fn term_ops() -> Seq<TokenType> {
    seq![TokenType::Minus, TokenType::Plus]
}

pub open spec fn factor_ops() -> Seq<TokenType> {
    seq![TokenType::Slash, TokenType::Star]
}

pub open spec fn unary_ops() -> Seq<TokenType> {
    seq![TokenType::Bang, TokenType::Minus]
}

pub open spec fn binary(lhs: Expr, op: Token, rhs: Expr) -> Expr {
    Expr::Binary { lhs: Box::new(lhs), op, rhs: Box::new(rhs) }
}

pub open spec fn syntax_error<T>(ts: Seq<Token>, p: int, msg: Seq<char>) -> Result<T, ParserErrorModel> {
    Err(ParserErrorModel::SyntaxError(ts[p], msg))
}

pub open spec fn spec_expression(ts: Seq<Token>, p: int) -> ExprParse
    decreases ts.len() - p, 13int,
{
    spec_equality(ts, p)
}

pub open spec fn spec_equality(ts: Seq<Token>, p: int) -> ExprParse
    decreases ts.len() - p, 12int,
{
    let (r, p1) = spec_comparison(ts, p);
    match r {
        Err(e) => (Err(e), p1),
        Ok(e) => if p <= p1 <= ts.len() {
            spec_equality_rest(ts, e, p1)
        } else {
            (Ok(e), p1)
        },
    }
}

/// Having parsed `left`, the rest of `equality` from `p` on.
pub open spec fn spec_equality_rest(ts: Seq<Token>, left: Expr, p: int) -> ExprParse
    decreases ts.len() - p, 11int,
{
    if check_any(ts, p, equality_ops()) {
        let (r, p2) = spec_comparison(ts, p + 1);
        match r {
            Err(e) => (Err(e), p2),
            Ok(right) => if p < p2 <= ts.len() {
                spec_equality_rest(ts, binary(left, ts[p], right), p2)
            } else {
                (Ok(binary(left, ts[p], right)), p2)
            },
        }
    } else {
        (Ok(left), p)
    }
}

pub open spec fn spec_comparison(ts: Seq<Token>, p: int) -> ExprParse
    decreases ts.len() - p, 10int,
{
    let (r, p1) = spec_term(ts, p);
    match r {
        Err(e) => (Err(e), p1),
        Ok(e) => if p <= p1 <= ts.len() {
            spec_comparison_rest(ts, e, p1)
        } else {
            (Ok(e), p1)
        },
    }
}

pub open spec fn spec_comparison_rest(ts: Seq<Token>, left: Expr, p: int) -> ExprParse
    decreases ts.len() - p, 9int,
{
    if check_any(ts, p, comparison_ops()) {
        let (r, p2) = spec_term(ts, p + 1);
        match r {
            Err(e) => (Err(e), p2),
            Ok(right) => if p < p2 <= ts.len() {
                spec_comparison_rest(ts, binary(left, ts[p], right), p2)
            } else {
                (Ok(binary(left, ts[p], right)), p2)
            },
        }
    } else {
        (Ok(left), p)
    }
}

pub open spec fn spec_term(ts: Seq<Token>, p: int) -> ExprParse
    decreases ts.len() - p, 8int,
{
    let (r, p1) = spec_factor(ts, p);
    match r {
        Err(e) => (Err(e), p1),
        Ok(e) => if p <= p1 <= ts.len() {
            spec_term_rest(ts, e, p1)
        } else {
            (Ok(e), p1)
        },
    }
}

pub open spec fn spec_term_rest(ts: Seq<Token>, left: Expr, p: int) -> ExprParse
    decreases ts.len() - p, 7int,
{
    if check_any(ts, p, term_ops()) {
        let (r, p2) = spec_factor(ts, p + 1);
        match r {
            Err(e) => (Err(e), p2),
            Ok(right) => if p < p2 <= ts.len() {
                spec_term_rest(ts, binary(left, ts[p], right), p2)
            } else {
                (Ok(binary(left, ts[p], right)), p2)
            },
        }
    } else {
        (Ok(left), p)
    }
}

pub open spec fn spec_factor(ts: Seq<Token>, p: int) -> ExprParse
    decreases ts.len() - p, 6int,
{
    let (r, p1) = spec_unary(ts, p);
    match r {
        Err(e) => (Err(e), p1),
        Ok(e) => if p <= p1 <= ts.len() {
            spec_factor_rest(ts, e, p1)
        } else {
            (Ok(e), p1)
        },
    }
}

pub open spec fn spec_factor_rest(ts: Seq<Token>, left: Expr, p: int) -> ExprParse
    decreases ts.len() - p, 5int,
{
    if check_any(ts, p, factor_ops()) {
        let (r, p2) = spec_unary(ts, p + 1);
        match r {
            Err(e) => (Err(e), p2),
            Ok(right) => if p < p2 <= ts.len() {
                spec_factor_rest(ts, binary(left, ts[p], right), p2)
            } else {
                (Ok(binary(left, ts[p], right)), p2)
            },
        }
    } else {
        (Ok(left), p)
    }
}

pub open spec fn spec_unary(ts: Seq<Token>, p: int) -> ExprParse
    decreases ts.len() - p, 4int,
{
    if check_any(ts, p, unary_ops()) {
        let (r, p2) = spec_unary(ts, p + 1);
        match r {
            Err(e) => (Err(e), p2),
            Ok(right) => (Ok(Expr::Unary { op: ts[p], rhs: Box::new(right) }), p2),
        }
    } else {
        spec_primary(ts, p)
    }
}

pub open spec fn spec_primary(ts: Seq<Token>, p: int) -> ExprParse
    decreases ts.len() - p, 3int,
{
    if !(0 <= p < ts.len()) {
        (syntax_error(ts, p, "Expected expression"@), p)
    } else {
        match ts[p].token_type {
            TokenType::Literal(literal) => if literal is Identifier {
                (syntax_error(ts, p, "Expected expression"@), p)
            } else {
                (Ok(Expr::Literal { literal }), advance(ts, p))
            },
            TokenType::LeftParenthesis => {
                let (r, p2) = spec_expression(ts, p + 1);
                match r {
                    Err(e) => (Err(e), p2),
                    Ok(e) => if check(ts, p2, TokenType::RightParenthesis) {
                        (Ok(Expr::Grouping { expr: Box::new(e) }), advance(ts, p2))
                    } else {
                        (syntax_error(ts, p2, "Expect ')' after expression."@), p2)
                    },
                }
            },
            _ => (syntax_error(ts, p, "Expected expression"@), p),
        }
    }
}

/// A statement from `p` on, and the position after it.
pub open spec fn spec_statement(ts: Seq<Token>, p: int) -> (Result<Stmt, ParserErrorModel>, int) {
    let is_print = check(ts, p, TokenType::Print);
    spec_statement_after(ts, if is_print { p + 1 } else { p }, is_print)
}

/// The statement made of the expression at `p` and a `;` after it: a `print`
/// statement if `is_print` (its `print` keyword read already), else an
/// expression statement.
pub open spec fn spec_statement_after(ts: Seq<Token>, p: int, is_print: bool) -> (Result<Stmt, ParserErrorModel>, int) {
    let (er, p1) = spec_expression(ts, p);
    match er {
        Err(e) => (Err(e), p1),
        Ok(e) => if check(ts, p1, TokenType::Semicolon) {
            (Ok(if is_print { Stmt::Print { expr: e } } else { Stmt::Expression { expr: e } }), advance(ts, p1))
        } else {
            (syntax_error(ts, p1, "Expect ';' after value."@), p1)
        },
    }
}

/// The statements from `p` up to the end of the input.
pub open spec fn spec_statements(ts: Seq<Token>, p: int) -> Result<Seq<Stmt>, ParserErrorModel>
    decreases ts.len() - p,
{
    if !(0 <= p < ts.len()) || at_end(ts, p) {
        Ok(seq![])
    } else {
        let (r, p1) = spec_statement(ts, p);
        match r {
            Err(e) => Err(e),
            Ok(s) => if p < p1 <= ts.len() {
                match spec_statements(ts, p1) {
                    Ok(rest) => Ok(seq![s] + rest),
                    Err(e) => Err(e),
                }
            } else {
                Ok(seq![s])
            },
        }
    }
}

/// The position of the last token that parsing from `p` reads: where it
/// finds the end of the input, or the token of the error it stops at.
pub open spec fn parse_end(ts: Seq<Token>, p: int) -> int
    decreases ts.len() - p,
{
    if !(0 <= p < ts.len()) || at_end(ts, p) {
        p
    } else {
        let (r, p1) = spec_statement(ts, p);
        match r {
            Err(_) => p1,
            Ok(_) => if p < p1 <= ts.len() {
                parse_end(ts, p1)
            } else {
                p1
            },
        }
    }
}

/// The statements that the tokens `ts` spell.
pub open spec fn spec_parse(ts: Seq<Token>) -> Result<Seq<Stmt>, ParserErrorModel> {
    spec_statements(ts, 0)
}


// ---------------------------------------------------------------------------
// Facts about the specification: what is parsed is well formed, positions
// only move forward, parsing never passes an `Eof` token, and it reads nothing
// after one.
// ---------------------------------------------------------------------------

proof fn lemma_check_any_in_range(ts: Seq<Token>, p: int, tts: Seq<TokenType>)
    requires
        check_any(ts, p, tts),
    ensures
        0 <= p < ts.len(),
        !at_end(ts, p),
        exists|i: int| 0 <= i < tts.len() && ts[p].token_type@ == (#[trigger] tts[i])@,
{
    let i = choose|i: int| 0 <= i < tts.len() && check(ts, p, #[trigger] tts[i]);
    assert(ts[p].token_type@ == tts[i]@);
}

proof fn lemma_check_any_agree(t1: Seq<Token>, t2: Seq<Token>, p: int, tts: Seq<TokenType>)
    requires
        0 <= p < t1.len(),
        p < t2.len(),
        t1[p] == t2[p],
    ensures
        check_any(t1, p, tts) == check_any(t2, p, tts),
        forall|tt: TokenType| check(t1, p, tt) == check(t2, p, tt),
        at_end(t1, p) == at_end(t2, p),
        advance(t1, p) == advance(t2, p),
{
    if check_any(t1, p, tts) {
        let i = choose|i: int| 0 <= i < tts.len() && check(t1, p, #[trigger] tts[i]);
        assert(check(t2, p, tts[i]));
    }
    if check_any(t2, p, tts) {
        let i = choose|i: int| 0 <= i < tts.len() && check(t2, p, #[trigger] tts[i]);
        assert(check(t1, p, tts[i]));
    }
}

/// `t1` and `t2` hold the same tokens up to and including the `Eof` token at `e`.
pub open spec fn agree_through(t1: Seq<Token>, t2: Seq<Token>, e: int) -> bool {
    &&& 0 <= e < t1.len()
    &&& e < t2.len()
    &&& t1[e].token_type is Eof
    &&& forall|i: int| 0 <= i <= e ==> t1[i] == t2[i]
}

proof fn lemma_wf_expression(ts: Seq<Token>, p: int)
    ensures
        spec_expression(ts, p).0 matches Ok(e) ==> well_formed(e),
    decreases ts.len() - p, 13int,
{
    lemma_wf_equality(ts, p);
}

proof fn lemma_wf_equality(ts: Seq<Token>, p: int)
    ensures
        spec_equality(ts, p).0 matches Ok(e) ==> well_formed(e),
    decreases ts.len() - p, 12int,
{
    lemma_wf_comparison(ts, p);
    let (r, p1) = spec_comparison(ts, p);
    if let Ok(e) = r {
        if p <= p1 <= ts.len() {
            lemma_wf_equality_rest(ts, e, p1);
        }
    }
}

proof fn lemma_wf_equality_rest(ts: Seq<Token>, left: Expr, p: int)
    requires
        well_formed(left),
    ensures
        spec_equality_rest(ts, left, p).0 matches Ok(e) ==> well_formed(e),
    decreases ts.len() - p, 11int,
{
    if check_any(ts, p, equality_ops()) {
        lemma_check_any_in_range(ts, p, equality_ops());
        lemma_wf_comparison(ts, p + 1);
        let (r, p2) = spec_comparison(ts, p + 1);
        if let Ok(right) = r {
            assert(is_binary_operator(ts[p].token_type));
            assert(well_formed(binary(left, ts[p], right)));
            if p < p2 <= ts.len() {
                lemma_wf_equality_rest(ts, binary(left, ts[p], right), p2);
            }
        }
    }
}

proof fn lemma_wf_comparison(ts: Seq<Token>, p: int)
    ensures
        spec_comparison(ts, p).0 matches Ok(e) ==> well_formed(e),
    decreases ts.len() - p, 10int,
{
    lemma_wf_term(ts, p);
    let (r, p1) = spec_term(ts, p);
    if let Ok(e) = r {
        if p <= p1 <= ts.len() {
            lemma_wf_comparison_rest(ts, e, p1);
        }
    }
}

proof fn lemma_wf_comparison_rest(ts: Seq<Token>, left: Expr, p: int)
    requires
        well_formed(left),
    ensures
        spec_comparison_rest(ts, left, p).0 matches Ok(e) ==> well_formed(e),
    decreases ts.len() - p, 9int,
{
    if check_any(ts, p, comparison_ops()) {
        lemma_check_any_in_range(ts, p, comparison_ops());
        lemma_wf_term(ts, p + 1);
        let (r, p2) = spec_term(ts, p + 1);
        if let Ok(right) = r {
            assert(is_binary_operator(ts[p].token_type));
            assert(well_formed(binary(left, ts[p], right)));
            if p < p2 <= ts.len() {
                lemma_wf_comparison_rest(ts, binary(left, ts[p], right), p2);
            }
        }
    }
}

proof fn lemma_wf_term(ts: Seq<Token>, p: int)
    ensures
        spec_term(ts, p).0 matches Ok(e) ==> well_formed(e),
    decreases ts.len() - p, 8int,
{
    lemma_wf_factor(ts, p);
    let (r, p1) = spec_factor(ts, p);
    if let Ok(e) = r {
        if p <= p1 <= ts.len() {
            lemma_wf_term_rest(ts, e, p1);
        }
    }
}

proof fn lemma_wf_term_rest(ts: Seq<Token>, left: Expr, p: int)
    requires
        well_formed(left),
    ensures
        spec_term_rest(ts, left, p).0 matches Ok(e) ==> well_formed(e),
    decreases ts.len() - p, 7int,
{
    if check_any(ts, p, term_ops()) {
        lemma_check_any_in_range(ts, p, term_ops());
        lemma_wf_factor(ts, p + 1);
        let (r, p2) = spec_factor(ts, p + 1);
        if let Ok(right) = r {
            assert(is_binary_operator(ts[p].token_type));
            assert(well_formed(binary(left, ts[p], right)));
            if p < p2 <= ts.len() {
                lemma_wf_term_rest(ts, binary(left, ts[p], right), p2);
            }
        }
    }
}

proof fn lemma_wf_factor(ts: Seq<Token>, p: int)
    ensures
        spec_factor(ts, p).0 matches Ok(e) ==> well_formed(e),
    decreases ts.len() - p, 6int,
{
    lemma_wf_unary(ts, p);
    let (r, p1) = spec_unary(ts, p);
    if let Ok(e) = r {
        if p <= p1 <= ts.len() {
            lemma_wf_factor_rest(ts, e, p1);
        }
    }
}

proof fn lemma_wf_factor_rest(ts: Seq<Token>, left: Expr, p: int)
    requires
        well_formed(left),
    ensures
        spec_factor_rest(ts, left, p).0 matches Ok(e) ==> well_formed(e),
    decreases ts.len() - p, 5int,
{
    if check_any(ts, p, factor_ops()) {
        lemma_check_any_in_range(ts, p, factor_ops());
        lemma_wf_unary(ts, p + 1);
        let (r, p2) = spec_unary(ts, p + 1);
        if let Ok(right) = r {
            assert(is_binary_operator(ts[p].token_type));
            assert(well_formed(binary(left, ts[p], right)));
            if p < p2 <= ts.len() {
                lemma_wf_factor_rest(ts, binary(left, ts[p], right), p2);
            }
        }
    }
}

proof fn lemma_wf_unary(ts: Seq<Token>, p: int)
    ensures
        spec_unary(ts, p).0 matches Ok(e) ==> well_formed(e),
    decreases ts.len() - p, 4int,
{
    if check_any(ts, p, unary_ops()) {
        lemma_check_any_in_range(ts, p, unary_ops());
        lemma_wf_unary(ts, p + 1);
        assert(is_unary_operator(ts[p].token_type));
    } else {
        lemma_wf_primary(ts, p);
    }
}

proof fn lemma_wf_primary(ts: Seq<Token>, p: int)
    ensures
        spec_primary(ts, p).0 matches Ok(e) ==> well_formed(e),
    decreases ts.len() - p, 3int,
{
    if 0 <= p < ts.len() {
        if ts[p].token_type is LeftParenthesis {
            lemma_wf_expression(ts, p + 1);
        }
    }
}

proof fn lemma_wf_statements(ts: Seq<Token>, p: int)
    ensures
        spec_statements(ts, p) matches Ok(ss) ==> forall|k: int|
            0 <= k < ss.len() ==> stmt_well_formed(#[trigger] ss[k]) && !(ss[k] is Var),
    decreases ts.len() - p,
{
    if !(0 <= p < ts.len()) || at_end(ts, p) {
    } else {
        let is_print = check(ts, p, TokenType::Print);
        lemma_wf_expression(ts, if is_print { p + 1 } else { p });
        let (r, p1) = spec_statement(ts, p);
        if let Ok(s) = r {
            if p < p1 <= ts.len() {
                lemma_wf_statements(ts, p1);
                if let Ok(rest) = spec_statements(ts, p1) {
                    let all = seq![s] + rest;
                    assert forall|k: int| 0 <= k < all.len() implies stmt_well_formed(#[trigger] all[k])
                        && !(all[k] is Var) by {
                        if k > 0 {
                            assert(all[k] == rest[k - 1]);
                        }
                    }
                }
            }
        }
    }
}

/// Every statement that parsing gives is well formed (its operators are ones
/// that the evaluator knows), and none is a `var` statement.
pub proof fn lemma_parse_well_formed(ts: Seq<Token>)
    ensures
        spec_parse(ts) matches Ok(ss) ==> forall|k: int|
            0 <= k < ss.len() ==> stmt_well_formed(#[trigger] ss[k]) && !(ss[k] is Var),
{
    lemma_wf_statements(ts, 0);
}

proof fn lemma_mono_expression(ts: Seq<Token>, p: int)
    ensures
        spec_expression(ts, p).1 >= p,
        spec_expression(ts, p).0 is Ok ==> spec_expression(ts, p).1 > p,
    decreases ts.len() - p, 13int,
{
    lemma_mono_equality(ts, p);
}

proof fn lemma_mono_equality(ts: Seq<Token>, p: int)
    ensures
        spec_equality(ts, p).1 >= p,
        spec_equality(ts, p).0 is Ok ==> spec_equality(ts, p).1 > p,
    decreases ts.len() - p, 12int,
{
    lemma_mono_comparison(ts, p);
    let (r, p1) = spec_comparison(ts, p);
    if let Ok(e) = r {
        if p <= p1 <= ts.len() {
            lemma_mono_equality_rest(ts, e, p1);
        }
    }
}

proof fn lemma_mono_equality_rest(ts: Seq<Token>, left: Expr, p: int)
    ensures
        spec_equality_rest(ts, left, p).1 >= p,
    decreases ts.len() - p, 11int,
{
    if check_any(ts, p, equality_ops()) {
        lemma_check_any_in_range(ts, p, equality_ops());
        lemma_mono_comparison(ts, p + 1);
        let (r, p2) = spec_comparison(ts, p + 1);
        if let Ok(right) = r {
            if p < p2 <= ts.len() {
                lemma_mono_equality_rest(ts, binary(left, ts[p], right), p2);
            }
        }
    }
}

proof fn lemma_mono_comparison(ts: Seq<Token>, p: int)
    ensures
        spec_comparison(ts, p).1 >= p,
        spec_comparison(ts, p).0 is Ok ==> spec_comparison(ts, p).1 > p,
    decreases ts.len() - p, 10int,
{
    lemma_mono_term(ts, p);
    let (r, p1) = spec_term(ts, p);
    if let Ok(e) = r {
        if p <= p1 <= ts.len() {
            lemma_mono_comparison_rest(ts, e, p1);
        }
    }
}

proof fn lemma_mono_comparison_rest(ts: Seq<Token>, left: Expr, p: int)
    ensures
        spec_comparison_rest(ts, left, p).1 >= p,
    decreases ts.len() - p, 9int,
{
    if check_any(ts, p, comparison_ops()) {
        lemma_check_any_in_range(ts, p, comparison_ops());
        lemma_mono_term(ts, p + 1);
        let (r, p2) = spec_term(ts, p + 1);
        if let Ok(right) = r {
            if p < p2 <= ts.len() {
                lemma_mono_comparison_rest(ts, binary(left, ts[p], right), p2);
            }
        }
    }
}

proof fn lemma_mono_term(ts: Seq<Token>, p: int)
    ensures
        spec_term(ts, p).1 >= p,
        spec_term(ts, p).0 is Ok ==> spec_term(ts, p).1 > p,
    decreases ts.len() - p, 8int,
{
    lemma_mono_factor(ts, p);
    let (r, p1) = spec_factor(ts, p);
    if let Ok(e) = r {
        if p <= p1 <= ts.len() {
            lemma_mono_term_rest(ts, e, p1);
        }
    }
}

proof fn lemma_mono_term_rest(ts: Seq<Token>, left: Expr, p: int)
    ensures
        spec_term_rest(ts, left, p).1 >= p,
    decreases ts.len() - p, 7int,
{
    if check_any(ts, p, term_ops()) {
        lemma_check_any_in_range(ts, p, term_ops());
        lemma_mono_factor(ts, p + 1);
        let (r, p2) = spec_factor(ts, p + 1);
        if let Ok(right) = r {
            if p < p2 <= ts.len() {
                lemma_mono_term_rest(ts, binary(left, ts[p], right), p2);
            }
        }
    }
}

proof fn lemma_mono_factor(ts: Seq<Token>, p: int)
    ensures
        spec_factor(ts, p).1 >= p,
        spec_factor(ts, p).0 is Ok ==> spec_factor(ts, p).1 > p,
    decreases ts.len() - p, 6int,
{
    lemma_mono_unary(ts, p);
    let (r, p1) = spec_unary(ts, p);
    if let Ok(e) = r {
        if p <= p1 <= ts.len() {
            lemma_mono_factor_rest(ts, e, p1);
        }
    }
}

proof fn lemma_mono_factor_rest(ts: Seq<Token>, left: Expr, p: int)
    ensures
        spec_factor_rest(ts, left, p).1 >= p,
    decreases ts.len() - p, 5int,
{
    if check_any(ts, p, factor_ops()) {
        lemma_check_any_in_range(ts, p, factor_ops());
        lemma_mono_unary(ts, p + 1);
        let (r, p2) = spec_unary(ts, p + 1);
        if let Ok(right) = r {
            if p < p2 <= ts.len() {
                lemma_mono_factor_rest(ts, binary(left, ts[p], right), p2);
            }
        }
    }
}

proof fn lemma_mono_unary(ts: Seq<Token>, p: int)
    ensures
        spec_unary(ts, p).1 >= p,
        spec_unary(ts, p).0 is Ok ==> spec_unary(ts, p).1 > p,
    decreases ts.len() - p, 4int,
{
    if check_any(ts, p, unary_ops()) {
        lemma_check_any_in_range(ts, p, unary_ops());
        lemma_mono_unary(ts, p + 1);
    } else {
        lemma_mono_primary(ts, p);
    }
}

proof fn lemma_mono_primary(ts: Seq<Token>, p: int)
    ensures
        spec_primary(ts, p).1 >= p,
        spec_primary(ts, p).0 is Ok ==> spec_primary(ts, p).1 > p,
    decreases ts.len() - p, 3int,
{
    if 0 <= p < ts.len() {
        if ts[p].token_type is LeftParenthesis {
            lemma_mono_expression(ts, p + 1);
        }
    }
}

proof fn lemma_mono_statement(ts: Seq<Token>, p: int)
    ensures
        spec_statement(ts, p).1 >= p,
        spec_statement(ts, p).0 is Ok ==> spec_statement(ts, p).1 > p,
{
    let is_print = check(ts, p, TokenType::Print);
    lemma_mono_expression(ts, if is_print { p + 1 } else { p });
}

proof fn lemma_mono_parse_end(ts: Seq<Token>, p: int)
    ensures
        parse_end(ts, p) >= p,
    decreases ts.len() - p,
{
    if !(0 <= p < ts.len()) || at_end(ts, p) {
    } else {
        lemma_mono_statement(ts, p);
        let (r, p1) = spec_statement(ts, p);
        if r is Ok && p < p1 <= ts.len() {
            lemma_mono_parse_end(ts, p1);
        }
    }
}

proof fn lemma_eof_expression(ts: Seq<Token>, p: int, e: int)
    requires
        0 <= p <= e < ts.len(),
        ts[e].token_type is Eof,
    ensures
        spec_expression(ts, p).1 <= e,
    decreases ts.len() - p, 13int,
{
    lemma_eof_equality(ts, p, e);
}

proof fn lemma_eof_equality(ts: Seq<Token>, p: int, e: int)
    requires
        0 <= p <= e < ts.len(),
        ts[e].token_type is Eof,
    ensures
        spec_equality(ts, p).1 <= e,
    decreases ts.len() - p, 12int,
{
    lemma_eof_comparison(ts, p, e);
    lemma_mono_comparison(ts, p);
    let (r, p1) = spec_comparison(ts, p);
    if let Ok(x) = r {
        if p <= p1 <= ts.len() {
            lemma_eof_equality_rest(ts, x, p1, e);
        }
    }
}

proof fn lemma_eof_equality_rest(ts: Seq<Token>, left: Expr, p: int, e: int)
    requires
        0 <= p <= e < ts.len(),
        ts[e].token_type is Eof,
    ensures
        spec_equality_rest(ts, left, p).1 <= e,
    decreases ts.len() - p, 11int,
{
    if check_any(ts, p, equality_ops()) {
        lemma_check_any_in_range(ts, p, equality_ops());
        lemma_eof_comparison(ts, p + 1, e);
        lemma_mono_comparison(ts, p + 1);
        let (r, p2) = spec_comparison(ts, p + 1);
        if let Ok(right) = r {
            if p < p2 <= ts.len() {
                lemma_eof_equality_rest(ts, binary(left, ts[p], right), p2, e);
            }
        }
    }
}

proof fn lemma_eof_comparison(ts: Seq<Token>, p: int, e: int)
    requires
        0 <= p <= e < ts.len(),
        ts[e].token_type is Eof,
    ensures
        spec_comparison(ts, p).1 <= e,
    decreases ts.len() - p, 10int,
{
    lemma_eof_term(ts, p, e);
    lemma_mono_term(ts, p);
    let (r, p1) = spec_term(ts, p);
    if let Ok(x) = r {
        if p <= p1 <= ts.len() {
            lemma_eof_comparison_rest(ts, x, p1, e);
        }
    }
}

proof fn lemma_eof_comparison_rest(ts: Seq<Token>, left: Expr, p: int, e: int)
    requires
        0 <= p <= e < ts.len(),
        ts[e].token_type is Eof,
    ensures
        spec_comparison_rest(ts, left, p).1 <= e,
    decreases ts.len() - p, 9int,
{
    if check_any(ts, p, comparison_ops()) {
        lemma_check_any_in_range(ts, p, comparison_ops());
        lemma_eof_term(ts, p + 1, e);
        lemma_mono_term(ts, p + 1);
        let (r, p2) = spec_term(ts, p + 1);
        if let Ok(right) = r {
            if p < p2 <= ts.len() {
                lemma_eof_comparison_rest(ts, binary(left, ts[p], right), p2, e);
            }
        }
    }
}

proof fn lemma_eof_term(ts: Seq<Token>, p: int, e: int)
    requires
        0 <= p <= e < ts.len(),
        ts[e].token_type is Eof,
    ensures
        spec_term(ts, p).1 <= e,
    decreases ts.len() - p, 8int,
{
    lemma_eof_factor(ts, p, e);
    lemma_mono_factor(ts, p);
    let (r, p1) = spec_factor(ts, p);
    if let Ok(x) = r {
        if p <= p1 <= ts.len() {
            lemma_eof_term_rest(ts, x, p1, e);
        }
    }
}

proof fn lemma_eof_term_rest(ts: Seq<Token>, left: Expr, p: int, e: int)
    requires
        0 <= p <= e < ts.len(),
        ts[e].token_type is Eof,
    ensures
        spec_term_rest(ts, left, p).1 <= e,
    decreases ts.len() - p, 7int,
{
    if check_any(ts, p, term_ops()) {
        lemma_check_any_in_range(ts, p, term_ops());
        lemma_eof_factor(ts, p + 1, e);
        lemma_mono_factor(ts, p + 1);
        let (r, p2) = spec_factor(ts, p + 1);
        if let Ok(right) = r {
            if p < p2 <= ts.len() {
                lemma_eof_term_rest(ts, binary(left, ts[p], right), p2, e);
            }
        }
    }
}

proof fn lemma_eof_factor(ts: Seq<Token>, p: int, e: int)
    requires
        0 <= p <= e < ts.len(),
        ts[e].token_type is Eof,
    ensures
        spec_factor(ts, p).1 <= e,
    decreases ts.len() - p, 6int,
{
    lemma_eof_unary(ts, p, e);
    lemma_mono_unary(ts, p);
    let (r, p1) = spec_unary(ts, p);
    if let Ok(x) = r {
        if p <= p1 <= ts.len() {
            lemma_eof_factor_rest(ts, x, p1, e);
        }
    }
}

proof fn lemma_eof_factor_rest(ts: Seq<Token>, left: Expr, p: int, e: int)
    requires
        0 <= p <= e < ts.len(),
        ts[e].token_type is Eof,
    ensures
        spec_factor_rest(ts, left, p).1 <= e,
    decreases ts.len() - p, 5int,
{
    if check_any(ts, p, factor_ops()) {
        lemma_check_any_in_range(ts, p, factor_ops());
        lemma_eof_unary(ts, p + 1, e);
        lemma_mono_unary(ts, p + 1);
        let (r, p2) = spec_unary(ts, p + 1);
        if let Ok(right) = r {
            if p < p2 <= ts.len() {
                lemma_eof_factor_rest(ts, binary(left, ts[p], right), p2, e);
            }
        }
    }
}

proof fn lemma_eof_unary(ts: Seq<Token>, p: int, e: int)
    requires
        0 <= p <= e < ts.len(),
        ts[e].token_type is Eof,
    ensures
        spec_unary(ts, p).1 <= e,
    decreases ts.len() - p, 4int,
{
    if check_any(ts, p, unary_ops()) {
        lemma_check_any_in_range(ts, p, unary_ops());
        lemma_eof_unary(ts, p + 1, e);
    } else {
        lemma_eof_primary(ts, p, e);
    }
}

proof fn lemma_eof_primary(ts: Seq<Token>, p: int, e: int)
    requires
        0 <= p <= e < ts.len(),
        ts[e].token_type is Eof,
    ensures
        spec_primary(ts, p).1 <= e,
    decreases ts.len() - p, 3int,
{
    if ts[p].token_type is LeftParenthesis {
        lemma_eof_expression(ts, p + 1, e);
    }
}

proof fn lemma_eof_statement(ts: Seq<Token>, p: int, e: int)
    requires
        0 <= p <= e < ts.len(),
        ts[e].token_type is Eof,
    ensures
        spec_statement(ts, p).1 <= e,
{
    let is_print = check(ts, p, TokenType::Print);
    lemma_eof_expression(ts, if is_print { p + 1 } else { p }, e);
}

proof fn lemma_eof_parse_end(ts: Seq<Token>, p: int, e: int)
    requires
        0 <= p <= e < ts.len(),
        ts[e].token_type is Eof,
    ensures
        parse_end(ts, p) <= e,
    decreases ts.len() - p,
{
    if at_end(ts, p) {
    } else {
        lemma_eof_statement(ts, p, e);
        let (r, p1) = spec_statement(ts, p);
        lemma_mono_statement(ts, p);
        if r is Ok && p < p1 <= ts.len() {
            lemma_eof_parse_end(ts, p1, e);
        }
    }
}

/// When some token is `Eof`, parsing stops at or before the first one, so
/// it reads no token past the end.
pub proof fn lemma_parse_stops_at_eof(ts: Seq<Token>)
    requires
        has_eof_from(ts, 0),
    ensures
        parse_end(ts, 0) < ts.len(),
{
    let e = choose|e: int| 0 <= e < ts.len() && (#[trigger] ts[e]).token_type is Eof;
    lemma_eof_parse_end(ts, 0, e);
}

proof fn lemma_agree_expression(t1: Seq<Token>, t2: Seq<Token>, p: int, e: int)
    requires
        agree_through(t1, t2, e),
        0 <= p <= e,
    ensures
        spec_expression(t1, p) == spec_expression(t2, p),
    decreases t1.len() - p, 13int,
{
    lemma_agree_equality(t1, t2, p, e);
}

proof fn lemma_agree_equality(t1: Seq<Token>, t2: Seq<Token>, p: int, e: int)
    requires
        agree_through(t1, t2, e),
        0 <= p <= e,
    ensures
        spec_equality(t1, p) == spec_equality(t2, p),
    decreases t1.len() - p, 12int,
{
    lemma_agree_comparison(t1, t2, p, e);
    lemma_eof_comparison(t1, p, e);
    lemma_mono_comparison(t1, p);
    let (r, p1) = spec_comparison(t1, p);
    if let Ok(x) = r {
        lemma_agree_equality_rest(t1, t2, x, p1, e);
    }
}

proof fn lemma_agree_equality_rest(t1: Seq<Token>, t2: Seq<Token>, left: Expr, p: int, e: int)
    requires
        agree_through(t1, t2, e),
        0 <= p <= e,
    ensures
        spec_equality_rest(t1, left, p) == spec_equality_rest(t2, left, p),
    decreases t1.len() - p, 11int,
{
    lemma_check_any_agree(t1, t2, p, equality_ops());
    if check_any(t1, p, equality_ops()) {
        lemma_check_any_in_range(t1, p, equality_ops());
        lemma_agree_comparison(t1, t2, p + 1, e);
        lemma_eof_comparison(t1, p + 1, e);
        lemma_mono_comparison(t1, p + 1);
        let (r, p2) = spec_comparison(t1, p + 1);
        if let Ok(right) = r {
            lemma_agree_equality_rest(t1, t2, binary(left, t1[p], right), p2, e);
        }
    }
}

proof fn lemma_agree_comparison(t1: Seq<Token>, t2: Seq<Token>, p: int, e: int)
    requires
        agree_through(t1, t2, e),
        0 <= p <= e,
    ensures
        spec_comparison(t1, p) == spec_comparison(t2, p),
    decreases t1.len() - p, 10int,
{
    lemma_agree_term(t1, t2, p, e);
    lemma_eof_term(t1, p, e);
    lemma_mono_term(t1, p);
    let (r, p1) = spec_term(t1, p);
    if let Ok(x) = r {
        lemma_agree_comparison_rest(t1, t2, x, p1, e);
    }
}

proof fn lemma_agree_comparison_rest(t1: Seq<Token>, t2: Seq<Token>, left: Expr, p: int, e: int)
    requires
        agree_through(t1, t2, e),
        0 <= p <= e,
    ensures
        spec_comparison_rest(t1, left, p) == spec_comparison_rest(t2, left, p),
    decreases t1.len() - p, 9int,
{
    lemma_check_any_agree(t1, t2, p, comparison_ops());
    if check_any(t1, p, comparison_ops()) {
        lemma_check_any_in_range(t1, p, comparison_ops());
        lemma_agree_term(t1, t2, p + 1, e);
        lemma_eof_term(t1, p + 1, e);
        lemma_mono_term(t1, p + 1);
        let (r, p2) = spec_term(t1, p + 1);
        if let Ok(right) = r {
            lemma_agree_comparison_rest(t1, t2, binary(left, t1[p], right), p2, e);
        }
    }
}

proof fn lemma_agree_term(t1: Seq<Token>, t2: Seq<Token>, p: int, e: int)
    requires
        agree_through(t1, t2, e),
        0 <= p <= e,
    ensures
        spec_term(t1, p) == spec_term(t2, p),
    decreases t1.len() - p, 8int,
{
    lemma_agree_factor(t1, t2, p, e);
    lemma_eof_factor(t1, p, e);
    lemma_mono_factor(t1, p);
    let (r, p1) = spec_factor(t1, p);
    if let Ok(x) = r {
        lemma_agree_term_rest(t1, t2, x, p1, e);
    }
}

proof fn lemma_agree_term_rest(t1: Seq<Token>, t2: Seq<Token>, left: Expr, p: int, e: int)
    requires
        agree_through(t1, t2, e),
        0 <= p <= e,
    ensures
        spec_term_rest(t1, left, p) == spec_term_rest(t2, left, p),
    decreases t1.len() - p, 7int,
{
    lemma_check_any_agree(t1, t2, p, term_ops());
    if check_any(t1, p, term_ops()) {
        lemma_check_any_in_range(t1, p, term_ops());
        lemma_agree_factor(t1, t2, p + 1, e);
        lemma_eof_factor(t1, p + 1, e);
        lemma_mono_factor(t1, p + 1);
        let (r, p2) = spec_factor(t1, p + 1);
        if let Ok(right) = r {
            lemma_agree_term_rest(t1, t2, binary(left, t1[p], right), p2, e);
        }
    }
}

proof fn lemma_agree_factor(t1: Seq<Token>, t2: Seq<Token>, p: int, e: int)
    requires
        agree_through(t1, t2, e),
        0 <= p <= e,
    ensures
        spec_factor(t1, p) == spec_factor(t2, p),
    decreases t1.len() - p, 6int,
{
    lemma_agree_unary(t1, t2, p, e);
    lemma_eof_unary(t1, p, e);
    lemma_mono_unary(t1, p);
    let (r, p1) = spec_unary(t1, p);
    if let Ok(x) = r {
        lemma_agree_factor_rest(t1, t2, x, p1, e);
    }
}

proof fn lemma_agree_factor_rest(t1: Seq<Token>, t2: Seq<Token>, left: Expr, p: int, e: int)
    requires
        agree_through(t1, t2, e),
        0 <= p <= e,
    ensures
        spec_factor_rest(t1, left, p) == spec_factor_rest(t2, left, p),
    decreases t1.len() - p, 5int,
{
    lemma_check_any_agree(t1, t2, p, factor_ops());
    if check_any(t1, p, factor_ops()) {
        lemma_check_any_in_range(t1, p, factor_ops());
        lemma_agree_unary(t1, t2, p + 1, e);
        lemma_eof_unary(t1, p + 1, e);
        lemma_mono_unary(t1, p + 1);
        let (r, p2) = spec_unary(t1, p + 1);
        if let Ok(right) = r {
            lemma_agree_factor_rest(t1, t2, binary(left, t1[p], right), p2, e);
        }
    }
}

proof fn lemma_agree_unary(t1: Seq<Token>, t2: Seq<Token>, p: int, e: int)
    requires
        agree_through(t1, t2, e),
        0 <= p <= e,
    ensures
        spec_unary(t1, p) == spec_unary(t2, p),
    decreases t1.len() - p, 4int,
{
    lemma_check_any_agree(t1, t2, p, unary_ops());
    if check_any(t1, p, unary_ops()) {
        lemma_check_any_in_range(t1, p, unary_ops());
        lemma_agree_unary(t1, t2, p + 1, e);
    } else {
        lemma_agree_primary(t1, t2, p, e);
    }
}

proof fn lemma_agree_primary(t1: Seq<Token>, t2: Seq<Token>, p: int, e: int)
    requires
        agree_through(t1, t2, e),
        0 <= p <= e,
    ensures
        spec_primary(t1, p) == spec_primary(t2, p),
    decreases t1.len() - p, 3int,
{
    lemma_check_any_agree(t1, t2, p, seq![]);
    if t1[p].token_type is LeftParenthesis {
        lemma_agree_expression(t1, t2, p + 1, e);
        lemma_eof_expression(t1, p + 1, e);
        lemma_mono_expression(t1, p + 1);
        let p2 = spec_expression(t1, p + 1).1;
        lemma_check_any_agree(t1, t2, p2, seq![]);
    }
}

proof fn lemma_agree_statement(t1: Seq<Token>, t2: Seq<Token>, p: int, e: int)
    requires
        agree_through(t1, t2, e),
        0 <= p <= e,
    ensures
        spec_statement(t1, p) == spec_statement(t2, p),
{
    lemma_check_any_agree(t1, t2, p, seq![]);
    let is_print = check(t1, p, TokenType::Print);
    let q = if is_print { p + 1 } else { p };
    lemma_agree_expression(t1, t2, q, e);
    lemma_eof_expression(t1, q, e);
    lemma_mono_expression(t1, q);
    let p1 = spec_expression(t1, q).1;
    lemma_check_any_agree(t1, t2, p1, seq![]);
}

proof fn lemma_agree_statements(t1: Seq<Token>, t2: Seq<Token>, p: int, e: int)
    requires
        agree_through(t1, t2, e),
        0 <= p <= e,
    ensures
        spec_statements(t1, p) == spec_statements(t2, p),
        parse_end(t1, p) == parse_end(t2, p),
    decreases t1.len() - p,
{
    lemma_check_any_agree(t1, t2, p, seq![]);
    if at_end(t1, p) {
    } else {
        lemma_agree_statement(t1, t2, p, e);
        lemma_eof_statement(t1, p, e);
        lemma_mono_statement(t1, p);
        let (r, p1) = spec_statement(t1, p);
        if r is Ok && p < p1 {
            lemma_agree_statements(t1, t2, p1, e);
        }
    }
}

/// Parsing reads nothing after the first `Eof` token: tokens after it change
/// neither the statements nor where parsing stops, which is at or before the
/// `Eof` token.
pub proof fn lemma_parse_ignores_tokens_after_eof(a: Seq<Token>, eof: Token, b: Seq<Token>)
    requires
        forall|i: int| 0 <= i < a.len() ==> !((#[trigger] a[i]).token_type is Eof),
        eof.token_type is Eof,
    ensures
        spec_parse(a + seq![eof] + b) == spec_parse(a + seq![eof]),
        parse_end(a + seq![eof] + b, 0) == parse_end(a + seq![eof], 0),
        parse_end(a + seq![eof], 0) <= a.len(),
{
    let t1 = a + seq![eof];
    let t2 = a + seq![eof] + b;
    let e = a.len() as int;
    assert forall|i: int| 0 <= i <= e implies t1[i] == t2[i] by {}
    assert(agree_through(t1, t2, e));
    lemma_agree_statements(t1, t2, 0, e);
    lemma_eof_parse_end(t1, 0, e);
}

// ---------------------------------------------------------------------------
// Statements parse independently of one another: a statement that parses
// reads only its own tokens, wherever they stand.
// ---------------------------------------------------------------------------

/// `t2` holds, `off` places further on, the tokens that `t1` holds from `p`
/// through `q`.
pub open spec fn shifted_window(t1: Seq<Token>, t2: Seq<Token>, p: int, q: int, off: int) -> bool {
    &&& 0 <= p <= q < t1.len()
    &&& 0 <= p + off
    &&& q + off < t2.len()
    &&& forall|i: int| p <= i <= q ==> t2[i + off] == #[trigger] t1[i]
}

/// `t2` ends with the tokens that `t1` holds from `p` on, `off` places
/// further on.
pub open spec fn shifted_suffix(t1: Seq<Token>, t2: Seq<Token>, p: int, off: int) -> bool {
    &&& 0 <= p <= t1.len()
    &&& 0 <= off
    &&& t2.len() == t1.len() + off
    &&& forall|i: int| p <= i < t1.len() ==> t2[i + off] == #[trigger] t1[i]
}

proof fn lemma_shift_token(t1: Seq<Token>, t2: Seq<Token>, p: int, off: int, tts: Seq<TokenType>)
    requires
        0 <= p < t1.len(),
        0 <= p + off < t2.len(),
        t2[p + off] == t1[p],
    ensures
        check_any(t1, p, tts) == check_any(t2, p + off, tts),
        forall|tt: TokenType| check(t1, p, tt) == check(t2, p + off, tt),
        at_end(t1, p) == at_end(t2, p + off),
        advance(t2, p + off) == advance(t1, p) + off,
{
    if check_any(t1, p, tts) {
        let i = choose|i: int| 0 <= i < tts.len() && check(t1, p, #[trigger] tts[i]);
        assert(check(t2, p + off, tts[i]));
    }
    if check_any(t2, p + off, tts) {
        let i = choose|i: int| 0 <= i < tts.len() && check(t2, p + off, #[trigger] tts[i]);
        assert(check(t1, p, tts[i]));
    }
}

proof fn lemma_shift_expression(t1: Seq<Token>, t2: Seq<Token>, p: int, q: int, off: int)
    requires
        shifted_window(t1, t2, p, q, off),
        spec_expression(t1, p).0 is Ok,
        spec_expression(t1, p).1 <= q,
    ensures
        spec_expression(t2, p + off) == (spec_expression(t1, p).0, spec_expression(t1, p).1 + off),
    decreases t1.len() - p, 13int,
{
    lemma_shift_equality(t1, t2, p, q, off);
}

proof fn lemma_shift_equality(t1: Seq<Token>, t2: Seq<Token>, p: int, q: int, off: int)
    requires
        shifted_window(t1, t2, p, q, off),
        spec_equality(t1, p).0 is Ok,
        spec_equality(t1, p).1 <= q,
    ensures
        spec_equality(t2, p + off) == (spec_equality(t1, p).0, spec_equality(t1, p).1 + off),
    decreases t1.len() - p, 12int,
{
    lemma_mono_comparison(t1, p);
    let (r, p1) = spec_comparison(t1, p);
    if let Ok(x) = r {
        lemma_mono_equality_rest(t1, x, p1);
        lemma_shift_comparison(t1, t2, p, q, off);
        lemma_shift_equality_rest(t1, t2, x, p1, q, off);
    }
}

proof fn lemma_shift_equality_rest(t1: Seq<Token>, t2: Seq<Token>, left: Expr, p: int, q: int, off: int)
    requires
        shifted_window(t1, t2, p, q, off),
        spec_equality_rest(t1, left, p).0 is Ok,
        spec_equality_rest(t1, left, p).1 <= q,
    ensures
        spec_equality_rest(t2, left, p + off) == (spec_equality_rest(t1, left, p).0, spec_equality_rest(t1, left, p).1 + off),
    decreases t1.len() - p, 11int,
{
    lemma_shift_token(t1, t2, p, off, equality_ops());
    if check_any(t1, p, equality_ops()) {
        lemma_check_any_in_range(t1, p, equality_ops());
        lemma_mono_comparison(t1, p + 1);
        let (r, p2) = spec_comparison(t1, p + 1);
        if let Ok(right) = r {
            lemma_mono_equality_rest(t1, binary(left, t1[p], right), p2);
            lemma_shift_comparison(t1, t2, p + 1, q, off);
            lemma_shift_equality_rest(t1, t2, binary(left, t1[p], right), p2, q, off);
        }
    }
}

proof fn lemma_shift_comparison(t1: Seq<Token>, t2: Seq<Token>, p: int, q: int, off: int)
    requires
        shifted_window(t1, t2, p, q, off),
        spec_comparison(t1, p).0 is Ok,
        spec_comparison(t1, p).1 <= q,
    ensures
        spec_comparison(t2, p + off) == (spec_comparison(t1, p).0, spec_comparison(t1, p).1 + off),
    decreases t1.len() - p, 10int,
{
    lemma_mono_term(t1, p);
    let (r, p1) = spec_term(t1, p);
    if let Ok(x) = r {
        lemma_mono_comparison_rest(t1, x, p1);
        lemma_shift_term(t1, t2, p, q, off);
        lemma_shift_comparison_rest(t1, t2, x, p1, q, off);
    }
}

proof fn lemma_shift_comparison_rest(t1: Seq<Token>, t2: Seq<Token>, left: Expr, p: int, q: int, off: int)
    requires
        shifted_window(t1, t2, p, q, off),
        spec_comparison_rest(t1, left, p).0 is Ok,
        spec_comparison_rest(t1, left, p).1 <= q,
    ensures
        spec_comparison_rest(t2, left, p + off) == (spec_comparison_rest(t1, left, p).0, spec_comparison_rest(t1, left, p).1 + off),
    decreases t1.len() - p, 9int,
{
    lemma_shift_token(t1, t2, p, off, comparison_ops());
    if check_any(t1, p, comparison_ops()) {
        lemma_check_any_in_range(t1, p, comparison_ops());
        lemma_mono_term(t1, p + 1);
        let (r, p2) = spec_term(t1, p + 1);
        if let Ok(right) = r {
            lemma_mono_comparison_rest(t1, binary(left, t1[p], right), p2);
            lemma_shift_term(t1, t2, p + 1, q, off);
            lemma_shift_comparison_rest(t1, t2, binary(left, t1[p], right), p2, q, off);
        }
    }
}

proof fn lemma_shift_term(t1: Seq<Token>, t2: Seq<Token>, p: int, q: int, off: int)
    requires
        shifted_window(t1, t2, p, q, off),
        spec_term(t1, p).0 is Ok,
        spec_term(t1, p).1 <= q,
    ensures
        spec_term(t2, p + off) == (spec_term(t1, p).0, spec_term(t1, p).1 + off),
    decreases t1.len() - p, 8int,
{
    lemma_mono_factor(t1, p);
    let (r, p1) = spec_factor(t1, p);
    if let Ok(x) = r {
        lemma_mono_term_rest(t1, x, p1);
        lemma_shift_factor(t1, t2, p, q, off);
        lemma_shift_term_rest(t1, t2, x, p1, q, off);
    }
}

proof fn lemma_shift_term_rest(t1: Seq<Token>, t2: Seq<Token>, left: Expr, p: int, q: int, off: int)
    requires
        shifted_window(t1, t2, p, q, off),
        spec_term_rest(t1, left, p).0 is Ok,
        spec_term_rest(t1, left, p).1 <= q,
    ensures
        spec_term_rest(t2, left, p + off) == (spec_term_rest(t1, left, p).0, spec_term_rest(t1, left, p).1 + off),
    decreases t1.len() - p, 7int,
{
    lemma_shift_token(t1, t2, p, off, term_ops());
    if check_any(t1, p, term_ops()) {
        lemma_check_any_in_range(t1, p, term_ops());
        lemma_mono_factor(t1, p + 1);
        let (r, p2) = spec_factor(t1, p + 1);
        if let Ok(right) = r {
            lemma_mono_term_rest(t1, binary(left, t1[p], right), p2);
            lemma_shift_factor(t1, t2, p + 1, q, off);
            lemma_shift_term_rest(t1, t2, binary(left, t1[p], right), p2, q, off);
        }
    }
}

proof fn lemma_shift_factor(t1: Seq<Token>, t2: Seq<Token>, p: int, q: int, off: int)
    requires
        shifted_window(t1, t2, p, q, off),
        spec_factor(t1, p).0 is Ok,
        spec_factor(t1, p).1 <= q,
    ensures
        spec_factor(t2, p + off) == (spec_factor(t1, p).0, spec_factor(t1, p).1 + off),
    decreases t1.len() - p, 6int,
{
    lemma_mono_unary(t1, p);
    let (r, p1) = spec_unary(t1, p);
    if let Ok(x) = r {
        lemma_mono_factor_rest(t1, x, p1);
        lemma_shift_unary(t1, t2, p, q, off);
        lemma_shift_factor_rest(t1, t2, x, p1, q, off);
    }
}

proof fn lemma_shift_factor_rest(t1: Seq<Token>, t2: Seq<Token>, left: Expr, p: int, q: int, off: int)
    requires
        shifted_window(t1, t2, p, q, off),
        spec_factor_rest(t1, left, p).0 is Ok,
        spec_factor_rest(t1, left, p).1 <= q,
    ensures
        spec_factor_rest(t2, left, p + off) == (spec_factor_rest(t1, left, p).0, spec_factor_rest(t1, left, p).1 + off),
    decreases t1.len() - p, 5int,
{
    lemma_shift_token(t1, t2, p, off, factor_ops());
    if check_any(t1, p, factor_ops()) {
        lemma_check_any_in_range(t1, p, factor_ops());
        lemma_mono_unary(t1, p + 1);
        let (r, p2) = spec_unary(t1, p + 1);
        if let Ok(right) = r {
            lemma_mono_factor_rest(t1, binary(left, t1[p], right), p2);
            lemma_shift_unary(t1, t2, p + 1, q, off);
            lemma_shift_factor_rest(t1, t2, binary(left, t1[p], right), p2, q, off);
        }
    }
}

proof fn lemma_shift_unary(t1: Seq<Token>, t2: Seq<Token>, p: int, q: int, off: int)
    requires
        shifted_window(t1, t2, p, q, off),
        spec_unary(t1, p).0 is Ok,
        spec_unary(t1, p).1 <= q,
    ensures
        spec_unary(t2, p + off) == (spec_unary(t1, p).0, spec_unary(t1, p).1 + off),
    decreases t1.len() - p, 4int,
{
    lemma_shift_token(t1, t2, p, off, unary_ops());
    if check_any(t1, p, unary_ops()) {
        lemma_check_any_in_range(t1, p, unary_ops());
        lemma_mono_unary(t1, p + 1);
        lemma_shift_unary(t1, t2, p + 1, q, off);
    } else {
        lemma_shift_primary(t1, t2, p, q, off);
    }
}

proof fn lemma_shift_primary(t1: Seq<Token>, t2: Seq<Token>, p: int, q: int, off: int)
    requires
        shifted_window(t1, t2, p, q, off),
        spec_primary(t1, p).0 is Ok,
        spec_primary(t1, p).1 <= q,
    ensures
        spec_primary(t2, p + off) == (spec_primary(t1, p).0, spec_primary(t1, p).1 + off),
    decreases t1.len() - p, 3int,
{
    lemma_shift_token(t1, t2, p, off, seq![]);
    if t1[p].token_type is LeftParenthesis {
        lemma_mono_expression(t1, p + 1);
        let p2 = spec_expression(t1, p + 1).1;
        lemma_shift_expression(t1, t2, p + 1, q, off);
        lemma_shift_token(t1, t2, p2, off, seq![]);
    }
}

proof fn lemma_shift_statement(t1: Seq<Token>, t2: Seq<Token>, p: int, q: int, off: int)
    requires
        shifted_window(t1, t2, p, q, off),
        spec_statement(t1, p).0 is Ok,
        spec_statement(t1, p).1 <= q + 1,
    ensures
        spec_statement(t2, p + off) == (spec_statement(t1, p).0, spec_statement(t1, p).1 + off),
{
    lemma_shift_token(t1, t2, p, off, seq![]);
    let is_print = check(t1, p, TokenType::Print);
    let r = if is_print { p + 1 } else { p };
    lemma_mono_expression(t1, r);
    let pe = spec_expression(t1, r).1;
    assert(check(t1, pe, TokenType::Semicolon));
    lemma_shift_expression(t1, t2, r, q, off);
    lemma_shift_token(t1, t2, pe, off, seq![]);
}

proof fn lemma_shift_statements(t1: Seq<Token>, t2: Seq<Token>, p: int, off: int)
    requires
        shifted_suffix(t1, t2, p, off),
        spec_statements(t1, p) is Ok,
    ensures
        spec_statements(t2, p + off) == spec_statements(t1, p),
    decreases t1.len() - p,
{
    if p < t1.len() {
        lemma_shift_token(t1, t2, p, off, seq![]);
        if !at_end(t1, p) {
            let is_print = check(t1, p, TokenType::Print);
            let r = if is_print { p + 1 } else { p };
            let pe = spec_expression(t1, r).1;
            assert(check(t1, pe, TokenType::Semicolon));
            lemma_mono_statement(t1, p);
            let p1 = spec_statement(t1, p).1;
            assert(p1 <= t1.len());
            lemma_shift_statement(t1, t2, p, t1.len() - 1, off);
            lemma_shift_statements(t1, t2, p1, off);
        }
    }
}

#[verifier::spinoff_prover]
#[verifier::rlimit(40)]
proof fn lemma_statements_concatenate(a: Seq<Token>, b: Seq<Token>, eof: Token, p: int)
    requires
        forall|i: int| 0 <= i < a.len() ==> !((#[trigger] a[i]).token_type is Eof),
        eof.token_type is Eof,
        0 <= p <= a.len(),
        spec_statements(a + seq![eof], p) is Ok,
        spec_statements(b + seq![eof], 0) is Ok,
    ensures
        spec_statements(a + b + seq![eof], p) == Ok::<Seq<Stmt>, ParserErrorModel>(
            spec_statements(a + seq![eof], p)->Ok_0 + spec_statements(b + seq![eof], 0)->Ok_0,
        ),
    decreases a.len() - p,
{
    let t1 = a + seq![eof];
    let t2 = b + seq![eof];
    let t3 = a + b + seq![eof];
    let s2 = spec_statements(t2, 0)->Ok_0;
    if p == a.len() {
        assert(at_end(t1, p));
        assert forall|i: int| 0 <= i < t2.len() implies t3[i + a.len()] == #[trigger] t2[i] by {}
        assert(shifted_suffix(t2, t3, 0, a.len() as int));
        lemma_shift_statements(t2, t3, 0, a.len() as int);
        assert(Seq::<Stmt>::empty() + s2 =~= s2);
    } else {
        assert(t1[p] == a[p]);
        assert forall|i: int| p <= i <= a.len() - 1 implies t3[i + 0] == #[trigger] t1[i] by {
            assert(t1[i] == a[i]);
        }
        assert(shifted_window(t1, t3, p, a.len() - 1, 0));
        lemma_shift_token(t1, t3, p, 0, seq![]);
        let is_print = check(t1, p, TokenType::Print);
        let r = if is_print { p + 1 } else { p };
        let pe = spec_expression(t1, r).1;
        assert(check(t1, pe, TokenType::Semicolon));
        assert(pe < a.len()) by {
            if pe == a.len() {
                assert(t1[pe] == eof);
            }
        }
        lemma_mono_statement(t1, p);
        let (st, p1) = spec_statement(t1, p);
        lemma_shift_statement(t1, t3, p, a.len() - 1, 0);
        lemma_statements_concatenate(a, b, eof, p1);
        let rest = spec_statements(t1, p1)->Ok_0;
        assert(seq![st->Ok_0] + rest + s2 =~= seq![st->Ok_0] + (rest + s2));
    }
}

/// Statements parse independently of one another: when the tokens `a` and
/// the tokens `b`, each ended by an `Eof` token, both parse, `a` followed by
/// `b` parses into the statements of `a` followed by those of `b`.
pub proof fn lemma_parse_concatenates(a: Seq<Token>, b: Seq<Token>, eof: Token)
    requires
        forall|i: int| 0 <= i < a.len() ==> !((#[trigger] a[i]).token_type is Eof),
        eof.token_type is Eof,
        spec_parse(a + seq![eof]) is Ok,
        spec_parse(b + seq![eof]) is Ok,
    ensures
        spec_parse(a + b + seq![eof]) == Ok::<Seq<Stmt>, ParserErrorModel>(
            spec_parse(a + seq![eof])->Ok_0 + spec_parse(b + seq![eof])->Ok_0,
        ),
{
    lemma_statements_concatenate(a, b, eof, 0);
}

// ---------------------------------------------------------------------------
// Parsing obeys the grammar's precedence and left associativity.
// ---------------------------------------------------------------------------

/// How tightly a binary operator binds, from the grammar: `==` and `!=`
/// loosest (1), then the comparisons (2), then `+` and `-` (3), then `*`
/// and `/` (4); any other kind of token is no binary operator (0).
pub open spec fn binary_level(t: TokenType) -> int {
    match t {
        TokenType::BangEqual | TokenType::EqualEqual => 1,
        TokenType::Greater | TokenType::GreaterEqual | TokenType::Less | TokenType::LessEqual => 2,
        TokenType::Minus | TokenType::Plus => 3,
        TokenType::Slash | TokenType::Star => 4,
        _ => 0,
    }
}

/// How tightly an expression holds together: a binary expression as tightly
/// as its operator binds; any other expression (unary, grouped, a literal)
/// tighter than every binary operator.
pub open spec fn expr_level(e: Expr) -> int {
    match e {
        Expr::Binary { op, .. } => binary_level(op.token_type),
        _ => 5,
    }
}

/// `e` is grouped as precedence and left associativity group it: an operand
/// of a binary operator that is itself a binary expression binds at least as
/// tightly (on the left) or strictly more tightly (on the right) than the
/// operator, and the operand of a unary operator is no binary expression.
pub open spec fn respects_precedence(e: Expr) -> bool
    decreases e,
{
    match e {
        Expr::Binary { lhs, op, rhs } => {
            &&& 1 <= binary_level(op.token_type)
            &&& expr_level(*lhs) >= binary_level(op.token_type)
            &&& expr_level(*rhs) > binary_level(op.token_type)
            &&& respects_precedence(*lhs)
            &&& respects_precedence(*rhs)
        },
        Expr::Unary { op, rhs } => {
            &&& (op.token_type is Bang || op.token_type is Minus)
            &&& expr_level(*rhs) == 5
            &&& respects_precedence(*rhs)
        },
        Expr::Grouping { expr } => respects_precedence(*expr),
        Expr::Literal { .. } => true,
        Expr::Variable { .. } => true,
    }
}

proof fn lemma_prec_expression(ts: Seq<Token>, p: int)
    ensures
        spec_expression(ts, p).0 matches Ok(e) ==> respects_precedence(e) && expr_level(e) >= 1,
    decreases ts.len() - p, 13int,
{
    lemma_prec_equality(ts, p);
}

proof fn lemma_prec_equality(ts: Seq<Token>, p: int)
    ensures
        spec_equality(ts, p).0 matches Ok(e) ==> respects_precedence(e) && expr_level(e) >= 1,
    decreases ts.len() - p, 12int,
{
    lemma_prec_comparison(ts, p);
    let (r, p1) = spec_comparison(ts, p);
    if let Ok(e) = r {
        if p <= p1 <= ts.len() {
            lemma_prec_equality_rest(ts, e, p1);
        }
    }
}

proof fn lemma_prec_equality_rest(ts: Seq<Token>, left: Expr, p: int)
    requires
        respects_precedence(left),
        expr_level(left) >= 1,
    ensures
        spec_equality_rest(ts, left, p).0 matches Ok(e) ==> respects_precedence(e) && expr_level(e) >= 1,
    decreases ts.len() - p, 11int,
{
    if check_any(ts, p, equality_ops()) {
        lemma_check_any_in_range(ts, p, equality_ops());
        lemma_prec_comparison(ts, p + 1);
        let (r, p2) = spec_comparison(ts, p + 1);
        if let Ok(right) = r {
            assert(binary_level(ts[p].token_type) == 1);
            assert(respects_precedence(binary(left, ts[p], right)));
            if p < p2 <= ts.len() {
                lemma_prec_equality_rest(ts, binary(left, ts[p], right), p2);
            }
        }
    }
}

proof fn lemma_prec_comparison(ts: Seq<Token>, p: int)
    ensures
        spec_comparison(ts, p).0 matches Ok(e) ==> respects_precedence(e) && expr_level(e) >= 2,
    decreases ts.len() - p, 10int,
{
    lemma_prec_term(ts, p);
    let (r, p1) = spec_term(ts, p);
    if let Ok(e) = r {
        if p <= p1 <= ts.len() {
            lemma_prec_comparison_rest(ts, e, p1);
        }
    }
}

proof fn lemma_prec_comparison_rest(ts: Seq<Token>, left: Expr, p: int)
    requires
        respects_precedence(left),
        expr_level(left) >= 2,
    ensures
        spec_comparison_rest(ts, left, p).0 matches Ok(e) ==> respects_precedence(e) && expr_level(e) >= 2,
    decreases ts.len() - p, 9int,
{
    if check_any(ts, p, comparison_ops()) {
        lemma_check_any_in_range(ts, p, comparison_ops());
        lemma_prec_term(ts, p + 1);
        let (r, p2) = spec_term(ts, p + 1);
        if let Ok(right) = r {
            assert(binary_level(ts[p].token_type) == 2);
            assert(respects_precedence(binary(left, ts[p], right)));
            if p < p2 <= ts.len() {
                lemma_prec_comparison_rest(ts, binary(left, ts[p], right), p2);
            }
        }
    }
}

proof fn lemma_prec_term(ts: Seq<Token>, p: int)
    ensures
        spec_term(ts, p).0 matches Ok(e) ==> respects_precedence(e) && expr_level(e) >= 3,
    decreases ts.len() - p, 8int,
{
    lemma_prec_factor(ts, p);
    let (r, p1) = spec_factor(ts, p);
    if let Ok(e) = r {
        if p <= p1 <= ts.len() {
            lemma_prec_term_rest(ts, e, p1);
        }
    }
}

proof fn lemma_prec_term_rest(ts: Seq<Token>, left: Expr, p: int)
    requires
        respects_precedence(left),
        expr_level(left) >= 3,
    ensures
        spec_term_rest(ts, left, p).0 matches Ok(e) ==> respects_precedence(e) && expr_level(e) >= 3,
    decreases ts.len() - p, 7int,
{
    if check_any(ts, p, term_ops()) {
        lemma_check_any_in_range(ts, p, term_ops());
        lemma_prec_factor(ts, p + 1);
        let (r, p2) = spec_factor(ts, p + 1);
        if let Ok(right) = r {
            assert(binary_level(ts[p].token_type) == 3);
            assert(respects_precedence(binary(left, ts[p], right)));
            if p < p2 <= ts.len() {
                lemma_prec_term_rest(ts, binary(left, ts[p], right), p2);
            }
        }
    }
}

proof fn lemma_prec_factor(ts: Seq<Token>, p: int)
    ensures
        spec_factor(ts, p).0 matches Ok(e) ==> respects_precedence(e) && expr_level(e) >= 4,
    decreases ts.len() - p, 6int,
{
    lemma_prec_unary(ts, p);
    let (r, p1) = spec_unary(ts, p);
    if let Ok(e) = r {
        if p <= p1 <= ts.len() {
            lemma_prec_factor_rest(ts, e, p1);
        }
    }
}

proof fn lemma_prec_factor_rest(ts: Seq<Token>, left: Expr, p: int)
    requires
        respects_precedence(left),
        expr_level(left) >= 4,
    ensures
        spec_factor_rest(ts, left, p).0 matches Ok(e) ==> respects_precedence(e) && expr_level(e) >= 4,
    decreases ts.len() - p, 5int,
{
    if check_any(ts, p, factor_ops()) {
        lemma_check_any_in_range(ts, p, factor_ops());
        lemma_prec_unary(ts, p + 1);
        let (r, p2) = spec_unary(ts, p + 1);
        if let Ok(right) = r {
            assert(binary_level(ts[p].token_type) == 4);
            assert(respects_precedence(binary(left, ts[p], right)));
            if p < p2 <= ts.len() {
                lemma_prec_factor_rest(ts, binary(left, ts[p], right), p2);
            }
        }
    }
}

proof fn lemma_prec_unary(ts: Seq<Token>, p: int)
    ensures
        spec_unary(ts, p).0 matches Ok(e) ==> respects_precedence(e) && expr_level(e) == 5,
    decreases ts.len() - p, 4int,
{
    if check_any(ts, p, unary_ops()) {
        lemma_check_any_in_range(ts, p, unary_ops());
        lemma_prec_unary(ts, p + 1);
        assert(ts[p].token_type is Bang || ts[p].token_type is Minus);
    } else {
        lemma_prec_primary(ts, p);
    }
}

proof fn lemma_prec_primary(ts: Seq<Token>, p: int)
    ensures
        spec_primary(ts, p).0 matches Ok(e) ==> respects_precedence(e) && expr_level(e) == 5,
    decreases ts.len() - p, 3int,
{
    if 0 <= p < ts.len() {
        if ts[p].token_type is LeftParenthesis {
            lemma_prec_expression(ts, p + 1);
        }
    }
}

/// Every expression that parsing gives is grouped as the grammar's
/// precedence and left associativity group it (see `respects_precedence`):
/// `a >= b + c` is `a >= (b + c)`, `a - b - c` is `(a - b) - c`, and
/// `-a * b` is `(-a) * b`.
pub proof fn lemma_expression_respects_precedence(ts: Seq<Token>, p: int)
    ensures
        spec_expression(ts, p).0 matches Ok(e) ==> respects_precedence(e),
{
    lemma_prec_expression(ts, p);
}

proof fn lemma_prec_statements(ts: Seq<Token>, p: int)
    ensures
        spec_statements(ts, p) matches Ok(ss) ==> forall|k: int|
            0 <= k < ss.len() ==> respects_precedence(stmt_expr(#[trigger] ss[k])),
    decreases ts.len() - p,
{
    if !(0 <= p < ts.len()) || at_end(ts, p) {
    } else {
        let is_print = check(ts, p, TokenType::Print);
        lemma_prec_expression(ts, if is_print { p + 1 } else { p });
        let (r, p1) = spec_statement(ts, p);
        if let Ok(s) = r {
            if p < p1 <= ts.len() {
                lemma_prec_statements(ts, p1);
                if let Ok(rest) = spec_statements(ts, p1) {
                    let all = seq![s] + rest;
                    assert forall|k: int| 0 <= k < all.len() implies respects_precedence(
                        stmt_expr(#[trigger] all[k]),
                    ) by {
                        if k > 0 {
                            assert(all[k] == rest[k - 1]);
                        }
                    }
                }
            }
        }
    }
}

/// The expression of every statement that parsing gives is grouped as the
/// grammar's precedence and left associativity group it.
pub proof fn lemma_parse_respects_precedence(ts: Seq<Token>)
    ensures
        spec_parse(ts) matches Ok(ss) ==> forall|k: int|
            0 <= k < ss.len() ==> respects_precedence(stmt_expr(#[trigger] ss[k])),
{
    lemma_prec_statements(ts, 0);
}

/// An expression fails as soon as its first operand fails.
proof fn lemma_first_operand_error(ts: Seq<Token>, p: int)
    ensures
        spec_unary(ts, p).0 is Err ==> spec_expression(ts, p).0 == spec_unary(ts, p).0,
{
    assert(spec_unary(ts, p).0 is Err ==> spec_factor(ts, p).0 == spec_unary(ts, p).0);
    assert(spec_factor(ts, p).0 is Err ==> spec_term(ts, p).0 == spec_factor(ts, p).0);
    assert(spec_term(ts, p).0 is Err ==> spec_comparison(ts, p).0 == spec_term(ts, p).0);
    assert(spec_comparison(ts, p).0 is Err ==> spec_equality(ts, p).0 == spec_comparison(ts, p).0);
}

/// An expression cannot start with a token that is no literal value, no `(`
/// and no `!` or `-`; an identifier is no literal value. The error names
/// that token.
pub proof fn lemma_expression_start_error(ts: Seq<Token>, p: int)
    requires
        0 <= p < ts.len(),
        (ts[p].token_type matches TokenType::Literal(l) && l is Identifier) || !(ts[p].token_type is Literal
            || ts[p].token_type is LeftParenthesis || ts[p].token_type is Bang || ts[p].token_type is Minus),
    ensures
        spec_expression(ts, p).0 == Err::<Expr, ParserErrorModel>(
            ParserErrorModel::SyntaxError(ts[p], "Expected expression"@),
        ),
{
    if check_any(ts, p, unary_ops()) {
        lemma_check_any_in_range(ts, p, unary_ops());
    }
    assert(spec_unary(ts, p) == spec_primary(ts, p));
    lemma_first_operand_error(ts, p);
}

/// A `(` whose expression is not followed by `)` is missing its `)`: the
/// error names the token found in its place.
pub proof fn lemma_missing_right_parenthesis(ts: Seq<Token>, p: int)
    requires
        0 <= p < ts.len(),
        ts[p].token_type is LeftParenthesis,
        spec_expression(ts, p + 1).0 is Ok,
        !check(ts, spec_expression(ts, p + 1).1, TokenType::RightParenthesis),
    ensures
        spec_expression(ts, p).0 == Err::<Expr, ParserErrorModel>(
            ParserErrorModel::SyntaxError(ts[spec_expression(ts, p + 1).1], "Expect ')' after expression."@),
        ),
{
    if check_any(ts, p, unary_ops()) {
        lemma_check_any_in_range(ts, p, unary_ops());
    }
    assert(spec_unary(ts, p) == spec_primary(ts, p));
    lemma_first_operand_error(ts, p);
}

/// A statement whose expression is not followed by `;` is missing its `;`:
/// the error names the token found in its place.
pub proof fn lemma_missing_semicolon(ts: Seq<Token>, p: int, q: int)
    requires
        q == (if check(ts, p, TokenType::Print) { p + 1 } else { p }),
        spec_expression(ts, q).0 is Ok,
        !check(ts, spec_expression(ts, q).1, TokenType::Semicolon),
    ensures
        spec_statement(ts, p).0 == Err::<Stmt, ParserErrorModel>(
            ParserErrorModel::SyntaxError(ts[spec_expression(ts, q).1], "Expect ';' after value."@),
        ),
{
}

// ---------------------------------------------------------------------------
// What is parsed spells exactly the tokens it was parsed from, in order.
// ---------------------------------------------------------------------------

/// The kinds of the tokens that spell `e`, in order: a binary expression is
/// its left operand, its operator and its right operand; a grouping adds its
/// parentheses around what it groups.
pub open spec fn expr_kinds(e: Expr) -> Seq<TokenTypeModel>
    decreases e,
{
    match e {
        Expr::Binary { lhs, op, rhs } => expr_kinds(*lhs) + seq![op.token_type@] + expr_kinds(*rhs),
        Expr::Unary { op, rhs } => seq![op.token_type@] + expr_kinds(*rhs),
        Expr::Grouping { expr } => seq![TokenTypeModel::LeftParenthesis] + expr_kinds(*expr) + seq![
            TokenTypeModel::RightParenthesis,
        ],
        Expr::Literal { literal } => seq![TokenTypeModel::Literal(literal@)],
        Expr::Variable { name } => seq![name.token_type@],
    }
}

/// The kinds of the tokens `ts[a..b]`.
pub open spec fn token_kinds(ts: Seq<Token>, a: int, b: int) -> Seq<TokenTypeModel> {
    ts.subrange(a, b).map_values(|t: Token| t.token_type@)
}

proof fn lemma_token_kinds_split(ts: Seq<Token>, a: int, b: int, c: int)
    requires
        0 <= a <= b <= c <= ts.len(),
    ensures
        token_kinds(ts, a, b) + token_kinds(ts, b, c) == token_kinds(ts, a, c),
        b < c ==> token_kinds(ts, b, b + 1) == seq![ts[b].token_type@],
{
    assert(token_kinds(ts, a, b) + token_kinds(ts, b, c) =~= token_kinds(ts, a, c));
    if b < c {
        assert(token_kinds(ts, b, b + 1) =~= seq![ts[b].token_type@]);
    }
}

/// The kinds spelled by a binary operator between two operands.
proof fn lemma_kinds_join(ts: Seq<Token>, p0: int, p: int, p2: int, left: Expr, right: Expr)
    requires
        0 <= p0 <= p < p2 <= ts.len(),
        expr_kinds(left) == token_kinds(ts, p0, p),
        expr_kinds(right) == token_kinds(ts, p + 1, p2),
    ensures
        expr_kinds(binary(left, ts[p], right)) == token_kinds(ts, p0, p2),
{
    lemma_token_kinds_split(ts, p0, p, p + 1);
    lemma_token_kinds_split(ts, p, p + 1, p2);
    lemma_token_kinds_split(ts, p0, p, p2);
    assert(token_kinds(ts, p0, p) + seq![ts[p].token_type@] + token_kinds(ts, p + 1, p2) =~= token_kinds(ts, p0, p2));
}

proof fn lemma_kinds_expression(ts: Seq<Token>, p: int)
    requires
        0 <= p,
    ensures
        spec_expression(ts, p) matches (Ok(e), p1) ==> p <= p1 <= ts.len() && expr_kinds(e) == token_kinds(ts, p, p1),
    decreases ts.len() - p, 13int,
{
    lemma_kinds_equality(ts, p);
}

proof fn lemma_kinds_equality(ts: Seq<Token>, p: int)
    requires
        0 <= p,
    ensures
        spec_equality(ts, p) matches (Ok(e), p1) ==> p <= p1 <= ts.len() && expr_kinds(e) == token_kinds(ts, p, p1),
    decreases ts.len() - p, 12int,
{
    lemma_kinds_comparison(ts, p);
    let (r, p1) = spec_comparison(ts, p);
    if let Ok(e) = r {
        lemma_kinds_equality_rest(ts, e, p, p1);
    }
}

proof fn lemma_kinds_equality_rest(ts: Seq<Token>, left: Expr, p0: int, p: int)
    requires
        0 <= p0 <= p <= ts.len(),
        expr_kinds(left) == token_kinds(ts, p0, p),
    ensures
        spec_equality_rest(ts, left, p) matches (Ok(e), p2) ==> p <= p2 <= ts.len() && expr_kinds(e) == token_kinds(ts, p0, p2),
    decreases ts.len() - p, 11int,
{
    if check_any(ts, p, equality_ops()) {
        lemma_check_any_in_range(ts, p, equality_ops());
        lemma_kinds_comparison(ts, p + 1);
        let (r, p2) = spec_comparison(ts, p + 1);
        if let Ok(right) = r {
            lemma_kinds_join(ts, p0, p, p2, left, right);
            lemma_kinds_equality_rest(ts, binary(left, ts[p], right), p0, p2);
        }
    }
}

proof fn lemma_kinds_comparison(ts: Seq<Token>, p: int)
    requires
        0 <= p,
    ensures
        spec_comparison(ts, p) matches (Ok(e), p1) ==> p <= p1 <= ts.len() && expr_kinds(e) == token_kinds(ts, p, p1),
    decreases ts.len() - p, 10int,
{
    lemma_kinds_term(ts, p);
    let (r, p1) = spec_term(ts, p);
    if let Ok(e) = r {
        lemma_kinds_comparison_rest(ts, e, p, p1);
    }
}

proof fn lemma_kinds_comparison_rest(ts: Seq<Token>, left: Expr, p0: int, p: int)
    requires
        0 <= p0 <= p <= ts.len(),
        expr_kinds(left) == token_kinds(ts, p0, p),
    ensures
        spec_comparison_rest(ts, left, p) matches (Ok(e), p2) ==> p <= p2 <= ts.len() && expr_kinds(e) == token_kinds(ts, p0, p2),
    decreases ts.len() - p, 9int,
{
    if check_any(ts, p, comparison_ops()) {
        lemma_check_any_in_range(ts, p, comparison_ops());
        lemma_kinds_term(ts, p + 1);
        let (r, p2) = spec_term(ts, p + 1);
        if let Ok(right) = r {
            lemma_kinds_join(ts, p0, p, p2, left, right);
            lemma_kinds_comparison_rest(ts, binary(left, ts[p], right), p0, p2);
        }
    }
}

proof fn lemma_kinds_term(ts: Seq<Token>, p: int)
    requires
        0 <= p,
    ensures
        spec_term(ts, p) matches (Ok(e), p1) ==> p <= p1 <= ts.len() && expr_kinds(e) == token_kinds(ts, p, p1),
    decreases ts.len() - p, 8int,
{
    lemma_kinds_factor(ts, p);
    let (r, p1) = spec_factor(ts, p);
    if let Ok(e) = r {
        lemma_kinds_term_rest(ts, e, p, p1);
    }
}

proof fn lemma_kinds_term_rest(ts: Seq<Token>, left: Expr, p0: int, p: int)
    requires
        0 <= p0 <= p <= ts.len(),
        expr_kinds(left) == token_kinds(ts, p0, p),
    ensures
        spec_term_rest(ts, left, p) matches (Ok(e), p2) ==> p <= p2 <= ts.len() && expr_kinds(e) == token_kinds(ts, p0, p2),
    decreases ts.len() - p, 7int,
{
    if check_any(ts, p, term_ops()) {
        lemma_check_any_in_range(ts, p, term_ops());
        lemma_kinds_factor(ts, p + 1);
        let (r, p2) = spec_factor(ts, p + 1);
        if let Ok(right) = r {
            lemma_kinds_join(ts, p0, p, p2, left, right);
            lemma_kinds_term_rest(ts, binary(left, ts[p], right), p0, p2);
        }
    }
}

proof fn lemma_kinds_factor(ts: Seq<Token>, p: int)
    requires
        0 <= p,
    ensures
        spec_factor(ts, p) matches (Ok(e), p1) ==> p <= p1 <= ts.len() && expr_kinds(e) == token_kinds(ts, p, p1),
    decreases ts.len() - p, 6int,
{
    lemma_kinds_unary(ts, p);
    let (r, p1) = spec_unary(ts, p);
    if let Ok(e) = r {
        lemma_kinds_factor_rest(ts, e, p, p1);
    }
}

proof fn lemma_kinds_factor_rest(ts: Seq<Token>, left: Expr, p0: int, p: int)
    requires
        0 <= p0 <= p <= ts.len(),
        expr_kinds(left) == token_kinds(ts, p0, p),
    ensures
        spec_factor_rest(ts, left, p) matches (Ok(e), p2) ==> p <= p2 <= ts.len() && expr_kinds(e) == token_kinds(ts, p0, p2),
    decreases ts.len() - p, 5int,
{
    if check_any(ts, p, factor_ops()) {
        lemma_check_any_in_range(ts, p, factor_ops());
        lemma_kinds_unary(ts, p + 1);
        let (r, p2) = spec_unary(ts, p + 1);
        if let Ok(right) = r {
            lemma_kinds_join(ts, p0, p, p2, left, right);
            lemma_kinds_factor_rest(ts, binary(left, ts[p], right), p0, p2);
        }
    }
}

proof fn lemma_kinds_unary(ts: Seq<Token>, p: int)
    requires
        0 <= p,
    ensures
        spec_unary(ts, p) matches (Ok(e), p1) ==> p <= p1 <= ts.len() && expr_kinds(e) == token_kinds(ts, p, p1),
    decreases ts.len() - p, 4int,
{
    if check_any(ts, p, unary_ops()) {
        lemma_check_any_in_range(ts, p, unary_ops());
        lemma_kinds_unary(ts, p + 1);
        let (r, p2) = spec_unary(ts, p + 1);
        if r is Ok {
            lemma_token_kinds_split(ts, p, p + 1, p2);
        }
    } else {
        lemma_kinds_primary(ts, p);
    }
}

proof fn lemma_kinds_primary(ts: Seq<Token>, p: int)
    requires
        0 <= p,
    ensures
        spec_primary(ts, p) matches (Ok(e), p1) ==> p <= p1 <= ts.len() && expr_kinds(e) == token_kinds(ts, p, p1),
    decreases ts.len() - p, 3int,
{
    if 0 <= p < ts.len() {
        if ts[p].token_type is LeftParenthesis {
            lemma_kinds_expression(ts, p + 1);
            let (r, p2) = spec_expression(ts, p + 1);
            if r is Ok && check(ts, p2, TokenType::RightParenthesis) {
                lemma_token_kinds_split(ts, p, p + 1, p2);
                lemma_token_kinds_split(ts, p + 1, p2, p2 + 1);
                lemma_token_kinds_split(ts, p, p2, p2 + 1);
                assert(seq![TokenTypeModel::LeftParenthesis] + token_kinds(ts, p + 1, p2) + seq![
                    TokenTypeModel::RightParenthesis,
                ] =~= token_kinds(ts, p, p2 + 1));
            }
        } else {
            lemma_token_kinds_split(ts, p, p, p + 1);
        }
    }
}

/// A parsed expression spells exactly the tokens it was parsed from: the
/// kinds of its tokens, in order, are those of the tokens from where parsing
/// started to where it stopped. With `lemma_expression_respects_precedence`
/// this settles which tree the tokens give.
pub proof fn lemma_expression_spells_its_tokens(ts: Seq<Token>, p: int)
    requires
        0 <= p,
    ensures
        spec_expression(ts, p) matches (Ok(e), p1) ==> p <= p1 <= ts.len() && expr_kinds(e) == token_kinds(ts, p, p1),
{
    lemma_kinds_expression(ts, p);
}

/// A parsed statement spells exactly the tokens it was parsed from: `print`,
/// its expression and `;` for a `print` statement; its expression and `;`
/// for an expression statement.
pub proof fn lemma_statement_spells_its_tokens(ts: Seq<Token>, p: int)
    requires
        0 <= p,
    ensures
        spec_statement(ts, p) matches (Ok(s), p1) ==> p < p1 <= ts.len() && match s {
            Stmt::Print { expr } => token_kinds(ts, p, p1) == seq![TokenTypeModel::Print] + expr_kinds(expr)
                + seq![TokenTypeModel::Semicolon],
            Stmt::Expression { expr } => token_kinds(ts, p, p1) == expr_kinds(expr) + seq![TokenTypeModel::Semicolon],
            Stmt::Var { .. } => false,
        },
{
    let is_print = check(ts, p, TokenType::Print);
    let q = if is_print { p + 1 } else { p };
    lemma_kinds_expression(ts, q);
    let (er, pe) = spec_expression(ts, q);
    if er is Ok && check(ts, pe, TokenType::Semicolon) {
        lemma_token_kinds_split(ts, q, pe, pe + 1);
        if is_print {
            lemma_token_kinds_split(ts, p, p + 1, pe + 1);
            assert(seq![TokenTypeModel::Print] + token_kinds(ts, p + 1, pe) + seq![TokenTypeModel::Semicolon]
                =~= token_kinds(ts, p, pe + 1));
        }
    }
}

// ---------------------------------------------------------------------------
// The parser.
// ---------------------------------------------------------------------------

/// Whether two literals are the same.
fn same_literal(a: &Literal, b: &Literal) -> (r: bool)
    ensures
        r == (a@ == b@),
{
    match (a, b) {
        (Literal::Identifier(x), Literal::Identifier(y)) => *x == *y,
        (Literal::String(x), Literal::String(y)) => *x == *y,
        (Literal::Number(x), Literal::Number(y)) => *x == *y,
        (Literal::Boolean(x), Literal::Boolean(y)) => *x == *y,
        (Literal::Nil, Literal::Nil) => true,
        _ => false,
    }
}

/// Whether two token kinds are the same.
fn same_type(a: &TokenType, b: &TokenType) -> (r: bool)
    ensures
        r == (a@ == b@),
{
    match (a, b) {
        (TokenType::LeftParenthesis, TokenType::LeftParenthesis) => true,
        (TokenType::RightParenthesis, TokenType::RightParenthesis) => true,
        (TokenType::LeftBrace, TokenType::LeftBrace) => true,
        (TokenType::RightBrace, TokenType::RightBrace) => true,
        (TokenType::Comma, TokenType::Comma) => true,
        (TokenType::Dot, TokenType::Dot) => true,
        (TokenType::Minus, TokenType::Minus) => true,
        (TokenType::Plus, TokenType::Plus) => true,
        (TokenType::Semicolon, TokenType::Semicolon) => true,
        (TokenType::Slash, TokenType::Slash) => true,
        (TokenType::Star, TokenType::Star) => true,
        (TokenType::Bang, TokenType::Bang) => true,
        (TokenType::BangEqual, TokenType::BangEqual) => true,
        (TokenType::Equal, TokenType::Equal) => true,
        (TokenType::EqualEqual, TokenType::EqualEqual) => true,
        (TokenType::Greater, TokenType::Greater) => true,
        (TokenType::GreaterEqual, TokenType::GreaterEqual) => true,
        (TokenType::Less, TokenType::Less) => true,
        (TokenType::LessEqual, TokenType::LessEqual) => true,
        (TokenType::And, TokenType::And) => true,
        (TokenType::Class, TokenType::Class) => true,
        (TokenType::Else, TokenType::Else) => true,
        (TokenType::Fun, TokenType::Fun) => true,
        (TokenType::For, TokenType::For) => true,
        (TokenType::If, TokenType::If) => true,
        (TokenType::Or, TokenType::Or) => true,
        (TokenType::Print, TokenType::Print) => true,
        (TokenType::Return, TokenType::Return) => true,
        (TokenType::Super, TokenType::Super) => true,
        (TokenType::This, TokenType::This) => true,
        (TokenType::Var, TokenType::Var) => true,
        (TokenType::While, TokenType::While) => true,
        (TokenType::Eof, TokenType::Eof) => true,
        (TokenType::Literal(x), TokenType::Literal(y)) => same_literal(x, y),
        _ => false,
    }
}

/// The tokens being parsed and the position of the next one.
struct ParserState {
    pub tokens: Vec<Token>,
    pub current: usize,
}

impl ParserState {
    fn new(tokens: Vec<Token>) -> (r: ParserState)
        ensures
            r.tokens == tokens,
            r.current == 0,
    {
        ParserState { tokens: tokens, current: 0 }
    }

    /// Moves past the current token if it is of one of the kinds `types`.
    fn is_next(&mut self, types: &[TokenType]) -> (r: bool)
        requires
            old(self).current < old(self).tokens@.len(),
        ensures
            final(self).tokens == old(self).tokens,
            r == check_any(old(self).tokens@, old(self).current as int, types@),
            final(self).current == if r { old(self).current + 1 } else { old(self).current as int },
    {
        let mut i: usize = 0;
        while i < types.len()
            invariant
                self.tokens == old(self).tokens,
                self.current == old(self).current,
                self.current < self.tokens@.len(),
                i <= types@.len(),
                forall|j: int| 0 <= j < i ==> !check(self.tokens@, self.current as int, #[trigger] types@[j]),
            decreases types.len() - i,
        {
            if self.check(types[i].clone()) {
                self.advance();
                return true;
            }
            i = i + 1;
        }
        false
    }

    fn check(&self, token_type: TokenType) -> (r: bool)
        requires
            self.current < self.tokens@.len(),
        ensures
            r == check(self.tokens@, self.current as int, token_type),
    {
        if self.at_end() {
            return false;
        }
        return same_type(&self.peek().token_type, &token_type);
    }

    fn advance(&mut self) -> (r: &Token)
        requires
            old(self).current < old(self).tokens@.len(),
            old(self).current > 0 || !at_end(old(self).tokens@, old(self).current as int),
        ensures
            final(self).tokens == old(self).tokens,
            final(self).current == advance(old(self).tokens@, old(self).current as int),
            *r == final(self).tokens@[final(self).current - 1],
    {
        let n = self.tokens.len();
        if !self.at_end() {
            self.current = self.current + 1;
        }
        return self.previous();
    }

    fn at_end(&self) -> (r: bool)
        requires
            self.current < self.tokens@.len(),
        ensures
            r == at_end(self.tokens@, self.current as int),
    {
        return match self.peek().token_type {
            TokenType::Eof => true,
            _ => false,
        };
    }

    fn peek(&self) -> (r: &Token)
        requires
            self.current < self.tokens@.len(),
        ensures
            *r == self.tokens@[self.current as int],
    {
        return &self.tokens[self.current];
    }

    fn previous(&self) -> (r: &Token)
        requires
            0 < self.current <= self.tokens@.len(),
        ensures
            *r == self.tokens@[self.current - 1],
    {
        return &self.tokens[self.current - 1];
    }

    fn consume(&mut self, token_type: TokenType, message: &str) -> (r: Result<&Token, ParserError>)
        requires
            old(self).current < old(self).tokens@.len(),
        ensures
            final(self).tokens == old(self).tokens,
            check(old(self).tokens@, old(self).current as int, token_type) ==> r is Ok
                && *r->Ok_0 == old(self).tokens@[old(self).current as int]
                && final(self).current == old(self).current + 1,
            !check(old(self).tokens@, old(self).current as int, token_type) ==> r is Err
                && final(self).current == old(self).current
                && r->Err_0@ == ParserErrorModel::SyntaxError(
                old(self).tokens@[old(self).current as int],
                message@,
            ),
    {
        if self.check(token_type) {
            return Ok(self.advance());
        }
        Err(ParserError::SyntaxError(self.peek().clone(), String::from_str(message)))
    }
}

fn expression(state: &mut ParserState) -> (r: Result<Expr, ParserError>)
    requires
        spec_expression(old(state).tokens@, old(state).current as int).1 < old(state).tokens@.len(),
    ensures
        final(state).tokens == old(state).tokens,
        (result_model(r), final(state).current as int) == spec_expression(old(state).tokens@, old(state).current as int),
    decreases old(state).tokens@.len() - old(state).current, 13int,
{
    equality(state)
}

#[verifier::spinoff_prover]
#[verifier::rlimit(40)]
fn equality(state: &mut ParserState) -> (r: Result<Expr, ParserError>)
    requires
        spec_equality(old(state).tokens@, old(state).current as int).1 < old(state).tokens@.len(),
    ensures
        final(state).tokens == old(state).tokens,
        (result_model(r), final(state).current as int) == spec_equality(old(state).tokens@, old(state).current as int),
    decreases old(state).tokens@.len() - old(state).current, 12int,
{
    let ghost ts = state.tokens@;
    let ghost p0 = state.current as int;
    proof {
        lemma_mono_comparison(ts, p0);
        let (r, p1) = spec_comparison(ts, p0);
        if let Ok(x) = r {
            if p0 <= p1 <= ts.len() {
                lemma_mono_equality_rest(ts, x, p1);
            }
        }
    }
    let mut expr = match comparison(state) {
        Ok(e) => e,
        Err(err) => return Err(err),
    };
    let ops = vec![TokenType::BangEqual, TokenType::EqualEqual];
    assert(ops@ =~= equality_ops());
    loop
        invariant
            state.tokens == old(state).tokens,
            ts == old(state).tokens@,
            p0 == old(state).current,
            ops@ == equality_ops(),
            p0 < state.current <= spec_equality(ts, p0).1 < ts.len(),
            spec_equality(ts, p0) == spec_equality_rest(ts, expr, state.current as int),
        decreases ts.len() - state.current,
    {
        let ghost p = state.current as int;
        if !state.is_next(ops.as_slice()) {
            return Ok(expr);
        }
        proof {
            lemma_check_any_in_range(ts, p, equality_ops());
            lemma_mono_comparison(ts, p + 1);
            let (r, p2) = spec_comparison(ts, p + 1);
            if let Ok(right) = r {
                if p < p2 <= ts.len() {
                    lemma_mono_equality_rest(ts, binary(expr, ts[p], right), p2);
                }
            }
        }
        let op = state.previous().clone();
        let right = match comparison(state) {
            Ok(e) => e,
            Err(err) => return Err(err),
        };
        expr = Expr::Binary { lhs: Box::new(expr), op, rhs: Box::new(right) };
        proof {
            lemma_mono_equality_rest(ts, expr, state.current as int);
        }
    }
}

#[verifier::spinoff_prover]
#[verifier::rlimit(40)]
fn comparison(state: &mut ParserState) -> (r: Result<Expr, ParserError>)
    requires
        spec_comparison(old(state).tokens@, old(state).current as int).1 < old(state).tokens@.len(),
    ensures
        final(state).tokens == old(state).tokens,
        (result_model(r), final(state).current as int) == spec_comparison(old(state).tokens@, old(state).current as int),
    decreases old(state).tokens@.len() - old(state).current, 10int,
{
    let ghost ts = state.tokens@;
    let ghost p0 = state.current as int;
    proof {
        lemma_mono_term(ts, p0);
        let (r, p1) = spec_term(ts, p0);
        if let Ok(x) = r {
            if p0 <= p1 <= ts.len() {
                lemma_mono_comparison_rest(ts, x, p1);
            }
        }
    }
    let mut expr = match term(state) {
        Ok(e) => e,
        Err(err) => return Err(err),
    };
    let ops = vec![TokenType::Greater, TokenType::GreaterEqual, TokenType::Less, TokenType::LessEqual];
    assert(ops@ =~= comparison_ops());
    loop
        invariant
            state.tokens == old(state).tokens,
            ts == old(state).tokens@,
            p0 == old(state).current,
            ops@ == comparison_ops(),
            p0 < state.current <= spec_comparison(ts, p0).1 < ts.len(),
            spec_comparison(ts, p0) == spec_comparison_rest(ts, expr, state.current as int),
        decreases ts.len() - state.current,
    {
        let ghost p = state.current as int;
        if !state.is_next(ops.as_slice()) {
            return Ok(expr);
        }
        proof {
            lemma_check_any_in_range(ts, p, comparison_ops());
            lemma_mono_term(ts, p + 1);
            let (r, p2) = spec_term(ts, p + 1);
            if let Ok(right) = r {
                if p < p2 <= ts.len() {
                    lemma_mono_comparison_rest(ts, binary(expr, ts[p], right), p2);
                }
            }
        }
        let op = state.previous().clone();
        let right = match term(state) {
            Ok(e) => e,
            Err(err) => return Err(err),
        };
        expr = Expr::Binary { lhs: Box::new(expr), op, rhs: Box::new(right) };
        proof {
            lemma_mono_comparison_rest(ts, expr, state.current as int);
        }
    }
}

#[verifier::spinoff_prover]
#[verifier::rlimit(40)]
fn term(state: &mut ParserState) -> (r: Result<Expr, ParserError>)
    requires
        spec_term(old(state).tokens@, old(state).current as int).1 < old(state).tokens@.len(),
    ensures
        final(state).tokens == old(state).tokens,
        (result_model(r), final(state).current as int) == spec_term(old(state).tokens@, old(state).current as int),
    decreases old(state).tokens@.len() - old(state).current, 8int,
{
    let ghost ts = state.tokens@;
    let ghost p0 = state.current as int;
    proof {
        lemma_mono_factor(ts, p0);
        let (r, p1) = spec_factor(ts, p0);
        if let Ok(x) = r {
            if p0 <= p1 <= ts.len() {
                lemma_mono_term_rest(ts, x, p1);
            }
        }
    }
    let mut expr = match factor(state) {
        Ok(e) => e,
        Err(err) => return Err(err),
    };
    let ops = vec![TokenType::Minus, TokenType::Plus];
    assert(ops@ =~= term_ops());
    loop
        invariant
            state.tokens == old(state).tokens,
            ts == old(state).tokens@,
            p0 == old(state).current,
            ops@ == term_ops(),
            p0 < state.current <= spec_term(ts, p0).1 < ts.len(),
            spec_term(ts, p0) == spec_term_rest(ts, expr, state.current as int),
        decreases ts.len() - state.current,
    {
        let ghost p = state.current as int;
        if !state.is_next(ops.as_slice()) {
            return Ok(expr);
        }
        proof {
            lemma_check_any_in_range(ts, p, term_ops());
            lemma_mono_factor(ts, p + 1);
            let (r, p2) = spec_factor(ts, p + 1);
            if let Ok(right) = r {
                if p < p2 <= ts.len() {
                    lemma_mono_term_rest(ts, binary(expr, ts[p], right), p2);
                }
            }
        }
        let op = state.previous().clone();
        let right = match factor(state) {
            Ok(e) => e,
            Err(err) => return Err(err),
        };
        expr = Expr::Binary { lhs: Box::new(expr), op, rhs: Box::new(right) };
        proof {
            lemma_mono_term_rest(ts, expr, state.current as int);
        }
    }
}

#[verifier::spinoff_prover]
#[verifier::rlimit(40)]
fn factor(state: &mut ParserState) -> (r: Result<Expr, ParserError>)
    requires
        spec_factor(old(state).tokens@, old(state).current as int).1 < old(state).tokens@.len(),
    ensures
        final(state).tokens == old(state).tokens,
        (result_model(r), final(state).current as int) == spec_factor(old(state).tokens@, old(state).current as int),
    decreases old(state).tokens@.len() - old(state).current, 6int,
{
    let ghost ts = state.tokens@;
    let ghost p0 = state.current as int;
    proof {
        lemma_mono_unary(ts, p0);
        let (r, p1) = spec_unary(ts, p0);
        if let Ok(x) = r {
            if p0 <= p1 <= ts.len() {
                lemma_mono_factor_rest(ts, x, p1);
            }
        }
    }
    let mut expr = match unary(state) {
        Ok(e) => e,
        Err(err) => return Err(err),
    };
    let ops = vec![TokenType::Slash, TokenType::Star];
    assert(ops@ =~= factor_ops());
    loop
        invariant
            state.tokens == old(state).tokens,
            ts == old(state).tokens@,
            p0 == old(state).current,
            ops@ == factor_ops(),
            p0 < state.current <= spec_factor(ts, p0).1 < ts.len(),
            spec_factor(ts, p0) == spec_factor_rest(ts, expr, state.current as int),
        decreases ts.len() - state.current,
    {
        let ghost p = state.current as int;
        if !state.is_next(ops.as_slice()) {
            return Ok(expr);
        }
        proof {
            lemma_check_any_in_range(ts, p, factor_ops());
            lemma_mono_unary(ts, p + 1);
            let (r, p2) = spec_unary(ts, p + 1);
            if let Ok(right) = r {
                if p < p2 <= ts.len() {
                    lemma_mono_factor_rest(ts, binary(expr, ts[p], right), p2);
                }
            }
        }
        let op = state.previous().clone();
        let right = match unary(state) {
            Ok(e) => e,
            Err(err) => return Err(err),
        };
        expr = Expr::Binary { lhs: Box::new(expr), op, rhs: Box::new(right) };
        proof {
            lemma_mono_factor_rest(ts, expr, state.current as int);
        }
    }
}

fn unary(state: &mut ParserState) -> (r: Result<Expr, ParserError>)
    requires
        spec_unary(old(state).tokens@, old(state).current as int).1 < old(state).tokens@.len(),
    ensures
        final(state).tokens == old(state).tokens,
        (result_model(r), final(state).current as int) == spec_unary(old(state).tokens@, old(state).current as int),
    decreases old(state).tokens@.len() - old(state).current, 4int,
{
    proof {
        lemma_mono_unary(state.tokens@, state.current as int);
    }
    let ops = vec![TokenType::Bang, TokenType::Minus];
    assert(ops@ =~= unary_ops());
    if state.is_next(ops.as_slice()) {
        let operator = state.previous().clone();
        let right = match unary(state) {
            Ok(e) => e,
            Err(err) => return Err(err),
        };
        return Ok(Expr::Unary { op: operator, rhs: Box::new(right) });
    }
    primary(state)
}

fn primary(state: &mut ParserState) -> (r: Result<Expr, ParserError>)
    requires
        spec_primary(old(state).tokens@, old(state).current as int).1 < old(state).tokens@.len(),
    ensures
        final(state).tokens == old(state).tokens,
        (result_model(r), final(state).current as int) == spec_primary(old(state).tokens@, old(state).current as int),
    decreases old(state).tokens@.len() - old(state).current, 3int,
{
    let ghost ts = state.tokens@;
    let ghost p = state.current as int;
    proof {
        lemma_mono_primary(ts, p);
    }
    match state.peek().token_type.clone() {
        TokenType::Literal(Literal::Identifier(_)) => {
            Err(ParserError::SyntaxError(state.peek().clone(), String::from_str("Expected expression")))
        },
        TokenType::Literal(literal) => {
            state.advance();
            return Ok(Expr::Literal { literal: literal.clone() });
        },
        TokenType::LeftParenthesis => {
            state.advance();
            proof {
                lemma_mono_expression(ts, p + 1);
            }
            let expr = match expression(state) {
                Ok(e) => e,
                Err(err) => return Err(err),
            };
            match state.consume(TokenType::RightParenthesis, "Expect ')' after expression.") {
                Ok(_) => {},
                Err(err) => return Err(err),
            }
            return Ok(Expr::Grouping { expr: Box::new(expr) });
        },
        _ => Err(ParserError::SyntaxError(state.peek().clone(), String::from_str("Expected expression"))),
    }
}

/// An expression from the current token on.
fn parse_expression(state: &mut ParserState) -> (r: Result<Expr, ParserError>)
    requires
        spec_expression(old(state).tokens@, old(state).current as int).1 < old(state).tokens@.len(),
    ensures
        final(state).tokens == old(state).tokens,
        (result_model(r), final(state).current as int) == spec_expression(old(state).tokens@, old(state).current as int),
{
    expression(state)
}

fn print_statement(state: &mut ParserState) -> (r: Result<Stmt, ParserError>)
    requires
        spec_statement_after(old(state).tokens@, old(state).current as int, true).1 < old(state).tokens@.len(),
    ensures
        final(state).tokens == old(state).tokens,
        (result_model(r), final(state).current as int) == spec_statement_after(
            old(state).tokens@,
            old(state).current as int,
            true,
        ),
{
    proof {
        lemma_mono_expression(state.tokens@, state.current as int);
    }
    let value = match parse_expression(state) {
        Ok(e) => e,
        Err(err) => return Err(err),
    };
    match state.consume(TokenType::Semicolon, "Expect ';' after value.") {
        Ok(_) => {},
        Err(err) => return Err(err),
    }
    Ok(Stmt::Print { expr: value })
}

fn expression_statement(state: &mut ParserState) -> (r: Result<Stmt, ParserError>)
    requires
        spec_statement_after(old(state).tokens@, old(state).current as int, false).1 < old(state).tokens@.len(),
    ensures
        final(state).tokens == old(state).tokens,
        (result_model(r), final(state).current as int) == spec_statement_after(
            old(state).tokens@,
            old(state).current as int,
            false,
        ),
{
    proof {
        lemma_mono_expression(state.tokens@, state.current as int);
    }
    let value = match parse_expression(state) {
        Ok(e) => e,
        Err(err) => return Err(err),
    };
    match state.consume(TokenType::Semicolon, "Expect ';' after value.") {
        Ok(_) => {},
        Err(err) => return Err(err),
    }
    Ok(Stmt::Expression { expr: value })
}

/// A statement from the current token on.
fn parse_statement(state: &mut ParserState) -> (r: Result<Stmt, ParserError>)
    requires
        spec_statement(old(state).tokens@, old(state).current as int).1 < old(state).tokens@.len(),
    ensures
        final(state).tokens == old(state).tokens,
        (result_model(r), final(state).current as int) == spec_statement(old(state).tokens@, old(state).current as int),
{
    let ghost ts = state.tokens@;
    let ghost p = state.current as int;
    proof {
        lemma_mono_statement(ts, p);
    }
    let print = vec![TokenType::Print];
    let is_print = state.is_next(print.as_slice());
    assert(is_print == check(ts, p, TokenType::Print)) by {
        if check(ts, p, TokenType::Print) {
            assert(check(ts, p, print@[0]));
        }
    }
    if is_print {
        return print_statement(state);
    } else {
        return expression_statement(state);
    }
}

/// The models of parsed statements.
pub open spec fn statements_model(r: Result<Vec<Stmt>, ParserError>) -> Result<Seq<Stmt>, ParserErrorModel> {
    match r {
        Ok(v) => Ok(v@),
        Err(e) => Err(e@),
    }
}

/// The statements that `tokens` spell.
///
/// Parsing reads the tokens up to the one at `parse_end`, which must exist:
/// where it stops, either at an `Eof` token or at the token of an error.
pub fn parse(tokens: Vec<Token>) -> (r: Result<Vec<Stmt>, ParserError>)
    requires
        parse_end(tokens@, 0) < tokens@.len(),
    ensures
        statements_model(r) == spec_parse(tokens@),
{
    let ghost ts = tokens@;
    let mut state = ParserState::new(tokens);
    let mut statements: Vec<Stmt> = Vec::new();
    proof {
        lemma_mono_parse_end(ts, 0);
    }
    loop
        invariant
            state.tokens@ == ts,
            ts == tokens@,
            state.current <= parse_end(ts, state.current as int) == parse_end(ts, 0) < ts.len(),
            spec_parse(ts) == (match spec_statements(ts, state.current as int) {
                Ok(rest) => Ok(statements@ + rest),
                Err(e) => Err(e),
            }),
        decreases ts.len() - state.current,
    {
        if state.at_end() {
            assert(statements@ + Seq::<Stmt>::empty() =~= statements@);
            return Ok(statements);
        }
        let ghost p = state.current as int;
        proof {
            lemma_mono_statement(ts, p);
            let (r, p1) = spec_statement(ts, p);
            if r is Ok && p < p1 <= ts.len() {
                lemma_mono_parse_end(ts, p1);
            }
        }
        let s = match parse_statement(&mut state) {
            Ok(s) => s,
            Err(err) => {
                assert(spec_statements(ts, p) == Err::<Seq<Stmt>, _>(err@));
                return Err(err);
            },
        };
        let ghost old_statements = statements@;
        statements.push(s);
        proof {
            match spec_statements(ts, state.current as int) {
                Ok(rest) => {
                    assert(old_statements + (seq![s] + rest) =~= statements@ + rest);
                },
                Err(_) => {},
            }
        }
    }
}

} // verus!
