//! What the parser's choice of operator means: each operator token is
//! parsed to the operator that computes what its symbol stands for, shown
//! on whole numbers.
use vstd::prelude::*;
use crate::expr::{BinaryOp, ExprV, LogicalOp, UnaryOp};
use crate::grammar::{comparison_op, equality_op, factor_op, is_comparison, p_and_rest, p_or_rest, term_op, unary_op};
use crate::token::TokenV;
use crate::token::TokenKind;

verus! {

/// What a comparison operator says of two whole numbers.
pub open spec fn op_holds(op: BinaryOp, a: int, b: int) -> bool {
    match op {
        BinaryOp::Less => a < b,
        BinaryOp::LessEq => a <= b,
        BinaryOp::Greater => a > b,
        BinaryOp::GreaterEq => a >= b,
        BinaryOp::Eq => a == b,
        BinaryOp::NotEq => a != b,
        _ => false,
    }
}

/// What an arithmetic operator gives on two whole numbers.
pub open spec fn op_value(op: BinaryOp, a: int, b: int) -> int {
    match op {
        BinaryOp::Add => a + b,
        BinaryOp::Sub => a - b,
        BinaryOp::Mul => a * b,
        BinaryOp::Div => a / b,
        _ => 0,
    }
}

/// What a prefix operator gives on a whole number, zero standing for false
/// and one for true.
pub open spec fn unary_value(op: UnaryOp, a: int) -> int {
    match op {
        UnaryOp::Neg => -a,
        UnaryOp::Not => if a == 0 { 1 } else { 0 },
    }
}

/// What the symbols `<`, `<=`, `>`, `>=`, `==` and `!=` say of two numbers.
pub open spec fn symbol_holds(k: TokenKind, a: int, b: int) -> bool {
    match k {
        TokenKind::Less => a < b,
        TokenKind::LessEqual => a < b || a == b,
        TokenKind::Greater => b < a,
        TokenKind::GreaterEqual => b < a || a == b,
        TokenKind::EqualEqual => a == b,
        TokenKind::BangEqual => !(a == b),
        _ => false,
    }
}

/// What the symbols `+`, `-`, `*` and `/` give on two numbers.
pub open spec fn symbol_value(k: TokenKind, a: int, b: int) -> int {
    match k {
        TokenKind::Plus => a + b,
        TokenKind::Minus => a - b,
        TokenKind::Asterisk => a * b,
        TokenKind::FSlash => a / b,
        _ => 0,
    }
}

/// Each comparison token is parsed to an operator that says of any two
/// numbers what its symbol says: `<=` holds of equal numbers and `<` does
/// not, and so on. So no two comparison tokens share an operator.
pub proof fn law_comparison_tokens_keep_meaning(k: TokenKind, a: int, b: int)
    requires
        is_comparison(k),
    ensures
        op_holds(comparison_op(k), a, b) == symbol_holds(k, a, b),
        k == TokenKind::EqualEqual || k == TokenKind::BangEqual ==> op_holds(equality_op(k), a, b) == symbol_holds(k, a, b),
{
}

/// Distinct comparison tokens are parsed to distinct operators.
pub proof fn law_comparison_tokens_distinct(k1: TokenKind, k2: TokenKind)
    requires
        is_comparison(k1),
        is_comparison(k2),
        k1 != k2,
    ensures
        comparison_op(k1) != comparison_op(k2),
{
    law_comparison_tokens_keep_meaning(k1, 0, 0);
    law_comparison_tokens_keep_meaning(k2, 0, 0);
    law_comparison_tokens_keep_meaning(k1, 0, 1);
    law_comparison_tokens_keep_meaning(k2, 0, 1);
    law_comparison_tokens_keep_meaning(k1, 1, 0);
    law_comparison_tokens_keep_meaning(k2, 1, 0);
}

/// `+` and `-` are parsed to operators that add and subtract; `*` and `/`
/// to operators that multiply and divide.
pub proof fn law_arithmetic_tokens_keep_meaning(k: TokenKind, a: int, b: int)
    ensures
        k == TokenKind::Plus || k == TokenKind::Minus ==> op_value(term_op(k), a, b) == symbol_value(k, a, b),
        k == TokenKind::Asterisk || k == TokenKind::FSlash ==> op_value(factor_op(k), a, b) == symbol_value(k, a, b),
{
}

/// A prefix `-` negates and a prefix `!` negates a truth value.
pub proof fn law_prefix_tokens_keep_meaning(a: int)
    ensures
        unary_value(unary_op(TokenKind::Minus), a) == -a,
        unary_value(unary_op(TokenKind::Bang), a) == if a == 0 { 1int } else { 0int },
{
}

/// What a logical operator says of two truth values.
pub open spec fn logical_holds(op: LogicalOp, a: bool, b: bool) -> bool {
    match op {
        LogicalOp::Or => a || b,
        LogicalOp::And => a && b,
    }
}

/// The words `or` and `and` are parsed to operators that say what the words
/// say: parsing what follows an operand gives the operand back, or an
/// expression whose operator, for `or`, holds when either side does, and,
/// for `and`, when both do.
pub proof fn law_logical_words_keep_meaning(t: Seq<TokenV>, p: int, left: ExprV)
    ensures
        p_or_rest(t, p, left) matches Ok((r, _)) ==> r == left || (r is Logical && forall|a: bool, b: bool|
            #[trigger] logical_holds(r->Logical_operator, a, b) == (a || b)),
        p_and_rest(t, p, left) matches Ok((r, _)) ==> r == left || (r is Logical && forall|a: bool, b: bool|
            #[trigger] logical_holds(r->Logical_operator, a, b) == (a && b)),
    decreases t.len() - p,
{
    if 0 <= p < t.len() {
        match crate::grammar::p_and(t, p + 1) {
            Ok((r, p1)) => if p < p1 < t.len() {
                law_logical_words_keep_meaning(t, p1, ExprV::Logical { operator: LogicalOp::Or, left: Box::new(left), right: Box::new(r) });
            },
            _ => {},
        }
        match crate::grammar::p_equality(t, p + 1) {
            Ok((r, p1)) => if p < p1 < t.len() {
                law_logical_words_keep_meaning(t, p1, ExprV::Logical { operator: LogicalOp::And, left: Box::new(left), right: Box::new(r) });
            },
            _ => {},
        }
    }
}

} // verus!
