//! The grammar of the language, as spec functions over token sequences.
use vstd::prelude::*;
use crate::token::{TokenKind, TokenV};
use crate::error::ParserErrorV;
use crate::expr::{BinaryOp, ExprV, LogicalOp, UnaryOp};
use crate::stmt::StmtV;
use crate::value::ValueV;
use crate::numtext::float_text;
use crate::text::trimmed;

verus! {

/// A parse of one item: the item and the position after it.
pub type PRes<A> = Result<(A, int), ParserErrorV>;

/// A token list the parser can run on: it is not empty and its last token
/// is `Eof`.
pub open spec fn well_formed(t: Seq<TokenV>) -> bool {
    t.len() > 0 && t.last().kind == TokenKind::Eof
}

pub open spec fn at_end(t: Seq<TokenV>, p: int) -> bool {
    t[p].kind == TokenKind::Eof
}

/// Whether the token at `p` has kind `k` (and is not the end).
pub open spec fn check(t: Seq<TokenV>, p: int, k: TokenKind) -> bool {
    0 <= p && p + 1 < t.len() && !at_end(t, p) && t[p].kind == k
}

pub open spec fn check2(t: Seq<TokenV>, p: int, k1: TokenKind, k2: TokenKind) -> bool {
    check(t, p, k1) || check(t, p, k2)
}

pub open spec fn consume(t: Seq<TokenV>, p: int, k: TokenKind) -> Result<int, ParserErrorV> {
    if check(t, p, k) {
        Ok(p + 1)
    } else {
        Err(ParserErrorV::CouldntConsumeToken { expected: k, got: t[p].kind, line: t[p].line })
    }
}

pub open spec fn var_named(name: Seq<char>) -> ExprV {
    ExprV::Var(name)
}

pub open spec fn equality_op(k: TokenKind) -> BinaryOp {
    if k == TokenKind::BangEqual {
        BinaryOp::NotEq
    } else {
        BinaryOp::Eq
    }
}

pub open spec fn is_comparison(k: TokenKind) -> bool {
    k == TokenKind::Greater || k == TokenKind::GreaterEqual || k == TokenKind::Less || k
        == TokenKind::LessEqual || k == TokenKind::BangEqual || k == TokenKind::EqualEqual
}

pub open spec fn comparison_op(k: TokenKind) -> BinaryOp {
    if k == TokenKind::Greater {
        BinaryOp::Greater
    } else if k == TokenKind::GreaterEqual {
        BinaryOp::GreaterEq
    } else if k == TokenKind::Less {
        BinaryOp::Less
    } else if k == TokenKind::LessEqual {
        BinaryOp::LessEq
    } else if k == TokenKind::BangEqual {
        BinaryOp::NotEq
    } else {
        BinaryOp::Eq
    }
}

pub open spec fn term_op(k: TokenKind) -> BinaryOp {
    if k == TokenKind::Minus {
        BinaryOp::Sub
    } else {
        BinaryOp::Add
    }
}

pub open spec fn factor_op(k: TokenKind) -> BinaryOp {
    if k == TokenKind::FSlash {
        BinaryOp::Div
    } else {
        BinaryOp::Mul
    }
}

pub open spec fn unary_op(k: TokenKind) -> UnaryOp {
    if k == TokenKind::Bang {
        UnaryOp::Not
    } else {
        UnaryOp::Neg
    }
}

/// The error for a position where the parser made no progress; no parse
/// ends here, as every successful parse of an item takes at least a token.
pub open spec fn stalled() -> ParserErrorV {
    ParserErrorV::UnknownStatement
}

/// The name a too-long call is reported under.
pub open spec fn callee_name(callee: ExprV) -> Seq<char> {
    match callee {
        ExprV::Var(n) => n,
        _ => "Unknown"@,
    }
}

// The grammar, one spec function per parsing function. Each one takes the
// tokens and the position where it starts, and gives what it parsed and the
// position after it. Their measure is the number of tokens left, then a rank
// that falls wherever one calls another at the same position.

pub open spec fn p_declarations(t: Seq<TokenV>, p: int, acc: Seq<StmtV>) -> Result<Seq<StmtV>, ParserErrorV>
    decreases t.len() - p, 100int,
{
    if !(0 <= p < t.len()) {
        Err(stalled())
    } else if !at_end(t, p) {
        match p_declaration(t, p) {
            Ok((s, p1)) => if p < p1 < t.len() {
                p_declarations(t, p1, acc.push(s))
            } else {
                Err(stalled())
            },
            Err(e) => Err(e),
        }
    } else {
        Ok(acc)
    }
}

pub open spec fn p_declaration(t: Seq<TokenV>, p: int) -> PRes<StmtV>
    decreases t.len() - p, 90int,
{
    if !(0 <= p < t.len() - 1) {
        Err(stalled())
    } else if check(t, p, TokenKind::Def) {
        p_function(t, p + 1)
    } else if check(t, p, TokenKind::Let) {
        p_var_declaration(t, p + 1)
    } else {
        p_statement(t, p)
    }
}

pub open spec fn p_params(t: Seq<TokenV>, p: int, name: Seq<char>, acc: Seq<Seq<char>>) -> Result<(Seq<Seq<char>>, int), ParserErrorV>
    decreases t.len() - p, 0int,
{
    if !(0 <= p < t.len()) {
        Err(stalled())
    } else if acc.len() >= 255 {
        Err(ParserErrorV::TooManyParameters { func_name: name })
    } else {
        match consume(t, p, TokenKind::Identifier) {
            Err(e) => Err(e),
            Ok(p1) => {
                let acc1 = acc.push(t[p].literal);
                if check(t, p1, TokenKind::Comma) && p < p1 {
                    p_params(t, p1 + 1, name, acc1)
                } else {
                    Ok((acc1, p1))
                }
            },
        }
    }
}

pub open spec fn p_function(t: Seq<TokenV>, p: int) -> PRes<StmtV>
    decreases t.len() - p, 0int,
{
    if !(0 <= p < t.len()) {
        Err(stalled())
    } else {
        match consume(t, p, TokenKind::Identifier) {
            Err(e) => Err(e),
            Ok(p1) => {
                let name = t[p].literal;
                match consume(t, p1, TokenKind::LParen) {
                    Err(e) => Err(e),
                    Ok(p2) => {
                        let params = if !check(t, p2, TokenKind::RParen) {
                            p_params(t, p2, name, Seq::empty())
                        } else {
                            Ok((Seq::empty(), p2))
                        };
                        match params {
                            Err(e) => Err(e),
                            Ok((ps, p3)) => if p < p3 < t.len() {
                                match consume(t, p3, TokenKind::RParen) {
                                    Err(e) => Err(e),
                                    Ok(p4) => match p_body(t, p4) {
                                        Err(e) => Err(e),
                                        Ok((body, p5)) => Ok(
                                            (
                                                StmtV::Function {
                                                    name,
                                                    params: ps,
                                                    body,
                                                    captures: Seq::empty(),
                                                },
                                                p5,
                                            ),
                                        ),
                                    },
                                }
                            } else {
                                Err(stalled())
                            },
                        }
                    },
                }
            },
        }
    }
}

pub open spec fn p_var_declaration(t: Seq<TokenV>, p: int) -> PRes<StmtV>
    decreases t.len() - p, 0int,
{
    if !(0 <= p < t.len()) {
        Err(stalled())
    } else {
        match consume(t, p, TokenKind::Identifier) {
            Err(e) => Err(e),
            Ok(p1) => {
                let name = t[p].literal;
                let init: Result<(Option<ExprV>, int), ParserErrorV> = if check(t, p1, TokenKind::Equal) {
                    match p_expression(t, p1 + 1) {
                        Ok((e, p2)) => Ok((Some(e), p2)),
                        Err(e) => Err(e),
                    }
                } else {
                    Ok((None, p1))
                };
                match init {
                    Err(e) => Err(e),
                    Ok((i, p2)) => if p < p2 < t.len() {
                        match consume(t, p2, TokenKind::Semicolon) {
                            Err(e) => Err(e),
                            Ok(p3) => Ok((StmtV::Var { name, initializer: i }, p3)),
                        }
                    } else {
                        Err(stalled())
                    },
                }
            },
        }
    }
}

pub open spec fn assignment_follows(t: Seq<TokenV>, p: int) -> bool {
    check(t, p, TokenKind::Identifier) && p + 1 < t.len() && (t[p + 1].kind == TokenKind::Equal
        || t[p + 1].kind == TokenKind::Incr || t[p + 1].kind == TokenKind::Decr)
}

pub open spec fn p_statement(t: Seq<TokenV>, p: int) -> PRes<StmtV>
    decreases t.len() - p, 80int,
{
    if !(0 <= p < t.len()) {
        Err(stalled())
    } else if check(t, p, TokenKind::Break) {
        match consume(t, p + 1, TokenKind::Semicolon) {
            Err(e) => Err(e),
            Ok(p1) => Ok((StmtV::Break, p1)),
        }
    } else if check(t, p, TokenKind::Continue) {
        match consume(t, p + 1, TokenKind::Semicolon) {
            Err(e) => Err(e),
            Ok(p1) => Ok((StmtV::Continue, p1)),
        }
    } else if check(t, p, TokenKind::For) {
        p_for(t, p + 1)
    } else if check(t, p, TokenKind::If) {
        p_if(t, p + 1)
    } else if check(t, p, TokenKind::Print) {
        p_print(t, p + 1)
    } else if check(t, p, TokenKind::Return) {
        p_return(t, p + 1)
    } else if check(t, p, TokenKind::While) {
        p_while(t, p + 1)
    } else if assignment_follows(t, p) {
        p_assignment(t, p + 1)
    } else {
        p_expression_statement(t, p)
    }
}

pub open spec fn p_for(t: Seq<TokenV>, p: int) -> PRes<StmtV>
    decreases t.len() - p, 0int,
{
    if !(0 <= p < t.len()) {
        Err(stalled())
    } else {
        match consume(t, p, TokenKind::Identifier) {
            Err(e) => Err(e),
            Ok(p1) => {
                let name = t[p].literal;
                match consume(t, p1, TokenKind::In) {
                    Err(e) => Err(e),
                    Ok(p2) => match p_expression(t, p2) {
                        Err(e) => Err(e),
                        Ok((start, p3)) => if p < p3 < t.len() {
                            match consume(t, p3, TokenKind::DotDot) {
                                Err(e) => Err(e),
                                Ok(p4) => match p_expression(t, p4) {
                                    Err(e) => Err(e),
                                    Ok((end, p5)) => if p < p5 < t.len() {
                                        p_for_rest(t, p5, name, start, end)
                                    } else {
                                        Err(stalled())
                                    },
                                },
                            }
                        } else {
                            Err(stalled())
                        },
                    },
                }
            },
        }
    }
}

/// What follows `for name in start..end`: the optional step and the body.
pub open spec fn p_for_rest(t: Seq<TokenV>, p: int, name: Seq<char>, start: ExprV, end: ExprV) -> PRes<StmtV>
    decreases t.len() - p, 2int,
{
    if !(0 <= p < t.len()) {
        Err(stalled())
    } else if check(t, p, TokenKind::Step) {
        match p_expression(t, p + 1) {
            Err(e) => Err(e),
            Ok((v, p1)) => if p < p1 < t.len() {
                p_for_body(
                    t,
                    p1,
                    name,
                    start,
                    end,
                    StmtV::Assign {
                        name,
                        value: Box::new(
                            ExprV::Binary {
                                left: Box::new(var_named(name)),
                                operator: BinaryOp::Add,
                                right: Box::new(v),
                            },
                        ),
                    },
                )
            } else {
                Err(stalled())
            },
        }
    } else {
        p_for_body(t, p, name, start, end, StmtV::Incr(name))
    }
}

/// The body of a `for` loop, and the loop it completes.
pub open spec fn p_for_body(
    t: Seq<TokenV>,
    p: int,
    name: Seq<char>,
    start: ExprV,
    end: ExprV,
    step: StmtV,
) -> PRes<StmtV>
    decreases t.len() - p, 1int,
{
    match p_body(t, p) {
        Err(e) => Err(e),
        Ok((body, p1)) => Ok(
            (
                StmtV::For {
                    initializer: Box::new(StmtV::Var { name, initializer: Some(start) }),
                    condition: ExprV::Binary {
                        left: Box::new(var_named(name)),
                        operator: BinaryOp::Less,
                        right: Box::new(end),
                    },
                    step: Box::new(step),
                    body,
                },
                p1,
            ),
        ),
    }
}

pub open spec fn p_else(t: Seq<TokenV>, p2: int) -> Result<(Option<Seq<StmtV>>, int), ParserErrorV>
    decreases t.len() - p2, 0int,
{
    if !(0 <= p2 < t.len()) {
        Err(stalled())
    } else if check(t, p2, TokenKind::Else) {
        if check(t, p2 + 1, TokenKind::If) {
            match p_if(t, p2 + 2) {
                Err(e) => Err(e),
                Ok((s, p3)) => Ok((Some(seq![s]), p3)),
            }
        } else {
            match p_body(t, p2 + 1) {
                Err(e) => Err(e),
                Ok((b, p3)) => Ok((Some(b), p3)),
            }
        }
    } else {
        Ok((None, p2))
    }
}

pub open spec fn p_if(t: Seq<TokenV>, p: int) -> PRes<StmtV>
    decreases t.len() - p, 70int,
{
    if !(0 <= p < t.len()) {
        Err(stalled())
    } else {
        match p_expression(t, p) {
            Err(e) => Err(e),
            Ok((cond, p1)) => if p < p1 < t.len() {
                match p_body(t, p1) {
                    Err(e) => Err(e),
                    Ok((then_b, p2)) => if p < p2 < t.len() {
                        match p_else(t, p2) {
                            Err(e) => Err(e),
                            Ok((eb, p3)) => Ok(
                                (StmtV::If { condition: cond, then_branch: then_b, else_branch: eb }, p3),
                            ),
                        }
                    } else {
                        Err(stalled())
                    },
                }
            } else {
                Err(stalled())
            },
        }
    }
}

pub open spec fn p_print(t: Seq<TokenV>, p: int) -> PRes<StmtV>
    decreases t.len() - p, 0int,
{
    if !(0 <= p < t.len()) {
        Err(stalled())
    } else {
        match consume(t, p, TokenKind::LParen) {
            Err(e) => Err(e),
            Ok(p1) => match p_expression(t, p1) {
                Err(e) => Err(e),
                Ok((e, p2)) => if p < p2 < t.len() {
                    match consume(t, p2, TokenKind::RParen) {
                        Err(er) => Err(er),
                        Ok(p3) => match consume(t, p3, TokenKind::Semicolon) {
                            Err(er) => Err(er),
                            Ok(p4) => Ok((StmtV::Print(e), p4)),
                        },
                    }
                } else {
                    Err(stalled())
                },
            },
        }
    }
}

pub open spec fn p_return(t: Seq<TokenV>, p: int) -> PRes<StmtV>
    decreases t.len() - p, 70int,
{
    if !(0 <= p < t.len()) {
        Err(stalled())
    } else {
        let v: Result<(Option<ExprV>, int), ParserErrorV> = if !check(t, p, TokenKind::Semicolon) {
            match p_expression(t, p) {
                Err(e) => Err(e),
                Ok((e, p1)) => Ok((Some(e), p1)),
            }
        } else {
            Ok((None, p))
        };
        match v {
            Err(e) => Err(e),
            Ok((value, p1)) => if p <= p1 < t.len() {
                match consume(t, p1, TokenKind::Semicolon) {
                    Err(e) => Err(e),
                    Ok(p2) => Ok((StmtV::Return(value), p2)),
                }
            } else {
                Err(stalled())
            },
        }
    }
}

pub open spec fn p_while(t: Seq<TokenV>, p: int) -> PRes<StmtV>
    decreases t.len() - p, 70int,
{
    if !(0 <= p < t.len()) {
        Err(stalled())
    } else {
        match p_expression(t, p) {
            Err(e) => Err(e),
            Ok((cond, p1)) => if p < p1 < t.len() {
                match p_body(t, p1) {
                    Err(e) => Err(e),
                    Ok((body, p2)) => Ok((StmtV::While { condition: cond, body }, p2)),
                }
            } else {
                Err(stalled())
            },
        }
    }
}

pub open spec fn p_assignment(t: Seq<TokenV>, p: int) -> PRes<StmtV>
    decreases t.len() - p, 0int,
{
    if !(1 <= p < t.len()) {
        Err(stalled())
    } else if t[p - 1].kind != TokenKind::Identifier {
        Err(ParserErrorV::ExpectedIdentifier { got: t[p - 1].kind, line: t[p - 1].line })
    } else {
        let name = t[p - 1].literal;
        if check(t, p, TokenKind::Incr) {
            match consume(t, p + 1, TokenKind::Semicolon) {
                Err(e) => Err(e),
                Ok(p1) => Ok((StmtV::Incr(name), p1)),
            }
        } else if check(t, p, TokenKind::Decr) {
            match consume(t, p + 1, TokenKind::Semicolon) {
                Err(e) => Err(e),
                Ok(p1) => Ok((StmtV::Decr(name), p1)),
            }
        } else if check(t, p, TokenKind::Equal) {
            match p_expression(t, p + 1) {
                Err(e) => Err(e),
                Ok((v, p1)) => if p < p1 < t.len() {
                    match consume(t, p1, TokenKind::Semicolon) {
                        Err(e) => Err(e),
                        Ok(p2) => Ok((StmtV::Assign { name, value: Box::new(v) }, p2)),
                    }
                } else {
                    Err(stalled())
                },
            }
        } else {
            Err(ParserErrorV::UnknownStatement)
        }
    }
}

pub open spec fn p_body_items(t: Seq<TokenV>, p: int, acc: Seq<StmtV>) -> Result<(Seq<StmtV>, int), ParserErrorV>
    decreases t.len() - p, 100int,
{
    if !(0 <= p < t.len()) {
        Err(stalled())
    } else if !check(t, p, TokenKind::Dedent) && !at_end(t, p) {
        match p_declaration(t, p) {
            Err(e) => Err(e),
            Ok((s, p1)) => if p < p1 < t.len() {
                p_body_items(t, p1, acc.push(s))
            } else {
                Err(stalled())
            },
        }
    } else {
        Ok((acc, p))
    }
}

pub open spec fn p_body(t: Seq<TokenV>, p: int) -> Result<(Seq<StmtV>, int), ParserErrorV>
    decreases t.len() - p, 0int,
{
    if !(0 <= p < t.len()) {
        Err(stalled())
    } else {
        match consume(t, p, TokenKind::Colon) {
            Err(e) => Err(e),
            Ok(p1) => match consume(t, p1, TokenKind::Indent) {
                Err(e) => Err(e),
                Ok(p2) => if p < p2 {
                  match p_body_items(t, p2, Seq::empty()) {
                    Err(e) => Err(e),
                    Ok((items, p3)) => if p < p3 < t.len() {
                        if t[p3].kind == TokenKind::Eof {
                            Ok((items, p3))
                        } else {
                            match consume(t, p3, TokenKind::Dedent) {
                                Err(e) => Err(e),
                                Ok(p4) => Ok((items, p4)),
                            }
                        }
                    } else {
                        Err(stalled())
                    },
                  }
                } else {
                    Err(stalled())
                },
            },
        }
    }
}

pub open spec fn p_expression(t: Seq<TokenV>, p: int) -> PRes<ExprV>
    decreases t.len() - p, 60int,
{
    p_or(t, p)
}

pub open spec fn p_or(t: Seq<TokenV>, p: int) -> PRes<ExprV>
    decreases t.len() - p, 59int,
{
    match p_and(t, p) {
        Err(e) => Err(e),
        Ok((e, p1)) => if p < p1 < t.len() {
            p_or_rest(t, p1, e)
        } else {
            Err(stalled())
        },
    }
}

pub open spec fn p_or_rest(t: Seq<TokenV>, p: int, left: ExprV) -> PRes<ExprV>
    decreases t.len() - p, 0int,
{
    if !(0 <= p < t.len()) {
        Err(stalled())
    } else if check(t, p, TokenKind::Or) {
        match p_and(t, p + 1) {
            Err(e) => Err(e),
            Ok((r, p1)) => if p < p1 < t.len() {
                p_or_rest(
                    t,
                    p1,
                    ExprV::Logical { operator: LogicalOp::Or, left: Box::new(left), right: Box::new(r) },
                )
            } else {
                Err(stalled())
            },
        }
    } else {
        Ok((left, p))
    }
}

pub open spec fn p_and(t: Seq<TokenV>, p: int) -> PRes<ExprV>
    decreases t.len() - p, 58int,
{
    match p_equality(t, p) {
        Err(e) => Err(e),
        Ok((e, p1)) => if p < p1 < t.len() {
            p_and_rest(t, p1, e)
        } else {
            Err(stalled())
        },
    }
}

pub open spec fn p_and_rest(t: Seq<TokenV>, p: int, left: ExprV) -> PRes<ExprV>
    decreases t.len() - p, 0int,
{
    if !(0 <= p < t.len()) {
        Err(stalled())
    } else if check(t, p, TokenKind::And) {
        match p_equality(t, p + 1) {
            Err(e) => Err(e),
            Ok((r, p1)) => if p < p1 < t.len() {
                p_and_rest(
                    t,
                    p1,
                    ExprV::Logical { operator: LogicalOp::And, left: Box::new(left), right: Box::new(r) },
                )
            } else {
                Err(stalled())
            },
        }
    } else {
        Ok((left, p))
    }
}

pub open spec fn p_equality(t: Seq<TokenV>, p: int) -> PRes<ExprV>
    decreases t.len() - p, 57int,
{
    match p_comparison(t, p) {
        Err(e) => Err(e),
        Ok((e, p1)) => if p < p1 < t.len() {
            p_equality_rest(t, p1, e)
        } else {
            Err(stalled())
        },
    }
}

pub open spec fn p_equality_rest(t: Seq<TokenV>, p: int, left: ExprV) -> PRes<ExprV>
    decreases t.len() - p, 0int,
{
    if !(0 <= p < t.len()) {
        Err(stalled())
    } else if check2(t, p, TokenKind::BangEqual, TokenKind::EqualEqual) {
        match p_comparison(t, p + 1) {
            Err(e) => Err(e),
            Ok((r, p1)) => if p < p1 < t.len() {
                p_equality_rest(
                    t,
                    p1,
                    ExprV::Binary {
                        left: Box::new(left),
                        operator: equality_op(t[p].kind),
                        right: Box::new(r),
                    },
                )
            } else {
                Err(stalled())
            },
        }
    } else {
        Ok((left, p))
    }
}

pub open spec fn p_comparison(t: Seq<TokenV>, p: int) -> PRes<ExprV>
    decreases t.len() - p, 56int,
{
    match p_membership(t, p) {
        Err(e) => Err(e),
        Ok((e, p1)) => if p < p1 < t.len() {
            p_comparison_rest(t, p1, e)
        } else {
            Err(stalled())
        },
    }
}

pub open spec fn p_comparison_rest(t: Seq<TokenV>, p: int, left: ExprV) -> PRes<ExprV>
    decreases t.len() - p, 0int,
{
    if !(0 <= p < t.len()) {
        Err(stalled())
    } else if p + 1 < t.len() && !at_end(t, p) && is_comparison(t[p].kind) {
        match p_membership(t, p + 1) {
            Err(e) => Err(e),
            Ok((r, p1)) => if p < p1 < t.len() {
                p_comparison_rest(
                    t,
                    p1,
                    ExprV::Binary {
                        left: Box::new(left),
                        operator: comparison_op(t[p].kind),
                        right: Box::new(r),
                    },
                )
            } else {
                Err(stalled())
            },
        }
    } else {
        Ok((left, p))
    }
}

pub open spec fn p_membership(t: Seq<TokenV>, p: int) -> PRes<ExprV>
    decreases t.len() - p, 55int,
{
    match p_term(t, p) {
        Err(e) => Err(e),
        Ok((e, p1)) => if p < p1 < t.len() {
            if check(t, p1, TokenKind::Not) {
                p_membership_rest(t, p1 + 1, e, true)
            } else {
                p_membership_rest(t, p1, e, false)
            }
        } else {
            Err(stalled())
        },
    }
}

pub open spec fn p_membership_rest(t: Seq<TokenV>, p: int, left: ExprV, not: bool) -> PRes<ExprV>
    decreases t.len() - p, 0int,
{
    if !(0 <= p < t.len()) {
        Err(stalled())
    } else if check(t, p, TokenKind::In) {
        match p_term(t, p + 1) {
            Err(e) => Err(e),
            Ok((r, p1)) => if p < p1 < t.len() {
                p_membership_rest(
                    t,
                    p1,
                    ExprV::Membership { left: Box::new(left), not, right: Box::new(r) },
                    not,
                )
            } else {
                Err(stalled())
            },
        }
    } else {
        Ok((left, p))
    }
}

pub open spec fn p_term(t: Seq<TokenV>, p: int) -> PRes<ExprV>
    decreases t.len() - p, 54int,
{
    match p_factor(t, p) {
        Err(e) => Err(e),
        Ok((e, p1)) => if p < p1 < t.len() {
            p_term_rest(t, p1, e)
        } else {
            Err(stalled())
        },
    }
}

pub open spec fn p_term_rest(t: Seq<TokenV>, p: int, left: ExprV) -> PRes<ExprV>
    decreases t.len() - p, 0int,
{
    if !(0 <= p < t.len()) {
        Err(stalled())
    } else if check2(t, p, TokenKind::Minus, TokenKind::Plus) {
        match p_factor(t, p + 1) {
            Err(e) => Err(e),
            Ok((r, p1)) => if p < p1 < t.len() {
                p_term_rest(
                    t,
                    p1,
                    ExprV::Binary {
                        left: Box::new(left),
                        operator: term_op(t[p].kind),
                        right: Box::new(r),
                    },
                )
            } else {
                Err(stalled())
            },
        }
    } else {
        Ok((left, p))
    }
}

pub open spec fn p_factor(t: Seq<TokenV>, p: int) -> PRes<ExprV>
    decreases t.len() - p, 53int,
{
    match p_unary(t, p) {
        Err(e) => Err(e),
        Ok((e, p1)) => if p < p1 < t.len() {
            p_factor_rest(t, p1, e)
        } else {
            Err(stalled())
        },
    }
}

pub open spec fn p_factor_rest(t: Seq<TokenV>, p: int, left: ExprV) -> PRes<ExprV>
    decreases t.len() - p, 0int,
{
    if !(0 <= p < t.len()) {
        Err(stalled())
    } else if check2(t, p, TokenKind::FSlash, TokenKind::Asterisk) {
        match p_unary(t, p + 1) {
            Err(e) => Err(e),
            Ok((r, p1)) => if p < p1 < t.len() {
                p_factor_rest(
                    t,
                    p1,
                    ExprV::Binary {
                        left: Box::new(left),
                        operator: factor_op(t[p].kind),
                        right: Box::new(r),
                    },
                )
            } else {
                Err(stalled())
            },
        }
    } else {
        Ok((left, p))
    }
}

pub open spec fn p_unary(t: Seq<TokenV>, p: int) -> PRes<ExprV>
    decreases t.len() - p, 52int,
{
    if !(0 <= p < t.len()) {
        Err(stalled())
    } else if check2(t, p, TokenKind::Bang, TokenKind::Minus) {
        match p_unary(t, p + 1) {
            Err(e) => Err(e),
            Ok((r, p1)) => Ok((ExprV::Unary { operator: unary_op(t[p].kind), right: Box::new(r) }, p1)),
        }
    } else {
        p_call(t, p)
    }
}

pub open spec fn p_call(t: Seq<TokenV>, p: int) -> PRes<ExprV>
    decreases t.len() - p, 51int,
{
    match p_primary(t, p) {
        Err(e) => Err(e),
        Ok((e, p1)) => if p < p1 < t.len() {
            p_call_rest(t, p1, e)
        } else {
            Err(stalled())
        },
    }
}

pub open spec fn p_call_rest(t: Seq<TokenV>, p: int, callee: ExprV) -> PRes<ExprV>
    decreases t.len() - p, 0int,
{
    if !(0 <= p < t.len()) {
        Err(stalled())
    } else if check(t, p, TokenKind::LParen) {
        match p_finish_call(t, p + 1, callee) {
            Err(e) => Err(e),
            Ok((c, p1)) => if p < p1 < t.len() {
                p_call_rest(t, p1, c)
            } else {
                Err(stalled())
            },
        }
    } else if check(t, p, TokenKind::Dot) {
        match callee {
            ExprV::Var(object) => match consume(t, p + 1, TokenKind::Identifier) {
                Err(e) => Err(e),
                Ok(p2) => {
                    let method_name = t[p + 1].literal;
                    if check(t, p2, TokenKind::LParen) && p < p2 {
                        let args: Result<(Seq<ExprV>, int), ParserErrorV> = if !check(
                            t,
                            p2 + 1,
                            TokenKind::RParen,
                        ) {
                            p_method_args(t, p2 + 1, Seq::empty())
                        } else {
                            Ok((Seq::empty(), p2 + 1))
                        };
                        match args {
                            Err(e) => Err(e),
                            Ok((a, p3)) => if p < p3 < t.len() {
                                match consume(t, p3, TokenKind::RParen) {
                                    Err(e) => Err(e),
                                    Ok(p4) => p_call_rest(
                                        t,
                                        p4,
                                        ExprV::ListMethodCall { object, method_name, arguments: a },
                                    ),
                                }
                            } else {
                                Err(stalled())
                            },
                        }
                    } else {
                        Err(
                            ParserErrorV::ListMethodCallMissingParen {
                                got: t[p2].kind,
                                line: t[p2].line,
                            },
                        )
                    }
                },
            },
            _ => Err(ParserErrorV::MethodCallNotOnList),
        }
    } else {
        Ok((callee, p))
    }
}

pub open spec fn p_method_args(t: Seq<TokenV>, p: int, acc: Seq<ExprV>) -> Result<(Seq<ExprV>, int), ParserErrorV>
    decreases t.len() - p, 70int,
{
    if !(0 <= p < t.len()) {
        Err(stalled())
    } else {
        match p_expression(t, p) {
            Err(e) => Err(e),
            Ok((a, p1)) => if p < p1 < t.len() {
                if check(t, p1, TokenKind::Comma) {
                    p_method_args(t, p1 + 1, acc.push(a))
                } else {
                    Ok((acc.push(a), p1))
                }
            } else {
                Err(stalled())
            },
        }
    }
}

pub open spec fn p_finish_call(t: Seq<TokenV>, p: int, callee: ExprV) -> PRes<ExprV>
    decreases t.len() - p, 75int,
{
    if !(0 <= p < t.len()) {
        Err(stalled())
    } else {
        let args: Result<(Seq<ExprV>, int), ParserErrorV> = if !check(t, p, TokenKind::RParen) {
            p_call_args(t, p, callee, Seq::empty())
        } else {
            Ok((Seq::empty(), p))
        };
        match args {
            Err(e) => Err(e),
            Ok((a, p1)) => if p <= p1 < t.len() {
                match consume(t, p1, TokenKind::RParen) {
                    Err(e) => Err(e),
                    Ok(p2) => Ok((ExprV::Call { callee: Box::new(callee), arguments: a }, p2)),
                }
            } else {
                Err(stalled())
            },
        }
    }
}

pub open spec fn p_call_args(t: Seq<TokenV>, p: int, callee: ExprV, acc: Seq<ExprV>) -> Result<(Seq<ExprV>, int), ParserErrorV>
    decreases t.len() - p, 70int,
{
    if !(0 <= p < t.len()) {
        Err(stalled())
    } else if acc.len() >= 255 {
        Err(ParserErrorV::TooManyArgs { func_name: callee_name(callee) })
    } else {
        match p_expression(t, p) {
            Err(e) => Err(e),
            Ok((a, p1)) => if p < p1 < t.len() {
                if check(t, p1, TokenKind::Comma) {
                    p_call_args(t, p1 + 1, callee, acc.push(a))
                } else {
                    Ok((acc.push(a), p1))
                }
            } else {
                Err(stalled())
            },
        }
    }
}

pub open spec fn p_list_items(t: Seq<TokenV>, p: int, acc: Seq<ExprV>) -> Result<(Seq<ExprV>, int), ParserErrorV>
    decreases t.len() - p, 70int,
{
    if !(0 <= p < t.len()) {
        Err(stalled())
    } else if check(t, p, TokenKind::RBrack) {
        Ok((acc, p + 1))
    } else {
        match p_expression(t, p) {
            Err(e) => Err(e),
            Ok((a, p1)) => if p < p1 < t.len() {
                if check(t, p1, TokenKind::Comma) {
                    p_list_items(t, p1 + 1, acc.push(a))
                } else {
                    Ok((acc.push(a), p1))
                }
            } else {
                Err(stalled())
            },
        }
    }
}

/// A name, and the subscript or slice that may follow it.
pub open spec fn p_name(t: Seq<TokenV>, p: int) -> PRes<ExprV>
    decreases t.len() - p, 45int,
{
    if !(0 <= p < t.len()) {
        Err(stalled())
    } else {
        let name = t[p].literal;
        if check(t, p + 1, TokenKind::LBrack) {
            p_subscript(t, p + 2, name)
        } else {
            Ok((ExprV::Var(name), p + 1))
        }
    }
}

/// An optional expression, boxed.
pub open spec fn boxed(o: Option<ExprV>) -> Option<Box<ExprV>> {
    match o {
        Some(x) => Some(Box::new(x)),
        None => None,
    }
}

/// The optional end bound of a slice, and the `]` after it.
pub open spec fn p_slice_bound(t: Seq<TokenV>, p: int) -> Result<(Option<ExprV>, int), ParserErrorV>
    decreases t.len() - p, 64int,
{
    if !(0 <= p < t.len()) {
        Err(stalled())
    } else if !check(t, p, TokenKind::RBrack) {
        match p_expression(t, p) {
            Err(e) => Err(e),
            Ok((e, p1)) => if p <= p1 < t.len() {
                match consume(t, p1, TokenKind::RBrack) {
                    Err(er) => Err(er),
                    Ok(p2) => Ok((Some(e), p2)),
                }
            } else {
                Err(stalled())
            },
        }
    } else {
        Ok((None, p + 1))
    }
}

/// What follows `name[start`: a slice's `:` and end, or the `]` of an index.
pub open spec fn p_subscript_rest(t: Seq<TokenV>, p: int, name: Seq<char>, s: Option<ExprV>) -> PRes<ExprV>
    decreases t.len() - p, 10int,
{
    if !(0 <= p < t.len()) {
        Err(stalled())
    } else if check(t, p, TokenKind::Colon) {
        match p_slice_bound(t, p + 1) {
            Err(e) => Err(e),
            Ok((en, p1)) => Ok((ExprV::Slice { list: name, start: boxed(s), end: boxed(en) }, p1)),
        }
    } else {
        match consume(t, p, TokenKind::RBrack) {
            Err(e) => Err(e),
            Ok(p1) => match s {
                Some(x) => Ok((ExprV::Index { list: name, index: Box::new(x) }, p1)),
                None => Err(stalled()),
            },
        }
    }
}

/// What follows `name[`: an index, or a slice with optional bounds.
pub open spec fn p_subscript(t: Seq<TokenV>, q: int, name: Seq<char>) -> PRes<ExprV>
    decreases t.len() - q, 65int,
{
    if !(0 <= q < t.len()) {
        Err(stalled())
    } else if !check(t, q, TokenKind::Colon) {
        match p_expression(t, q) {
            Err(e) => Err(e),
            Ok((e, p3)) => if q < p3 < t.len() {
                p_subscript_rest(t, p3, name, Some(e))
            } else {
                Err(stalled())
            },
        }
    } else {
        p_subscript_rest(t, q, name, None)
    }
}

pub open spec fn p_primary(t: Seq<TokenV>, p: int) -> PRes<ExprV>
    decreases t.len() - p, 50int,
{
    if !(0 <= p < t.len()) {
        Err(stalled())
    } else if check(t, p, TokenKind::True) {
        Ok((ExprV::Literal(ValueV::Bool(true)), p + 1))
    } else if check(t, p, TokenKind::False) {
        Ok((ExprV::Literal(ValueV::Bool(false)), p + 1))
    } else if check(t, p, TokenKind::Null) {
        Ok((ExprV::Literal(ValueV::Null), p + 1))
    } else if check(t, p, TokenKind::Num) {
        if float_text(trimmed(t[p].literal)) {
            Ok((ExprV::Literal(ValueV::Num(t[p].literal)), p + 1))
        } else {
            Err(ParserErrorV::UnableToParseLiteralToFloat { literal: t[p].literal, line: t[p].line })
        }
    } else if check(t, p, TokenKind::String) {
        Ok((ExprV::Literal(ValueV::Str(t[p].literal)), p + 1))
    } else if check(t, p, TokenKind::Identifier) {
        p_name(t, p)
    } else if check(t, p, TokenKind::LParen) {
        match p_expression(t, p + 1) {
            Err(e) => Err(e),
            Ok((e, p1)) => if p < p1 < t.len() {
                match consume(t, p1, TokenKind::RParen) {
                    Err(er) => Err(er),
                    Ok(p2) => Ok((ExprV::Grouping(Box::new(e)), p2)),
                }
            } else {
                Err(stalled())
            },
        }
    } else if check(t, p, TokenKind::LBrack) {
        match p_list_items(t, p + 1, Seq::empty()) {
            Err(e) => Err(e),
            Ok((items, p1)) => if p < p1 < t.len() {
                match consume(t, p1, TokenKind::RBrack) {
                    Err(e) => Err(e),
                    Ok(p2) => Ok((ExprV::List(items), p2)),
                }
            } else {
                Err(stalled())
            },
        }
    } else {
        Err(ParserErrorV::ExpectedExpression { got: t[p].kind, line: t[p].line })
    }
}

pub open spec fn p_expression_statement(t: Seq<TokenV>, p: int) -> PRes<StmtV>
    decreases t.len() - p, 70int,
{
    match p_expression(t, p) {
        Err(e) => Err(e),
        Ok((e, p1)) => if p < p1 < t.len() {
            match consume(t, p1, TokenKind::Semicolon) {
                Err(er) => Err(er),
                Ok(p2) => Ok((StmtV::Expression(e), p2)),
            }
        } else {
            Err(stalled())
        },
    }
}

/// What parsing the token list `t` gives.
pub open spec fn parse_tokens(t: Seq<TokenV>) -> Result<Seq<StmtV>, ParserErrorV> {
    p_declarations(t, 0, Seq::empty())
}

} // verus!
