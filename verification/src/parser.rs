//! The parser: tokens to statements, by recursive descent. Each parsing
//! method follows the spec function of the same name in `grammar`.
use vstd::prelude::*;
use crate::token::{Token, TokenKind, TokenV, tokens_view};
use crate::error::{CompileError, CompileErrorV, ParserError, ParserErrorV};
use crate::expr::{BinaryOp, Expr, ExprV, LogicalOp, UnaryOp, exprs_view, lemma_expr_view_args};
use crate::stmt::{Stmt, StmtV, stmts_view, opt_expr_view, lemma_stmt_view_bodies};
use crate::value::{Value, ValueV};
use crate::numtext::parses_as_float;
use crate::text::{copy_string, strings_view};
use crate::grammar::{
    PRes, well_formed, at_end, check, check2, consume, var_named, equality_op, is_comparison, comparison_op, term_op, factor_op, unary_op, stalled, callee_name, p_declarations, p_declaration, p_params, p_function, p_var_declaration, assignment_follows, p_statement, p_for, p_for_rest, p_for_body, p_else, p_if, p_print, p_return, p_while, p_assignment, p_body_items, p_body, p_expression, p_or, p_or_rest, p_and, p_and_rest, p_equality, p_equality_rest, p_comparison, p_comparison_rest, p_membership, p_membership_rest, p_term, p_term_rest, p_factor, p_factor_rest, p_unary, p_call, p_call_rest, p_method_args, p_finish_call, p_call_args, p_list_items, p_name, p_subscript, p_subscript_rest, p_slice_bound, boxed, p_primary, p_expression_statement, parse_tokens,
};

verus! {

pub open spec fn agrees_expr(r: Result<Expr, CompileError>, s: PRes<ExprV>, q: int) -> bool {
    match s {
        Ok((e, p)) => r is Ok && r->Ok_0@ == e && q == p,
        Err(err) => r is Err && r->Err_0@ == CompileErrorV::Parser(err),
    }
}

pub open spec fn agrees_stmt(r: Result<Stmt, CompileError>, s: PRes<StmtV>, q: int) -> bool {
    match s {
        Ok((e, p)) => r is Ok && r->Ok_0@ == e && q == p,
        Err(err) => r is Err && r->Err_0@ == CompileErrorV::Parser(err),
    }
}

pub open spec fn agrees_stmts(
    r: Result<Vec<Stmt>, CompileError>,
    s: Result<(Seq<StmtV>, int), ParserErrorV>,
    q: int,
) -> bool {
    match s {
        Ok((e, p)) => r is Ok && stmts_view(r->Ok_0@) == e && q == p,
        Err(err) => r is Err && r->Err_0@ == CompileErrorV::Parser(err),
    }
}

pub open spec fn agrees_exprs(
    r: Result<Vec<Expr>, CompileError>,
    s: Result<(Seq<ExprV>, int), ParserErrorV>,
    q: int,
) -> bool {
    match s {
        Ok((e, p)) => r is Ok && exprs_view(r->Ok_0@) == e && q == p,
        Err(err) => r is Err && r->Err_0@ == CompileErrorV::Parser(err),
    }
}

pub open spec fn agrees_names(
    r: Result<Vec<String>, CompileError>,
    s: Result<(Seq<Seq<char>>, int), ParserErrorV>,
    q: int,
) -> bool {
    match s {
        Ok((e, p)) => r is Ok && strings_view(r->Ok_0@) == e && q == p,
        Err(err) => r is Err && r->Err_0@ == CompileErrorV::Parser(err),
    }
}

pub struct Parser {
    tokens: Vec<Token>,
    current: usize,
}

impl Parser {
    pub closed spec fn toks(&self) -> Seq<TokenV> {
        tokens_view(self.tokens@)
    }

    pub closed spec fn pos(&self) -> int {
        self.current as int
    }

    pub closed spec fn inv(&self) -> bool {
        well_formed(self.toks()) && self.current < self.toks().len()
    }

    proof fn lemma_token_here(&self)
        requires
            self.inv(),
        ensures
            self.toks()[self.pos()] == self.tokens@[self.pos()]@,
    {
    }

    pub fn new(tokens: Vec<Token>) -> (r: Self)
        ensures
            r.toks() == tokens_view(tokens@),
            r.pos() == 0,
    {
        Parser { tokens, current: 0 }
    }

    fn peek(&self) -> (r: &Token)
        requires
            self.inv(),
        ensures
            r@ == self.toks()[self.pos()],
    {
        &self.tokens[self.current]
    }

    fn previous(&self) -> (r: &Token)
        requires
            self.inv(),
            self.current >= 1,
        ensures
            r@ == self.toks()[self.pos() - 1],
    {
        &self.tokens[self.current - 1]
    }

    fn is_at_end(&self) -> (r: bool)
        requires
            self.inv(),
        ensures
            r == at_end(self.toks(), self.pos()),
    {
        self.tokens[self.current].kind == TokenKind::Eof
    }

    fn check(&self, kind: TokenKind) -> (r: bool)
        requires
            self.inv(),
        ensures
            r == check(self.toks(), self.pos(), kind),
    {
        if self.is_at_end() {
            return false;
        }
        self.tokens[self.current].kind == kind
    }

    fn advance(&mut self)
        requires
            old(self).inv(),
        ensures
            final(self).tokens == old(self).tokens,
            final(self).inv(),
            final(self).pos() == if at_end(old(self).toks(), old(self).pos()) {
                old(self).pos()
            } else {
                old(self).pos() + 1
            },
    {
        if !self.is_at_end() {
            let n = self.tokens.len();
            assert(self.current != self.toks().len() - 1);
            assert(self.current + 1 < n);
            self.current = self.current + 1;
        }
    }

    /// Consumes the next token when its kind is one of `types`.
    fn match_all(&mut self, types: &[TokenKind]) -> (r: bool)
        requires
            old(self).inv(),
        ensures
            final(self).tokens == old(self).tokens,
            final(self).inv(),
            r == (exists|i: int| 0 <= i < types@.len() && check(old(self).toks(), old(self).pos(), #[trigger] types@[i])),
            final(self).pos() == if r { old(self).pos() + 1 } else { old(self).pos() },
    {
        let mut i: usize = 0;
        while i < types.len()
            invariant
                self.inv(),
                *self == *old(self),
                i <= types@.len(),
                forall|k: int| 0 <= k < i ==> !check(self.toks(), self.pos(), #[trigger] types@[k]),
            decreases types@.len() - i,
        {
            if self.check(types[i]) {
                self.advance();
                return true;
            }
            i = i + 1;
        }
        false
    }

    fn match1(&mut self, kind: TokenKind) -> (r: bool)
        requires
            old(self).inv(),
        ensures
            final(self).tokens == old(self).tokens,
            final(self).inv(),
            r == check(old(self).toks(), old(self).pos(), kind),
            final(self).pos() == if r { old(self).pos() + 1 } else { old(self).pos() },
    {
        let r = self.match_all(&[kind]);
        proof {
            if check(old(self).toks(), old(self).pos(), kind) {
                assert([kind]@[0] == kind);
            }
        }
        r
    }

    fn match2(&mut self, k1: TokenKind, k2: TokenKind) -> (r: bool)
        requires
            old(self).inv(),
        ensures
            final(self).tokens == old(self).tokens,
            final(self).inv(),
            r == check2(old(self).toks(), old(self).pos(), k1, k2),
            final(self).pos() == if r { old(self).pos() + 1 } else { old(self).pos() },
    {
        let r = self.match_all(&[k1, k2]);
        proof {
            if check(old(self).toks(), old(self).pos(), k1) {
                assert([k1, k2]@[0] == k1);
            }
            if check(old(self).toks(), old(self).pos(), k2) {
                assert([k1, k2]@[1] == k2);
            }
        }
        r
    }

    fn consume(&mut self, kind: TokenKind) -> (r: Result<(), CompileError>)
        requires
            old(self).inv(),
        ensures
            final(self).tokens == old(self).tokens,
            final(self).inv(),
            match consume(old(self).toks(), old(self).pos(), kind) {
                Ok(q) => r is Ok && final(self).pos() == q,
                Err(e) => r is Err && r->Err_0@ == CompileErrorV::Parser(e) && final(self).pos() == old(self).pos(),
            },
    {
        if self.check(kind) {
            self.advance();
            return Ok(());
        }
        let curr = &self.tokens[self.current];
        Err(
            CompileError::Parser(
                ParserError::CouldntConsumeToken { expected: kind, got: curr.kind, line: curr.line },
            ),
        )
    }

    fn literal_at(&self, i: usize) -> (r: String)
        requires
            i < self.tokens@.len(),
        ensures
            r@ == self.toks()[i as int].literal,
    {
        copy_string(&self.tokens[i].span.literal)
    }
}


/// The view of an optional boxed expression, unboxed.
pub open spec fn opt_box_view(e: Option<Box<Expr>>) -> Option<ExprV> {
    match e {
        Some(x) => Some((*x)@),
        None => None,
    }
}

fn make_slice(name: String, s: Option<Box<Expr>>, en: Option<Box<Expr>>) -> (r: Expr)
    ensures
        r@ == (ExprV::Slice {
            list: name@,
            start: boxed(opt_box_view(s)),
            end: boxed(opt_box_view(en)),
        }),
{
    Expr::Slice { list: name, start: s, end: en }
}

proof fn lemma_return_unfold(t: Seq<TokenV>, p: int)
    requires
        0 <= p < t.len(),
    ensures
        check(t, p, TokenKind::Semicolon) ==> p_return(t, p) == PRes::<StmtV>::Ok((StmtV::Return(None), p + 1)),
        !check(t, p, TokenKind::Semicolon) ==> p_return(t, p) == match p_expression(t, p) {
            Err(e) => Err(e),
            Ok((e, p1)) => if p <= p1 < t.len() {
                match consume(t, p1, TokenKind::Semicolon) {
                    Err(e) => Err(e),
                    Ok(p2) => PRes::<StmtV>::Ok((StmtV::Return(Some(e)), p2)),
                }
            } else {
                Err(stalled())
            },
        },
{
}

fn make_return(value: Option<Expr>) -> (r: Stmt)
    ensures
        r@ == StmtV::Return(opt_expr_view(value)),
{
    Stmt::Return(value)
}

fn make_print(e: Expr) -> (r: Stmt)
    ensures
        r@ == StmtV::Print(e@),
{
    Stmt::Print(e)
}

fn make_expression_stmt(e: Expr) -> (r: Stmt)
    ensures
        r@ == StmtV::Expression(e@),
{
    Stmt::Expression(e)
}

fn make_break() -> (r: Stmt)
    ensures
        r@ == StmtV::Break,
{
    Stmt::Break
}

fn make_continue() -> (r: Stmt)
    ensures
        r@ == StmtV::Continue,
{
    Stmt::Continue
}

fn make_var(name: String, initializer: Option<Expr>) -> (r: Stmt)
    ensures
        r@ == (StmtV::Var { name: name@, initializer: opt_expr_view(initializer) }),
{
    Stmt::Var { name, initializer }
}

fn make_while(condition: Expr, body: Vec<Stmt>) -> (r: Stmt)
    ensures
        r@ == (StmtV::While { condition: condition@, body: stmts_view(body@) }),
{
    let s = Stmt::While { condition, body };
    proof {
        lemma_stmt_view_bodies(&s);
    }
    s
}

/// The views of an optional block.
pub open spec fn opt_stmts_view(b: Option<Vec<Stmt>>) -> Option<Seq<StmtV>> {
    match b {
        Some(v) => Some(stmts_view(v@)),
        None => None,
    }
}

fn make_if(condition: Expr, then_branch: Vec<Stmt>, else_branch: Option<Vec<Stmt>>) -> (r: Stmt)
    ensures
        r@ == (StmtV::If {
            condition: condition@,
            then_branch: stmts_view(then_branch@),
            else_branch: opt_stmts_view(else_branch),
        }),
{
    let s = Stmt::If { condition, then_branch, else_branch };
    proof {
        lemma_stmt_view_bodies(&s);
    }
    s
}

fn make_for(initializer: Stmt, condition: Expr, step: Stmt, body: Vec<Stmt>) -> (r: Stmt)
    ensures
        r@ == (StmtV::For {
            initializer: Box::new(initializer@),
            condition: condition@,
            step: Box::new(step@),
            body: stmts_view(body@),
        }),
{
    let s = Stmt::For {
        initializer: Box::new(initializer),
        condition,
        step: Box::new(step),
        body,
    };
    proof {
        lemma_stmt_view_bodies(&s);
    }
    s
}

fn make_function(name: String, params: Vec<String>, body: Vec<Stmt>) -> (r: Stmt)
    ensures
        r@ == (StmtV::Function {
            name: name@,
            params: strings_view(params@),
            body: stmts_view(body@),
            captures: Seq::empty(),
        }),
{
    let captures: Vec<String> = Vec::new();
    let s = Stmt::Function { name, params, body, captures };
    proof {
        lemma_stmt_view_bodies(&s);
        assert(strings_view(captures@) =~= Seq::<Seq<char>>::empty());
    }
    s
}

fn make_step_by(name: &String, v: Expr) -> (r: Stmt)
    ensures
        r@ == (StmtV::Assign {
            name: name@,
            value: Box::new(
                ExprV::Binary { left: Box::new(var_named(name@)), operator: BinaryOp::Add, right: Box::new(v@) },
            ),
        }),
{
    let var = Expr::Var(copy_string(name));
    assert(var@ == var_named(name@));
    let sum = Expr::Binary { left: Box::new(var), operator: BinaryOp::Add, right: Box::new(v) };
    Stmt::Assign { name: copy_string(name), value: Box::new(sum) }
}

fn make_incr(name: &String) -> (r: Stmt)
    ensures
        r@ == StmtV::Incr(name@),
{
    Stmt::Incr(copy_string(name))
}

fn make_below(name: &String, end: Expr) -> (r: Expr)
    ensures
        r@ == (ExprV::Binary { left: Box::new(var_named(name@)), operator: BinaryOp::Less, right: Box::new(end@) }),
{
    let var = Expr::Var(copy_string(name));
    assert(var@ == var_named(name@));
    Expr::Binary { left: Box::new(var), operator: BinaryOp::Less, right: Box::new(end) }
}

fn stalled_error() -> (r: CompileError)
    ensures
        r@ == CompileErrorV::Parser(stalled()),
{
    CompileError::Parser(ParserError::UnknownStatement)
}

impl Parser {
    fn expression(&mut self) -> (r: Result<Expr, CompileError>)
        requires
            old(self).inv(),
        ensures
            final(self).tokens == old(self).tokens,
            final(self).inv(),
            agrees_expr(r, p_expression(old(self).toks(), old(self).pos()), final(self).pos()),
        decreases old(self).toks().len() - old(self).pos(), 60int,
    {
        self.or()
    }

    fn or(&mut self) -> (r: Result<Expr, CompileError>)
        requires
            old(self).inv(),
        ensures
            final(self).tokens == old(self).tokens,
            final(self).inv(),
            agrees_expr(r, p_or(old(self).toks(), old(self).pos()), final(self).pos()),
        decreases old(self).toks().len() - old(self).pos(), 59int,
    {
        let start = self.current;
        let left = match self.and() {
            Ok(e) => e,
            Err(e) => return Err(e),
        };
        if !(start < self.current) {
            return Err(stalled_error());
        }
        self.or_rest(left)
    }

    fn or_rest(&mut self, left: Expr) -> (r: Result<Expr, CompileError>)
        requires
            old(self).inv(),
        ensures
            final(self).tokens == old(self).tokens,
            final(self).inv(),
            agrees_expr(r, p_or_rest(old(self).toks(), old(self).pos(), left@), final(self).pos()),
        decreases old(self).toks().len() - old(self).pos(), 0int,
    {
        let start = self.current;
        proof {
            self.lemma_token_here();
        }
        if self.match1(TokenKind::Or) {
            let right = match self.and() {
                Ok(e) => e,
                Err(e) => return Err(e),
            };
            if !(start < self.current) {
                return Err(stalled_error());
            }
            self.or_rest(
                Expr::Logical { operator: LogicalOp::Or, left: Box::new(left), right: Box::new(right) },
            )
        } else {
            Ok(left)
        }
    }

    fn and(&mut self) -> (r: Result<Expr, CompileError>)
        requires
            old(self).inv(),
        ensures
            final(self).tokens == old(self).tokens,
            final(self).inv(),
            agrees_expr(r, p_and(old(self).toks(), old(self).pos()), final(self).pos()),
        decreases old(self).toks().len() - old(self).pos(), 58int,
    {
        let start = self.current;
        let left = match self.equality() {
            Ok(e) => e,
            Err(e) => return Err(e),
        };
        if !(start < self.current) {
            return Err(stalled_error());
        }
        self.and_rest(left)
    }

    fn and_rest(&mut self, left: Expr) -> (r: Result<Expr, CompileError>)
        requires
            old(self).inv(),
        ensures
            final(self).tokens == old(self).tokens,
            final(self).inv(),
            agrees_expr(r, p_and_rest(old(self).toks(), old(self).pos(), left@), final(self).pos()),
        decreases old(self).toks().len() - old(self).pos(), 0int,
    {
        proof {
            self.lemma_token_here();
        }
        let start = self.current;
        if self.match1(TokenKind::And) {
            let right = match self.equality() {
                Ok(e) => e,
                Err(e) => return Err(e),
            };
            if !(start < self.current) {
                return Err(stalled_error());
            }
            self.and_rest(
                Expr::Logical { operator: LogicalOp::And, left: Box::new(left), right: Box::new(right) },
            )
        } else {
            Ok(left)
        }
    }

    fn equality(&mut self) -> (r: Result<Expr, CompileError>)
        requires
            old(self).inv(),
        ensures
            final(self).tokens == old(self).tokens,
            final(self).inv(),
            agrees_expr(r, p_equality(old(self).toks(), old(self).pos()), final(self).pos()),
        decreases old(self).toks().len() - old(self).pos(), 57int,
    {
        let start = self.current;
        let left = match self.comparison() {
            Ok(e) => e,
            Err(e) => return Err(e),
        };
        if !(start < self.current) {
            return Err(stalled_error());
        }
        self.equality_rest(left)
    }

    fn equality_rest(&mut self, left: Expr) -> (r: Result<Expr, CompileError>)
        requires
            old(self).inv(),
        ensures
            final(self).tokens == old(self).tokens,
            final(self).inv(),
            agrees_expr(r, p_equality_rest(old(self).toks(), old(self).pos(), left@), final(self).pos()),
        decreases old(self).toks().len() - old(self).pos(), 0int,
    {
        let start = self.current;
        let kind = self.tokens[self.current].kind;
        if self.match2(TokenKind::BangEqual, TokenKind::EqualEqual) {
            let op = if kind == TokenKind::BangEqual {
                BinaryOp::NotEq
            } else {
                BinaryOp::Eq
            };
            let right = match self.comparison() {
                Ok(e) => e,
                Err(e) => return Err(e),
            };
            if !(start < self.current) {
                return Err(stalled_error());
            }
            self.equality_rest(Expr::Binary { left: Box::new(left), operator: op, right: Box::new(right) })
        } else {
            Ok(left)
        }
    }

    fn comparison(&mut self) -> (r: Result<Expr, CompileError>)
        requires
            old(self).inv(),
        ensures
            final(self).tokens == old(self).tokens,
            final(self).inv(),
            agrees_expr(r, p_comparison(old(self).toks(), old(self).pos()), final(self).pos()),
        decreases old(self).toks().len() - old(self).pos(), 56int,
    {
        let start = self.current;
        let left = match self.membership() {
            Ok(e) => e,
            Err(e) => return Err(e),
        };
        if !(start < self.current) {
            return Err(stalled_error());
        }
        self.comparison_rest(left)
    }

    fn comparison_op_of(kind: TokenKind) -> (r: Option<BinaryOp>)
        ensures
            r is Some <==> is_comparison(kind),
            r is Some ==> r->0 == comparison_op(kind),
    {
        match kind {
            TokenKind::Greater => Some(BinaryOp::Greater),
            TokenKind::GreaterEqual => Some(BinaryOp::GreaterEq),
            TokenKind::Less => Some(BinaryOp::Less),
            TokenKind::LessEqual => Some(BinaryOp::LessEq),
            TokenKind::BangEqual => Some(BinaryOp::NotEq),
            TokenKind::EqualEqual => Some(BinaryOp::Eq),
            _ => None,
        }
    }

    fn comparison_rest(&mut self, left: Expr) -> (r: Result<Expr, CompileError>)
        requires
            old(self).inv(),
        ensures
            final(self).tokens == old(self).tokens,
            final(self).inv(),
            agrees_expr(r, p_comparison_rest(old(self).toks(), old(self).pos(), left@), final(self).pos()),
        decreases old(self).toks().len() - old(self).pos(), 0int,
    {
        let start = self.current;
        if self.is_at_end() {
            return Ok(left);
        }
        let kind = self.tokens[self.current].kind;
        match Self::comparison_op_of(kind) {
            Some(op) => {
                self.advance();
                let right = match self.membership() {
                    Ok(e) => e,
                    Err(e) => return Err(e),
                };
                if !(start < self.current) {
                    return Err(stalled_error());
                }
                self.comparison_rest(
                    Expr::Binary { left: Box::new(left), operator: op, right: Box::new(right) },
                )
            },
            None => Ok(left),
        }
    }

    fn membership(&mut self) -> (r: Result<Expr, CompileError>)
        requires
            old(self).inv(),
        ensures
            final(self).tokens == old(self).tokens,
            final(self).inv(),
            agrees_expr(r, p_membership(old(self).toks(), old(self).pos()), final(self).pos()),
        decreases old(self).toks().len() - old(self).pos(), 55int,
    {
        let start = self.current;
        let left = match self.term() {
            Ok(e) => e,
            Err(e) => return Err(e),
        };
        if !(start < self.current) {
            return Err(stalled_error());
        }
        let not = self.match1(TokenKind::Not);
        self.membership_rest(left, not)
    }

    #[verifier::rlimit(40)]
    fn membership_rest(&mut self, left: Expr, not: bool) -> (r: Result<Expr, CompileError>)
        requires
            old(self).inv(),
        ensures
            final(self).tokens == old(self).tokens,
            final(self).inv(),
            agrees_expr(
                r,
                p_membership_rest(old(self).toks(), old(self).pos(), left@, not),
                final(self).pos(),
            ),
        decreases old(self).toks().len() - old(self).pos(), 0int,
    {
        proof {
            self.lemma_token_here();
        }
        let start = self.current;
        if self.match1(TokenKind::In) {
            let right = match self.term() {
                Ok(e) => e,
                Err(e) => return Err(e),
            };
            if !(start < self.current) {
                return Err(stalled_error());
            }
            self.membership_rest(
                Expr::Membership { left: Box::new(left), not, right: Box::new(right) },
                not,
            )
        } else {
            Ok(left)
        }
    }

    fn term(&mut self) -> (r: Result<Expr, CompileError>)
        requires
            old(self).inv(),
        ensures
            final(self).tokens == old(self).tokens,
            final(self).inv(),
            agrees_expr(r, p_term(old(self).toks(), old(self).pos()), final(self).pos()),
        decreases old(self).toks().len() - old(self).pos(), 54int,
    {
        let start = self.current;
        let left = match self.factor() {
            Ok(e) => e,
            Err(e) => return Err(e),
        };
        if !(start < self.current) {
            return Err(stalled_error());
        }
        self.term_rest(left)
    }

    fn term_rest(&mut self, left: Expr) -> (r: Result<Expr, CompileError>)
        requires
            old(self).inv(),
        ensures
            final(self).tokens == old(self).tokens,
            final(self).inv(),
            agrees_expr(r, p_term_rest(old(self).toks(), old(self).pos(), left@), final(self).pos()),
        decreases old(self).toks().len() - old(self).pos(), 0int,
    {
        let start = self.current;
        let kind = self.tokens[self.current].kind;
        if self.match2(TokenKind::Minus, TokenKind::Plus) {
            let op = if kind == TokenKind::Minus {
                BinaryOp::Sub
            } else {
                BinaryOp::Add
            };
            let right = match self.factor() {
                Ok(e) => e,
                Err(e) => return Err(e),
            };
            if !(start < self.current) {
                return Err(stalled_error());
            }
            self.term_rest(Expr::Binary { left: Box::new(left), operator: op, right: Box::new(right) })
        } else {
            Ok(left)
        }
    }

    fn factor(&mut self) -> (r: Result<Expr, CompileError>)
        requires
            old(self).inv(),
        ensures
            final(self).tokens == old(self).tokens,
            final(self).inv(),
            agrees_expr(r, p_factor(old(self).toks(), old(self).pos()), final(self).pos()),
        decreases old(self).toks().len() - old(self).pos(), 53int,
    {
        let start = self.current;
        let left = match self.unary() {
            Ok(e) => e,
            Err(e) => return Err(e),
        };
        if !(start < self.current) {
            return Err(stalled_error());
        }
        self.factor_rest(left)
    }

    fn factor_rest(&mut self, left: Expr) -> (r: Result<Expr, CompileError>)
        requires
            old(self).inv(),
        ensures
            final(self).tokens == old(self).tokens,
            final(self).inv(),
            agrees_expr(r, p_factor_rest(old(self).toks(), old(self).pos(), left@), final(self).pos()),
        decreases old(self).toks().len() - old(self).pos(), 0int,
    {
        let start = self.current;
        let kind = self.tokens[self.current].kind;
        if self.match2(TokenKind::FSlash, TokenKind::Asterisk) {
            let op = if kind == TokenKind::FSlash {
                BinaryOp::Div
            } else {
                BinaryOp::Mul
            };
            let right = match self.unary() {
                Ok(e) => e,
                Err(e) => return Err(e),
            };
            if !(start < self.current) {
                return Err(stalled_error());
            }
            self.factor_rest(Expr::Binary { left: Box::new(left), operator: op, right: Box::new(right) })
        } else {
            Ok(left)
        }
    }

    fn unary(&mut self) -> (r: Result<Expr, CompileError>)
        requires
            old(self).inv(),
        ensures
            final(self).tokens == old(self).tokens,
            final(self).inv(),
            agrees_expr(r, p_unary(old(self).toks(), old(self).pos()), final(self).pos()),
        decreases old(self).toks().len() - old(self).pos(), 52int,
    {
        let kind = self.tokens[self.current].kind;
        if self.match2(TokenKind::Bang, TokenKind::Minus) {
            let op = if kind == TokenKind::Bang {
                UnaryOp::Not
            } else {
                UnaryOp::Neg
            };
            let right = match self.unary() {
                Ok(e) => e,
                Err(e) => return Err(e),
            };
            Ok(Expr::Unary { operator: op, right: Box::new(right) })
        } else {
            self.call()
        }
    }

    fn call(&mut self) -> (r: Result<Expr, CompileError>)
        requires
            old(self).inv(),
        ensures
            final(self).tokens == old(self).tokens,
            final(self).inv(),
            agrees_expr(r, p_call(old(self).toks(), old(self).pos()), final(self).pos()),
        decreases old(self).toks().len() - old(self).pos(), 51int,
    {
        let start = self.current;
        let e = match self.primary() {
            Ok(e) => e,
            Err(e) => return Err(e),
        };
        if !(start < self.current) {
            return Err(stalled_error());
        }
        self.call_rest(e)
    }

    fn callee_name_of(callee: &Expr) -> (r: String)
        ensures
            r@ == callee_name(callee@),
    {
        match callee {
            Expr::Var(n) => copy_string(n),
            _ => "Unknown".to_owned(),
        }
    }

    fn call_rest(&mut self, callee: Expr) -> (r: Result<Expr, CompileError>)
        requires
            old(self).inv(),
        ensures
            final(self).tokens == old(self).tokens,
            final(self).inv(),
            agrees_expr(r, p_call_rest(old(self).toks(), old(self).pos(), callee@), final(self).pos()),
        decreases old(self).toks().len() - old(self).pos(), 0int,
    {
        let start = self.current;
        if self.match1(TokenKind::LParen) {
            let c = match self.finish_call(callee) {
                Ok(e) => e,
                Err(e) => return Err(e),
            };
            if !(start < self.current) {
                return Err(stalled_error());
            }
            self.call_rest(c)
        } else if self.match1(TokenKind::Dot) {
            match callee {
                Expr::Var(object) => {
                    let mpos = self.current;
                    match self.consume(TokenKind::Identifier) {
                        Ok(()) => {},
                        Err(e) => return Err(e),
                    }
                    let method_name = self.literal_at(mpos);
                    let p2 = self.current;
                    if self.match1(TokenKind::LParen) {
                        let none: Vec<Expr> = Vec::new();
                        proof {
                            assert(exprs_view(none@) =~= Seq::<ExprV>::empty());
                        }
                        let args = if !self.check(TokenKind::RParen) {
                            match self.method_args(none) {
                                Ok(a) => a,
                                Err(e) => return Err(e),
                            }
                        } else {
                            none
                        };
                        if !(start < self.current) {
                            return Err(stalled_error());
                        }
                        match self.consume(TokenKind::RParen) {
                            Ok(()) => {},
                            Err(e) => return Err(e),
                        }
                        let call = Expr::ListMethodCall { object, method_name, arguments: args };
                        proof {
                            lemma_expr_view_args(&call);
                        }
                        self.call_rest(call)
                    } else {
                        let tok = &self.tokens[p2];
                        Err(
                            CompileError::Parser(
                                ParserError::ListMethodCallMissingParen { got: tok.kind, line: tok.line },
                            ),
                        )
                    }
                },
                _ => Err(CompileError::Parser(ParserError::MethodCallNotOnList)),
            }
        } else {
            Ok(callee)
        }
    }

    fn method_args(&mut self, acc: Vec<Expr>) -> (r: Result<Vec<Expr>, CompileError>)
        requires
            old(self).inv(),
        ensures
            final(self).tokens == old(self).tokens,
            final(self).inv(),
            agrees_exprs(
                r,
                p_method_args(old(self).toks(), old(self).pos(), exprs_view(acc@)),
                final(self).pos(),
            ),
        decreases old(self).toks().len() - old(self).pos(), 70int,
    {
        let ghost t = self.toks();
        let ghost p = self.pos();
        let start = self.current;
        let a = match self.expression() {
            Ok(e) => e,
            Err(e) => return Err(e),
        };
        if !(start < self.current) {
            return Err(stalled_error());
        }
        let mut acc = acc;
        let ghost old_acc = exprs_view(acc@);
        let ghost av = a@;
        assert(p_expression(t, p) == PRes::<ExprV>::Ok((av, self.pos())));
        acc.push(a);
        proof {
            assert(exprs_view(acc@) =~= old_acc.push(av));
        }
        if self.match1(TokenKind::Comma) {
            self.method_args(acc)
        } else {
            Ok(acc)
        }
    }

    fn finish_call(&mut self, callee: Expr) -> (r: Result<Expr, CompileError>)
        requires
            old(self).inv(),
        ensures
            final(self).tokens == old(self).tokens,
            final(self).inv(),
            agrees_expr(r, p_finish_call(old(self).toks(), old(self).pos(), callee@), final(self).pos()),
        decreases old(self).toks().len() - old(self).pos(), 75int,
    {
        proof {
            self.lemma_token_here();
        }
        let start = self.current;
        let none: Vec<Expr> = Vec::new();
        proof {
            assert(exprs_view(none@) =~= Seq::<ExprV>::empty());
        }
        let args = if !self.check(TokenKind::RParen) {
            match self.call_args(&callee, none) {
                Ok(a) => a,
                Err(e) => return Err(e),
            }
        } else {
            none
        };
        if !(start <= self.current) {
            return Err(stalled_error());
        }
        match self.consume(TokenKind::RParen) {
            Ok(()) => {},
            Err(e) => return Err(e),
        }
        let call = Expr::Call { callee: Box::new(callee), arguments: args };
        proof {
            lemma_expr_view_args(&call);
        }
        Ok(call)
    }

    fn call_args(&mut self, callee: &Expr, acc: Vec<Expr>) -> (r: Result<Vec<Expr>, CompileError>)
        requires
            old(self).inv(),
        ensures
            final(self).tokens == old(self).tokens,
            final(self).inv(),
            agrees_exprs(
                r,
                p_call_args(old(self).toks(), old(self).pos(), callee@, exprs_view(acc@)),
                final(self).pos(),
            ),
        decreases old(self).toks().len() - old(self).pos(), 70int,
    {
        proof {
            self.lemma_token_here();
        }
        proof {
            self.lemma_token_here();
        }
        if acc.len() >= 255 {
            return Err(
                CompileError::Parser(
                    ParserError::TooManyArgs { func_name: Self::callee_name_of(callee) },
                ),
            );
        }
        let ghost t = self.toks();
        let ghost p = self.pos();
        let start = self.current;
        let a = match self.expression() {
            Ok(e) => e,
            Err(e) => return Err(e),
        };
        if !(start < self.current) {
            return Err(stalled_error());
        }
        let mut acc = acc;
        let ghost old_acc = exprs_view(acc@);
        let ghost av = a@;
        assert(p_expression(t, p) == PRes::<ExprV>::Ok((av, self.pos())));
        acc.push(a);
        proof {
            assert(exprs_view(acc@) =~= old_acc.push(av));
        }
        if self.match1(TokenKind::Comma) {
            self.call_args(callee, acc)
        } else {
            Ok(acc)
        }
    }

    fn list_items(&mut self, acc: Vec<Expr>) -> (r: Result<Vec<Expr>, CompileError>)
        requires
            old(self).inv(),
        ensures
            final(self).tokens == old(self).tokens,
            final(self).inv(),
            agrees_exprs(
                r,
                p_list_items(old(self).toks(), old(self).pos(), exprs_view(acc@)),
                final(self).pos(),
            ),
        decreases old(self).toks().len() - old(self).pos(), 70int,
    {
        if self.match1(TokenKind::RBrack) {
            return Ok(acc);
        }
        let ghost t = self.toks();
        let ghost p = self.pos();
        let start = self.current;
        let a = match self.expression() {
            Ok(e) => e,
            Err(e) => return Err(e),
        };
        if !(start < self.current) {
            return Err(stalled_error());
        }
        let mut acc = acc;
        let ghost old_acc = exprs_view(acc@);
        let ghost av = a@;
        assert(p_expression(t, p) == PRes::<ExprV>::Ok((av, self.pos())));
        acc.push(a);
        proof {
            assert(exprs_view(acc@) =~= old_acc.push(av));
        }
        if self.match1(TokenKind::Comma) {
            self.list_items(acc)
        } else {
            Ok(acc)
        }
    }

    fn name_expr(&mut self) -> (r: Result<Expr, CompileError>)
        requires
            old(self).inv(),
            !at_end(old(self).toks(), old(self).pos()),
        ensures
            final(self).tokens == old(self).tokens,
            final(self).inv(),
            agrees_expr(r, p_name(old(self).toks(), old(self).pos()), final(self).pos()),
        decreases old(self).toks().len() - old(self).pos(), 45int,
    {
        let name = self.literal_at(self.current);
        self.advance();
        if self.match1(TokenKind::LBrack) {
            self.subscript(name)
        } else {
            Ok(Expr::Var(name))
        }
    }

    fn subscript(&mut self, name: String) -> (r: Result<Expr, CompileError>)
        requires
            old(self).inv(),
        ensures
            final(self).tokens == old(self).tokens,
            final(self).inv(),
            agrees_expr(r, p_subscript(old(self).toks(), old(self).pos(), name@), final(self).pos()),
        decreases old(self).toks().len() - old(self).pos(), 65int,
    {
        let ghost t = self.toks();
        let q = self.current;
        proof {
            self.lemma_token_here();
        }
        if !self.check(TokenKind::Colon) {
            let e = match self.expression() {
                Ok(e) => e,
                Err(e) => return Err(e),
            };
            if !(q < self.current) {
                return Err(stalled_error());
            }
            self.subscript_rest(name, Some(e))
        } else {
            self.subscript_rest(name, None)
        }
    }

    fn subscript_rest(&mut self, name: String, start: Option<Expr>) -> (r: Result<Expr, CompileError>)
        requires
            old(self).inv(),
        ensures
            final(self).tokens == old(self).tokens,
            final(self).inv(),
            agrees_expr(
                r,
                p_subscript_rest(old(self).toks(), old(self).pos(), name@, opt_expr_view(start)),
                final(self).pos(),
            ),
        decreases old(self).toks().len() - old(self).pos(), 10int,
    {
        if self.match1(TokenKind::Colon) {
            let s = match start {
                Some(x) => Some(Box::new(x)),
                None => None,
            };
            let en = match self.slice_bound() {
                Ok(b) => b,
                Err(e) => return Err(e),
            };
            Ok(make_slice(name, s, en))
        } else {
            match self.consume(TokenKind::RBrack) {
                Ok(()) => {},
                Err(e) => return Err(e),
            }
            match start {
                Some(x) => Ok(Expr::Index { list: name, index: Box::new(x) }),
                None => Err(stalled_error()),
            }
        }
    }

    /// The end bound of a slice and the closing bracket.
    fn slice_bound(&mut self) -> (r: Result<Option<Box<Expr>>, CompileError>)
        requires
            old(self).inv(),
        ensures
            final(self).tokens == old(self).tokens,
            final(self).inv(),
            match p_slice_bound(old(self).toks(), old(self).pos()) {
                Ok((en, q)) => r is Ok && final(self).pos() == q && opt_box_view(r->Ok_0) == en,
                Err(err) => r is Err && r->Err_0@ == CompileErrorV::Parser(err),
            },
        decreases old(self).toks().len() - old(self).pos(), 64int,
    {
        if !self.check(TokenKind::RBrack) {
            let p = self.current;
            let e = match self.expression() {
                Ok(e) => e,
                Err(e) => return Err(e),
            };
            if !(p <= self.current) {
                return Err(stalled_error());
            }
            match self.consume(TokenKind::RBrack) {
                Ok(()) => {},
                Err(e) => return Err(e),
            }
            Ok(Some(Box::new(e)))
        } else {
            self.advance();
            Ok(None)
        }
    }

    fn primary(&mut self) -> (r: Result<Expr, CompileError>)
        requires
            old(self).inv(),
        ensures
            final(self).tokens == old(self).tokens,
            final(self).inv(),
            agrees_expr(r, p_primary(old(self).toks(), old(self).pos()), final(self).pos()),
        decreases old(self).toks().len() - old(self).pos(), 50int,
    {
        proof {
            self.lemma_token_here();
        }
        let p = self.current;
        if self.match1(TokenKind::True) {
            return Ok(Expr::Literal(Value::Bool(true)));
        }
        if self.match1(TokenKind::False) {
            return Ok(Expr::Literal(Value::Bool(false)));
        }
        if self.match1(TokenKind::Null) {
            return Ok(Expr::Literal(Value::Null));
        }
        if self.check(TokenKind::Num) {
            let lit = self.literal_at(p);
            if parses_as_float(&lit) {
                self.advance();
                return Ok(Expr::Literal(Value::Num(lit)));
            } else {
                let line = self.tokens[p].line;
                return Err(
                    CompileError::Parser(
                        ParserError::UnableToParseLiteralToFloat { literal: lit, line },
                    ),
                );
            }
        }
        if self.check(TokenKind::String) {
            let lit = self.literal_at(p);
            self.advance();
            return Ok(Expr::Literal(Value::Str(lit)));
        }
        if self.check(TokenKind::Identifier) {
            return self.name_expr();
        }
        if self.match1(TokenKind::LParen) {
            let e = match self.expression() {
                Ok(e) => e,
                Err(e) => return Err(e),
            };
            if !(p < self.current) {
                return Err(stalled_error());
            }
            match self.consume(TokenKind::RParen) {
                Ok(()) => {},
                Err(e) => return Err(e),
            }
            return Ok(Expr::Grouping(Box::new(e)));
        }
        if self.match1(TokenKind::LBrack) {
            let none: Vec<Expr> = Vec::new();
            proof {
                assert(exprs_view(none@) =~= Seq::<ExprV>::empty());
            }
            let items = match self.list_items(none) {
                Ok(a) => a,
                Err(e) => return Err(e),
            };
            if !(p < self.current) {
                return Err(stalled_error());
            }
            match self.consume(TokenKind::RBrack) {
                Ok(()) => {},
                Err(e) => return Err(e),
            }
            let l = Expr::List(items);
            proof {
                lemma_expr_view_args(&l);
            }
            return Ok(l);
        }
        let tok = &self.tokens[p];
        Err(CompileError::Parser(ParserError::ExpectedExpression { got: tok.kind, line: tok.line }))
    }
    fn declaration(&mut self) -> (r: Result<Stmt, CompileError>)
        requires
            old(self).inv(),
        ensures
            final(self).tokens == old(self).tokens,
            final(self).inv(),
            agrees_stmt(r, p_declaration(old(self).toks(), old(self).pos()), final(self).pos()),
        decreases old(self).toks().len() - old(self).pos(), 90int,
    {
        proof {
            self.lemma_token_here();
        }
        let n = self.tokens.len();
        if self.current + 1 >= n {
            return Err(stalled_error());
        }
        let ghost t = self.toks();
        let ghost p = self.pos();
        if self.match1(TokenKind::Def) {
            assert(p_declaration(t, p) == p_function(t, p + 1));
            self.function()
        } else if self.match1(TokenKind::Let) {
            assert(p_declaration(t, p) == p_var_declaration(t, p + 1));
            self.var_declaration()
        } else {
            assert(p_declaration(t, p) == p_statement(t, p));
            self.statement()
        }
    }

    fn params(&mut self, name: &String, acc: Vec<String>) -> (r: Result<Vec<String>, CompileError>)
        requires
            old(self).inv(),
        ensures
            final(self).tokens == old(self).tokens,
            final(self).inv(),
            agrees_names(r, p_params(old(self).toks(), old(self).pos(), name@, strings_view(acc@)), final(self).pos()),
        decreases old(self).toks().len() - old(self).pos(), 0int,
    {
        if acc.len() >= 255 {
            return Err(CompileError::Parser(ParserError::TooManyParameters { func_name: copy_string(name) }));
        }
        let p = self.current;
        let param = self.literal_at(p);
        match self.consume(TokenKind::Identifier) {
            Ok(()) => {},
            Err(e) => return Err(e),
        }
        let mut acc = acc;
        let ghost old_acc = strings_view(acc@);
        let ghost pv = param@;
        acc.push(param);
        proof {
            assert(strings_view(acc@) =~= old_acc.push(pv));
        }
        if self.match1(TokenKind::Comma) {
            self.params(name, acc)
        } else {
            Ok(acc)
        }
    }

    fn function(&mut self) -> (r: Result<Stmt, CompileError>)
        requires
            old(self).inv(),
        ensures
            final(self).tokens == old(self).tokens,
            final(self).inv(),
            agrees_stmt(r, p_function(old(self).toks(), old(self).pos()), final(self).pos()),
        decreases old(self).toks().len() - old(self).pos(), 0int,
    {
        let p = self.current;
        let name = self.literal_at(p);
        match self.consume(TokenKind::Identifier) {
            Ok(()) => {},
            Err(e) => return Err(e),
        }
        match self.consume(TokenKind::LParen) {
            Ok(()) => {},
            Err(e) => return Err(e),
        }
        let none: Vec<String> = Vec::new();
        proof {
            assert(strings_view(none@) =~= Seq::<Seq<char>>::empty());
        }
        let params = if !self.check(TokenKind::RParen) {
            match self.params(&name, none) {
                Ok(ps) => ps,
                Err(e) => return Err(e),
            }
        } else {
            none
        };
        if !(p < self.current) {
            return Err(stalled_error());
        }
        match self.consume(TokenKind::RParen) {
            Ok(()) => {},
            Err(e) => return Err(e),
        }
        let body = match self.body() {
            Ok(b) => b,
            Err(e) => return Err(e),
        };
        Ok(make_function(name, params, body))
    }

    fn var_declaration(&mut self) -> (r: Result<Stmt, CompileError>)
        requires
            old(self).inv(),
        ensures
            final(self).tokens == old(self).tokens,
            final(self).inv(),
            agrees_stmt(r, p_var_declaration(old(self).toks(), old(self).pos()), final(self).pos()),
        decreases old(self).toks().len() - old(self).pos(), 0int,
    {
        proof {
            self.lemma_token_here();
        }
        let ghost t = self.toks();
        let p = self.current;
        let name = self.literal_at(p);
        match self.consume(TokenKind::Identifier) {
            Ok(()) => {},
            Err(e) => return Err(e),
        }
        let init = if self.match1(TokenKind::Equal) {
            match self.expression() {
                Ok(e) => {
                    assert(p_expression(t, p + 2) == PRes::<ExprV>::Ok((e@, self.pos())));
                    Some(e)
                },
                Err(e) => return Err(e),
            }
        } else {
            None
        };
        if !(p < self.current) {
            return Err(stalled_error());
        }
        match self.consume(TokenKind::Semicolon) {
            Ok(()) => {},
            Err(e) => return Err(e),
        }
        let s = make_var(name, init);
        assert(p_var_declaration(t, p as int) == PRes::<StmtV>::Ok((s@, self.pos())));
        Ok(s)
    }

    fn statement(&mut self) -> (r: Result<Stmt, CompileError>)
        requires
            old(self).inv(),
        ensures
            final(self).tokens == old(self).tokens,
            final(self).inv(),
            agrees_stmt(r, p_statement(old(self).toks(), old(self).pos()), final(self).pos()),
        decreases old(self).toks().len() - old(self).pos(), 80int,
    {
        proof {
            self.lemma_token_here();
        }
        let ghost t = self.toks();
        let ghost p = self.pos();
        if self.match1(TokenKind::Break) {
            return match self.consume(TokenKind::Semicolon) {
                Ok(()) => Ok(make_break()),
                Err(e) => Err(e),
            };
        }
        if self.match1(TokenKind::Continue) {
            return match self.consume(TokenKind::Semicolon) {
                Ok(()) => Ok(make_continue()),
                Err(e) => Err(e),
            };
        }
        if self.match1(TokenKind::For) {
            assert(p_statement(t, p) == p_for(t, p + 1));
            return self.for_statement();
        }
        if self.match1(TokenKind::If) {
            assert(p_statement(t, p) == p_if(t, p + 1));
            return self.if_statement();
        }
        if self.match1(TokenKind::Print) {
            assert(p_statement(t, p) == p_print(t, p + 1));
            return self.print_statement();
        }
        if self.match1(TokenKind::Return) {
            assert(p_statement(t, p) == p_return(t, p + 1));
            return self.return_statement();
        }
        if self.match1(TokenKind::While) {
            assert(p_statement(t, p) == p_while(t, p + 1));
            return self.while_statement();
        }
        let n = self.tokens.len();
        if self.check(TokenKind::Identifier) {
            let next = self.tokens[self.current + 1].kind;
            if next == TokenKind::Equal || next == TokenKind::Incr || next == TokenKind::Decr {
                self.advance();
                assert(p_statement(t, p) == p_assignment(t, p + 1));
                return self.assignment_statement();
            }
        }
        assert(p_statement(t, p) == p_expression_statement(t, p));
        self.expression_statement()
    }

    fn for_statement(&mut self) -> (r: Result<Stmt, CompileError>)
        requires
            old(self).inv(),
        ensures
            final(self).tokens == old(self).tokens,
            final(self).inv(),
            agrees_stmt(r, p_for(old(self).toks(), old(self).pos()), final(self).pos()),
        decreases old(self).toks().len() - old(self).pos(), 0int,
    {
        let ghost t = self.toks();
        let p = self.current;
        let name = self.literal_at(p);
        match self.consume(TokenKind::Identifier) {
            Ok(()) => {},
            Err(e) => return Err(e),
        }
        match self.consume(TokenKind::In) {
            Ok(()) => {},
            Err(e) => return Err(e),
        }
        let ghost p2 = self.pos();
        let start = match self.expression() {
            Ok(e) => e,
            Err(e) => return Err(e),
        };
        let ghost p3 = self.pos();
        assert(p_expression(t, p2) == PRes::<ExprV>::Ok((start@, p3)));
        if !(p < self.current) {
            return Err(stalled_error());
        }
        match self.consume(TokenKind::DotDot) {
            Ok(()) => {},
            Err(e) => return Err(e),
        }
        let ghost p4 = self.pos();
        let end = match self.expression() {
            Ok(e) => e,
            Err(e) => return Err(e),
        };
        let ghost p5 = self.pos();
        assert(p_expression(t, p4) == PRes::<ExprV>::Ok((end@, p5)));
        if !(p < self.current) {
            return Err(stalled_error());
        }
        self.for_rest(name, start, end)
    }

    fn for_rest(&mut self, name: String, start: Expr, end: Expr) -> (r: Result<Stmt, CompileError>)
        requires
            old(self).inv(),
        ensures
            final(self).tokens == old(self).tokens,
            final(self).inv(),
            agrees_stmt(r, p_for_rest(old(self).toks(), old(self).pos(), name@, start@, end@), final(self).pos()),
        decreases old(self).toks().len() - old(self).pos(), 2int,
    {
        let ghost t = self.toks();
        let p = self.current;
        if self.match1(TokenKind::Step) {
            let v = match self.expression() {
                Ok(e) => e,
                Err(e) => return Err(e),
            };
            assert(p_expression(t, p + 1) == PRes::<ExprV>::Ok((v@, self.pos())));
            if !(p < self.current) {
                return Err(stalled_error());
            }
            let step = make_step_by(&name, v);
            self.for_body(name, start, end, step)
        } else {
            let step = make_incr(&name);
            self.for_body(name, start, end, step)
        }
    }

    fn for_body(&mut self, name: String, start: Expr, end: Expr, step: Stmt) -> (r: Result<Stmt, CompileError>)
        requires
            old(self).inv(),
        ensures
            final(self).tokens == old(self).tokens,
            final(self).inv(),
            agrees_stmt(
                r,
                p_for_body(old(self).toks(), old(self).pos(), name@, start@, end@, step@),
                final(self).pos(),
            ),
        decreases old(self).toks().len() - old(self).pos(), 1int,
    {
        let body = match self.body() {
            Ok(b) => b,
            Err(e) => return Err(e),
        };
        let cond = make_below(&name, end);
        let init = make_var(name, Some(start));
        Ok(make_for(init, cond, step, body))
    }

    fn else_part(&mut self) -> (r: Result<Option<Vec<Stmt>>, CompileError>)
        requires
            old(self).inv(),
        ensures
            final(self).tokens == old(self).tokens,
            final(self).inv(),
            match p_else(old(self).toks(), old(self).pos()) {
                Ok((eb, q)) => r is Ok && final(self).pos() == q && match (r->Ok_0, eb) {
                    (Some(a), Some(b)) => stmts_view(a@) == b,
                    (None, None) => true,
                    _ => false,
                },
                Err(err) => r is Err && r->Err_0@ == CompileErrorV::Parser(err),
            },
        decreases old(self).toks().len() - old(self).pos(), 0int,
    {
        if self.match1(TokenKind::Else) {
            if self.match1(TokenKind::If) {
                let s = match self.if_statement() {
                    Ok(s) => s,
                    Err(e) => return Err(e),
                };
                let ghost sv = s@;
                let v = vec![s];
                proof {
                    assert(stmts_view(v@) =~= seq![sv]);
                }
                Ok(Some(v))
            } else {
                match self.body() {
                    Ok(b) => Ok(Some(b)),
                    Err(e) => Err(e),
                }
            }
        } else {
            Ok(None)
        }
    }

    fn if_statement(&mut self) -> (r: Result<Stmt, CompileError>)
        requires
            old(self).inv(),
        ensures
            final(self).tokens == old(self).tokens,
            final(self).inv(),
            agrees_stmt(r, p_if(old(self).toks(), old(self).pos()), final(self).pos()),
        decreases old(self).toks().len() - old(self).pos(), 70int,
    {
        proof {
            self.lemma_token_here();
        }
        let ghost t = self.toks();
        let p = self.current;
        let cond = match self.expression() {
            Ok(e) => e,
            Err(e) => return Err(e),
        };
        let ghost p1 = self.pos();
        assert(p_expression(t, p as int) == PRes::<ExprV>::Ok((cond@, p1)));
        if !(p < self.current) {
            return Err(stalled_error());
        }
        let then_branch = match self.body() {
            Ok(b) => b,
            Err(e) => return Err(e),
        };
        let ghost p2 = self.pos();
        let ghost tv = stmts_view(then_branch@);
        assert(p_body(t, p1) == Result::<(Seq<StmtV>, int), ParserErrorV>::Ok((tv, p2)));
        if !(p < self.current) {
            return Err(stalled_error());
        }
        let else_branch = match self.else_part() {
            Ok(b) => b,
            Err(e) => return Err(e),
        };
        let s = make_if(cond, then_branch, else_branch);
        assert(p_if(t, p as int) == PRes::<StmtV>::Ok((s@, self.pos())));
        Ok(s)
    }

    fn print_statement(&mut self) -> (r: Result<Stmt, CompileError>)
        requires
            old(self).inv(),
        ensures
            final(self).tokens == old(self).tokens,
            final(self).inv(),
            agrees_stmt(r, p_print(old(self).toks(), old(self).pos()), final(self).pos()),
        decreases old(self).toks().len() - old(self).pos(), 0int,
    {
        let ghost t = self.toks();
        let p = self.current;
        match self.consume(TokenKind::LParen) {
            Ok(()) => {},
            Err(e) => return Err(e),
        }
        let e = match self.expression() {
            Ok(e) => e,
            Err(e) => return Err(e),
        };
        let ghost p2 = self.pos();
        assert(p_expression(t, p + 1) == PRes::<ExprV>::Ok((e@, p2)));
        if !(p < self.current) {
            return Err(stalled_error());
        }
        match self.consume(TokenKind::RParen) {
            Ok(()) => {},
            Err(e) => return Err(e),
        }
        match self.consume(TokenKind::Semicolon) {
            Ok(()) => {},
            Err(e) => return Err(e),
        }
        Ok(make_print(e))
    }

    fn return_statement(&mut self) -> (r: Result<Stmt, CompileError>)
        requires
            old(self).inv(),
        ensures
            final(self).tokens == old(self).tokens,
            final(self).inv(),
            agrees_stmt(r, p_return(old(self).toks(), old(self).pos()), final(self).pos()),
        decreases old(self).toks().len() - old(self).pos(), 70int,
    {
        let ghost t = self.toks();
        let p = self.current;
        proof {
            lemma_return_unfold(t, p as int);
        }
        if self.check(TokenKind::Semicolon) {
            self.advance();
            let s = make_return(None);
            return Ok(s);
        }
        let e = match self.expression() {
            Ok(e) => e,
            Err(e) => return Err(e),
        };
        let ghost p1 = self.pos();
        let ghost ev = e@;
        assert(p_expression(t, p as int) == PRes::<ExprV>::Ok((ev, p1)));
        if !(p <= self.current) {
            return Err(stalled_error());
        }
        match self.consume(TokenKind::Semicolon) {
            Ok(()) => {},
            Err(e) => return Err(e),
        }
        let s = make_return(Some(e));
        Ok(s)
    }

    fn while_statement(&mut self) -> (r: Result<Stmt, CompileError>)
        requires
            old(self).inv(),
        ensures
            final(self).tokens == old(self).tokens,
            final(self).inv(),
            agrees_stmt(r, p_while(old(self).toks(), old(self).pos()), final(self).pos()),
        decreases old(self).toks().len() - old(self).pos(), 70int,
    {
        proof {
            self.lemma_token_here();
        }
        let ghost t = self.toks();
        let p = self.current;
        let cond = match self.expression() {
            Ok(e) => e,
            Err(e) => return Err(e),
        };
        let ghost p1 = self.pos();
        assert(p_expression(t, p as int) == PRes::<ExprV>::Ok((cond@, p1)));
        if !(p < self.current) {
            return Err(stalled_error());
        }
        let body = match self.body() {
            Ok(b) => b,
            Err(e) => return Err(e),
        };
        let ghost bv = stmts_view(body@);
        assert(p_body(t, p1) == Result::<(Seq<StmtV>, int), ParserErrorV>::Ok((bv, self.pos())));
        let s = make_while(cond, body);
        assert(p_while(t, p as int) == PRes::<StmtV>::Ok((s@, self.pos())));
        Ok(s)
    }

    fn assignment_statement(&mut self) -> (r: Result<Stmt, CompileError>)
        requires
            old(self).inv(),
        ensures
            final(self).tokens == old(self).tokens,
            final(self).inv(),
            agrees_stmt(r, p_assignment(old(self).toks(), old(self).pos()), final(self).pos()),
        decreases old(self).toks().len() - old(self).pos(), 0int,
    {
        if self.current < 1 {
            return Err(stalled_error());
        }
        let prev = self.current - 1;
        if !(self.tokens[prev].kind == TokenKind::Identifier) {
            let tok = &self.tokens[prev];
            return Err(CompileError::Parser(ParserError::ExpectedIdentifier { got: tok.kind, line: tok.line }));
        }
        let name = self.literal_at(prev);
        if self.match1(TokenKind::Incr) {
            return match self.consume(TokenKind::Semicolon) {
                Ok(()) => Ok(Stmt::Incr(name)),
                Err(e) => Err(e),
            };
        }
        if self.match1(TokenKind::Decr) {
            return match self.consume(TokenKind::Semicolon) {
                Ok(()) => Ok(Stmt::Decr(name)),
                Err(e) => Err(e),
            };
        }
        if self.match1(TokenKind::Equal) {
            let p = self.current - 1;
            let v = match self.expression() {
                Ok(e) => e,
                Err(e) => return Err(e),
            };
            if !(p < self.current) {
                return Err(stalled_error());
            }
            return match self.consume(TokenKind::Semicolon) {
                Ok(()) => Ok(Stmt::Assign { name, value: Box::new(v) }),
                Err(e) => Err(e),
            };
        }
        Err(CompileError::Parser(ParserError::UnknownStatement))
    }

    fn body_items(&mut self, acc: Vec<Stmt>) -> (r: Result<Vec<Stmt>, CompileError>)
        requires
            old(self).inv(),
        ensures
            final(self).tokens == old(self).tokens,
            final(self).inv(),
            agrees_stmts(r, p_body_items(old(self).toks(), old(self).pos(), stmts_view(acc@)), final(self).pos()),
        decreases old(self).toks().len() - old(self).pos(), 100int,
    {
        if self.check(TokenKind::Dedent) || self.is_at_end() {
            return Ok(acc);
        }
        let p = self.current;
        let s = match self.declaration() {
            Ok(s) => s,
            Err(e) => return Err(e),
        };
        if !(p < self.current) {
            return Err(stalled_error());
        }
        let mut acc = acc;
        let ghost old_acc = stmts_view(acc@);
        let ghost sv = s@;
        acc.push(s);
        proof {
            assert(stmts_view(acc@) =~= old_acc.push(sv));
        }
        self.body_items(acc)
    }

    fn body(&mut self) -> (r: Result<Vec<Stmt>, CompileError>)
        requires
            old(self).inv(),
        ensures
            final(self).tokens == old(self).tokens,
            final(self).inv(),
            agrees_stmts(r, p_body(old(self).toks(), old(self).pos()), final(self).pos()),
        decreases old(self).toks().len() - old(self).pos(), 0int,
    {
        let p = self.current;
        match self.consume(TokenKind::Colon) {
            Ok(()) => {},
            Err(e) => return Err(e),
        }
        match self.consume(TokenKind::Indent) {
            Ok(()) => {},
            Err(e) => return Err(e),
        }
        if !(p < self.current) {
            return Err(stalled_error());
        }
        let none: Vec<Stmt> = Vec::new();
        proof {
            assert(stmts_view(none@) =~= Seq::<StmtV>::empty());
        }
        let items = match self.body_items(none) {
            Ok(v) => v,
            Err(e) => return Err(e),
        };
        if !(p < self.current) {
            return Err(stalled_error());
        }
        if self.is_at_end() {
            return Ok(items);
        }
        match self.consume(TokenKind::Dedent) {
            Ok(()) => Ok(items),
            Err(e) => Err(e),
        }
    }

    fn expression_statement(&mut self) -> (r: Result<Stmt, CompileError>)
        requires
            old(self).inv(),
        ensures
            final(self).tokens == old(self).tokens,
            final(self).inv(),
            agrees_stmt(r, p_expression_statement(old(self).toks(), old(self).pos()), final(self).pos()),
        decreases old(self).toks().len() - old(self).pos(), 70int,
    {
        let p = self.current;
        let e = match self.expression() {
            Ok(e) => e,
            Err(e) => return Err(e),
        };
        if !(p < self.current) {
            return Err(stalled_error());
        }
        match self.consume(TokenKind::Semicolon) {
            Ok(()) => Ok(make_expression_stmt(e)),
            Err(er) => Err(er),
        }
    }

    fn declarations(&mut self, acc: Vec<Stmt>) -> (r: Result<Vec<Stmt>, CompileError>)
        requires
            old(self).inv(),
        ensures
            match p_declarations(old(self).toks(), old(self).pos(), stmts_view(acc@)) {
                Ok(v) => r is Ok && stmts_view(r->Ok_0@) == v,
                Err(err) => r is Err && r->Err_0@ == CompileErrorV::Parser(err),
            },
        decreases old(self).toks().len() - old(self).pos(), 100int,
    {
        if self.is_at_end() {
            return Ok(acc);
        }
        let p = self.current;
        let s = match self.declaration() {
            Ok(s) => s,
            Err(e) => return Err(e),
        };
        if !(p < self.current) {
            return Err(stalled_error());
        }
        let mut acc = acc;
        let ghost old_acc = stmts_view(acc@);
        let ghost sv = s@;
        acc.push(s);
        proof {
            assert(stmts_view(acc@) =~= old_acc.push(sv));
        }
        self.declarations(acc)
    }

    /// Parses the whole token list into statements.
    pub fn parse(&mut self) -> (r: Result<Vec<Stmt>, CompileError>)
        requires
            well_formed(old(self).toks()),
            old(self).pos() == 0,
        ensures
            match parse_tokens(old(self).toks()) {
                Ok(v) => r is Ok && stmts_view(r->Ok_0@) == v,
                Err(err) => r is Err && r->Err_0@ == CompileErrorV::Parser(err),
            },
    {
        let none: Vec<Stmt> = Vec::new();
        proof {
            assert(stmts_view(none@) =~= Seq::<StmtV>::empty());
        }
        self.declarations(none)
    }
}

} // verus!
