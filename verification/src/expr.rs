//! Expressions of the language.
use vstd::prelude::*;
use crate::text::copy_string;
use crate::value::{Value, ValueV};

verus! {

#[derive(Clone, Copy, Debug, PartialEq, Eq, Structural)]
pub enum BinaryOp {
    Add,
    Sub,
    Mul,
    Div,
    Less,
    LessEq,
    Greater,
    GreaterEq,
    Eq,
    NotEq,
}

#[derive(Clone, Copy, Debug, PartialEq, Eq, Structural)]
pub enum LogicalOp {
    Or,
    And,
}

#[derive(Clone, Copy, Debug, PartialEq, Eq, Structural)]
pub enum UnaryOp {
    Not,
    Neg,
}

#[allow(inconsistent_fields)]
#[derive(Debug)]
pub enum Expr {
    Binary { left: Box<Expr>, operator: BinaryOp, right: Box<Expr> },
    Call { callee: Box<Expr>, arguments: Vec<Expr> },
    Grouping(Box<Expr>),
    Index { list: String, index: Box<Expr> },
    List(Vec<Expr>),
    ListMethodCall { object: String, method_name: String, arguments: Vec<Expr> },
    Literal(Value),
    Logical { operator: LogicalOp, left: Box<Expr>, right: Box<Expr> },
    Membership { left: Box<Expr>, not: bool, right: Box<Expr> },
    Slice { list: String, start: Option<Box<Expr>>, end: Option<Box<Expr>> },
    Unary { operator: UnaryOp, right: Box<Expr> },
    Var(String),
}

#[allow(inconsistent_fields)]
pub enum ExprV {
    Binary { left: Box<ExprV>, operator: BinaryOp, right: Box<ExprV> },
    Call { callee: Box<ExprV>, arguments: Seq<ExprV> },
    Grouping(Box<ExprV>),
    Index { list: Seq<char>, index: Box<ExprV> },
    List(Seq<ExprV>),
    ListMethodCall { object: Seq<char>, method_name: Seq<char>, arguments: Seq<ExprV> },
    Literal(ValueV),
    Logical { operator: LogicalOp, left: Box<ExprV>, right: Box<ExprV> },
    Membership { left: Box<ExprV>, not: bool, right: Box<ExprV> },
    Slice { list: Seq<char>, start: Option<Box<ExprV>>, end: Option<Box<ExprV>> },
    Unary { operator: UnaryOp, right: Box<ExprV> },
    Var(Seq<char>),
}

impl Expr {
    pub open spec fn view(&self) -> ExprV
        decreases self,
    {
        match self {
            Expr::Binary { left, operator, right } => ExprV::Binary {
                left: Box::new((**left).view()),
                operator: *operator,
                right: Box::new((**right).view()),
            },
            Expr::Call { callee, arguments } => ExprV::Call {
                callee: Box::new((**callee).view()),
                arguments: Seq::new(
                    arguments@.len(),
                    |i: int|
                        if 0 <= i < arguments@.len() {
                            arguments@[i].view()
                        } else {
                            ExprV::Var(Seq::empty())
                        },
                ),
            },
            Expr::Grouping(e) => ExprV::Grouping(Box::new((**e).view())),
            Expr::Index { list, index } => ExprV::Index {
                list: list@,
                index: Box::new((**index).view()),
            },
            Expr::List(items) => ExprV::List(
                Seq::new(
                    items@.len(),
                    |i: int|
                        if 0 <= i < items@.len() {
                            items@[i].view()
                        } else {
                            ExprV::Var(Seq::empty())
                        },
                ),
            ),
            Expr::ListMethodCall { object, method_name, arguments } => ExprV::ListMethodCall {
                object: object@,
                method_name: method_name@,
                arguments: Seq::new(
                    arguments@.len(),
                    |i: int|
                        if 0 <= i < arguments@.len() {
                            arguments@[i].view()
                        } else {
                            ExprV::Var(Seq::empty())
                        },
                ),
            },
            Expr::Literal(v) => ExprV::Literal(v@),
            Expr::Logical { operator, left, right } => ExprV::Logical {
                operator: *operator,
                left: Box::new((**left).view()),
                right: Box::new((**right).view()),
            },
            Expr::Membership { left, not, right } => ExprV::Membership {
                left: Box::new((**left).view()),
                not: *not,
                right: Box::new((**right).view()),
            },
            Expr::Slice { list, start, end } => ExprV::Slice {
                list: list@,
                start: match start {
                    Some(s) => Some(Box::new((**s).view())),
                    None => None,
                },
                end: match end {
                    Some(e) => Some(Box::new((**e).view())),
                    None => None,
                },
            },
            Expr::Unary { operator, right } => ExprV::Unary {
                operator: *operator,
                right: Box::new((**right).view()),
            },
            Expr::Var(name) => ExprV::Var(name@),
        }
    }
}

/// The views of a vector of expressions.
pub open spec fn exprs_view(v: Seq<Expr>) -> Seq<ExprV> {
    Seq::new(v.len(), |i: int| v[i]@)
}

/// The number of nodes of an expression tree.
pub open spec fn expr_size(e: ExprV) -> nat
    decreases e,
{
    match e {
        ExprV::Binary { left, right, .. } => 1 + expr_size(*left) + expr_size(*right),
        ExprV::Call { callee, arguments } => 1 + expr_size(*callee) + exprs_size(arguments),
        ExprV::Grouping(x) => 1 + expr_size(*x),
        ExprV::Index { index, .. } => 1 + expr_size(*index),
        ExprV::List(items) => 1 + exprs_size(items),
        ExprV::ListMethodCall { arguments, .. } => 1 + exprs_size(arguments),
        ExprV::Literal(_) => 1,
        ExprV::Logical { left, right, .. } => 1 + expr_size(*left) + expr_size(*right),
        ExprV::Membership { left, right, .. } => 1 + expr_size(*left) + expr_size(*right),
        ExprV::Slice { start, end, .. } => 1 + opt_expr_size(start) + opt_expr_size(end),
        ExprV::Unary { right, .. } => 1 + expr_size(*right),
        ExprV::Var(_) => 1,
    }
}

pub open spec fn opt_expr_size(e: Option<Box<ExprV>>) -> nat
    decreases e,
{
    match e {
        Some(x) => expr_size(*x),
        None => 0,
    }
}

pub open spec fn exprs_size(s: Seq<ExprV>) -> nat
    decreases s,
{
    if s.len() == 0 {
        0
    } else {
        exprs_size(s.drop_last()) + expr_size(s.last())
    }
}

pub proof fn lemma_exprs_size_elem(s: Seq<ExprV>, k: int)
    requires
        0 <= k < s.len(),
    ensures
        expr_size(s[k]) <= exprs_size(s),
    decreases s.len(),
{
    if k < s.len() - 1 {
        lemma_exprs_size_elem(s.drop_last(), k);
    }
}

/// Facts that let the view of a call, a list or a method call be read off
/// its vector of arguments.
pub proof fn lemma_expr_view_args(e: &Expr)
    ensures
        (e matches Expr::Call { arguments, .. } ==> e@->Call_arguments == exprs_view(arguments@)),
        (e matches Expr::List(items) ==> e@->List_0 == exprs_view(items@)),
        (e matches Expr::ListMethodCall { arguments, .. } ==> e@->ListMethodCall_arguments
            == exprs_view(arguments@)),
{
    match e {
        Expr::Call { callee, arguments } => {
            assert(e@ is Call);
            assert(e@->Call_arguments.len() == arguments@.len());
            assert(e@->Call_arguments =~= exprs_view(arguments@));
        },
        Expr::List(items) => {
            assert(e@ is List);
            assert(e@->List_0.len() == items@.len());
            assert(e@->List_0 =~= exprs_view(items@));
        },
        Expr::ListMethodCall { object, method_name, arguments } => {
            assert(e@ is ListMethodCall);
            assert(e@->ListMethodCall_arguments.len() == arguments@.len());
            assert(e@->ListMethodCall_arguments =~= exprs_view(arguments@));
        },
        _ => {},
    }
}

impl Expr {
    /// Whether the expression is the boolean literal `b`.
    pub fn is_bool_literal(&self, b: bool) -> (r: bool)
        ensures
            r == (self@ == ExprV::Literal(ValueV::Bool(b))),
    {
        match self {
            Expr::Literal(Value::Bool(x)) => *x == b,
            _ => false,
        }
    }

    pub fn duplicate(&self) -> (r: Expr)
        ensures
            r@ == self@,
        decreases expr_size(self@), 0nat,
    {
        proof {
            lemma_expr_view_args(self);
        }
        match self {
            Expr::Binary { left, operator, right } => Expr::Binary {
                left: Box::new(left.duplicate()),
                operator: *operator,
                right: Box::new(right.duplicate()),
            },
            Expr::Call { callee, arguments } => {
                let c = callee.duplicate();
                let a = duplicate_exprs(arguments);
                let r = Expr::Call { callee: Box::new(c), arguments: a };
                proof { lemma_expr_view_args(&r); }
                r
            },
            Expr::Grouping(e) => Expr::Grouping(Box::new(e.duplicate())),
            Expr::Index { list, index } => Expr::Index {
                list: copy_string(list),
                index: Box::new(index.duplicate()),
            },
            Expr::List(items) => {
                let a = duplicate_exprs(items);
                let r = Expr::List(a);
                proof { lemma_expr_view_args(&r); }
                r
            },
            Expr::ListMethodCall { object, method_name, arguments } => {
                let a = duplicate_exprs(arguments);
                let r = Expr::ListMethodCall {
                    object: copy_string(object),
                    method_name: copy_string(method_name),
                    arguments: a,
                };
                proof { lemma_expr_view_args(&r); }
                r
            },
            Expr::Literal(v) => Expr::Literal(v.duplicate()),
            Expr::Logical { operator, left, right } => Expr::Logical {
                operator: *operator,
                left: Box::new(left.duplicate()),
                right: Box::new(right.duplicate()),
            },
            Expr::Membership { left, not, right } => Expr::Membership {
                left: Box::new(left.duplicate()),
                not: *not,
                right: Box::new(right.duplicate()),
            },
            Expr::Slice { list, start, end } => {
                assert(self@ is Slice);
                let s = match start {
                    Some(x) => {
                        assert(self@->Slice_start == Some(Box::new((**x)@)));
                        assert(opt_expr_size(self@->Slice_start) == expr_size((**x)@));
                        Some(Box::new(x.duplicate()))
                    },
                    None => None,
                };
                let e = match end {
                    Some(x) => {
                        assert(self@->Slice_end == Some(Box::new((**x)@)));
                        assert(opt_expr_size(self@->Slice_end) == expr_size((**x)@));
                        Some(Box::new(x.duplicate()))
                    },
                    None => None,
                };
                Expr::Slice { list: copy_string(list), start: s, end: e }
            },
            Expr::Unary { operator, right } => Expr::Unary {
                operator: *operator,
                right: Box::new(right.duplicate()),
            },
            Expr::Var(name) => Expr::Var(copy_string(name)),
        }
    }
}

pub fn duplicate_exprs(v: &Vec<Expr>) -> (r: Vec<Expr>)
    ensures
        exprs_view(r@) == exprs_view(v@),
    decreases exprs_size(exprs_view(v@)), 1nat,
{
    let mut out: Vec<Expr> = Vec::new();
    let mut i: usize = 0;
    while i < v.len()
        invariant
            i <= v.len(),
            out@.len() == i,
            forall|k: int| 0 <= k < i ==> out@[k]@ == v@[k]@,
        decreases v.len() - i,
    {
        proof {
            lemma_exprs_size_elem(exprs_view(v@), i as int);
        }
        out.push(v[i].duplicate());
        i = i + 1;
    }
    assert(exprs_view(out@) =~= exprs_view(v@));
    out
}

} // verus!
