//! Statements of the language.
use vstd::prelude::*;
use crate::text::{strings_view, copy_string, copy_strings};
use crate::expr::{Expr, ExprV};

verus! {

#[derive(Debug)]
pub enum Stmt {
    Assign { name: String, value: Box<Expr> },
    Break,
    Continue,
    Decr(String),
    Expression(Expr),
    For { initializer: Box<Stmt>, condition: Expr, step: Box<Stmt>, body: Vec<Stmt> },
    Function { name: String, params: Vec<String>, body: Vec<Stmt>, captures: Vec<String> },
    If { condition: Expr, then_branch: Vec<Stmt>, else_branch: Option<Vec<Stmt>> },
    Incr(String),
    Print(Expr),
    Return(Option<Expr>),
    Var { name: String, initializer: Option<Expr> },
    While { condition: Expr, body: Vec<Stmt> },
}

pub enum StmtV {
    Assign { name: Seq<char>, value: Box<ExprV> },
    Break,
    Continue,
    Decr(Seq<char>),
    Expression(ExprV),
    For { initializer: Box<StmtV>, condition: ExprV, step: Box<StmtV>, body: Seq<StmtV> },
    Function {
        name: Seq<char>,
        params: Seq<Seq<char>>,
        body: Seq<StmtV>,
        captures: Seq<Seq<char>>,
    },
    If { condition: ExprV, then_branch: Seq<StmtV>, else_branch: Option<Seq<StmtV>> },
    Incr(Seq<char>),
    Print(ExprV),
    Return(Option<ExprV>),
    Var { name: Seq<char>, initializer: Option<ExprV> },
    While { condition: ExprV, body: Seq<StmtV> },
}

impl Stmt {
    pub open spec fn view(&self) -> StmtV
        decreases self,
    {
        match self {
            Stmt::Assign { name, value } => StmtV::Assign { name: name@, value: Box::new((**value)@) },
            Stmt::Break => StmtV::Break,
            Stmt::Continue => StmtV::Continue,
            Stmt::Decr(n) => StmtV::Decr(n@),
            Stmt::Expression(e) => StmtV::Expression(e@),
            Stmt::For { initializer, condition, step, body } => StmtV::For {
                initializer: Box::new((**initializer).view()),
                condition: condition@,
                step: Box::new((**step).view()),
                body: Seq::new(
                    body@.len(),
                    |i: int| if 0 <= i < body@.len() { body@[i].view() } else { StmtV::Break },
                ),
            },
            Stmt::Function { name, params, body, captures } => StmtV::Function {
                name: name@,
                params: strings_view(params@),
                body: Seq::new(
                    body@.len(),
                    |i: int| if 0 <= i < body@.len() { body@[i].view() } else { StmtV::Break },
                ),
                captures: strings_view(captures@),
            },
            Stmt::If { condition, then_branch, else_branch } => StmtV::If {
                condition: condition@,
                then_branch: Seq::new(
                    then_branch@.len(),
                    |i: int|
                        if 0 <= i < then_branch@.len() {
                            then_branch@[i].view()
                        } else {
                            StmtV::Break
                        },
                ),
                else_branch: match else_branch {
                    Some(b) => Some(
                        Seq::new(
                            b@.len(),
                            |i: int| if 0 <= i < b@.len() { b@[i].view() } else { StmtV::Break },
                        ),
                    ),
                    None => None,
                },
            },
            Stmt::Incr(n) => StmtV::Incr(n@),
            Stmt::Print(e) => StmtV::Print(e@),
            Stmt::Return(v) => StmtV::Return(
                match v {
                    Some(e) => Some(e@),
                    None => None,
                },
            ),
            Stmt::Var { name, initializer } => StmtV::Var {
                name: name@,
                initializer: match initializer {
                    Some(e) => Some(e@),
                    None => None,
                },
            },
            Stmt::While { condition, body } => StmtV::While {
                condition: condition@,
                body: Seq::new(
                    body@.len(),
                    |i: int| if 0 <= i < body@.len() { body@[i].view() } else { StmtV::Break },
                ),
            },
        }
    }
}

pub open spec fn stmts_view(v: Seq<Stmt>) -> Seq<StmtV> {
    Seq::new(v.len(), |i: int| v[i]@)
}

pub open spec fn opt_expr_view(e: Option<Expr>) -> Option<ExprV> {
    match e {
        Some(x) => Some(x@),
        None => None,
    }
}

/// The number of statement nodes of a statement tree.
pub open spec fn stmt_size(s: StmtV) -> nat
    decreases s,
{
    match s {
        StmtV::For { initializer, step, body, .. } => 1 + stmt_size(*initializer) + stmt_size(*step)
            + stmts_size(body),
        StmtV::Function { body, .. } => 1 + stmts_size(body),
        StmtV::If { then_branch, else_branch, .. } => 1 + stmts_size(then_branch) + match else_branch {
            Some(b) => stmts_size(b),
            None => 0,
        },
        StmtV::While { body, .. } => 1 + stmts_size(body),
        _ => 1,
    }
}

pub open spec fn stmts_size(s: Seq<StmtV>) -> nat
    decreases s,
{
    if s.len() == 0 {
        0
    } else {
        stmts_size(s.drop_last()) + stmt_size(s.last())
    }
}

pub proof fn lemma_stmts_size_elem(s: Seq<StmtV>, k: int)
    requires
        0 <= k < s.len(),
    ensures
        stmt_size(s[k]) <= stmts_size(s),
    decreases s.len(),
{
    if k < s.len() - 1 {
        lemma_stmts_size_elem(s.drop_last(), k);
    }
}

/// The view of a statement with a body, read off its vectors.
pub proof fn lemma_stmt_view_bodies(s: &Stmt)
    ensures
        (s matches Stmt::For { body, .. } ==> s@->For_body == stmts_view(body@)),
        (s matches Stmt::Function { body, .. } ==> s@->Function_body == stmts_view(body@)),
        (s matches Stmt::While { body, .. } ==> s@->While_body == stmts_view(body@)),
        (s matches Stmt::If { then_branch, .. } ==> s@->If_then_branch == stmts_view(
            then_branch@,
        )),
        (s matches Stmt::If { else_branch: Some(b), .. } ==> s@->If_else_branch == Some(
            stmts_view(b@),
        )),
        (s matches Stmt::If { else_branch: None, .. } ==> s@->If_else_branch == None::<
            Seq<StmtV>,
        >),
{
    match s {
        Stmt::For { body, .. } => {
            assert(s@ is For);
            assert(s@->For_body.len() == body@.len());
            assert(s@->For_body =~= stmts_view(body@));
        },
        Stmt::Function { body, .. } => {
            assert(s@ is Function);
            assert(s@->Function_body.len() == body@.len());
            assert(s@->Function_body =~= stmts_view(body@));
        },
        Stmt::While { body, .. } => {
            assert(s@ is While);
            assert(s@->While_body.len() == body@.len());
            assert(s@->While_body =~= stmts_view(body@));
        },
        Stmt::If { then_branch, else_branch, .. } => {
            assert(s@ is If);
            assert(s@->If_then_branch.len() == then_branch@.len());
            assert(s@->If_then_branch =~= stmts_view(then_branch@));
            match else_branch {
                Some(b) => {
                    let eb = s@->If_else_branch->0;
                    assert(eb.len() == b@.len());
                    assert(eb =~= stmts_view(b@));
                },
                None => {},
            }
        },
        _ => {},
    }
}

impl Stmt {
    pub fn duplicate(&self) -> (r: Stmt)
        ensures
            r@ == self@,
        decreases stmt_size(self@), 0nat,
    {
        proof {
            lemma_stmt_view_bodies(self);
        }
        match self {
            Stmt::Assign { name, value } => Stmt::Assign {
                name: copy_string(name),
                value: Box::new(value.duplicate()),
            },
            Stmt::Break => Stmt::Break,
            Stmt::Continue => Stmt::Continue,
            Stmt::Decr(n) => Stmt::Decr(copy_string(n)),
            Stmt::Expression(e) => Stmt::Expression(e.duplicate()),
            Stmt::For { initializer, condition, step, body } => {
                let i = initializer.duplicate();
                let s = step.duplicate();
                let b = duplicate_stmts(body);
                let r = Stmt::For {
                    initializer: Box::new(i),
                    condition: condition.duplicate(),
                    step: Box::new(s),
                    body: b,
                };
                proof {
                    lemma_stmt_view_bodies(&r);
                }
                r
            },
            Stmt::Function { name, params, body, captures } => {
                let b = duplicate_stmts(body);
                let r = Stmt::Function {
                    name: copy_string(name),
                    params: copy_strings(params),
                    body: b,
                    captures: copy_strings(captures),
                };
                proof {
                    lemma_stmt_view_bodies(&r);
                }
                r
            },
            Stmt::If { condition, then_branch, else_branch } => {
                let t = duplicate_stmts(then_branch);
                let e = match else_branch {
                    Some(b) => Some(duplicate_stmts(b)),
                    None => None,
                };
                let r = Stmt::If { condition: condition.duplicate(), then_branch: t, else_branch: e };
                proof {
                    lemma_stmt_view_bodies(&r);
                }
                r
            },
            Stmt::Incr(n) => Stmt::Incr(copy_string(n)),
            Stmt::Print(e) => Stmt::Print(e.duplicate()),
            Stmt::Return(v) => Stmt::Return(
                match v {
                    Some(e) => Some(e.duplicate()),
                    None => None,
                },
            ),
            Stmt::Var { name, initializer } => Stmt::Var {
                name: copy_string(name),
                initializer: match initializer {
                    Some(e) => Some(e.duplicate()),
                    None => None,
                },
            },
            Stmt::While { condition, body } => {
                let b = duplicate_stmts(body);
                let r = Stmt::While { condition: condition.duplicate(), body: b };
                proof {
                    lemma_stmt_view_bodies(&r);
                }
                r
            },
        }
    }
}

pub fn duplicate_stmts(v: &Vec<Stmt>) -> (r: Vec<Stmt>)
    ensures
        stmts_view(r@) == stmts_view(v@),
    decreases stmts_size(stmts_view(v@)), 1nat,
{
    let mut out: Vec<Stmt> = Vec::new();
    let mut i: usize = 0;
    while i < v.len()
        invariant
            i <= v.len(),
            out@.len() == i,
            forall|k: int| 0 <= k < i ==> out@[k]@ == v@[k]@,
        decreases v.len() - i,
    {
        proof {
            lemma_stmts_size_elem(stmts_view(v@), i as int);
        }
        out.push(v[i].duplicate());
        i = i + 1;
    }
    assert(stmts_view(out@) =~= stmts_view(v@));
    out
}

} // verus!
