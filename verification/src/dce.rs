//! Removal of code that can never run: branches under a constant condition,
//! loops whose condition is constantly false, and what follows a `return`,
//! `break` or `continue` in the same block.
use vstd::prelude::*;
use crate::expr::ExprV;
use crate::value::ValueV;
use crate::stmt::{Stmt, StmtV, stmts_view, stmt_size, stmts_size, lemma_stmts_size_elem, lemma_stmt_view_bodies};
use crate::text::{copy_string, copy_strings};

verus! {

/// A statement after which nothing in its block runs.
pub open spec fn stops_flow(s: StmtV) -> bool {
    s is Return || s is Break || s is Continue
}

/// What a block becomes, read from position `i` on: each statement is
/// replaced by what it stands for, and reading stops after a statement
/// that stops the flow.
pub open spec fn dce_block(b: Seq<StmtV>, i: int) -> Seq<StmtV>
    decreases stmts_size(b), 1int, b.len() - i,
{
    if !(0 <= i < b.len()) {
        Seq::empty()
    } else {
        proof {
            lemma_stmts_size_elem(b, i);
        }
        if stops_flow(b[i]) {
            dce_stmt(b[i])
        } else {
            dce_stmt(b[i]) + dce_block(b, i + 1)
        }
    }
}

/// What one statement stands for: an `if` on a boolean literal is the
/// branch that runs (or nothing), a `while false` is nothing, and the
/// bodies of the other compound statements are cleaned in turn.
pub open spec fn dce_stmt(s: StmtV) -> Seq<StmtV>
    decreases stmt_size(s), 0int, 0int,
{
    match s {
        StmtV::If { condition, then_branch, else_branch } => match condition {
            ExprV::Literal(ValueV::Bool(true)) => dce_block(then_branch, 0),
            ExprV::Literal(ValueV::Bool(false)) => match else_branch {
                Some(b) => dce_block(b, 0),
                None => Seq::empty(),
            },
            _ => seq![
                StmtV::If {
                    condition,
                    then_branch: dce_block(then_branch, 0),
                    else_branch: match else_branch {
                        Some(b) => Some(dce_block(b, 0)),
                        None => None,
                    },
                },
            ],
        },
        StmtV::While { condition, body } => match condition {
            ExprV::Literal(ValueV::Bool(false)) => Seq::empty(),
            _ => seq![StmtV::While { condition, body: dce_block(body, 0) }],
        },
        StmtV::Function { name, params, body, captures } => seq![
            StmtV::Function { name, params, body: dce_block(body, 0), captures },
        ],
        StmtV::For { initializer, condition, step, body } => seq![
            StmtV::For {
                initializer: Box::new(dce_stmt(*initializer)[0]),
                condition,
                step: Box::new(dce_stmt(*step)[0]),
                body: dce_block(body, 0),
            },
        ],
        _ => seq![s],
    }
}

/// The pass can finish on the block from `i` on: every `for` loop it
/// reaches keeps a statement in place of its initializer and of its step.
pub open spec fn dce_total_block(b: Seq<StmtV>, i: int) -> bool
    decreases stmts_size(b), 1int, b.len() - i,
{
    if !(0 <= i < b.len()) {
        true
    } else {
        proof {
            lemma_stmts_size_elem(b, i);
        }
        dce_total_stmt(b[i]) && (stops_flow(b[i]) || dce_total_block(b, i + 1))
    }
}

/// The pass can finish on one statement (see `dce_total_block`).
pub open spec fn dce_total_stmt(s: StmtV) -> bool
    decreases stmt_size(s), 0int, 0int,
{
    match s {
        StmtV::If { condition, then_branch, else_branch } => match condition {
            ExprV::Literal(ValueV::Bool(true)) => dce_total_block(then_branch, 0),
            _ => (condition == ExprV::Literal(ValueV::Bool(false)) || dce_total_block(then_branch, 0))
                && match else_branch {
                Some(b) => dce_total_block(b, 0),
                None => true,
            },
        },
        StmtV::While { condition, body } => condition == ExprV::Literal(ValueV::Bool(false))
            || dce_total_block(body, 0),
        StmtV::Function { body, .. } => dce_total_block(body, 0),
        StmtV::For { initializer, step, body, .. } => dce_total_stmt(*initializer)
            && dce_total_stmt(*step) && dce_stmt(*initializer).len() > 0 && dce_stmt(*step).len() > 0
            && dce_total_block(body, 0),
        _ => true,
    }
}

/// No `if` on a boolean literal and no `while false` is left in the
/// statement, at any depth.
pub open spec fn settled(s: StmtV) -> bool
    decreases s,
{
    match s {
        StmtV::If { condition, then_branch, else_branch } => !(condition matches ExprV::Literal(
            ValueV::Bool(_),
        )) && (forall|k: int| 0 <= k < then_branch.len() ==> settled(#[trigger] then_branch[k]))
            && match else_branch {
            Some(b) => forall|k: int| 0 <= k < b.len() ==> settled(#[trigger] b[k]),
            None => true,
        },
        StmtV::While { condition, body } => condition != ExprV::Literal(ValueV::Bool(false)) && (
        forall|k: int| 0 <= k < body.len() ==> settled(#[trigger] body[k])),
        StmtV::Function { body, .. } => forall|k: int| 0 <= k < body.len() ==> settled(#[trigger] body[k]),
        StmtV::For { initializer, step, body, .. } => settled(*initializer) && settled(*step) && (
        forall|k: int| 0 <= k < body.len() ==> settled(#[trigger] body[k])),
        _ => true,
    }
}

/// Every statement of the block is settled.
pub open spec fn settled_all(b: Seq<StmtV>) -> bool {
    forall|k: int| 0 <= k < b.len() ==> settled(#[trigger] b[k])
}

proof fn lemma_settled_concat(x: Seq<StmtV>, y: Seq<StmtV>)
    requires
        settled_all(x),
        settled_all(y),
    ensures
        settled_all(x + y),
{
    assert forall|k: int| 0 <= k < (x + y).len() implies settled(#[trigger] (x + y)[k]) by {
        if k < x.len() {
            assert((x + y)[k] == x[k]);
        } else {
            assert((x + y)[k] == y[k - x.len()]);
        }
    }
}

proof fn lemma_settled_block(b: Seq<StmtV>, i: int)
    requires
        dce_total_block(b, i),
    ensures
        settled_all(dce_block(b, i)),
    decreases stmts_size(b), 1int, b.len() - i,
{
    if 0 <= i < b.len() {
        lemma_stmts_size_elem(b, i);
        lemma_settled_stmt(b[i]);
        if !stops_flow(b[i]) {
            lemma_settled_block(b, i + 1);
            lemma_settled_concat(dce_stmt(b[i]), dce_block(b, i + 1));
        }
    }
}

proof fn lemma_settled_stmt(s: StmtV)
    requires
        dce_total_stmt(s),
    ensures
        settled_all(dce_stmt(s)),
    decreases stmt_size(s), 0int, 0int,
{
    match s {
        StmtV::If { condition, then_branch, else_branch } => {
            if condition != ExprV::Literal(ValueV::Bool(false)) {
                lemma_settled_block(then_branch, 0);
            }
            match else_branch {
                Some(b) => {
                    if condition != ExprV::Literal(ValueV::Bool(true)) {
                        lemma_settled_block(b, 0);
                    }
                },
                None => {},
            }
        },
        StmtV::While { condition, body } => {
            if condition != ExprV::Literal(ValueV::Bool(false)) {
                lemma_settled_block(body, 0);
            }
        },
        StmtV::Function { body, .. } => {
            lemma_settled_block(body, 0);
        },
        StmtV::For { initializer, step, body, .. } => {
            lemma_settled_stmt(*initializer);
            lemma_settled_stmt(*step);
            lemma_settled_block(body, 0);
        },
        _ => {},
    }
}

/// Once the pass has run, no `if` on a boolean literal and no loop whose
/// condition is the literal `false` is left, at any depth.
pub proof fn law_dce_leaves_no_constant_branch(b: Seq<StmtV>)
    requires
        dce_total_block(b, 0),
    ensures
        settled_all(dce_block(b, 0)),
{
    lemma_settled_block(b, 0);
}

pub struct DeadCodeEliminator;

impl DeadCodeEliminator {
    pub fn new() -> (r: Self) {
        DeadCodeEliminator
    }

    fn is_terminator(&self, stmt: &Stmt) -> (r: bool)
        ensures
            r == stops_flow(stmt@),
    {
        match stmt {
            Stmt::Return(_) | Stmt::Break | Stmt::Continue => true,
            _ => false,
        }
    }

    /// Removes the code of `ast` that can never run.
    pub fn eliminate(&mut self, ast: Vec<Stmt>) -> (r: Vec<Stmt>)
        requires
            dce_total_block(stmts_view(ast@), 0),
        ensures
            stmts_view(r@) == dce_block(stmts_view(ast@), 0),
    {
        self.eliminate_from(&ast, 0)
    }

    fn eliminate_from(&self, b: &Vec<Stmt>, i: usize) -> (r: Vec<Stmt>)
        requires
            dce_total_block(stmts_view(b@), i as int),
        ensures
            stmts_view(r@) == dce_block(stmts_view(b@), i as int),
        decreases stmts_size(stmts_view(b@)), 1int, b@.len() - i,
    {
        if i >= b.len() {
            return Vec::new();
        }
        proof {
            lemma_stmts_size_elem(stmts_view(b@), i as int);
        }
        let mut head = self.eliminate_stmt(&b[i]);
        if self.is_terminator(&b[i]) {
            return head;
        }
        let mut tail = self.eliminate_from(b, i + 1);
        let ghost h = head@;
        let ghost t = tail@;
        head.append(&mut tail);
        proof {
            assert(stmts_view(h + t) =~= stmts_view(h) + stmts_view(t));
        }
        head
    }

    fn eliminate_stmt(&self, s: &Stmt) -> (r: Vec<Stmt>)
        requires
            dce_total_stmt(s@),
        ensures
            stmts_view(r@) == dce_stmt(s@),
        decreases stmt_size(s@), 1int, 0int,
    {
        proof {
            lemma_stmt_view_bodies(s);
        }
        match s {
            Stmt::If { .. } => self.eliminate_if(s),
            Stmt::While { condition, body } => {
                if condition.is_bool_literal(false) {
                    return Vec::new();
                }
                let kept = Stmt::While { condition: condition.duplicate(), body: self.eliminate_from(body, 0) };
                proof {
                    lemma_stmt_view_bodies(&kept);
                }
                single(kept)
            },
            Stmt::Function { name, params, body, captures } => {
                let kept = Stmt::Function {
                    name: copy_string(name),
                    params: copy_strings(params),
                    body: self.eliminate_from(body, 0),
                    captures: copy_strings(captures),
                };
                proof {
                    lemma_stmt_view_bodies(&kept);
                }
                single(kept)
            },
            Stmt::For { initializer, condition, step, body } => {
                let mut first = self.eliminate_stmt(initializer);
                let mut next = self.eliminate_stmt(step);
                proof {
                    assert(stmts_view(first@)[0] == first@[0]@);
                    assert(stmts_view(next@)[0] == next@[0]@);
                }
                let init = first.remove(0);
                let st = next.remove(0);
                let kept = Stmt::For {
                    initializer: Box::new(init),
                    condition: condition.duplicate(),
                    step: Box::new(st),
                    body: self.eliminate_from(body, 0),
                };
                proof {
                    lemma_stmt_view_bodies(&kept);
                }
                single(kept)
            },
            _ => single(s.duplicate()),
        }
    }

    fn eliminate_if(&self, s: &Stmt) -> (r: Vec<Stmt>)
        requires
            s@ is If,
            dce_total_stmt(s@),
        ensures
            stmts_view(r@) == dce_stmt(s@),
        decreases stmt_size(s@), 0int, 0int,
    {
        proof {
            lemma_stmt_view_bodies(s);
        }
        match s {
            Stmt::If { condition, then_branch, else_branch } => {
                if condition.is_bool_literal(true) {
                    return self.eliminate_from(then_branch, 0);
                }
                if condition.is_bool_literal(false) {
                    return match else_branch {
                        Some(b) => self.eliminate_from(b, 0),
                        None => Vec::new(),
                    };
                }
                let other = match else_branch {
                    Some(b) => Some(self.eliminate_from(b, 0)),
                    None => None,
                };
                let kept = Stmt::If {
                    condition: condition.duplicate(),
                    then_branch: self.eliminate_from(then_branch, 0),
                    else_branch: other,
                };
                proof {
                    lemma_stmt_view_bodies(&kept);
                }
                single(kept)
            },
            _ => Vec::new(),
        }
    }
}

fn single(s: Stmt) -> (r: Vec<Stmt>)
    ensures
        stmts_view(r@) == seq![s@],
{
    let mut v = Vec::new();
    v.push(s);
    proof {
        assert(stmts_view(v@) =~= seq![s@]);
    }
    v
}

} // verus!
