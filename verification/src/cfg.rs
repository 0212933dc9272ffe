//! Control-flow graphs: basic blocks joined by terminators, built from the
//! statements of a function.
use vstd::prelude::*;
use std::collections::HashSet;
use crate::expr::{Expr, ExprV};
use crate::stmt::{Stmt, StmtV, stmt_size, stmts_size, stmts_view, lemma_stmt_view_bodies, lemma_stmts_size_elem};
use crate::text::{copy_string, copy_strings};
use crate::value::{Value, ValueV};
use crate::lowering::{
    BuildV, GraphV, NestedV, TermV, add_block, add_nested, at, block_view, blocks_view, close, emit, graph_view,
    is_open, lower_body, lower_function, lower_if, lower_loop, lower_stmt, term_view, nested_place, empty_block,
};
use crate::text::strings_view;

verus! {

pub type BlockId = usize;

#[derive(Debug)]
pub enum Terminator {
    Goto(BlockId),
    Branch { cond: Expr, then_block: BlockId, else_block: BlockId },
    Return(Option<Expr>),
}

#[derive(Debug)]
pub struct BasicBlock {
    pub id: BlockId,
    pub stmts: Vec<Stmt>,
    pub terminator: Option<Terminator>,
}

/// The blocks a terminator can pass control to.
pub open spec fn term_targets(t: Option<Terminator>) -> Seq<BlockId> {
    match t {
        Some(Terminator::Goto(x)) => seq![x],
        Some(Terminator::Branch { then_block, else_block, .. }) => seq![then_block, else_block],
        _ => Seq::empty(),
    }
}

/// Every block a terminator can pass control to is one of the first `n`.
pub open spec fn targets_below(t: Option<Terminator>, n: int) -> bool {
    forall|k: int| 0 <= k < term_targets(t).len() ==> term_targets(t)[k] < n
}

impl BasicBlock {
    /// The blocks this block can pass control to.
    pub fn successors(&self) -> (r: Vec<BlockId>)
        ensures
            r@ == term_targets(self.terminator),
    {
        match &self.terminator {
            Some(Terminator::Goto(t)) => {
                let v = vec![*t];
                assert(v@ =~= seq![*t]);
                v
            },
            Some(Terminator::Branch { then_block, else_block, .. }) => {
                let v = vec![*then_block, *else_block];
                assert(v@ =~= seq![*then_block, *else_block]);
                v
            },
            _ => {
                let v: Vec<BlockId> = Vec::new();
                assert(v@ =~= Seq::<BlockId>::empty());
                v
            },
        }
    }
}

/// Blocks numbered by their place, each ending in a terminator whose
/// targets name blocks of the list.
pub open spec fn blocks_wf(bs: Seq<BasicBlock>) -> bool {
    forall|i: int|
        0 <= i < bs.len() ==> (#[trigger] bs[i]).id == i && bs[i].terminator is Some && targets_below(
            bs[i].terminator,
            bs.len() as int,
        )
}

/// A function body compiled to a control-flow graph.
#[derive(Debug)]
pub struct FunctionCFG {
    pub name: String,
    pub params: Vec<String>,
    pub captures: Vec<String>,
    pub entry: BlockId,
    pub exit: BlockId,
    pub blocks: Vec<BasicBlock>,
    pub nested_functions: Vec<NestedFunction>,
}

/// A function declared inside another, with its own graph.
#[derive(Debug)]
pub struct NestedFunction {
    pub name: String,
    pub cfg: FunctionCFG,
}

/// The name of the variable that holds what a function returns.
pub open spec fn ret_name() -> Seq<char> {
    "__ret"@
}

impl FunctionCFG {
    /// A graph as the builder leaves it: the entry is block 0, the exit is
    /// block 1 and returns `__ret`, every block is numbered by its place and
    /// ends in a terminator that names blocks of the graph, and so does every
    /// nested function's graph.
    pub open spec fn wf(&self) -> bool
        decreases self,
    {
        &&& self.blocks@.len() >= 2
        &&& self.entry == 0
        &&& self.exit == 1
        &&& blocks_wf(self.blocks@)
        &&& (match self.blocks@[1].terminator {
            Some(Terminator::Return(Some(Expr::Var(n)))) => n@ == ret_name(),
            _ => false,
        })
        &&& forall|k: int|
            0 <= k < self.nested_functions@.len() ==> (#[trigger] self.nested_functions@[k]).cfg.wf()
    }
}


/// No `break` or `continue` stands outside a loop of its own function.
pub open spec fn jumps_in_loops(s: StmtV, in_loop: bool) -> bool
    decreases stmt_size(s), 0int, 0int,
{
    match s {
        StmtV::Break | StmtV::Continue => in_loop,
        StmtV::For { body, .. } => all_jumps_in_loops(body, true, 0),
        StmtV::While { body, .. } => all_jumps_in_loops(body, true, 0),
        StmtV::If { then_branch, else_branch, .. } => all_jumps_in_loops(then_branch, in_loop, 0)
            && match else_branch {
            Some(b) => all_jumps_in_loops(b, in_loop, 0),
            None => true,
        },
        StmtV::Function { body, .. } => all_jumps_in_loops(body, false, 0),
        _ => true,
    }
}

pub open spec fn all_jumps_in_loops(b: Seq<StmtV>, in_loop: bool, i: int) -> bool
    decreases stmts_size(b), 1int, b.len() - i,
{
    if !(0 <= i < b.len()) {
        true
    } else {
        proof {
            lemma_stmts_size_elem(b, i);
        }
        jumps_in_loops(b[i], in_loop) && all_jumps_in_loops(b, in_loop, i + 1)
    }
}

pub proof fn lemma_all_jumps_elem(b: Seq<StmtV>, in_loop: bool, i: int, k: int)
    requires
        0 <= i <= k < b.len(),
        all_jumps_in_loops(b, in_loop, i),
    ensures
        jumps_in_loops(b[k], in_loop),
        all_jumps_in_loops(b, in_loop, k + 1),
    decreases k - i,
{
    if i < k {
        lemma_all_jumps_elem(b, in_loop, i + 1, k);
    }
}

/// The pictures of nested functions.
pub open spec fn nested_view(ns: Seq<NestedFunction>) -> Seq<NestedV> {
    Seq::new(ns.len(), |k: int| NestedV { name: ns[k].name@, graph: graph_view(ns[k].cfg) })
}

proof fn lemma_nested_place_skip(ns: Seq<NestedV>, name: Seq<char>, i: int)
    requires
        0 <= i < ns.len(),
        ns[i].name != name,
    ensures
        nested_place(ns, name, i) == nested_place(ns, name, i + 1),
{
}

/// Builds the graph of one function.
pub struct CFGBuilder {
    entry: BlockId,
    blocks: Vec<BasicBlock>,
    curr_block: BlockId,
    exit_block: BlockId,
    break_stack: Vec<BlockId>,
    continue_stack: Vec<BlockId>,
    nested_functions: Vec<NestedFunction>,
}

impl CFGBuilder {
    /// The builder's invariant while it visits statements: blocks are
    /// numbered by their place and jump only to blocks that exist, the
    /// current block and the exit are open and distinct, and the loop
    /// targets and nested graphs are sound.
    pub closed spec fn inv(&self) -> bool {
        let n = self.blocks@.len() as int;
        &&& forall|i: int|
            0 <= i < n ==> (#[trigger] self.blocks@[i]).id == i && targets_below(
                self.blocks@[i].terminator,
                n,
            )
        &&& self.entry < n
        &&& self.curr_block < n
        &&& self.exit_block < n
        &&& self.curr_block != self.exit_block
        &&& self.blocks@[self.exit_block as int].terminator is None
        &&& forall|k: int| 0 <= k < self.break_stack@.len() ==> #[trigger] self.break_stack@[k] < n
        &&& forall|k: int| 0 <= k < self.continue_stack@.len() ==> #[trigger] self.continue_stack@[k] < n
        &&& forall|k: int|
            0 <= k < self.nested_functions@.len() ==> (#[trigger] self.nested_functions@[k]).cfg.wf()
    }

    /// How a visit relates the builder before and after it: blocks only
    /// grow, blocks that existed keep their ids and, but for the block that
    /// was current, their terminators; new blocks other than the current one
    /// are closed, and so is the old current block once it is left.
    pub closed spec fn grows(&self, before: &Self) -> bool {
        let n0 = before.blocks@.len() as int;
        let n1 = self.blocks@.len() as int;
        &&& n0 <= n1
        &&& self.entry == before.entry
        &&& self.exit_block == before.exit_block
        &&& self.break_stack@ == before.break_stack@
        &&& self.continue_stack@ == before.continue_stack@
        &&& forall|i: int|
            0 <= i < n0 && i != before.curr_block ==> (#[trigger] self.blocks@[i]).terminator
                == before.blocks@[i].terminator
        &&& forall|i: int|
            n0 <= i < n1 && i != self.curr_block ==> (#[trigger] self.blocks@[i]).terminator is Some
        &&& (self.curr_block != before.curr_block ==> self.blocks@[before.curr_block as int].terminator is Some)
        &&& (self.curr_block == before.curr_block || n0 <= self.curr_block)
    }

    /// A builder that has built nothing yet.
    pub closed spec fn fresh(&self) -> bool {
        &&& self.blocks@.len() == 0
        &&& self.break_stack@.len() == 0
        &&& self.continue_stack@.len() == 0
        &&& self.nested_functions@.len() == 0
    }

    /// The picture of the builder's state.
    pub closed spec fn model(&self) -> BuildV {
        BuildV {
            blocks: blocks_view(self.blocks@),
            curr: self.curr_block as int,
            exit: self.exit_block as int,
            brk: Seq::new(self.break_stack@.len(), |k: int| self.break_stack@[k] as int),
            cont: Seq::new(self.continue_stack@.len(), |k: int| self.continue_stack@[k] as int),
            nested: nested_view(self.nested_functions@),
        }
    }

    /// A builder with no blocks yet.
    pub fn new() -> (r: Self)
        ensures
            r.fresh(),
    {
        CFGBuilder {
            entry: 0,
            blocks: Vec::new(),
            curr_block: 0,
            exit_block: 0,
            break_stack: Vec::new(),
            continue_stack: Vec::new(),
            nested_functions: Vec::new(),
        }
    }

    fn new_block(&mut self) -> (id: BlockId)
        requires
            forall|i: int|
                0 <= i < old(self).blocks@.len() ==> (#[trigger] old(self).blocks@[i]).id == i
                    && targets_below(old(self).blocks@[i].terminator, old(self).blocks@.len() as int),
        ensures
            id == old(self).blocks@.len(),
            final(self).blocks@ == old(self).blocks@.push(
                BasicBlock { id, stmts: final(self).blocks@[id as int].stmts, terminator: None },
            ),
            final(self).blocks@[id as int].stmts@.len() == 0,
            final(self).model() == add_block(old(self).model()),
            final(self).entry == old(self).entry,
            final(self).curr_block == old(self).curr_block,
            final(self).exit_block == old(self).exit_block,
            final(self).break_stack == old(self).break_stack,
            final(self).continue_stack == old(self).continue_stack,
            final(self).nested_functions == old(self).nested_functions,
            forall|i: int|
                0 <= i < final(self).blocks@.len() ==> (#[trigger] final(self).blocks@[i]).id == i
                    && targets_below(final(self).blocks@[i].terminator, final(self).blocks@.len() as int),
    {
        let id = self.blocks.len();
        self.blocks.push(BasicBlock { id, stmts: Vec::new(), terminator: None });
        proof {
            assert(stmts_view(self.blocks@[id as int].stmts@) =~= Seq::<StmtV>::empty());
            assert(blocks_view(self.blocks@) =~= blocks_view(old(self).blocks@).push(empty_block()));
            assert(self.model().brk =~= old(self).model().brk);
            assert(self.model().cont =~= old(self).model().cont);
            assert forall|i: int| 0 <= i < self.blocks@.len() implies (#[trigger] self.blocks@[i]).id == i
                && targets_below(self.blocks@[i].terminator, self.blocks@.len() as int) by {
                if i < id {
                    assert(self.blocks@[i] == old(self).blocks@[i]);
                }
            }
        }
        id
    }

    fn emit_stmt(&mut self, stmt: Stmt)
        requires
            old(self).inv(),
        ensures
            final(self).inv(),
            final(self).blocks@.len() == old(self).blocks@.len(),
            final(self).curr_block == old(self).curr_block,
            final(self).grows(old(self)),
            final(self).blocks@[final(self).curr_block as int].terminator == old(self).blocks@[old(self).curr_block as int].terminator,
            final(self).nested_functions == old(self).nested_functions,
            final(self).model() == emit(old(self).model(), stmt@),
    {
        let ghost sv = stmt@;
        let c = self.curr_block;
        self.blocks[c].stmts.push(stmt);
        proof {
            assert(stmts_view(self.blocks@[c as int].stmts@) =~= stmts_view(old(self).blocks@[c as int].stmts@).push(sv));
            assert(blocks_view(self.blocks@) =~= emit(old(self).model(), sv).blocks);
            assert(self.model().brk =~= old(self).model().brk);
            assert(self.model().cont =~= old(self).model().cont);
        }
    }

    fn end_block(&mut self, terminator: Terminator)
        requires
            old(self).inv(),
            targets_below(Some(terminator), old(self).blocks@.len() as int),
        ensures
            final(self).blocks@.len() == old(self).blocks@.len(),
            final(self).curr_block == old(self).curr_block,
            final(self).entry == old(self).entry,
            final(self).exit_block == old(self).exit_block,
            final(self).break_stack == old(self).break_stack,
            final(self).continue_stack == old(self).continue_stack,
            final(self).nested_functions == old(self).nested_functions,
            final(self).blocks@[old(self).curr_block as int].terminator == Some(terminator),
            final(self).blocks@[old(self).curr_block as int].id == old(self).blocks@[old(self).curr_block as int].id,
            forall|i: int|
                0 <= i < old(self).blocks@.len() && i != old(self).curr_block ==> #[trigger] final(self).blocks@[i]
                    == old(self).blocks@[i],
            final(self).model() == close(old(self).model(), term_view(Some(terminator))->0),
    {
        let ghost tv = term_view(Some(terminator))->0;
        let c = self.curr_block;
        self.blocks[c].terminator = Some(terminator);
        proof {
            assert(blocks_view(self.blocks@) =~= close(old(self).model(), tv).blocks);
            assert(self.model().brk =~= old(self).model().brk);
            assert(self.model().cont =~= old(self).model().cont);
        }
    }

    fn is_current_block_open(&self) -> (r: bool)
        requires
            self.inv(),
        ensures
            r == (self.blocks@[self.curr_block as int].terminator is None),
    {
        self.blocks[self.curr_block].terminator.is_none()
    }

    proof fn lemma_grows_refl(&self)
        ensures
            self.grows(self),
    {
    }

    proof fn lemma_grows_trans(s0: &Self, s1: &Self, s2: &Self)
        requires
            s0.curr_block < s0.blocks@.len(),
            s1.grows(s0),
            s2.grows(s1),
        ensures
            s2.grows(s0),
    {
        let n0 = s0.blocks@.len() as int;
        let n1 = s1.blocks@.len() as int;
        let n2 = s2.blocks@.len() as int;
        assert forall|i: int| 0 <= i < n0 && i != s0.curr_block implies (#[trigger] s2.blocks@[i]).terminator
            == s0.blocks@[i].terminator by {
            assert(s1.blocks@[i].terminator == s0.blocks@[i].terminator);
            if s1.curr_block != s0.curr_block {
                assert(i != s1.curr_block);
            }
            assert(s2.blocks@[i].terminator == s1.blocks@[i].terminator);
        }
        assert forall|i: int| n0 <= i < n2 && i != s2.curr_block implies (#[trigger] s2.blocks@[i]).terminator is Some by {
            if i < n1 {
                if i == s1.curr_block {
                    assert(s2.blocks@[s1.curr_block as int].terminator is Some);
                } else {
                    assert(s1.blocks@[i].terminator is Some);
                    assert(s2.blocks@[i].terminator == s1.blocks@[i].terminator);
                }
            }
        }
        if s2.curr_block != s0.curr_block {
            if s1.curr_block == s0.curr_block {
                assert(s2.blocks@[s0.curr_block as int].terminator is Some);
            } else {
                assert(s1.blocks@[s0.curr_block as int].terminator is Some);
                assert(s2.blocks@[s0.curr_block as int].terminator == s1.blocks@[s0.curr_block as int].terminator);
            }
        }
    }

    fn visit_body(&mut self, b: &Vec<Stmt>, i: usize)
        requires
            old(self).inv(),
            old(self).break_stack@.len() == old(self).continue_stack@.len(),
            all_jumps_in_loops(stmts_view(b@), old(self).break_stack@.len() > 0, i as int),
        ensures
            final(self).inv(),
            final(self).grows(old(self)),
            final(self).model() == lower_body(old(self).model(), stmts_view(b@), i as int),
        decreases stmts_size(stmts_view(b@)), 3int, b@.len() - i,
    {
        if i >= b.len() {
            proof {
                self.lemma_grows_refl();
            }
            return;
        }
        proof {
            lemma_stmts_size_elem(stmts_view(b@), i as int);
            lemma_all_jumps_elem(stmts_view(b@), old(self).break_stack@.len() > 0, i as int, i as int);
        }
        let ghost s0 = *self;
        self.visit_stmt(&b[i]);
        let ghost s1 = *self;
        self.visit_body(b, i + 1);
        proof {
            Self::lemma_grows_trans(&s0, &s1, self);
        }
    }

    fn visit_stmt(&mut self, s: &Stmt)
        requires
            old(self).inv(),
            old(self).break_stack@.len() == old(self).continue_stack@.len(),
            jumps_in_loops(s@, old(self).break_stack@.len() > 0),
        ensures
            final(self).inv(),
            final(self).grows(old(self)),
            final(self).model() == lower_stmt(old(self).model(), s@),
        decreases stmt_size(s@), 2int, 0int,
    {
        proof {
            self.lemma_grows_refl();
            lemma_stmt_view_bodies(s);
        }
        if !self.is_current_block_open() {
            return;
        }
        match s {
            Stmt::Break => {
                let target = self.break_stack[self.break_stack.len() - 1];
                self.end_block(Terminator::Goto(target));
            },
            Stmt::Continue => {
                let target = self.continue_stack[self.continue_stack.len() - 1];
                self.end_block(Terminator::Goto(target));
            },
            Stmt::For { initializer, condition, step, body } => {
                self.emit_stmt(initializer.duplicate());
                self.visit_loop(condition, body, Some(&**step));
            },
            Stmt::While { condition, body } => {
                self.visit_loop(condition, body, None);
            },
            Stmt::Function { .. } => {
                self.visit_function(s);
            },
            Stmt::If { condition, then_branch, else_branch } => {
                self.visit_if(condition, then_branch, else_branch);
            },
            Stmt::Return(_) => {
                self.visit_return(s);
            },
            _ => {
                self.emit_stmt(s.duplicate());
            },
        }
    }

    /// A nested function: its own graph is recorded, and its declaration,
    /// with an empty body, stays in the current block.
    fn visit_function(&mut self, s: &Stmt)
        requires
            old(self).inv(),
            s@ is Function,
            jumps_in_loops(s@, old(self).break_stack@.len() > 0),
        ensures
            final(self).inv(),
            final(self).grows(old(self)),
            final(self).curr_block == old(self).curr_block,
            final(self).blocks@.len() == old(self).blocks@.len(),
            final(self).model() == emit(
                BuildV {
                    nested: add_nested(
                        old(self).model().nested,
                        s@->Function_name,
                        lower_function(s@->Function_name, s@->Function_params, s@->Function_captures, s@->Function_body),
                    ),
                    ..old(self).model()
                },
                StmtV::Function {
                    name: s@->Function_name,
                    params: s@->Function_params,
                    body: Seq::empty(),
                    captures: s@->Function_captures,
                },
            ),
        decreases stmt_size(s@), 1int, 1int,
    {
        proof {
            lemma_stmt_view_bodies(s);
        }
        match s {
            Stmt::Function { name, params, body, captures } => {
                let ghost s0 = *self;
                let fb = CFGBuilder::new();
                let f = fb.build_function(copy_string(name), copy_strings(params), copy_strings(captures), body);
                self.insert_nested(copy_string(name), f);
                let ghost s1 = *self;
                let empty: Vec<Stmt> = Vec::new();
                let decl = Stmt::Function {
                    name: copy_string(name),
                    params: copy_strings(params),
                    body: empty,
                    captures: copy_strings(captures),
                };
                proof {
                    lemma_stmt_view_bodies(&decl);
                    assert(decl@->Function_body =~= Seq::<StmtV>::empty());
                }
                self.emit_stmt(decl);
                proof {
                    Self::lemma_grows_trans(&s0, &s1, self);
                }
            },
            _ => {},
        }
    }

    /// `return`: `__ret` takes the value, and the block jumps to the exit.
    fn visit_return(&mut self, s: &Stmt)
        requires
            old(self).inv(),
            s@ is Return,
            old(self).blocks@[old(self).curr_block as int].terminator is None,
        ensures
            final(self).inv(),
            final(self).grows(old(self)),
            final(self).model() == lower_stmt(old(self).model(), s@),
    {
        match s {
            Stmt::Return(value) => {
                let ghost s0 = *self;
                let v = match value {
                    Some(e) => e.duplicate(),
                    None => Expr::Literal(Value::Null),
                };
                self.emit_stmt(Stmt::Assign { name: "__ret".to_owned(), value: Box::new(v) });
                let ghost s1 = *self;
                let exit = self.exit_block;
                self.end_block(Terminator::Goto(exit));
                proof {
                    s1.lemma_grows_refl();
                    assert(self.grows(&s1));
                    Self::lemma_grows_trans(&s0, &s1, self);
                }
            },
            _ => {},
        }
    }

    fn visit_loop(&mut self, condition: &Expr, body: &Vec<Stmt>, step: Option<&Stmt>)
        requires
            old(self).inv(),
            old(self).break_stack@.len() == old(self).continue_stack@.len(),
            old(self).blocks@[old(self).curr_block as int].terminator is None,
            all_jumps_in_loops(stmts_view(body@), true, 0),
        ensures
            final(self).inv(),
            final(self).grows(old(self)),
            final(self).model() == lower_loop(
                old(self).model(),
                condition@,
                stmts_view(body@),
                match step {
                    Some(st) => Some(st@),
                    None => None,
                },
            ),
        decreases stmts_size(stmts_view(body@)) + 1, 1int, 0int,
    {
        let ghost s0 = *self;
        let ghost m0 = self.model();
        let ghost cv = condition@;
        let cond_bb = self.new_block();
        let body_bb = self.new_block();
        let exit_bb = self.new_block();
        let ghost ma = add_block(add_block(add_block(m0)));
        assert(self.model() == ma);
        self.end_block(Terminator::Goto(cond_bb));
        self.curr_block = cond_bb;
        assert(self.model() == at(close(ma, TermV::Goto(cond_bb as int)), cond_bb as int));
        self.end_block(Terminator::Branch { cond: condition.duplicate(), then_block: body_bb, else_block: exit_bb });
        let ghost mb = close(at(close(ma, TermV::Goto(cond_bb as int)), cond_bb as int), TermV::Branch { cond: cv, then_block: body_bb as int, else_block: exit_bb as int });
        assert(self.model() == mb);
        self.continue_stack.push(cond_bb);
        self.break_stack.push(exit_bb);
        self.curr_block = body_bb;
        let ghost mc = at(BuildV { brk: mb.brk.push(exit_bb as int), cont: mb.cont.push(cond_bb as int), ..mb }, body_bb as int);
        proof {
            assert(self.model().brk =~= mc.brk);
            assert(self.model().cont =~= mc.cont);
            assert(self.model() == mc);
        }
        let ghost s1 = *self;
        assert(self.inv());
        self.visit_body(body, 0);
        let ghost s2 = *self;
        let ghost md = self.model();
        assert(md == lower_body(mc, stmts_view(body@), 0));
        if self.is_current_block_open() {
            match step {
                Some(st) => self.emit_stmt(st.duplicate()),
                None => {},
            }
            self.end_block(Terminator::Goto(cond_bb));
        }
        let ghost me = self.model();
        assert(self.blocks@[s2.curr_block as int].terminator is Some);
        let _ = self.continue_stack.pop();
        let _ = self.break_stack.pop();
        self.curr_block = exit_bb;
        proof {
            assert(self.model().brk =~= me.brk.drop_last());
            assert(self.model().cont =~= me.cont.drop_last());
        }
        proof {
            let n0 = s0.blocks@.len() as int;
            let n1 = s1.blocks@.len() as int;
            assert(self.break_stack@ =~= s0.break_stack@);
            assert(self.continue_stack@ =~= s0.continue_stack@);
            assert forall|i: int| 0 <= i < n0 && i != s0.curr_block implies (#[trigger] self.blocks@[i]).terminator
                == s0.blocks@[i].terminator by {
                assert(s1.blocks@[i].terminator == s0.blocks@[i].terminator);
                assert(s2.blocks@[i].terminator == s1.blocks@[i].terminator);
            }
            assert forall|i: int| n0 <= i < self.blocks@.len() && i != self.curr_block implies (#[trigger] self.blocks@[i]).terminator is Some by {
                if i == s2.curr_block {
                } else if i < n1 {
                    if i == body_bb {
                        assert(s2.blocks@[i].terminator is Some);
                    } else {
                        assert(s2.blocks@[i].terminator == s1.blocks@[i].terminator);
                    }
                } else {
                    assert(s2.blocks@[i].terminator is Some);
                }
            }
            assert(s2.blocks@[s0.curr_block as int].terminator == s1.blocks@[s0.curr_block as int].terminator);
        }
    }

    fn visit_if(&mut self, condition: &Expr, then_branch: &Vec<Stmt>, else_branch: &Option<Vec<Stmt>>)
        requires
            old(self).inv(),
            old(self).break_stack@.len() == old(self).continue_stack@.len(),
            old(self).blocks@[old(self).curr_block as int].terminator is None,
            all_jumps_in_loops(stmts_view(then_branch@), old(self).break_stack@.len() > 0, 0),
            else_branch matches Some(b) ==> all_jumps_in_loops(stmts_view(b@), old(self).break_stack@.len() > 0, 0),
        ensures
            final(self).inv(),
            final(self).grows(old(self)),
            final(self).model() == lower_if(
                old(self).model(),
                condition@,
                stmts_view(then_branch@),
                match else_branch {
                    Some(b) => Some(stmts_view(b@)),
                    None => None,
                },
            ),
        decreases stmts_size(stmts_view(then_branch@)) + match else_branch {
            Some(b) => stmts_size(stmts_view(b@)),
            None => 0,
        } + 1, 1int, 0int,
    {
        let ghost s0 = *self;
        let then_bb = self.new_block();
        let join_bb = self.new_block();
        let else_bb = if else_branch.is_some() {
            self.new_block()
        } else {
            join_bb
        };
        self.end_block(Terminator::Branch { cond: condition.duplicate(), then_block: then_bb, else_block: else_bb });
        self.curr_block = then_bb;
        let ghost s1 = *self;
        assert(self.inv());
        self.visit_body(then_branch, 0);
        let ghost s2 = *self;
        if self.is_current_block_open() {
            self.end_block(Terminator::Goto(join_bb));
        }
        assert(self.blocks@[s2.curr_block as int].terminator is Some);
        let ghost s3 = *self;
        match else_branch {
            Some(b) => {
                self.curr_block = else_bb;
                let ghost s4 = *self;
                assert(self.inv());
                self.visit_body(b, 0);
                let ghost s5 = *self;
                if self.is_current_block_open() {
                    self.end_block(Terminator::Goto(join_bb));
                }
                assert(self.blocks@[s5.curr_block as int].terminator is Some);
                proof {
                    let n0 = s0.blocks@.len() as int;
                    let n1 = s1.blocks@.len() as int;
                    let n3 = s3.blocks@.len() as int;
                    assert forall|i: int| 0 <= i < n0 && i != s0.curr_block implies (#[trigger] self.blocks@[i]).terminator
                        == s0.blocks@[i].terminator by {
                        assert(s1.blocks@[i].terminator == s0.blocks@[i].terminator);
                        assert(s2.blocks@[i].terminator == s1.blocks@[i].terminator);
                        assert(s3.blocks@[i].terminator == s2.blocks@[i].terminator);
                        assert(s5.blocks@[i].terminator == s4.blocks@[i].terminator);
                    }
                    assert(s3.blocks@[then_bb as int].terminator is Some);
                    assert forall|i: int| n0 <= i < n3 && i != join_bb && i != else_bb implies (#[trigger] s3.blocks@[i]).terminator is Some by {
                        if i == s2.curr_block {
                        } else if i < n1 {
                            if i == then_bb {
                            } else {
                                assert(s2.blocks@[i].terminator == s1.blocks@[i].terminator);
                            }
                        } else {
                            assert(s2.blocks@[i].terminator is Some);
                        }
                    }
                    assert forall|i: int| n0 <= i < self.blocks@.len() && i != join_bb implies (#[trigger] self.blocks@[i]).terminator is Some by {
                        if i == s5.curr_block {
                        } else if i < n3 {
                            if i == else_bb {
                                assert(s5.blocks@[i].terminator is Some);
                            } else {
                                assert(s5.blocks@[i].terminator == s4.blocks@[i].terminator);
                            }
                        } else {
                            assert(s5.blocks@[i].terminator is Some);
                        }
                    }
                    assert(s5.blocks@[s0.curr_block as int].terminator == s4.blocks@[s0.curr_block as int].terminator);
                    assert(s2.blocks@[s0.curr_block as int].terminator == s1.blocks@[s0.curr_block as int].terminator);
                }
            },
            None => {
                proof {
                    let n0 = s0.blocks@.len() as int;
                    let n1 = s1.blocks@.len() as int;
                    assert forall|i: int| 0 <= i < n0 && i != s0.curr_block implies (#[trigger] self.blocks@[i]).terminator
                        == s0.blocks@[i].terminator by {
                        assert(s1.blocks@[i].terminator == s0.blocks@[i].terminator);
                        assert(s2.blocks@[i].terminator == s1.blocks@[i].terminator);
                    }
                    assert forall|i: int| n0 <= i < self.blocks@.len() && i != join_bb implies (#[trigger] self.blocks@[i]).terminator is Some by {
                        if i == s2.curr_block {
                        } else if i < n1 {
                            if i == then_bb {
                            } else {
                                assert(s2.blocks@[i].terminator == s1.blocks@[i].terminator);
                            }
                        } else {
                            assert(s2.blocks@[i].terminator is Some);
                        }
                    }
                    assert(s2.blocks@[s0.curr_block as int].terminator == s1.blocks@[s0.curr_block as int].terminator);
                }
            },
        }
        self.curr_block = join_bb;
    }

    /// Records the graph of a nested function, replacing one of the same name.
    fn insert_nested(&mut self, name: String, cfg: FunctionCFG)
        requires
            old(self).inv(),
            cfg.wf(),
        ensures
            final(self).inv(),
            final(self).grows(old(self)),
            final(self).curr_block == old(self).curr_block,
            final(self).blocks == old(self).blocks,
            final(self).model() == (BuildV { nested: add_nested(old(self).model().nested, name@, graph_view(cfg)), ..old(self).model() }),
    {
        let mut i: usize = 0;
        while i < self.nested_functions.len()
            invariant
                self.inv(),
                self.blocks == old(self).blocks,
                self.curr_block == old(self).curr_block,
                self.entry == old(self).entry,
                self.exit_block == old(self).exit_block,
                self.break_stack == old(self).break_stack,
                self.continue_stack == old(self).continue_stack,
                self.nested_functions == old(self).nested_functions,
                cfg.wf(),
                i <= self.nested_functions@.len(),
                nested_place(nested_view(self.nested_functions@), name@, 0) == nested_place(nested_view(self.nested_functions@), name@, i as int),
            decreases self.nested_functions@.len() - i,
        {
            if crate::text::same_text(&self.nested_functions[i].name, &name) {
                let ghost before = self.nested_functions@;
                let ghost nm = name@;
                let ghost gv = graph_view(cfg);
                self.nested_functions.set(i, NestedFunction { name, cfg });
                proof {
                    assert(nested_view(self.nested_functions@) =~= nested_view(before).update(i as int, NestedV { name: nm, graph: gv }));
                    assert forall|k: int| 0 <= k < self.nested_functions@.len() implies (#[trigger] self.nested_functions@[k]).cfg.wf() by {
                        if k != i {
                            assert(self.nested_functions@[k] == before[k]);
                        }
                    }
                }
                return;
            }
            proof {
                lemma_nested_place_skip(nested_view(self.nested_functions@), name@, i as int);
            }
            i = i + 1;
        }
        let ghost before = self.nested_functions@;
        let ghost nm = name@;
        let ghost gv = graph_view(cfg);
        self.nested_functions.push(NestedFunction { name, cfg });
        proof {
            assert(nested_view(self.nested_functions@) =~= nested_view(before).push(NestedV { name: nm, graph: gv }));
            assert forall|k: int| 0 <= k < self.nested_functions@.len() implies (#[trigger] self.nested_functions@[k]).cfg.wf() by {
                if k < before.len() {
                    assert(self.nested_functions@[k] == before[k]);
                }
            }
        }
    }

    /// Builds the graph of a function with the given body. Block 0 is the
    /// entry, where `__ret` starts as null, and block 1 the exit, which
    /// returns `__ret`.
    pub fn build_function(self, name: String, params: Vec<String>, captures: Vec<String>, body: &Vec<Stmt>) -> (r: FunctionCFG)
        requires
            self.fresh(),
            all_jumps_in_loops(stmts_view(body@), false, 0),
        ensures
            r.wf(),
            graph_view(r) == lower_function(name@, strings_view(params@), strings_view(captures@), stmts_view(body@)),
        decreases stmts_size(stmts_view(body@)) + 1, 1int, 0int,
    {
        let mut b = self;
        let entry = b.new_block();
        let exit = b.new_block();
        b.entry = entry;
        b.curr_block = entry;
        b.exit_block = exit;
        assert(b.inv());
        b.emit_stmt(Stmt::Var { name: "__ret".to_owned(), initializer: Some(Expr::Literal(Value::Null)) });
        let ghost s0 = b;
        let ghost null = ExprV::Literal(ValueV::Null);
        let ghost st0 = BuildV {
            blocks: seq![
                crate::lowering::BlockV { stmts: seq![StmtV::Var { name: ret_name(), initializer: Some(null) }], term: None },
                empty_block(),
            ],
            curr: 0,
            exit: 1,
            brk: Seq::empty(),
            cont: Seq::empty(),
            nested: Seq::empty(),
        };
        proof {
            assert(b.model().blocks =~= st0.blocks);
            assert(b.model().brk =~= st0.brk);
            assert(b.model().cont =~= st0.cont);
            assert(b.model().nested =~= st0.nested);
            assert(b.model() == st0);
        }
        b.visit_body(body, 0);
        let ghost st1 = lower_body(st0, stmts_view(body@), 0);
        assert(b.model() == st1);
        if b.is_current_block_open() {
            b.emit_stmt(Stmt::Assign { name: "__ret".to_owned(), value: Box::new(Expr::Literal(Value::Null)) });
            b.end_block(Terminator::Goto(exit));
        }
        let ghost s1 = b;
        let ghost st2 = b.model();
        let ret = Expr::Var("__ret".to_owned());
        b.blocks[exit].terminator = Some(Terminator::Return(Some(ret)));
        proof {
            assert(blocks_view(b.blocks@) =~= st2.blocks.update(
                1,
                crate::lowering::BlockV { stmts: st2.blocks[1].stmts, term: Some(TermV::Return(Some(ExprV::Var(ret_name())))) },
            ));
        }
        let r = FunctionCFG {
            name,
            params,
            captures,
            entry,
            exit,
            blocks: b.blocks,
            nested_functions: b.nested_functions,
        };
        proof {
            assert(graph_view(r).nested =~= st2.nested);
            assert(graph_view(r) == lower_function(name@, strings_view(params@), strings_view(captures@), stmts_view(body@)));
            assert forall|i: int| 0 <= i < r.blocks@.len() implies (#[trigger] r.blocks@[i]).id == i
                && r.blocks@[i].terminator is Some && targets_below(r.blocks@[i].terminator, r.blocks@.len() as int) by {
                if i == 1 {
                } else if i == 0 {
                    if s1.curr_block != 0 {
                        assert(s1.blocks@[0].terminator is Some);
                    }
                } else if i == s1.curr_block {
                } else {
                    assert(s1.blocks@[i].terminator is Some);
                }
            }
        }
        r
    }
}


/// Whether no `break` or `continue` of `s` stands outside a loop of its
/// own function.
pub fn jumps_ok(s: &Stmt, in_loop: bool) -> (r: bool)
    ensures
        r == jumps_in_loops(s@, in_loop),
    decreases stmt_size(s@), 0int, 0int,
{
    proof {
        lemma_stmt_view_bodies(s);
    }
    match s {
        Stmt::Break | Stmt::Continue => in_loop,
        Stmt::For { body, .. } => all_jumps_ok(body, true, 0),
        Stmt::While { body, .. } => all_jumps_ok(body, true, 0),
        Stmt::If { then_branch, else_branch, .. } => {
            if !all_jumps_ok(then_branch, in_loop, 0) {
                return false;
            }
            match else_branch {
                Some(b) => {
                    assert(stmts_size(stmts_view(b@)) < stmt_size(s@));
                    all_jumps_ok(b, in_loop, 0)
                },
                None => true,
            }
        },
        Stmt::Function { body, .. } => all_jumps_ok(body, false, 0),
        _ => true,
    }
}

pub fn all_jumps_ok(b: &Vec<Stmt>, in_loop: bool, i: usize) -> (r: bool)
    ensures
        r == all_jumps_in_loops(stmts_view(b@), in_loop, i as int),
    decreases stmts_size(stmts_view(b@)), 1int, b@.len() - i,
{
    if i >= b.len() {
        return true;
    }
    proof {
        lemma_stmts_size_elem(stmts_view(b@), i as int);
    }
    jumps_ok(&b[i], in_loop) && all_jumps_ok(b, in_loop, i + 1)
}

impl FunctionCFG {
    /// The graph of a function with the given body.
    pub fn from_ast(name: String, body: &Vec<Stmt>) -> (r: FunctionCFG)
        requires
            all_jumps_in_loops(stmts_view(body@), false, 0),
        ensures
            r.wf(),
            graph_view(r) == lower_function(name@, Seq::empty(), Seq::empty(), stmts_view(body@)),
    {
        let builder = CFGBuilder::new();
        let empty_params: Vec<String> = Vec::new();
        let empty_captures: Vec<String> = Vec::new();
        assert(strings_view(empty_params@) =~= Seq::<Seq<char>>::empty());
        assert(strings_view(empty_captures@) =~= Seq::<Seq<char>>::empty());
        builder.build_function(name, empty_params, empty_captures, body)
    }

    /// The blocks that pass control to block `id`, in order, one entry per
    /// jump.
    pub fn compute_block_predecessors(&self, id: BlockId) -> (r: Vec<BlockId>)
        ensures
            r@ == preds_of(self.blocks@, id, self.blocks@.len() as int),
    {
        let mut preds: Vec<BlockId> = Vec::new();
        let mut i: usize = 0;
        while i < self.blocks.len()
            invariant
                i <= self.blocks@.len(),
                preds@ == preds_of(self.blocks@, id, i as int),
            decreases self.blocks@.len() - i,
        {
            let succs = self.blocks[i].successors();
            let mut k: usize = 0;
            let ghost base = preds@;
            while k < succs.len()
                invariant
                    i < self.blocks@.len(),
                    k <= succs@.len(),
                    succs@ == term_targets(self.blocks@[i as int].terminator),
                    preds@ == base + preds_from_block(self.blocks@[i as int], id, k as int),
                decreases succs@.len() - k,
            {
                if succs[k] == id {
                    preds.push(self.blocks[i].id);
                }
                k = k + 1;
            }
            i = i + 1;
        }
        preds
    }
}

/// The entries block `b` adds to the predecessors of `id`: its id once per
/// jump among its first `k` targets that goes to `id`.
pub open spec fn preds_from_block(b: BasicBlock, id: BlockId, k: int) -> Seq<BlockId>
    decreases k,
{
    if k <= 0 || k > term_targets(b.terminator).len() {
        Seq::empty()
    } else {
        preds_from_block(b, id, k - 1) + if term_targets(b.terminator)[k - 1] == id {
            seq![b.id]
        } else {
            Seq::empty()
        }
    }
}

/// The predecessors of `id` among the blocks `bs[..i]`.
pub open spec fn preds_of(bs: Seq<BasicBlock>, id: BlockId, i: int) -> Seq<BlockId>
    decreases i,
{
    if i <= 0 || i > bs.len() {
        Seq::empty()
    } else {
        preds_of(bs, id, i - 1) + preds_from_block(bs[i - 1], id, term_targets(bs[i - 1].terminator).len() as int)
    }
}


/// A path of jumps from block `e`: each block of it passes control to the
/// next.
pub open spec fn path_ok(bs: Seq<BasicBlock>, e: int, path: Seq<int>) -> bool {
    &&& path.len() > 0
    &&& path[0] == e
    &&& forall|i: int|
        0 <= i < path.len() - 1 ==> 0 <= #[trigger] path[i] < bs.len() && term_targets(
            bs[path[i]].terminator,
        ).contains(path[i + 1] as usize)
}

/// Whether block `x` can be reached from block `e`.
pub open spec fn reachable(bs: Seq<BasicBlock>, e: int, x: int) -> bool {
    exists|path: Seq<int>| #[trigger] path_ok(bs, e, path) && path.last() == x
}

pub proof fn lemma_reach_step(bs: Seq<BasicBlock>, e: int, y: int, t: BlockId)
    requires
        0 <= y < bs.len(),
        reachable(bs, e, y),
        term_targets(bs[y].terminator).contains(t),
    ensures
        reachable(bs, e, t as int),
{
    let path = choose|path: Seq<int>| #[trigger] path_ok(bs, e, path) && path.last() == y;
    let p2 = path.push(t as int);
    assert forall|i: int| 0 <= i < p2.len() - 1 implies 0 <= #[trigger] p2[i] < bs.len() && term_targets(
        bs[p2[i]].terminator,
    ).contains(p2[i + 1] as usize) by {
        if i < path.len() - 1 {
            assert(p2[i] == path[i] && p2[i + 1] == path[i + 1]);
        } else {
            assert(p2[i] == y);
            assert(p2[i + 1] == t as int);
        }
    }
    assert(path_ok(bs, e, p2));
    assert(p2.last() == t as int);
}

pub proof fn lemma_entry_reachable(bs: Seq<BasicBlock>, e: int)
    ensures
        reachable(bs, e, e),
{
    let path = seq![e];
    assert(path_ok(bs, e, path));
    assert(path.last() == e);
}

/// How many of `v[..i]` are false.
pub open spec fn falses(v: Seq<bool>, i: int) -> nat
    decreases i,
{
    if i <= 0 || i > v.len() {
        0
    } else {
        falses(v, i - 1) + if !v[i - 1] { 1nat } else { 0nat }
    }
}

pub proof fn lemma_falses_set(v: Seq<bool>, i: int, id: int)
    requires
        0 <= id < i <= v.len(),
        !v[id],
    ensures
        falses(v.update(id, true), i) + 1 == falses(v, i),
    decreases i,
{
    if id < i - 1 {
        lemma_falses_set(v, i - 1, id);
    } else {
        lemma_falses_same(v, v.update(id, true), i - 1);
    }
}

pub proof fn lemma_falses_same(v: Seq<bool>, w: Seq<bool>, i: int)
    requires
        0 <= i <= v.len(),
        i <= w.len(),
        forall|j: int| 0 <= j < i ==> v[j] == w[j],
    ensures
        falses(v, i) == falses(w, i),
    decreases i,
{
    if i > 0 {
        lemma_falses_same(v, w, i - 1);
    }
}

/// The blocks `bs[..i]` that `keep` marks, in order.
pub open spec fn kept(bs: Seq<BasicBlock>, keep: Seq<bool>, i: int) -> Seq<BasicBlock>
    decreases i,
{
    if i <= 0 || i > bs.len() {
        Seq::empty()
    } else if keep[bs[i - 1].id as int] {
        kept(bs, keep, i - 1).push(bs[i - 1])
    } else {
        kept(bs, keep, i - 1)
    }
}

/// Which blocks can be reached from block `e`.
pub open spec fn reach_keep(bs: Seq<BasicBlock>, e: int) -> Seq<bool> {
    Seq::new(bs.len(), |i: int| reachable(bs, e, i))
}

/// The places `i' < i` that `keep` marks, in order.
pub open spec fn kept_places(keep: Seq<bool>, i: int) -> Seq<BlockId>
    decreases i,
{
    if i <= 0 || i > keep.len() {
        Seq::empty()
    } else if keep[i - 1] {
        kept_places(keep, i - 1).push((i - 1) as usize)
    } else {
        kept_places(keep, i - 1)
    }
}

/// In a graph numbered by place, the kept blocks are the blocks at the
/// kept places, and their ids are those places.
pub proof fn lemma_kept_places(bs: Seq<BasicBlock>, keep: Seq<bool>, i: int)
    requires
        blocks_wf(bs),
        keep.len() == bs.len(),
        0 <= i <= bs.len(),
        bs.len() <= usize::MAX,
    ensures
        kept(bs, keep, i).len() == kept_places(keep, i).len(),
        forall|p: int| 0 <= p < kept_places(keep, i).len() ==> (#[trigger] kept(bs, keep, i)[p]) == bs[kept_places(keep, i)[p] as int]
            && kept_places(keep, i)[p] < bs.len(),
        block_ids(kept(bs, keep, i)) == kept_places(keep, i),
    decreases i,
{
    if i > 0 {
        lemma_kept_places(bs, keep, i - 1);
        assert(bs[i - 1].id == i - 1);
        assert(((i - 1) as usize) as int == i - 1);
    }
    assert(block_ids(kept(bs, keep, i)) =~= kept_places(keep, i));
}

/// Reachability depends only on the terminators.
pub proof fn lemma_reach_same(a: Seq<BasicBlock>, b: Seq<BasicBlock>, e: int)
    requires
        a.len() == b.len(),
        forall|i: int| 0 <= i < a.len() ==> (#[trigger] a[i]).terminator == b[i].terminator,
    ensures
        reach_keep(a, e) == reach_keep(b, e),
{
    assert forall|path: Seq<int>| path_ok(a, e, path) == path_ok(b, e, path) by {
        if path_ok(a, e, path) {
            assert forall|i: int| 0 <= i < path.len() - 1 implies 0 <= #[trigger] path[i] < b.len() && term_targets(
                b[path[i]].terminator,
            ).contains(path[i + 1] as usize) by {
                assert(a[path[i]].terminator == b[path[i]].terminator);
            }
        }
        if path_ok(b, e, path) {
            assert forall|i: int| 0 <= i < path.len() - 1 implies 0 <= #[trigger] path[i] < a.len() && term_targets(
                a[path[i]].terminator,
            ).contains(path[i + 1] as usize) by {
                assert(a[path[i]].terminator == b[path[i]].terminator);
            }
        }
    }
    assert forall|x: int| 0 <= x < a.len() implies reach_keep(a, e)[x] == reach_keep(b, e)[x] by {
        if reachable(a, e, x) {
            let path = choose|path: Seq<int>| #[trigger] path_ok(a, e, path) && path.last() == x;
            assert(path_ok(b, e, path));
        }
        if reachable(b, e, x) {
            let path = choose|path: Seq<int>| #[trigger] path_ok(b, e, path) && path.last() == x;
            assert(path_ok(a, e, path));
        }
    }
    assert(reach_keep(a, e) =~= reach_keep(b, e));
}

/// The first place at or after `i` that holds id `x`.
pub open spec fn first_in(ids: Seq<BlockId>, x: BlockId, i: int) -> Option<int>
    decreases ids.len() - i,
{
    if !(0 <= i < ids.len()) {
        None
    } else if ids[i] == x {
        Some(i)
    } else {
        first_in(ids, x, i + 1)
    }
}

/// Block `p` jumps to the first block that has one of its targets as id,
/// the block at `q`.
pub open spec fn steps_to(bs: Seq<BasicBlock>, p: int, q: int) -> bool {
    exists|k: int|
        0 <= k < term_targets(bs[p].terminator).len() && #[trigger] first_in(
            block_ids(bs),
            term_targets(bs[p].terminator)[k],
            0,
        ) == Some(q)
}

/// A chain of places from `s`, each block jumping to the next, a target
/// naming the first block that carries it as id.
pub open spec fn id_path_ok(bs: Seq<BasicBlock>, s: int, path: Seq<int>) -> bool {
    &&& path.len() > 0
    &&& path[0] == s
    &&& forall|i: int| 0 <= i < path.len() - 1 ==> 0 <= #[trigger] path[i] < bs.len() && steps_to(bs, path[i], path[i + 1])
}

/// Whether the block at place `q` can be reached from the first block with
/// id `e`.
pub open spec fn id_reachable(bs: Seq<BasicBlock>, e: BlockId, q: int) -> bool {
    exists|s: int, path: Seq<int>| first_in(block_ids(bs), e, 0) == Some(s) && #[trigger] id_path_ok(bs, s, path) && path.last() == q
}

/// Which places can be reached from the first block with id `e`.
pub open spec fn id_reach_keep(bs: Seq<BasicBlock>, e: BlockId) -> Seq<bool> {
    Seq::new(bs.len(), |q: int| id_reachable(bs, e, q))
}

/// The blocks `bs[..i]` whose id's first block `keep` marks, in order.
pub open spec fn kept_by_id(bs: Seq<BasicBlock>, keep: Seq<bool>, i: int) -> Seq<BasicBlock>
    decreases i,
{
    if i <= 0 || i > bs.len() {
        Seq::empty()
    } else if (first_in(block_ids(bs), bs[i - 1].id, 0) matches Some(q) && keep[q]) {
        kept_by_id(bs, keep, i - 1).push(bs[i - 1])
    } else {
        kept_by_id(bs, keep, i - 1)
    }
}

/// The blocks a clean-up from entry `e` keeps.
pub open spec fn cleaned(bs: Seq<BasicBlock>, e: BlockId) -> Seq<BasicBlock> {
    kept_by_id(bs, id_reach_keep(bs, e), bs.len() as int)
}

pub proof fn lemma_first_in(ids: Seq<BlockId>, x: BlockId, i: int)
    requires
        0 <= i,
    ensures
        first_in(ids, x, i) matches Some(q) ==> i <= q < ids.len() && ids[q] == x && forall|j: int| i <= j < q ==> ids[j] != x,
        first_in(ids, x, i) is None ==> forall|j: int| i <= j < ids.len() ==> ids[j] != x,
    decreases ids.len() - i,
{
    if 0 <= i < ids.len() && ids[i] != x {
        lemma_first_in(ids, x, i + 1);
    }
}

/// In a graph numbered by place, the first block with id `x` is block `x`.
proof fn lemma_first_in_numbered(bs: Seq<BasicBlock>, x: BlockId)
    requires
        blocks_wf(bs),
    ensures
        first_in(block_ids(bs), x, 0) == if (x as int) < bs.len() { Some(x as int) } else { None::<int> },
{
    lemma_first_in(block_ids(bs), x, 0);
    if (x as int) < bs.len() {
        assert(block_ids(bs)[x as int] == x);
        match first_in(block_ids(bs), x, 0) {
            Some(q) => {
                assert(bs[q].id == q);
                assert(block_ids(bs)[q] == x);
            },
            None => {},
        }
    } else {
        match first_in(block_ids(bs), x, 0) {
            Some(q) => {
                assert(bs[q].id == q);
            },
            None => {},
        }
    }
}

/// In a graph numbered by place, reaching by id and reaching by place agree.
pub proof fn lemma_id_reach_numbered(bs: Seq<BasicBlock>, e: BlockId)
    requires
        blocks_wf(bs),
        (e as int) < bs.len(),
        bs.len() <= usize::MAX,
    ensures
        id_reach_keep(bs, e) == reach_keep(bs, e as int),
        kept_by_id(bs, id_reach_keep(bs, e), bs.len() as int) == kept(bs, reach_keep(bs, e as int), bs.len() as int),
{
    lemma_first_in_numbered(bs, e);
    assert forall|x: int| 0 <= x < bs.len() implies #[trigger] id_reach_keep(bs, e)[x] == reach_keep(bs, e as int)[x] by {
        assert(first_in(block_ids(bs), e, 0) == Some(e as int));
        if id_reachable(bs, e, x) {
            let path = choose|path: Seq<int>| #[trigger] id_path_ok(bs, e as int, path) && path.last() == x;
            lemma_id_path_is_path(bs, e as int, path);
            assert(reachable(bs, e as int, x));
        }
        if reachable(bs, e as int, x) {
            let path = choose|path: Seq<int>| #[trigger] path_ok(bs, e as int, path) && path.last() == x;
            lemma_path_is_id_path(bs, e as int, path);
            assert(exists|pp: Seq<int>| #[trigger] id_path_ok(bs, e as int, pp) && pp.last() == x);
            assert(id_reachable(bs, e, x));
        }
        assert(id_reach_keep(bs, e)[x] == id_reachable(bs, e, x));
        assert(reach_keep(bs, e as int)[x] == reachable(bs, e as int, x));
    }
    assert(id_reach_keep(bs, e) =~= reach_keep(bs, e as int));
    lemma_kept_by_id_numbered(bs, reach_keep(bs, e as int), bs.len() as int);
}

proof fn lemma_id_path_is_path(bs: Seq<BasicBlock>, e: int, path: Seq<int>)
    requires
        blocks_wf(bs),
        id_path_ok(bs, e, path),
    ensures
        path_ok(bs, e, path),
{
    assert forall|i: int| 0 <= i < path.len() - 1 implies 0 <= #[trigger] path[i] < bs.len() && term_targets(
        bs[path[i]].terminator,
    ).contains(path[i + 1] as usize) by {
        let ts = term_targets(bs[path[i]].terminator);
        assert(steps_to(bs, path[i], path[i + 1]));
        let k = choose|k: int| 0 <= k < ts.len() && #[trigger] first_in(block_ids(bs), ts[k], 0) == Some(path[i + 1]);
        lemma_first_in(block_ids(bs), ts[k], 0);
        assert(block_ids(bs)[path[i + 1]] == ts[k]);
        assert(bs[path[i + 1]].id == path[i + 1]);
        assert(ts[k] == path[i + 1] as usize);
        assert(ts.contains(path[i + 1] as usize));
    }
}

proof fn lemma_path_is_id_path(bs: Seq<BasicBlock>, e: int, path: Seq<int>)
    requires
        blocks_wf(bs),
        path_ok(bs, e, path),
        0 <= path.last() < bs.len(),
    ensures
        id_path_ok(bs, e, path),
{
    assert forall|i: int| 0 <= i < path.len() - 1 implies 0 <= #[trigger] path[i] < bs.len() && steps_to(
        bs,
        path[i],
        path[i + 1],
    ) by {
        let ts = term_targets(bs[path[i]].terminator);
        assert(ts.contains(path[i + 1] as usize));
        let k = choose|k: int| 0 <= k < ts.len() && ts[k] == path[i + 1] as usize;
        if i + 1 < path.len() - 1 {
            assert(0 <= path[i + 1] < bs.len());
        } else {
            assert(path[i + 1] == path.last());
        }
        lemma_first_in_numbered(bs, ts[k]);
        assert(first_in(block_ids(bs), ts[k], 0) == Some(path[i + 1]));
    }
}

proof fn lemma_kept_by_id_numbered(bs: Seq<BasicBlock>, keep: Seq<bool>, i: int)
    requires
        blocks_wf(bs),
        keep.len() == bs.len(),
        0 <= i <= bs.len(),
    ensures
        kept_by_id(bs, keep, i) == kept(bs, keep, i),
    decreases i,
{
    if i > 0 {
        lemma_kept_by_id_numbered(bs, keep, i - 1);
        assert(bs[i - 1].id == i - 1);
        lemma_first_in_numbered(bs, bs[i - 1].id);
    }
}

impl FunctionCFG {
    /// Drops the blocks that cannot be reached from the entry, keeping the
    /// others, in order, with their ids. Blocks are found by id, the first
    /// one carrying an id standing for it; a target that no block carries
    /// leads nowhere. On a graph numbered by place, the kept set holds the
    /// entry, every target of a kept block, and only reachable blocks.
    pub fn clean_up(&mut self)
        ensures
            final(self).name == old(self).name,
            final(self).params == old(self).params,
            final(self).captures == old(self).captures,
            final(self).entry == old(self).entry,
            final(self).exit == old(self).exit,
            final(self).nested_functions == old(self).nested_functions,
            final(self).blocks@ == cleaned(old(self).blocks@, old(self).entry),
            blocks_wf(old(self).blocks@) && old(self).entry < old(self).blocks@.len() ==> {
                &&& final(self).blocks@ == kept(old(self).blocks@, reach_keep(old(self).blocks@, old(self).entry as int), old(self).blocks@.len() as int)
                &&& exists|keep: Seq<bool>|
                {
                    &&& keep.len() == old(self).blocks@.len()
                    &&& keep[old(self).entry as int]
                    &&& forall|i: int, k: int|
                        0 <= i < keep.len() && #[trigger] keep[i] && 0 <= k < term_targets(old(self).blocks@[i].terminator).len()
                            ==> keep[#[trigger] term_targets(old(self).blocks@[i].terminator)[k] as int]
                    &&& forall|i: int| 0 <= i < keep.len() && #[trigger] keep[i] ==> reachable(old(self).blocks@, old(self).entry as int, i)
                    &&& final(self).blocks@ == kept(old(self).blocks@, keep, old(self).blocks@.len() as int)
                }
            },
    {
        let n = self.blocks.len();
        let ghost bs = self.blocks@;
        let ghost e = self.entry;
        let mut ids: Vec<BlockId> = Vec::new();
        let mut i: usize = 0;
        while i < n
            invariant
                n == bs.len(),
                bs == self.blocks@,
                i <= n,
                ids@ == block_ids(bs).subrange(0, i as int),
            decreases n - i,
        {
            ids.push(self.blocks[i].id);
            assert(ids@ =~= block_ids(bs).subrange(0, i + 1));
            i = i + 1;
        }
        assert(ids@ =~= block_ids(bs));
        let mut visited: Vec<bool> = Vec::new();
        while visited.len() < n
            invariant
                visited@.len() <= n,
                forall|j: int| 0 <= j < visited@.len() ==> !visited@[j],
            decreases n - visited@.len(),
        {
            visited.push(false);
        }
        let mut stack: Vec<BlockId> = Vec::new();
        stack.push(self.entry);
        proof {
            lemma_first_in(ids@, e, 0);
            assert(stack@[0] == e);
            match first_in(ids@, e, 0) {
                Some(q) => {
                    assert(id_path_ok(bs, q, seq![q]));
                    assert(seq![q].last() == q);
                    assert(id_reachable(bs, e, q));
                },
                None => {},
            }
        }
        while stack.len() > 0
            invariant
                n == bs.len(),
                bs == self.blocks@,
                ids@ == block_ids(bs),
                e == self.entry,
                visited@.len() == n,
                (first_in(ids@, e, 0) matches Some(s) ==> visited@[s] || stack@.contains(e)),
                forall|k: int| 0 <= k < stack@.len() ==> (first_in(ids@, #[trigger] stack@[k], 0) matches Some(q) ==> id_reachable(bs, e, q)),
                forall|j: int| 0 <= j < n && #[trigger] visited@[j] ==> id_reachable(bs, e, j),
                forall|j: int, k: int|
                    0 <= j < n && #[trigger] visited@[j] && 0 <= k < term_targets(bs[j].terminator).len() ==> (first_in(
                        ids@,
                        #[trigger] term_targets(bs[j].terminator)[k],
                        0,
                    ) matches Some(q) ==> visited@[q] || stack@.contains(term_targets(bs[j].terminator)[k])),
            decreases falses(visited@, n as int), stack@.len(),
        {
            let ghost old_stack = stack@;
            let ghost old_visited = visited@;
            let id = stack.pop().unwrap();
            let ghost popped = stack@;
            assert(old_stack == popped.push(id));
            let found = find_first(&ids, id);
            match found {
                None => {
                    proof {
                        assert forall|j: int, k: int|
                            0 <= j < n && #[trigger] visited@[j] && 0 <= k < term_targets(bs[j].terminator).len() implies (first_in(
                                ids@,
                                #[trigger] term_targets(bs[j].terminator)[k],
                                0,
                            ) matches Some(q) ==> visited@[q] || stack@.contains(term_targets(bs[j].terminator)[k])) by {
                            let t = term_targets(bs[j].terminator)[k];
                            if first_in(ids@, t, 0) is Some && !visited@[first_in(ids@, t, 0)->0] {
                                assert(old_stack.contains(t));
                                let w = choose|w: int| 0 <= w < old_stack.len() && old_stack[w] == t;
                                if w < popped.len() {
                                    assert(stack@[w] == t);
                                }
                            }
                        }
                        match first_in(ids@, e, 0) {
 Some(s0) => {
                            if !old_visited[s0] {
                                let w = choose|w: int| 0 <= w < old_stack.len() && old_stack[w] == e;
                                if w < popped.len() {
                                    assert(stack@[w] == e);
                                }
                            }
                        },
 None => {},
 }
                    }
                },
                Some(p) => {
                    proof {
                        lemma_first_in(ids@, id, 0);
                        assert(id_reachable(bs, e, p as int));
                    }
                    if visited[p] {
                        proof {
                            assert forall|j: int, k: int|
                                0 <= j < n && #[trigger] visited@[j] && 0 <= k < term_targets(bs[j].terminator).len() implies (first_in(
                                    ids@,
                                    #[trigger] term_targets(bs[j].terminator)[k],
                                    0,
                                ) matches Some(q) ==> visited@[q] || stack@.contains(term_targets(bs[j].terminator)[k])) by {
                                let t = term_targets(bs[j].terminator)[k];
                                if first_in(ids@, t, 0) is Some && !visited@[first_in(ids@, t, 0)->0] {
                                    assert(old_stack.contains(t));
                                    let w = choose|w: int| 0 <= w < old_stack.len() && old_stack[w] == t;
                                    if w < popped.len() {
                                        assert(stack@[w] == t);
                                    }
                                }
                            }
                            match first_in(ids@, e, 0) {
 Some(s0) => {
                                if !old_visited[s0] {
                                    let w = choose|w: int| 0 <= w < old_stack.len() && old_stack[w] == e;
                                    if w < popped.len() {
                                        assert(stack@[w] == e);
                                    }
                                }
                            },
 None => {},
 }
                        }
                    } else {
                        proof {
                            lemma_falses_set(visited@, n as int, p as int);
                        }
                        visited.set(p, true);
                        let succs = self.blocks[p].successors();
                        let ghost s0 = stack@;
                        let mut k: usize = 0;
                        while k < succs.len()
                            invariant
                                n == bs.len(),
                                bs == self.blocks@,
                                p < n,
                                succs@ == term_targets(bs[p as int].terminator),
                                k <= succs@.len(),
                                stack@ == s0 + succs@.subrange(0, k as int),
                            decreases succs@.len() - k,
                        {
                            stack.push(succs[k]);
                            k = k + 1;
                        }
                        proof {
                            assert(stack@ =~= s0 + succs@);
                            assert(s0 == popped);
                            match first_in(ids@, e, 0) {
 Some(se) => {
                                if se != p && !old_visited[se] {
                                    let w = choose|w: int| 0 <= w < old_stack.len() && old_stack[w] == e;
                                    if w < popped.len() {
                                        assert(stack@[w] == e);
                                    } else {
                                        assert(id == e);
                                    }
                                }
                            },
 None => {},
 }
                            assert forall|j: int, k2: int|
                                0 <= j < n && #[trigger] visited@[j] && 0 <= k2 < term_targets(bs[j].terminator).len() implies (first_in(
                                    ids@,
                                    #[trigger] term_targets(bs[j].terminator)[k2],
                                    0,
                                ) matches Some(q) ==> visited@[q] || stack@.contains(term_targets(bs[j].terminator)[k2])) by {
                                let t = term_targets(bs[j].terminator)[k2];
                                if j == p {
                                    assert(stack@[popped.len() + k2] == t);
                                } else if first_in(ids@, t, 0) is Some && !visited@[first_in(ids@, t, 0)->0] {
                                    let q = first_in(ids@, t, 0)->0;
                                    lemma_first_in(ids@, t, 0);
                                    assert(visited@ == old_visited.update(p as int, true));
                                    assert(visited@[q] == old_visited[q] || q == p);
                                    assert(old_visited[j]);
                                    assert(!old_visited[q]);
                                    assert(old_stack.contains(t));
                                    let w = choose|w: int| 0 <= w < old_stack.len() && old_stack[w] == t;
                                    if w < popped.len() {
                                        assert(stack@[w] == t);
                                    } else {
                                        assert(id == t);
                                    }
                                }
                            }
                            assert forall|w: int| 0 <= w < stack@.len() implies (first_in(ids@, #[trigger] stack@[w], 0) matches Some(q)
                                ==> id_reachable(bs, e, q)) by {
                                if w >= s0.len() {
                                    let t = stack@[w];
                                    assert(succs@[w - s0.len()] == t);
                                    match first_in(ids@, t, 0) {
 Some(q) => {
                                        lemma_id_reach_step(bs, e, p as int, w - s0.len(), q);
                                    },
 None => {},
 }
                                } else {
                                    assert(stack@[w] == old_stack[w]);
                                }
                            }
                        }
                    }
                },
            }
        }
        proof {
            match first_in(ids@, e, 0) {
 Some(s0) => {
                assert(visited@[s0]);
            },
 None => {},
 }
        }
        let ghost keep = visited@;
        proof {
            lemma_visited_is_reach(bs, e, keep);
        }
        let mut out: Vec<BasicBlock> = Vec::new();
        let mut rest: Vec<BasicBlock> = Vec::new();
        std::mem::swap(&mut rest, &mut self.blocks);
        let mut i: usize = 0;
        proof {
            assert(rest@ =~= bs.subrange(0, n as int));
        }
        while rest.len() > 0
            invariant
                bs.len() == n,
                ids@ == block_ids(bs),
                i + rest@.len() == n,
                rest@ == bs.subrange(i as int, n as int),
                keep.len() == n,
                keep == visited@,
                out@ == kept_by_id(bs, keep, i as int),
            decreases rest@.len(),
        {
            let b = rest.remove(0);
            assert(b == bs[i as int]);
            proof {
                assert(ids@[i as int] == b.id);
                lemma_first_in(ids@, b.id, 0);
            }
            let q = find_first(&ids, b.id);
            match q {
                Some(q) => {
                    if visited[q] {
                        out.push(b);
                    }
                },
                None => {},
            }
            assert(rest@ =~= bs.subrange(i + 1, n as int));
            i = i + 1;
        }
        self.blocks = out;
        proof {
            if blocks_wf(bs) && (e as int) < n {
                lemma_id_reach_numbered(bs, e);
                let rk = reach_keep(bs, e as int);
                lemma_entry_reachable(bs, e as int);
                assert(rk[e as int]);
                assert forall|i: int, k: int|
                    0 <= i < rk.len() && #[trigger] rk[i] && 0 <= k < term_targets(bs[i].terminator).len()
                        implies rk[#[trigger] term_targets(bs[i].terminator)[k] as int] by {
                    let t = term_targets(bs[i].terminator)[k];
                    assert(targets_below(bs[i].terminator, n as int));
                    assert(term_targets(bs[i].terminator).contains(t));
                    lemma_reach_step(bs, e as int, i, t);
                }
            }
        }
    }
}

/// The place of the first block carrying id `x`, if any.
fn find_first(ids: &Vec<BlockId>, x: BlockId) -> (r: Option<usize>)
    ensures
        r matches Some(p) ==> first_in(ids@, x, 0) == Some(p as int),
        r is None ==> first_in(ids@, x, 0) is None,
{
    let mut i: usize = 0;
    while i < ids.len()
        invariant
            i <= ids@.len(),
            first_in(ids@, x, 0) == first_in(ids@, x, i as int),
        decreases ids@.len() - i,
    {
        if ids[i] == x {
            return Some(i);
        }
        i = i + 1;
    }
    None
}

proof fn lemma_id_reach_step(bs: Seq<BasicBlock>, e: BlockId, p: int, k: int, q: int)
    requires
        0 <= p < bs.len(),
        id_reachable(bs, e, p),
        0 <= k < term_targets(bs[p].terminator).len(),
        first_in(block_ids(bs), term_targets(bs[p].terminator)[k], 0) == Some(q),
    ensures
        id_reachable(bs, e, q),
{
    let s = first_in(block_ids(bs), e, 0)->0;
    let path = choose|path: Seq<int>| #[trigger] id_path_ok(bs, s, path) && path.last() == p;
    let p2 = path.push(q);
    assert(steps_to(bs, p, q));
    assert forall|i: int| 0 <= i < p2.len() - 1 implies 0 <= #[trigger] p2[i] < bs.len() && steps_to(bs, p2[i], p2[i + 1]) by {
        if i < path.len() - 1 {
            assert(p2[i] == path[i] && p2[i + 1] == path[i + 1]);
        } else {
            assert(p2[i] == p);
        }
    }
    assert(id_path_ok(bs, s, p2));
}

proof fn lemma_visited_path(bs: Seq<BasicBlock>, s: int, keep: Seq<bool>, path: Seq<int>, j: int)
    requires
        keep.len() == bs.len(),
        0 <= s < bs.len(),
        keep[s],
        forall|x: int, k: int|
            0 <= x < bs.len() && #[trigger] keep[x] && 0 <= k < term_targets(bs[x].terminator).len() ==> (first_in(
                block_ids(bs),
                #[trigger] term_targets(bs[x].terminator)[k],
                0,
            ) matches Some(q) ==> keep[q]),
        id_path_ok(bs, s, path),
        0 <= j < path.len(),
    ensures
        0 <= path[j] < bs.len() && keep[path[j]],
    decreases j,
{
    if j > 0 {
        lemma_visited_path(bs, s, keep, path, j - 1);
        let p = path[j - 1];
        let k = choose|k: int| 0 <= k < term_targets(bs[p].terminator).len() && #[trigger] first_in(
            block_ids(bs),
            term_targets(bs[p].terminator)[k],
            0,
        ) == Some(path[j]);
        lemma_first_in(block_ids(bs), term_targets(bs[p].terminator)[k], 0);
    }
}

proof fn lemma_visited_is_reach(bs: Seq<BasicBlock>, e: BlockId, keep: Seq<bool>)
    requires
        keep.len() == bs.len(),
        first_in(block_ids(bs), e, 0) matches Some(s) ==> keep[s],
        forall|x: int, k: int|
            0 <= x < bs.len() && #[trigger] keep[x] && 0 <= k < term_targets(bs[x].terminator).len() ==> (first_in(
                block_ids(bs),
                #[trigger] term_targets(bs[x].terminator)[k],
                0,
            ) matches Some(q) ==> keep[q]),
        forall|x: int| 0 <= x < bs.len() && #[trigger] keep[x] ==> id_reachable(bs, e, x),
    ensures
        keep == id_reach_keep(bs, e),
{
    lemma_first_in(block_ids(bs), e, 0);
    assert forall|x: int| 0 <= x < bs.len() implies keep[x] == #[trigger] id_reach_keep(bs, e)[x] by {
        if id_reachable(bs, e, x) {
            let s = first_in(block_ids(bs), e, 0)->0;
            let path = choose|path: Seq<int>| #[trigger] id_path_ok(bs, s, path) && path.last() == x;
            lemma_visited_path(bs, s, keep, path, path.len() - 1);
        }
    }
    assert(keep =~= id_reach_keep(bs, e));
}

/// The ids of the blocks, in order.
pub open spec fn block_ids(bs: Seq<BasicBlock>) -> Seq<BlockId> {
    Seq::new(bs.len(), |i: int| bs[i].id)
}

/// Blocks as the clean-up leaves them: ids rise strictly along the list,
/// every block ends in a terminator, and every target is the id of a
/// block of the list.
pub open spec fn ids_ordered(bs: Seq<BasicBlock>) -> bool {
    &&& forall|i: int, j: int| 0 <= i < j < bs.len() ==> #[trigger] bs[i].id < #[trigger] bs[j].id
    &&& forall|i: int| 0 <= i < bs.len() ==> (#[trigger] bs[i]).terminator is Some
    &&& forall|i: int, k: int|
        0 <= i < bs.len() && 0 <= k < term_targets(bs[i].terminator).len() ==> block_ids(bs).contains(
            #[trigger] term_targets(bs[i].terminator)[k],
        )
}

/// The place of the block with id `x`.
pub open spec fn place_of(ids: Seq<BlockId>, x: BlockId) -> int {
    choose|p: int| 0 <= p < ids.len() && ids[p] == x
}

/// A terminator whose targets are turned from ids into places.
pub open spec fn retarget(t: Option<Terminator>, ids: Seq<BlockId>) -> Option<Terminator> {
    match t {
        Some(Terminator::Goto(x)) => Some(Terminator::Goto(place_of(ids, x) as usize)),
        Some(Terminator::Branch { cond, then_block, else_block }) => Some(
            Terminator::Branch {
                cond,
                then_block: place_of(ids, then_block) as usize,
                else_block: place_of(ids, else_block) as usize,
            },
        ),
        other => other,
    }
}

fn find_place(ids: &Vec<BlockId>, x: BlockId) -> (p: usize)
    requires
        ids@.contains(x),
        forall|i: int, j: int| 0 <= i < j < ids@.len() ==> #[trigger] ids@[i] < #[trigger] ids@[j],
    ensures
        p == place_of(ids@, x),
        p < ids@.len(),
{
    let mut i: usize = 0;
    while i < ids.len()
        invariant
            i <= ids@.len(),
            forall|j: int| 0 <= j < i ==> ids@[j] != x,
            ids@.contains(x),
            forall|i: int, j: int| 0 <= i < j < ids@.len() ==> #[trigger] ids@[i] < #[trigger] ids@[j],
        decreases ids@.len() - i,
    {
        if ids[i] == x {
            proof {
                let q = place_of(ids@, x);
                assert(0 <= q < ids@.len() && ids@[q] == x);
                if q < i {
                    assert(ids@[q] < ids@[i as int]);
                } else if q > i {
                    assert(ids@[i as int] < ids@[q]);
                }
            }
            return i;
        }
        i = i + 1;
    }
    proof {
        let q = choose|q: int| 0 <= q < ids@.len() && ids@[q] == x;
        assert(ids@[q] != x);
    }
    0
}

fn retarget_term(t: Option<Terminator>, ids: &Vec<BlockId>) -> (r: Option<Terminator>)
    requires
        forall|i: int, j: int| 0 <= i < j < ids@.len() ==> #[trigger] ids@[i] < #[trigger] ids@[j],
        forall|k: int| 0 <= k < term_targets(t).len() ==> ids@.contains(#[trigger] term_targets(t)[k]),
    ensures
        r == retarget(t, ids@),
        targets_below(r, ids@.len() as int),
{
    match t {
        Some(Terminator::Goto(x)) => {
            assert(term_targets(t)[0] == x);
            Some(Terminator::Goto(find_place(ids, x)))
        },
        Some(Terminator::Branch { cond, then_block, else_block }) => {
            assert(term_targets(t)[0] == then_block);
            assert(term_targets(t)[1] == else_block);
            let a = find_place(ids, then_block);
            let b = find_place(ids, else_block);
            Some(Terminator::Branch { cond, then_block: a, else_block: b })
        },
        other => other,
    }
}

impl FunctionCFG {
    /// Numbers the blocks by their place, turning each target from the id
    /// of a block into its place; statements and order are kept.
    pub fn renumber_blocks(&mut self)
        requires
            ids_ordered(old(self).blocks@),
        ensures
            final(self).name == old(self).name,
            final(self).params == old(self).params,
            final(self).captures == old(self).captures,
            final(self).entry == old(self).entry,
            final(self).exit == old(self).exit,
            final(self).nested_functions == old(self).nested_functions,
            final(self).blocks@.len() == old(self).blocks@.len(),
            forall|p: int|
                0 <= p < final(self).blocks@.len() ==> (#[trigger] final(self).blocks@[p]).id == p
                    && final(self).blocks@[p].stmts == old(self).blocks@[p].stmts
                    && final(self).blocks@[p].terminator == retarget(
                    old(self).blocks@[p].terminator,
                    block_ids(old(self).blocks@),
                ),
            blocks_wf(final(self).blocks@),
    {
        let ghost bs = self.blocks@;
        let n = self.blocks.len();
        let mut ids: Vec<BlockId> = Vec::new();
        let mut i: usize = 0;
        while i < n
            invariant
                n == self.blocks@.len(),
                bs == self.blocks@,
                i <= n,
                ids@ == block_ids(bs).subrange(0, i as int),
            decreases n - i,
        {
            ids.push(self.blocks[i].id);
            assert(ids@ =~= block_ids(bs).subrange(0, i + 1));
            i = i + 1;
        }
        assert(ids@ =~= block_ids(bs));
        let mut rest: Vec<BasicBlock> = Vec::new();
        std::mem::swap(&mut rest, &mut self.blocks);
        let mut out: Vec<BasicBlock> = Vec::new();
        i = 0;
        while rest.len() > 0
            invariant
                n == bs.len(),
                ids_ordered(bs),
                ids@ == block_ids(bs),
                i + rest@.len() == n,
                rest@ == bs.subrange(i as int, n as int),
                out@.len() == i,
                forall|p: int|
                    0 <= p < i ==> (#[trigger] out@[p]).id == p && out@[p].stmts == bs[p].stmts
                        && out@[p].terminator == retarget(bs[p].terminator, ids@) && out@[p].terminator is Some
                        && targets_below(out@[p].terminator, n as int),
            decreases rest@.len(),
        {
            let b = rest.remove(0);
            assert(b == bs[i as int]);
            proof {
                assert forall|k: int| 0 <= k < term_targets(b.terminator).len() implies ids@.contains(
                    #[trigger] term_targets(b.terminator)[k],
                ) by {
                    assert(term_targets(bs[i as int].terminator)[k] == term_targets(b.terminator)[k]);
                }
            }
            let t = retarget_term(b.terminator, &ids);
            out.push(BasicBlock { id: i, stmts: b.stmts, terminator: t });
            assert(rest@ =~= bs.subrange(i + 1, n as int));
            i = i + 1;
        }
        self.blocks = out;
    }
}

proof fn lemma_kept_ordered(bs: Seq<BasicBlock>, keep: Seq<bool>, m: int)
    requires
        blocks_wf(bs),
        keep.len() == bs.len(),
        0 <= m <= bs.len(),
    ensures
        forall|p: int|
            0 <= p < kept(bs, keep, m).len() ==> kept(bs, keep, m)[p] == bs[(#[trigger] kept(bs, keep, m)[p]).id as int]
                && kept(bs, keep, m)[p].id < m && keep[kept(bs, keep, m)[p].id as int],
        forall|p: int, q: int|
            0 <= p < q < kept(bs, keep, m).len() ==> #[trigger] kept(bs, keep, m)[p].id < #[trigger] kept(bs, keep, m)[q].id,
        forall|j: int| 0 <= j < m && keep[j] ==> #[trigger] block_ids(kept(bs, keep, m)).contains(j as usize),
    decreases m,
{
    if m > 0 {
        lemma_kept_ordered(bs, keep, m - 1);
        let prev = kept(bs, keep, m - 1);
        let cur = kept(bs, keep, m);
        assert(bs[m - 1].id == m - 1);
        if keep[m - 1] {
            assert(cur == prev.push(bs[m - 1]));
            assert forall|j: int| 0 <= j < m && keep[j] implies #[trigger] block_ids(cur).contains(j as usize) by {
                if j < m - 1 {
                    assert(block_ids(prev).contains(j as usize));
                    let p = choose|p: int| 0 <= p < block_ids(prev).len() && block_ids(prev)[p] == j as usize;
                    assert(block_ids(cur)[p] == j as usize);
                } else {
                    assert(block_ids(cur)[prev.len() as int] == j as usize);
                }
            }
        } else {
            assert(cur == prev);
            assert forall|j: int| 0 <= j < m && keep[j] implies #[trigger] block_ids(cur).contains(j as usize) by {
                assert(j < m - 1);
                assert(block_ids(prev).contains(j as usize));
            }
        }
    }
}

/// The blocks that the clean-up keeps from a numbered graph, when the kept
/// set is closed under jumps, are ordered by id and jump only among
/// themselves.
pub proof fn lemma_kept_ids_ordered(bs: Seq<BasicBlock>, keep: Seq<bool>)
    requires
        blocks_wf(bs),
        keep.len() == bs.len(),
        forall|i: int, k: int|
            0 <= i < keep.len() && #[trigger] keep[i] && 0 <= k < term_targets(bs[i].terminator).len()
                ==> keep[#[trigger] term_targets(bs[i].terminator)[k] as int],
    ensures
        ids_ordered(kept(bs, keep, bs.len() as int)),
{
    let n = bs.len() as int;
    lemma_kept_ordered(bs, keep, n);
    let ks = kept(bs, keep, n);
    assert forall|i: int| 0 <= i < ks.len() implies (#[trigger] ks[i]).terminator is Some by {
        assert(ks[i] == bs[ks[i].id as int]);
    }
    assert forall|i: int, k: int|
        0 <= i < ks.len() && 0 <= k < term_targets(ks[i].terminator).len() implies block_ids(ks).contains(
        #[trigger] term_targets(ks[i].terminator)[k],
    ) by {
        let j = ks[i].id as int;
        assert(ks[i] == bs[j]);
        assert(keep[j]);
        let t = term_targets(bs[j].terminator)[k];
        assert(keep[t as int]);
        assert(t < n);
        assert(block_ids(ks).contains(t as int as usize));
    }
}

impl FunctionCFG {
    /// A graph code can be generated for: its blocks are numbered by their
    /// place and jump only among themselves, and so for every nested
    /// function's graph.
    pub open spec fn gen_ready(&self) -> bool
        decreases self,
    {
        &&& blocks_wf(self.blocks@)
        &&& forall|k: int|
            0 <= k < self.nested_functions@.len() ==> (#[trigger] self.nested_functions@[k]).cfg.gen_ready()
    }

    /// Whether the graph is well formed (see `wf`).
    pub fn is_well_formed(&self) -> (r: bool)
        ensures
            r == self.wf(),
        decreases self,
    {
        let n = self.blocks.len();
        if n < 2 || self.entry != 0 || self.exit != 1 {
            return false;
        }
        let mut i: usize = 0;
        while i < n
            invariant
                n == self.blocks@.len(),
                i <= n,
                forall|j: int|
                    0 <= j < i ==> (#[trigger] self.blocks@[j]).id == j && self.blocks@[j].terminator is Some
                        && targets_below(self.blocks@[j].terminator, n as int),
            decreases n - i,
        {
            let b = &self.blocks[i];
            if b.id != i || b.terminator.is_none() {
                return false;
            }
            let succs = b.successors();
            let mut k: usize = 0;
            while k < succs.len()
                invariant
                    n == self.blocks@.len(),
                    i < n,
                    succs@ == term_targets(self.blocks@[i as int].terminator),
                    k <= succs@.len(),
                    forall|q: int| 0 <= q < k ==> succs@[q] < n,
                decreases succs@.len() - k,
            {
                if succs[k] >= n {
                    proof {
                        assert(!targets_below(self.blocks@[i as int].terminator, n as int));
                        assert(!blocks_wf(self.blocks@));
                    }
                    return false;
                }
                k = k + 1;
            }
            i = i + 1;
        }
        match &self.blocks[1].terminator {
            Some(Terminator::Return(Some(Expr::Var(v)))) => {
                if !crate::text::text_is(v, "__ret") {
                    return false;
                }
            },
            _ => {
                return false;
            },
        }
        let mut k: usize = 0;
        while k < self.nested_functions.len()
            invariant
                k <= self.nested_functions@.len(),
                forall|q: int| 0 <= q < k ==> (#[trigger] self.nested_functions@[q]).cfg.wf(),
            decreases self.nested_functions@.len() - k,
        {
            assert(decreases_to!(self => self.nested_functions));
            assert(decreases_to!(self.nested_functions => self.nested_functions@));
            assert(decreases_to!(self.nested_functions@ => self.nested_functions@[k as int]));
            assert(decreases_to!(self.nested_functions@[k as int] => self.nested_functions@[k as int].cfg));
            if !self.nested_functions[k].cfg.is_well_formed() {
                return false;
            }
            k = k + 1;
        }
        proof {
            reveal_strlit("__ret");
        }
        true
    }
}

/// A well-formed graph is ready for code generation.
pub proof fn lemma_wf_gen_ready(g: &FunctionCFG)
    requires
        g.wf(),
    ensures
        g.gen_ready(),
    decreases g,
{
    assert forall|k: int| 0 <= k < g.nested_functions@.len() implies (#[trigger] g.nested_functions@[k]).cfg.gen_ready() by {
        assert(decreases_to!(g => g.nested_functions));
        assert(decreases_to!(g.nested_functions => g.nested_functions@));
        assert(decreases_to!(g.nested_functions@ => g.nested_functions@[k]));
        assert(decreases_to!(g.nested_functions@[k] => g.nested_functions@[k].cfg));
        lemma_wf_gen_ready(&g.nested_functions@[k].cfg);
    }
}

/// Whether the block at place `p` jumps to block `b`.
pub open spec fn jumps_to(bs: Seq<BasicBlock>, p: int, b: int) -> bool {
    term_targets(bs[p].terminator).contains(b as usize)
}

/// One step of the dominator equations at block `b`: the entry is
/// dominated by itself alone; any other block by itself and by every block
/// of the graph that dominates all the blocks that jump to it.
pub open spec fn dom_step(bs: Seq<BasicBlock>, e: int, d: Seq<Set<usize>>, b: int) -> Set<usize> {
    if b == e {
        set![e as usize]
    } else {
        Set::new(
            |x: usize|
                x == b || (x < bs.len() && forall|p: int|
                    0 <= p < bs.len() && #[trigger] jumps_to(bs, p, b) ==> d[p].contains(x)),
        )
    }
}

/// A solution of the dominator equations of the graph with entry `e`.
pub open spec fn dom_solution(bs: Seq<BasicBlock>, e: int, d: Seq<Set<usize>>) -> bool {
    &&& d.len() == bs.len()
    &&& forall|b: int| 0 <= b < bs.len() ==> #[trigger] d[b] == dom_step(bs, e, d, b)
}

/// The sets a table of membership rows stands for.
pub open spec fn row_sets(d: Seq<Seq<bool>>, n: int) -> Seq<Set<usize>> {
    Seq::new(d.len(), |b: int| Set::new(|x: usize| x < n && d[b][x as int]))
}

/// Membership of `x` in the step of the equations at `b`, read off rows.
pub open spec fn meets(bs: Seq<BasicBlock>, d: Seq<Seq<bool>>, b: int, x: int) -> bool {
    x == b || forall|p: int| 0 <= p < bs.len() && #[trigger] jumps_to(bs, p, b) ==> d[p][x]
}

pub open spec fn rows_of(v: Seq<Vec<bool>>) -> Seq<Seq<bool>> {
    Seq::new(v.len(), |i: int| v[i]@)
}

/// How many entries of the rows `d[..k]` hold.
pub open spec fn count_rows(d: Seq<Seq<bool>>, k: int) -> nat
    decreases k,
{
    if k <= 0 || k > d.len() {
        0
    } else {
        count_rows(d, k - 1) + count_row(d[k - 1], d[k - 1].len() as int)
    }
}

pub open spec fn count_row(r: Seq<bool>, k: int) -> nat
    decreases k,
{
    if k <= 0 || k > r.len() {
        0
    } else {
        count_row(r, k - 1) + if r[k - 1] { 1nat } else { 0nat }
    }
}

proof fn lemma_count_row_sub(a: Seq<bool>, b: Seq<bool>, k: int)
    requires
        a.len() == b.len(),
        0 <= k <= a.len(),
        forall|x: int| 0 <= x < a.len() && #[trigger] a[x] ==> b[x],
    ensures
        count_row(a, k) <= count_row(b, k),
        (exists|x: int| 0 <= x < k && b[x] && !a[x]) ==> count_row(a, k) < count_row(b, k),
    decreases k,
{
    if k > 0 {
        lemma_count_row_sub(a, b, k - 1);
        if exists|x: int| 0 <= x < k && b[x] && !a[x] {
            let x = choose|x: int| 0 <= x < k && b[x] && !a[x];
            if x < k - 1 {
                assert(exists|y: int| 0 <= y < k - 1 && b[y] && !a[y]);
            }
        }
    }
}

proof fn lemma_count_rows_update(d: Seq<Seq<bool>>, b: int, r: Seq<bool>, k: int)
    requires
        0 <= b < d.len(),
        0 <= k <= d.len(),
    ensures
        b < k ==> count_rows(d.update(b, r), k) + count_row(d[b], d[b].len() as int) == count_rows(d, k)
            + count_row(r, r.len() as int),
        b >= k ==> count_rows(d.update(b, r), k) == count_rows(d, k),
    decreases k,
{
    if k > 0 {
        lemma_count_rows_update(d, b, r, k - 1);
        assert(d.update(b, r)[k - 1] == if k - 1 == b { r } else { d[k - 1] });
    }
}

/// What the predecessor table holds: for each place, places of blocks
/// that jump to it, and every such place.
pub open spec fn preds_ok(bs: Seq<BasicBlock>, ps: Seq<Vec<BlockId>>) -> bool {
    &&& ps.len() == bs.len()
    &&& forall|b: int, k: int|
        0 <= b < bs.len() && 0 <= k < ps[b]@.len() ==> (#[trigger] ps[b]@[k]) < bs.len() && jumps_to(bs, ps[b]@[k] as int, b)
    &&& forall|b: int, p: int| 0 <= b < bs.len() && 0 <= p < bs.len() && #[trigger] jumps_to(bs, p, b) ==> ps[b]@.contains(p as usize)
}

/// An `n` by `n` table of rows whose entry row holds the entry alone.
pub open spec fn rows_ok(n: int, e: int, d: Seq<Seq<bool>>) -> bool {
    &&& d.len() == n
    &&& forall|b: int| 0 <= b < n ==> (#[trigger] d[b]).len() == n
    &&& forall|x: int| 0 <= e < n && 0 <= x < n ==> (#[trigger] d[e][x] <==> x == e)
}

/// Every row outside the entry's holds what one step of the equations
/// gives it.
pub open spec fn pre_fixed(bs: Seq<BasicBlock>, e: int, d: Seq<Seq<bool>>) -> bool {
    forall|b: int, x: int| 0 <= b < bs.len() && b != e && 0 <= x < bs.len() && meets(bs, d, b, x) ==> #[trigger] d[b][x]
}

/// Every solution of the equations lies within the rows.
pub open spec fn above_solutions(bs: Seq<BasicBlock>, e: int, d: Seq<Seq<bool>>) -> bool {
    forall|s: Seq<Set<usize>>, b: int, x: usize|
        dom_solution(bs, e, s) && 0 <= b < bs.len() && #[trigger] s[b].contains(x) ==> x < bs.len() && d[b][x as int]
}

/// The rows before place `b`, outside the entry's, are what one step of
/// the equations gives them.
pub open spec fn settled_upto(bs: Seq<BasicBlock>, e: int, d: Seq<Seq<bool>>, b: int) -> bool {
    forall|c: int, x: int| 0 <= c < b && c != e && 0 <= x < bs.len() ==> (#[trigger] d[c][x] <==> meets(bs, d, c, x))
}

impl FunctionCFG {
    /// For each place, the places of the blocks that jump to it, once per
    /// jump, in order.
    fn compute_predecessors(&self) -> (r: Vec<Vec<BlockId>>)
        requires
            forall|i: int| 0 <= i < self.blocks@.len() ==> targets_below(#[trigger] self.blocks@[i].terminator, self.blocks@.len() as int),
        ensures
            r@.len() == self.blocks@.len(),
            forall|b: int, k: int|
                0 <= b < r@.len() && 0 <= k < r@[b]@.len() ==> (#[trigger] r@[b]@[k]) < self.blocks@.len() && jumps_to(
                    self.blocks@,
                    r@[b]@[k] as int,
                    b,
                ),
            forall|b: int, p: int|
                0 <= b < r@.len() && 0 <= p < self.blocks@.len() && #[trigger] jumps_to(self.blocks@, p, b)
                    ==> r@[b]@.contains(p as usize),
    {
        let n = self.blocks.len();
        let ghost bs = self.blocks@;
        let mut preds: Vec<Vec<BlockId>> = Vec::new();
        let mut b: usize = 0;
        while b < n
            invariant
                n == bs.len(),
                bs == self.blocks@,
                b <= n,
                preds@.len() == b,
                forall|c: int, k: int|
                    0 <= c < b && 0 <= k < preds@[c]@.len() ==> (#[trigger] preds@[c]@[k]) < n && jumps_to(
                        bs,
                        preds@[c]@[k] as int,
                        c,
                    ),
                forall|c: int, p: int|
                    0 <= c < b && 0 <= p < n && #[trigger] jumps_to(bs, p, c) ==> preds@[c]@.contains(p as usize),
            decreases n - b,
        {
            let mut row: Vec<BlockId> = Vec::new();
            let mut p: usize = 0;
            while p < n
                invariant
                    n == bs.len(),
                    bs == self.blocks@,
                    b < n,
                    p <= n,
                    forall|k: int| 0 <= k < row@.len() ==> (#[trigger] row@[k]) < n && jumps_to(bs, row@[k] as int, b as int),
                    forall|q: int| 0 <= q < p && #[trigger] jumps_to(bs, q, b as int) ==> row@.contains(q as usize),
                decreases n - p,
            {
                let succs = self.blocks[p].successors();
                let mut k: usize = 0;
                let ghost before = row@;
                while k < succs.len()
                    invariant
                        n == bs.len(),
                        b < n,
                        p < n,
                        succs@ == term_targets(bs[p as int].terminator),
                        k <= succs@.len(),
                        forall|j: int| 0 <= j < row@.len() ==> (#[trigger] row@[j]) < n && jumps_to(bs, row@[j] as int, b as int),
                        forall|j: int| 0 <= j < before.len() ==> row@[j] == before[j],
                        before.len() <= row@.len(),
                        (exists|j: int| 0 <= j < k && succs@[j] == b) ==> row@.contains(p),
                    decreases succs@.len() - k,
                {
                    if succs[k] == b {
                        proof {
                            assert(term_targets(bs[p as int].terminator)[k as int] == b);
                        }
                        row.push(p);
                        proof {
                            assert(row@[row@.len() - 1] == p);
                        }
                    }
                    proof {
                        if exists|j: int| 0 <= j < k + 1 && succs@[j] == b {
                            let j = choose|j: int| 0 <= j < k + 1 && succs@[j] == b;
                            if j < k {
                                let w = choose|w: int| 0 <= w < row@.len() && row@[w] == p;
                            }
                        }
                    }
                    k = k + 1;
                }
                proof {
                    assert forall|q: int| 0 <= q < p + 1 && #[trigger] jumps_to(bs, q, b as int) implies row@.contains(q as usize) by {
                        if q < p {
                            assert(before.contains(q as usize));
                            let w = choose|w: int| 0 <= w < before.len() && before[w] == q as usize;
                            assert(row@[w] == q as usize);
                        } else {
                            let j = choose|j: int| 0 <= j < succs@.len() && succs@[j] == b as usize;
                        }
                    }
                }
                p = p + 1;
            }
            preds.push(row);
            b = b + 1;
        }
        preds
    }

    /// The dominators of each block, by place: the greatest solution of
    /// the dominator equations (see `dom_step`), reached by iterating from
    /// the graph's full set of blocks until nothing changes.
    pub fn compute_dominators(&self) -> (r: Vec<HashSet<BlockId>>)
        requires
            forall|i: int| 0 <= i < self.blocks@.len() ==> targets_below(#[trigger] self.blocks@[i].terminator, self.blocks@.len() as int),
        ensures
            dom_solution(self.blocks@, self.entry as int, Seq::new(r@.len(), |b: int| r@[b]@)),
            forall|d: Seq<Set<usize>>, b: int|
                dom_solution(self.blocks@, self.entry as int, d) && 0 <= b < self.blocks@.len() ==> (#[trigger] d[b]).subset_of(
                    r@[b]@,
                ),
    {
        let n = self.blocks.len();
        let ghost bs = self.blocks@;
        let ghost e = self.entry as int;
        let preds = self.compute_predecessors();
        let mut dom: Vec<Vec<bool>> = Vec::new();
        let mut i: usize = 0;
        while i < n
            invariant
                n == bs.len(),
                e == self.entry,
                i <= n,
                dom@.len() == i,
                forall|b: int| 0 <= b < i ==> (#[trigger] dom@[b])@.len() == n,
                forall|b: int, x: int| 0 <= b < i && b != e && 0 <= x < n ==> #[trigger] dom@[b]@[x],
                forall|x: int| 0 <= e < i && 0 <= x < n ==> (#[trigger] dom@[e]@[x] <==> x == e),
            decreases n - i,
        {
            let mut row: Vec<bool> = Vec::new();
            let mut x: usize = 0;
            while x < n
                invariant
                    x <= n,
                    row@.len() == x,
                    forall|y: int| 0 <= y < x ==> #[trigger] row@[y] == (i != self.entry || y == i),
                decreases n - x,
            {
                row.push(i != self.entry || x == i);
                x = x + 1;
            }
            dom.push(row);
            i = i + 1;
        }
        proof {
            assert(rows_of(dom@).len() == n);
            assert forall|b: int, x: int| 0 <= b < n && b != e && 0 <= x < n && meets(bs, rows_of(dom@), b, x) implies #[trigger] rows_of(dom@)[b][x] by {
                assert(dom@[b]@[x]);
            }
            assert forall|d: Seq<Set<usize>>, b: int, x: usize|
                dom_solution(bs, e, d) && 0 <= b < n && #[trigger] d[b].contains(x) implies x < n && rows_of(dom@)[b][x as int] by {
                assert(d[b] == dom_step(bs, e, d, b));
                if b != e {
                    assert(dom@[b]@[x as int]);
                }
            }
        }
        let mut changed = true;
        while changed
            invariant
                n == bs.len(),
                bs == self.blocks@,
                e == self.entry,
                preds_ok(bs, preds@),
                rows_ok(n as int, e, rows_of(dom@)),
                dom@.len() == n,
                pre_fixed(bs, e, rows_of(dom@)),
                above_solutions(bs, e, rows_of(dom@)),
                !changed ==> settled_upto(bs, e, rows_of(dom@), n as int),
            decreases count_rows(rows_of(dom@), n as int) * 2 + if changed { 1int } else { 0int },
        {
            changed = false;
            let ghost start = count_rows(rows_of(dom@), n as int);
            let mut b: usize = 0;
            while b < n
                invariant
                    n == bs.len(),
                    bs == self.blocks@,
                    e == self.entry,
                    b <= n,
                    preds_ok(bs, preds@),
                    rows_ok(n as int, e, rows_of(dom@)),
                    dom@.len() == n,
                    pre_fixed(bs, e, rows_of(dom@)),
                    above_solutions(bs, e, rows_of(dom@)),
                    !changed ==> settled_upto(bs, e, rows_of(dom@), b as int),
                    !changed ==> count_rows(rows_of(dom@), n as int) == start,
                    changed ==> count_rows(rows_of(dom@), n as int) < start,
                decreases n - b,
            {
                if b != self.entry {
                    let ghost before = rows_of(dom@);
                    let moved = self.refine_row(&mut dom, &preds, b, Ghost(bs), Ghost(e));
                    if moved {
                        changed = true;
                    } else {
                        proof {
                            assert(rows_of(dom@) == before);
                        }
                    }
                }
                b = b + 1;
            }
        }
        proof {
            assert forall|b: int, x: int| 0 <= b < n && b != e && 0 <= x < n implies (#[trigger] dom@[b]@[x] <==> meets(bs, rows_of(dom@), b, x)) by {
                assert(rows_of(dom@)[b] == dom@[b]@);
            }
            assert forall|b: int| 0 <= b < n implies (#[trigger] dom@[b])@.len() == n by {
                assert(rows_of(dom@)[b] == dom@[b]@);
            }
            assert forall|x: int| 0 <= e < n && 0 <= x < n implies (#[trigger] dom@[e]@[x] <==> x == e) by {
                assert(rows_of(dom@)[e] == dom@[e]@);
            }
            assert forall|d: Seq<Set<usize>>, b: int, x: usize|
                dom_solution(bs, e, d) && 0 <= b < n && #[trigger] d[b].contains(x) implies x < n && dom@[b]@[x as int] by {
                assert(rows_of(dom@)[b] == dom@[b]@);
            }
        }
        proof {
            let rs = rows_of(dom@);
            let sets = row_sets(rs, n as int);
            assert forall|b: int| 0 <= b < n implies #[trigger] sets[b] == dom_step(bs, e, sets, b) by {
                if b == e {
                    assert(sets[b] =~= set![e as usize]);
                } else {
                    assert forall|x: usize| #[trigger] sets[b].contains(x) == dom_step(bs, e, sets, b).contains(x) by {
                        if x < n {
                            assert(rs[b][x as int] == meets(bs, rs, b, x as int));
                        }
                    }
                    assert(sets[b] =~= dom_step(bs, e, sets, b));
                }
            }
        }
        let mut out: Vec<HashSet<BlockId>> = Vec::new();
        let mut b: usize = 0;
        while b < n
            invariant
                b <= n,
                dom@.len() == n,
                forall|c: int| 0 <= c < n ==> (#[trigger] dom@[c])@.len() == n,
                out@.len() == b,
                forall|c: int| 0 <= c < b ==> (#[trigger] out@[c])@ == row_sets(rows_of(dom@), n as int)[c],
            decreases n - b,
        {
            let mut set: HashSet<BlockId> = HashSet::new();
            let mut x: usize = 0;
            while x < n
                invariant
                    x <= n,
                    b < n,
                    dom@.len() == n,
                    dom@[b as int]@.len() == n,
                    set@ == Set::new(|y: usize| y < x && dom@[b as int]@[y as int]),
                decreases n - x,
            {
                if dom[b][x] {
                    set.insert(x);
                }
                assert(set@ =~= Set::new(|y: usize| y < x + 1 && dom@[b as int]@[y as int]));
                x = x + 1;
            }
            assert(set@ =~= row_sets(rows_of(dom@), n as int)[b as int]);
            out.push(set);
            b = b + 1;
        }
        proof {
            let sets = row_sets(rows_of(dom@), n as int);
            assert(Seq::new(out@.len(), |c: int| out@[c]@) =~= sets);
        }
        out
    }

    /// Replaces the row of block `b` by one step of the equations; says
    /// whether it changed.
    fn refine_row(&self, dom: &mut Vec<Vec<bool>>, preds: &Vec<Vec<BlockId>>, b: usize, bs: Ghost<Seq<BasicBlock>>, e: Ghost<int>) -> (moved: bool)
        requires
            bs@ == self.blocks@,
            b < bs@.len(),
            b != e@,
            preds_ok(bs@, preds@),
            rows_ok(bs@.len() as int, e@, rows_of(old(dom)@)),
            pre_fixed(bs@, e@, rows_of(old(dom)@)),
            above_solutions(bs@, e@, rows_of(old(dom)@)),
        ensures
            rows_ok(bs@.len() as int, e@, rows_of(final(dom)@)),
            pre_fixed(bs@, e@, rows_of(final(dom)@)),
            above_solutions(bs@, e@, rows_of(final(dom)@)),
            !moved ==> final(dom)@ == old(dom)@,
            !moved ==> forall|x: int| 0 <= x < bs@.len() ==> (#[trigger] rows_of(final(dom)@)[b as int][x] <==> meets(bs@, rows_of(final(dom)@), b as int, x)),
            moved ==> count_rows(rows_of(final(dom)@), bs@.len() as int) < count_rows(rows_of(old(dom)@), bs@.len() as int),
            moved ==> forall|c: int, x: int| 0 <= c < bs@.len() && c != e@ && c != b && 0 <= x < bs@.len() ==> (#[trigger] rows_of(final(dom)@)[c][x] == rows_of(old(dom)@)[c][x]),
    {
        let n = dom.len();
        let ghost old_rows = rows_of(dom@);
        proof {
            assert forall|c: int| 0 <= c < n implies (#[trigger] dom@[c])@.len() == n by {
                assert(old_rows[c] == dom@[c]@);
            }
        }
        let new_row = self.dominator_step(dom, preds, b, bs);
        let mut same = true;
        let mut x: usize = 0;
        proof {
            assert(old_rows[b as int] == dom@[b as int]@);
        }
        while x < n
            invariant
                x <= n,
                new_row@.len() == n,
                dom@.len() == n,
                b < n,
                dom@[b as int]@.len() == n,
                same <==> forall|y: int| 0 <= y < x ==> new_row@[y] == dom@[b as int]@[y],
            decreases n - x,
        {
            if new_row[x] != dom[b][x] {
                same = false;
            }
            x = x + 1;
        }
        if same {
            proof {
                assert forall|x: int| 0 <= x < n implies (#[trigger] rows_of(dom@)[b as int][x] <==> meets(bs@, rows_of(dom@), b as int, x)) by {
                    assert(new_row@[x] == meets(bs@, old_rows, b as int, x));
                    assert(rows_of(dom@)[b as int] == dom@[b as int]@);
                }
            }
            return false;
        }
        proof {
            let y = choose|y: int| 0 <= y < n && new_row@[y] != dom@[b as int]@[y];
            assert(new_row@[y] == meets(bs@, old_rows, b as int, y));
            assert forall|z: int| 0 <= z < n && #[trigger] new_row@[z] implies old_rows[b as int][z] by {
                assert(new_row@[z] == meets(bs@, old_rows, b as int, z));
            }
            lemma_count_row_sub(new_row@, old_rows[b as int], n as int);
            lemma_count_rows_update(old_rows, b as int, new_row@, n as int);
            assert forall|s: Seq<Set<usize>>, x: usize|
                dom_solution(bs@, e@, s) && #[trigger] s[b as int].contains(x) implies x < n && new_row@[x as int] by {
                assert(s[b as int] == dom_step(bs@, e@, s, b as int));
                if x != b {
                    assert forall|p: int| 0 <= p < bs@.len() && #[trigger] jumps_to(bs@, p, b as int) implies old_rows[p][x as int] by {
                        assert(s[p].contains(x));
                    }
                }
                assert(meets(bs@, old_rows, b as int, x as int));
                assert(new_row@[x as int] == meets(bs@, old_rows, b as int, x as int));
            }
        }
        dom.set(b, new_row);
        proof {
            let rs = rows_of(dom@);
            assert(rs =~= old_rows.update(b as int, new_row@));
            assert forall|c: int, x: int| 0 <= c < bs@.len() && c != e@ && 0 <= x < bs@.len() && meets(bs@, rs, c, x) implies #[trigger] rs[c][x] by {
                assert forall|p: int| 0 <= p < bs@.len() && #[trigger] jumps_to(bs@, p, c) && rs[p][x] implies old_rows[p][x] by {
                    if p == b {
                        assert(new_row@[x] == meets(bs@, old_rows, b as int, x));
                    }
                }
                assert(meets(bs@, old_rows, c, x));
                if c == b {
                    assert(new_row@[x] == meets(bs@, old_rows, b as int, x));
                }
            }
            assert forall|s: Seq<Set<usize>>, c: int, x: usize|
                dom_solution(bs@, e@, s) && 0 <= c < bs@.len() && #[trigger] s[c].contains(x) implies x < bs@.len() && rs[c][x as int] by {
                if c == b {
                    assert(s[b as int].contains(x));
                }
            }
            assert forall|c: int| 0 <= c < n implies (#[trigger] rs[c]).len() == n by {
                if c == b {
                    assert(rs[c] == new_row@);
                }
            }
        }
        true
    }

    /// The step of the dominator equations at block `b`, from the current
    /// rows: all blocks, cut down by the rows of the blocks that jump to
    /// `b`, and `b` itself.
    fn dominator_step(&self, dom: &Vec<Vec<bool>>, preds: &Vec<Vec<BlockId>>, b: usize, bs: Ghost<Seq<BasicBlock>>) -> (r: Vec<bool>)
        requires
            bs@ == self.blocks@,
            b < bs@.len(),
            dom@.len() == bs@.len(),
            forall|c: int| 0 <= c < bs@.len() ==> (#[trigger] dom@[c])@.len() == bs@.len(),
            preds@.len() == bs@.len(),
            forall|c: int, k: int|
                0 <= c < bs@.len() && 0 <= k < preds@[c]@.len() ==> (#[trigger] preds@[c]@[k]) < bs@.len() && jumps_to(bs@, preds@[c]@[k] as int, c),
            forall|c: int, p: int| 0 <= c < bs@.len() && 0 <= p < bs@.len() && #[trigger] jumps_to(bs@, p, c) ==> preds@[c]@.contains(p as usize),
        ensures
            r@.len() == bs@.len(),
            forall|x: int| 0 <= x < bs@.len() ==> #[trigger] r@[x] == meets(bs@, rows_of(dom@), b as int, x),
    {
        let n = dom.len();
        let ps = &preds[b];
        let mut row: Vec<bool> = Vec::new();
        let mut x: usize = 0;
        while x < n
            invariant
                x <= n,
                row@.len() == x,
                forall|y: int| 0 <= y < x ==> row@[y],
            decreases n - x,
        {
            row.push(true);
            x = x + 1;
        }
        let mut k: usize = 0;
        while k < ps.len()
            invariant
                n == bs@.len(),
                dom@.len() == n,
                forall|c: int| 0 <= c < n ==> (#[trigger] dom@[c])@.len() == n,
                ps@ == preds@[b as int]@,
                b < n,
                forall|j: int| 0 <= j < ps@.len() ==> (#[trigger] ps@[j]) < n,
                k <= ps@.len(),
                row@.len() == n,
                forall|y: int| 0 <= y < n ==> (#[trigger] row@[y] <==> forall|j: int| 0 <= j < k ==> dom@[ps@[j] as int]@[y]),
            decreases ps@.len() - k,
        {
            let p = ps[k];
            let mut y: usize = 0;
            let ghost before = row@;
            while y < n
                invariant
                    n == bs@.len(),
                    dom@.len() == n,
                    p < n,
                    dom@[p as int]@.len() == n,
                    y <= n,
                    row@.len() == n,
                    before.len() == n,
                    forall|z: int| 0 <= z < y ==> #[trigger] row@[z] == (before[z] && dom@[p as int]@[z]),
                    forall|z: int| y <= z < n ==> #[trigger] row@[z] == before[z],
                decreases n - y,
            {
                let ghost pre = row@;
                assert(pre[y as int] == before[y as int]);
                let a = row[y];
                let c = dom[p][y];
                let v = a && c;
                assert(a == pre[y as int]);
                assert(c == dom@[p as int]@[y as int]);
                assert(v == (before[y as int] && dom@[p as int]@[y as int]));
                row.set(y, v);
                proof {
                    assert forall|z: int| 0 <= z < y + 1 implies row@[z] == (before[z] && dom@[p as int]@[z]) by {
                        if z < y {
                            assert(row@[z] == pre[z]);
                        } else {
                            assert(row@[z] == v);
                        }
                    }
                }
                y = y + 1;
            }
            proof {
                assert forall|z: int| 0 <= z < n implies (#[trigger] row@[z] <==> forall|j: int| 0 <= j < k + 1 ==> dom@[ps@[j] as int]@[z]) by {
                    if row@[z] {
                        assert forall|j: int| 0 <= j < k + 1 implies dom@[ps@[j] as int]@[z] by {
                            if j < k {
                                assert(before[z]);
                            }
                        }
                    } else {
                        if before[z] {
                            assert(!dom@[ps@[k as int] as int]@[z]);
                        } else {
                            let j = choose|j: int| 0 <= j < k && !dom@[ps@[j] as int]@[z];
                        }
                    }
                }
            }
            k = k + 1;
        }
        row.set(b, true);
        proof {
            let rs = rows_of(dom@);
            assert forall|x: int| 0 <= x < n implies #[trigger] row@[x] == meets(bs@, rs, b as int, x) by {
                if x != b {
                    if row@[x] {
                        assert forall|p: int| 0 <= p < bs@.len() && #[trigger] jumps_to(bs@, p, b as int) implies rs[p][x] by {
                            assert(ps@.contains(p as usize));
                            let j = choose|j: int| 0 <= j < ps@.len() && ps@[j] == p as usize;
                        }
                    } else {
                        let j = choose|j: int| 0 <= j < ps@.len() && !dom@[ps@[j] as int]@[x];
                        assert(jumps_to(bs@, ps@[j] as int, b as int));
                    }
                }
            }
        }
        row
    }
}

} // verus!
