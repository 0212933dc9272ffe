//! What lowering a function body to a control-flow graph makes of it, stated
//! over the mathematical pictures of blocks and graphs.
use vstd::prelude::*;
use crate::cfg::{BasicBlock, FunctionCFG, Terminator, ret_name};
use crate::expr::ExprV;
use crate::stmt::{StmtV, stmt_size, stmts_size, stmts_view, lemma_stmts_size_elem};
use crate::text::strings_view;
use crate::value::ValueV;

verus! {

/// The picture of a terminator.
pub enum TermV {
    Goto(int),
    Branch { cond: ExprV, then_block: int, else_block: int },
    Return(Option<ExprV>),
}

/// The picture of a block: its statements and how it ends, if it does.
pub struct BlockV {
    pub stmts: Seq<StmtV>,
    pub term: Option<TermV>,
}

/// The picture of a function graph.
pub struct GraphV {
    pub name: Seq<char>,
    pub params: Seq<Seq<char>>,
    pub captures: Seq<Seq<char>>,
    pub entry: int,
    pub exit: int,
    pub blocks: Seq<BlockV>,
    pub nested: Seq<NestedV>,
}

/// A nested function's name and graph.
pub struct NestedV {
    pub name: Seq<char>,
    pub graph: GraphV,
}

/// The state of lowering: the blocks so far, the block being filled, the
/// exit block, the targets of `break` and `continue` of the loops around,
/// and the nested functions met so far.
pub struct BuildV {
    pub blocks: Seq<BlockV>,
    pub curr: int,
    pub exit: int,
    pub brk: Seq<int>,
    pub cont: Seq<int>,
    pub nested: Seq<NestedV>,
}

pub open spec fn term_view(t: Option<Terminator>) -> Option<TermV> {
    match t {
        Some(Terminator::Goto(x)) => Some(TermV::Goto(x as int)),
        Some(Terminator::Branch { cond, then_block, else_block }) => Some(
            TermV::Branch { cond: cond@, then_block: then_block as int, else_block: else_block as int },
        ),
        Some(Terminator::Return(v)) => Some(
            TermV::Return(
                match v {
                    Some(e) => Some(e@),
                    None => None,
                },
            ),
        ),
        None => None,
    }
}

pub open spec fn block_view(b: BasicBlock) -> BlockV {
    BlockV { stmts: stmts_view(b.stmts@), term: term_view(b.terminator) }
}

pub open spec fn blocks_view(bs: Seq<BasicBlock>) -> Seq<BlockV> {
    Seq::new(bs.len(), |i: int| block_view(bs[i]))
}

/// The picture of a graph, nested functions included.
pub open spec fn graph_view(g: FunctionCFG) -> GraphV
    decreases g,
{
    GraphV {
        name: g.name@,
        params: strings_view(g.params@),
        captures: strings_view(g.captures@),
        entry: g.entry as int,
        exit: g.exit as int,
        blocks: blocks_view(g.blocks@),
        nested: Seq::new(
            g.nested_functions@.len(),
            |k: int|
                if 0 <= k < g.nested_functions@.len() {
                    NestedV {
                        name: g.nested_functions@[k].name@,
                        graph: graph_view(g.nested_functions@[k].cfg),
                    }
                } else {
                    NestedV { name: Seq::empty(), graph: arbitrary_graph() }
                },
        ),
    }
}

pub open spec fn arbitrary_graph() -> GraphV {
    GraphV {
        name: Seq::empty(),
        params: Seq::empty(),
        captures: Seq::empty(),
        entry: 0,
        exit: 0,
        blocks: Seq::empty(),
        nested: Seq::empty(),
    }
}

pub open spec fn empty_block() -> BlockV {
    BlockV { stmts: Seq::empty(), term: None }
}

/// Whether the block being filled has no terminator yet.
pub open spec fn is_open(st: BuildV) -> bool {
    st.blocks[st.curr].term is None
}

/// Appends a statement to the block being filled.
pub open spec fn emit(st: BuildV, s: StmtV) -> BuildV {
    BuildV {
        blocks: st.blocks.update(st.curr, BlockV { stmts: st.blocks[st.curr].stmts.push(s), term: st.blocks[st.curr].term }),
        ..st
    }
}

/// Ends the block being filled with a terminator.
pub open spec fn close(st: BuildV, t: TermV) -> BuildV {
    BuildV { blocks: st.blocks.update(st.curr, BlockV { stmts: st.blocks[st.curr].stmts, term: Some(t) }), ..st }
}

pub open spec fn add_block(st: BuildV) -> BuildV {
    BuildV { blocks: st.blocks.push(empty_block()), ..st }
}

pub open spec fn at(st: BuildV, c: int) -> BuildV {
    BuildV { curr: c, ..st }
}

/// The first place at or after `i` of a nested function named `name`.
pub open spec fn nested_place(ns: Seq<NestedV>, name: Seq<char>, i: int) -> Option<int>
    decreases ns.len() - i,
{
    if !(0 <= i < ns.len()) {
        None
    } else if ns[i].name == name {
        Some(i)
    } else {
        nested_place(ns, name, i + 1)
    }
}

/// Records a nested function, replacing the first one of the same name.
pub open spec fn add_nested(ns: Seq<NestedV>, name: Seq<char>, g: GraphV) -> Seq<NestedV> {
    match nested_place(ns, name, 0) {
        Some(k) => ns.update(k, NestedV { name, graph: g }),
        None => ns.push(NestedV { name, graph: g }),
    }
}

/// Lowers one statement into the state: nothing happens once the block
/// being filled is closed; `break` and `continue` close it with a jump to
/// the innermost loop's exit or condition; `return` assigns `__ret` and
/// jumps to the exit; loops and branches make blocks of their own; a
/// function is lowered to a graph of its own and leaves its declaration,
/// with an empty body; other statements are appended as they are.
pub open spec fn lower_stmt(st: BuildV, s: StmtV) -> BuildV
    decreases stmt_size(s), 2int, 0int,
{
    if !is_open(st) {
        st
    } else {
        match s {
            StmtV::Break => close(st, TermV::Goto(st.brk.last())),
            StmtV::Continue => close(st, TermV::Goto(st.cont.last())),
            StmtV::For { initializer, condition, step, body } => lower_loop(
                emit(st, *initializer),
                condition,
                body,
                Some(*step),
            ),
            StmtV::While { condition, body } => lower_loop(st, condition, body, None),
            StmtV::Function { name, params, body, captures } => emit(
                BuildV { nested: add_nested(st.nested, name, lower_function(name, params, captures, body)), ..st },
                StmtV::Function { name, params, body: Seq::empty(), captures },
            ),
            StmtV::If { condition, then_branch, else_branch } => lower_if(
                st,
                condition,
                then_branch,
                else_branch,
            ),
            StmtV::Return(v) => close(
                emit(
                    st,
                    StmtV::Assign {
                        name: ret_name(),
                        value: Box::new(
                            match v {
                                Some(e) => e,
                                None => ExprV::Literal(ValueV::Null),
                            },
                        ),
                    },
                ),
                TermV::Goto(st.exit),
            ),
            _ => emit(st, s),
        }
    }
}

/// Lowers the statements `b[i..]` one after another.
pub open spec fn lower_body(st: BuildV, b: Seq<StmtV>, i: int) -> BuildV
    decreases stmts_size(b), 3int, b.len() - i,
{
    if !(0 <= i < b.len()) {
        st
    } else {
        proof {
            lemma_stmts_size_elem(b, i);
        }
        lower_body(lower_stmt(st, b[i]), b, i + 1)
    }
}

/// A loop: a condition block that branches to the body or past the loop;
/// the body, with `break` going past the loop and `continue` to the
/// condition, ends with the step, if any, and a jump back.
pub open spec fn lower_loop(st: BuildV, cond: ExprV, body: Seq<StmtV>, step: Option<StmtV>) -> BuildV
    decreases stmts_size(body) + 1, 1int, 0int,
{
    let cond_bb = st.blocks.len() as int;
    let body_bb = cond_bb + 1;
    let exit_bb = cond_bb + 2;
    let a = add_block(add_block(add_block(st)));
    let b = close(at(close(a, TermV::Goto(cond_bb)), cond_bb), TermV::Branch { cond, then_block: body_bb, else_block: exit_bb });
    let c = at(BuildV { brk: b.brk.push(exit_bb), cont: b.cont.push(cond_bb), ..b }, body_bb);
    let d = lower_body(c, body, 0);
    let e = if is_open(d) {
        close(
            match step {
                Some(s) => emit(d, s),
                None => d,
            },
            TermV::Goto(cond_bb),
        )
    } else {
        d
    };
    at(BuildV { brk: e.brk.drop_last(), cont: e.cont.drop_last(), ..e }, exit_bb)
}

/// A branch: the current block branches to the `then` block and to the
/// `else` block (or straight to the join when there is none); each side
/// that runs to its end jumps to the join, where lowering goes on.
pub open spec fn lower_if(st: BuildV, cond: ExprV, then_b: Seq<StmtV>, else_b: Option<Seq<StmtV>>) -> BuildV
    decreases stmts_size(then_b) + match else_b {
        Some(b) => stmts_size(b),
        None => 0,
    } + 1, 1int, 0int,
{
    let then_bb = st.blocks.len() as int;
    let join_bb = then_bb + 1;
    let else_bb = if else_b is Some { then_bb + 2 } else { join_bb };
    let a = if else_b is Some { add_block(add_block(add_block(st))) } else { add_block(add_block(st)) };
    let b = close(a, TermV::Branch { cond, then_block: then_bb, else_block: else_bb });
    let c = lower_body(at(b, then_bb), then_b, 0);
    let d = if is_open(c) { close(c, TermV::Goto(join_bb)) } else { c };
    let e = match else_b {
        Some(eb) => {
            let x = lower_body(at(d, else_bb), eb, 0);
            if is_open(x) { close(x, TermV::Goto(join_bb)) } else { x }
        },
        None => d,
    };
    at(e, join_bb)
}

/// The graph of a function: block 0 is the entry, which starts by setting
/// `__ret` to null, and block 1 the exit, which returns `__ret`; a body
/// that runs to its end sets `__ret` to null and jumps to the exit.
pub open spec fn lower_function(name: Seq<char>, params: Seq<Seq<char>>, captures: Seq<Seq<char>>, body: Seq<StmtV>) -> GraphV
    decreases stmts_size(body) + 1, 1int, 0int,
{
    let null = ExprV::Literal(ValueV::Null);
    let st0 = BuildV {
        blocks: seq![
            BlockV { stmts: seq![StmtV::Var { name: ret_name(), initializer: Some(null) }], term: None },
            empty_block(),
        ],
        curr: 0,
        exit: 1,
        brk: Seq::empty(),
        cont: Seq::empty(),
        nested: Seq::empty(),
    };
    let st1 = lower_body(st0, body, 0);
    let st2 = if is_open(st1) {
        close(emit(st1, StmtV::Assign { name: ret_name(), value: Box::new(null) }), TermV::Goto(1))
    } else {
        st1
    };
    GraphV {
        name,
        params,
        captures,
        entry: 0,
        exit: 1,
        blocks: st2.blocks.update(1, BlockV { stmts: st2.blocks[1].stmts, term: Some(TermV::Return(Some(ExprV::Var(ret_name())))) }),
        nested: st2.nested,
    }
}


/// A statement that lowering leaves in a block: no branch, loop or jump.
pub open spec fn plain(s: StmtV) -> bool {
    !(s is If || s is While || s is For || s is Break || s is Continue || s is Return)
}

/// Whether a nested function of that name is recorded.
pub open spec fn registered(ns: Seq<NestedV>, name: Seq<char>) -> bool {
    exists|k: int| 0 <= k < ns.len() && #[trigger] ns[k].name == name
}

/// Every statement of the block is plain, and every function declaration
/// in it has an empty body and a recorded graph.
pub open spec fn flat_block(b: BlockV, ns: Seq<NestedV>) -> bool {
    forall|k: int|
        0 <= k < b.stmts.len() ==> plain(#[trigger] b.stmts[k]) && (b.stmts[k] is Function ==> b.stmts[k]->Function_body.len()
            == 0 && registered(ns, b.stmts[k]->Function_name))
}

pub open spec fn flat(st: BuildV) -> bool {
    &&& 0 <= st.curr < st.blocks.len()
    &&& forall|i: int| 0 <= i < st.blocks.len() ==> flat_block(#[trigger] st.blocks[i], st.nested)
}

/// Every `for` loop of the statement starts and steps with a plain
/// statement that declares no function (the parser makes them so).
pub open spec fn plain_steps(s: StmtV) -> bool
    decreases stmt_size(s), 0int, 0int,
{
    match s {
        StmtV::If { then_branch, else_branch, .. } => plain_steps_all(then_branch, 0) && match else_branch {
            Some(b) => plain_steps_all(b, 0),
            None => true,
        },
        StmtV::While { body, .. } => plain_steps_all(body, 0),
        StmtV::For { initializer, step, body, .. } => plain(*initializer) && !(*initializer is Function) && plain(*step)
            && !(*step is Function) && plain_steps_all(body, 0),
        StmtV::Function { body, .. } => plain_steps_all(body, 0),
        _ => true,
    }
}

pub open spec fn plain_steps_all(b: Seq<StmtV>, i: int) -> bool
    decreases stmts_size(b), 1int, b.len() - i,
{
    if !(0 <= i < b.len()) {
        true
    } else {
        proof {
            lemma_stmts_size_elem(b, i);
        }
        plain_steps(b[i]) && plain_steps_all(b, i + 1)
    }
}

proof fn lemma_flat_more_nested(st: BuildV, ns: Seq<NestedV>)
    requires
        flat(st),
        forall|nm: Seq<char>| registered(st.nested, nm) ==> registered(ns, nm),
    ensures
        flat(BuildV { nested: ns, ..st }),
{
    let st2 = BuildV { nested: ns, ..st };
    assert forall|i: int| 0 <= i < st2.blocks.len() implies flat_block(#[trigger] st2.blocks[i], st2.nested) by {
        assert(flat_block(st.blocks[i], st.nested));
        assert forall|k: int| 0 <= k < st2.blocks[i].stmts.len() implies plain(#[trigger] st2.blocks[i].stmts[k]) && (
        st2.blocks[i].stmts[k] is Function ==> st2.blocks[i].stmts[k]->Function_body.len() == 0 && registered(
            ns,
            st2.blocks[i].stmts[k]->Function_name,
        )) by {
            if st2.blocks[i].stmts[k] is Function {
                assert(registered(st.nested, st2.blocks[i].stmts[k]->Function_name));
            }
        }
    }
}

proof fn lemma_nested_place_found(ns: Seq<NestedV>, name: Seq<char>, i: int)
    requires
        0 <= i,
    ensures
        nested_place(ns, name, i) matches Some(k) ==> i <= k < ns.len() && ns[k].name == name,
    decreases ns.len() - i,
{
    if 0 <= i < ns.len() && ns[i].name != name {
        lemma_nested_place_found(ns, name, i + 1);
    }
}

proof fn lemma_add_nested_names(ns: Seq<NestedV>, name: Seq<char>, g: GraphV)
    ensures
        registered(add_nested(ns, name, g), name),
        forall|nm: Seq<char>| registered(ns, nm) ==> registered(add_nested(ns, name, g), nm),
{
    lemma_nested_place_found(ns, name, 0);
    let r = add_nested(ns, name, g);
    match nested_place(ns, name, 0) {
        Some(k) => {
            assert(r[k].name == name);
            assert forall|nm: Seq<char>| registered(ns, nm) implies registered(r, nm) by {
                let j = choose|j: int| 0 <= j < ns.len() && #[trigger] ns[j].name == nm;
                assert(r[j].name == nm);
            }
        },
        None => {
            assert(r[ns.len() as int].name == name);
            assert forall|nm: Seq<char>| registered(ns, nm) implies registered(r, nm) by {
                let j = choose|j: int| 0 <= j < ns.len() && #[trigger] ns[j].name == nm;
                assert(r[j].name == nm);
            }
        },
    }
}

proof fn lemma_flat_emit(st: BuildV, s: StmtV)
    requires
        flat(st),
        plain(s),
        s is Function ==> s->Function_body.len() == 0 && registered(st.nested, s->Function_name),
    ensures
        flat(emit(st, s)),
{
    let st2 = emit(st, s);
    assert forall|i: int| 0 <= i < st2.blocks.len() implies flat_block(#[trigger] st2.blocks[i], st2.nested) by {
        assert(flat_block(st.blocks[i], st.nested));
        if i == st.curr {
            assert forall|k: int| 0 <= k < st2.blocks[i].stmts.len() implies plain(#[trigger] st2.blocks[i].stmts[k]) && (
            st2.blocks[i].stmts[k] is Function ==> st2.blocks[i].stmts[k]->Function_body.len() == 0 && registered(
                st2.nested,
                st2.blocks[i].stmts[k]->Function_name,
            )) by {
                if k < st.blocks[i].stmts.len() {
                    assert(st2.blocks[i].stmts[k] == st.blocks[i].stmts[k]);
                }
            }
        }
    }
}

proof fn lemma_flat_close(st: BuildV, t: TermV)
    requires
        flat(st),
    ensures
        flat(close(st, t)),
{
    let st2 = close(st, t);
    assert forall|i: int| 0 <= i < st2.blocks.len() implies flat_block(#[trigger] st2.blocks[i], st2.nested) by {
        assert(flat_block(st.blocks[i], st.nested));
    }
}

proof fn lemma_flat_add(st: BuildV)
    requires
        flat(st),
    ensures
        flat(add_block(st)),
{
    let st2 = add_block(st);
    assert forall|i: int| 0 <= i < st2.blocks.len() implies flat_block(#[trigger] st2.blocks[i], st2.nested) by {
        if i < st.blocks.len() {
            assert(flat_block(st.blocks[i], st.nested));
        }
    }
}

proof fn lemma_flat_stmt(st: BuildV, s: StmtV)
    requires
        flat(st),
        plain_steps(s),
    ensures
        flat(lower_stmt(st, s)),
        lower_stmt(st, s).blocks.len() >= st.blocks.len(),
        forall|nm: Seq<char>| registered(st.nested, nm) ==> registered(lower_stmt(st, s).nested, nm),
    decreases stmt_size(s), 2int, 0int,
{
    if is_open(st) {
        match s {
            StmtV::Break => lemma_flat_close(st, TermV::Goto(st.brk.last())),
            StmtV::Continue => lemma_flat_close(st, TermV::Goto(st.cont.last())),
            StmtV::For { initializer, condition, step, body } => {
                lemma_flat_emit(st, *initializer);
                lemma_flat_loop(emit(st, *initializer), condition, body, Some(*step));
            },
            StmtV::While { condition, body } => lemma_flat_loop(st, condition, body, None),
            StmtV::Function { name, params, body, captures } => {
                let g = lower_function(name, params, captures, body);
                lemma_add_nested_names(st.nested, name, g);
                let st1 = BuildV { nested: add_nested(st.nested, name, g), ..st };
                lemma_flat_more_nested(st, add_nested(st.nested, name, g));
                lemma_flat_emit(st1, StmtV::Function { name, params, body: Seq::empty(), captures });
            },
            StmtV::If { condition, then_branch, else_branch } => lemma_flat_if(st, condition, then_branch, else_branch),
            StmtV::Return(v) => {
                let a = StmtV::Assign {
                    name: ret_name(),
                    value: Box::new(
                        match v {
                            Some(e) => e,
                            None => ExprV::Literal(ValueV::Null),
                        },
                    ),
                };
                lemma_flat_emit(st, a);
                lemma_flat_close(emit(st, a), TermV::Goto(st.exit));
            },
            _ => lemma_flat_emit(st, s),
        }
    }
}

proof fn lemma_flat_body(st: BuildV, b: Seq<StmtV>, i: int)
    requires
        flat(st),
        plain_steps_all(b, i),
    ensures
        flat(lower_body(st, b, i)),
        lower_body(st, b, i).blocks.len() >= st.blocks.len(),
        forall|nm: Seq<char>| registered(st.nested, nm) ==> registered(lower_body(st, b, i).nested, nm),
    decreases stmts_size(b), 3int, b.len() - i,
{
    if 0 <= i < b.len() {
        lemma_stmts_size_elem(b, i);
        lemma_flat_stmt(st, b[i]);
        lemma_flat_body(lower_stmt(st, b[i]), b, i + 1);
    }
}

proof fn lemma_flat_loop(st: BuildV, cond: ExprV, body: Seq<StmtV>, step: Option<StmtV>)
    requires
        flat(st),
        plain_steps_all(body, 0),
        step matches Some(x) ==> plain(x) && !(x is Function),
    ensures
        flat(lower_loop(st, cond, body, step)),
        lower_loop(st, cond, body, step).blocks.len() >= st.blocks.len(),
        forall|nm: Seq<char>| registered(st.nested, nm) ==> registered(lower_loop(st, cond, body, step).nested, nm),
    decreases stmts_size(body) + 1, 1int, 0int,
{
    let cond_bb = st.blocks.len() as int;
    let body_bb = cond_bb + 1;
    let exit_bb = cond_bb + 2;
    lemma_flat_add(st);
    lemma_flat_add(add_block(st));
    lemma_flat_add(add_block(add_block(st)));
    let a = add_block(add_block(add_block(st)));
    lemma_flat_close(a, TermV::Goto(cond_bb));
    lemma_flat_close(at(close(a, TermV::Goto(cond_bb)), cond_bb), TermV::Branch { cond, then_block: body_bb, else_block: exit_bb });
    let b = close(at(close(a, TermV::Goto(cond_bb)), cond_bb), TermV::Branch { cond, then_block: body_bb, else_block: exit_bb });
    let c = at(BuildV { brk: b.brk.push(exit_bb), cont: b.cont.push(cond_bb), ..b }, body_bb);
    assert(flat(c));
    lemma_flat_body(c, body, 0);
    let d = lower_body(c, body, 0);
    if is_open(d) {
        match step {
            Some(x) => {
                lemma_flat_emit(d, x);
                lemma_flat_close(emit(d, x), TermV::Goto(cond_bb));
            },
            None => lemma_flat_close(d, TermV::Goto(cond_bb)),
        }
    }
    let e = if is_open(d) {
        close(
            match step {
                Some(x) => emit(d, x),
                None => d,
            },
            TermV::Goto(cond_bb),
        )
    } else {
        d
    };
    let f = BuildV { brk: e.brk.drop_last(), cont: e.cont.drop_last(), ..e };
    assert(flat(f));
    assert(flat(at(f, exit_bb)));
}

proof fn lemma_flat_if(st: BuildV, cond: ExprV, then_b: Seq<StmtV>, else_b: Option<Seq<StmtV>>)
    requires
        flat(st),
        plain_steps_all(then_b, 0),
        else_b matches Some(x) ==> plain_steps_all(x, 0),
    ensures
        flat(lower_if(st, cond, then_b, else_b)),
        lower_if(st, cond, then_b, else_b).blocks.len() >= st.blocks.len(),
        forall|nm: Seq<char>| registered(st.nested, nm) ==> registered(lower_if(st, cond, then_b, else_b).nested, nm),
    decreases stmts_size(then_b) + match else_b {
        Some(b) => stmts_size(b),
        None => 0,
    } + 1, 1int, 0int,
{
    let then_bb = st.blocks.len() as int;
    let join_bb = then_bb + 1;
    let else_bb = if else_b is Some { then_bb + 2 } else { join_bb };
    lemma_flat_add(st);
    lemma_flat_add(add_block(st));
    lemma_flat_add(add_block(add_block(st)));
    let a = if else_b is Some { add_block(add_block(add_block(st))) } else { add_block(add_block(st)) };
    lemma_flat_close(a, TermV::Branch { cond, then_block: then_bb, else_block: else_bb });
    let b = close(a, TermV::Branch { cond, then_block: then_bb, else_block: else_bb });
    assert(flat(at(b, then_bb)));
    lemma_flat_body(at(b, then_bb), then_b, 0);
    let c = lower_body(at(b, then_bb), then_b, 0);
    if is_open(c) {
        lemma_flat_close(c, TermV::Goto(join_bb));
    }
    let d = if is_open(c) { close(c, TermV::Goto(join_bb)) } else { c };
    assert(flat(at(d, else_bb)));
    match else_b {
        Some(eb) => {
            lemma_flat_body(at(d, else_bb), eb, 0);
            let x = lower_body(at(d, else_bb), eb, 0);
            if is_open(x) {
                lemma_flat_close(x, TermV::Goto(join_bb));
            }
        },
        None => {},
    }
    let e = match else_b {
        Some(eb) => {
            let x = lower_body(at(d, else_bb), eb, 0);
            if is_open(x) { close(x, TermV::Goto(join_bb)) } else { x }
        },
        None => d,
    };
    assert(flat(e));
    assert(flat(at(e, join_bb)));
}

/// Lowering leaves only plain statements in the blocks of a function's
/// graph: no branch, loop, jump or `return` stays, and every function
/// declaration left has an empty body and its own graph recorded among the
/// nested functions. The graph keeps the name, parameters and captures.
pub proof fn law_lowering_leaves_plain_blocks(
    name: Seq<char>,
    params: Seq<Seq<char>>,
    captures: Seq<Seq<char>>,
    body: Seq<StmtV>,
)
    requires
        plain_steps_all(body, 0),
    ensures
        ({
            let g = lower_function(name, params, captures, body);
            &&& g.name == name
            &&& g.params == params
            &&& g.captures == captures
            &&& forall|i: int| 0 <= i < g.blocks.len() ==> flat_block(#[trigger] g.blocks[i], g.nested)
        }),
{
    let null = ExprV::Literal(ValueV::Null);
    let st0 = BuildV {
        blocks: seq![
            BlockV { stmts: seq![StmtV::Var { name: ret_name(), initializer: Some(null) }], term: None },
            empty_block(),
        ],
        curr: 0,
        exit: 1,
        brk: Seq::empty(),
        cont: Seq::empty(),
        nested: Seq::empty(),
    };
    assert(flat_block(st0.blocks[0], st0.nested));
    assert(flat_block(st0.blocks[1], st0.nested));
    assert(flat(st0));
    lemma_flat_body(st0, body, 0);
    let st1 = lower_body(st0, body, 0);
    if is_open(st1) {
        let a = StmtV::Assign { name: ret_name(), value: Box::new(null) };
        lemma_flat_emit(st1, a);
        lemma_flat_close(emit(st1, a), TermV::Goto(1));
    }
    let st2 = if is_open(st1) {
        close(emit(st1, StmtV::Assign { name: ret_name(), value: Box::new(null) }), TermV::Goto(1))
    } else {
        st1
    };
    let g = lower_function(name, params, captures, body);
    assert(flat(st2));
    assert forall|i: int| 0 <= i < g.blocks.len() implies flat_block(#[trigger] g.blocks[i], g.nested) by {
        assert(flat_block(st2.blocks[i], st2.nested));
        assert(g.blocks[i].stmts == st2.blocks[i].stmts);
    }
}


/// `r` comes from `st` by lowering: the blocks before it stay as they were,
/// but for the one being filled; the loop targets and the exit are kept;
/// lowering goes on in that block or in a new one.
pub open spec fn frame(st: BuildV, r: BuildV) -> bool {
    &&& st.blocks.len() <= r.blocks.len()
    &&& forall|k: int| 0 <= k < st.blocks.len() && k != st.curr ==> #[trigger] r.blocks[k] == st.blocks[k]
    &&& r.brk == st.brk
    &&& r.cont == st.cont
    &&& r.exit == st.exit
    &&& (r.curr == st.curr || st.blocks.len() <= r.curr)
    &&& 0 <= r.curr < r.blocks.len()
}

/// A statement after which lowering goes on in the same line of control:
/// no `break`, `continue` or `return`.
pub open spec fn no_jump(s: StmtV) -> bool {
    !(s is Break || s is Continue || s is Return)
}

pub open spec fn runs_through(b: Seq<StmtV>, i: int) -> bool {
    forall|k: int| i <= k < b.len() ==> no_jump(#[trigger] b[k])
}

proof fn lemma_frame_trans(a: BuildV, b: BuildV, c: BuildV)
    requires
        0 <= a.curr < a.blocks.len(),
        frame(a, b),
        frame(b, c),
    ensures
        frame(a, c),
{
    assert forall|k: int| 0 <= k < a.blocks.len() && k != a.curr implies #[trigger] c.blocks[k] == a.blocks[k] by {
        assert(k != b.curr);
        assert(c.blocks[k] == b.blocks[k]);
    }
}

proof fn lemma_frame_stmt(st: BuildV, s: StmtV)
    requires
        0 <= st.curr < st.blocks.len(),
    ensures
        frame(st, lower_stmt(st, s)),
        is_open(st) && no_jump(s) ==> is_open(lower_stmt(st, s)),
    decreases stmt_size(s), 2int, 0int,
{
    if is_open(st) {
        match s {
            StmtV::For { initializer, condition, step, body } => {
                lemma_frame_loop(emit(st, *initializer), condition, body, Some(*step));
            },
            StmtV::While { condition, body } => lemma_frame_loop(st, condition, body, None),
            StmtV::If { condition, then_branch, else_branch } => lemma_frame_if(st, condition, then_branch, else_branch),
            _ => {},
        }
    }
}

proof fn lemma_frame_body(st: BuildV, b: Seq<StmtV>, i: int)
    requires
        0 <= st.curr < st.blocks.len(),
    ensures
        frame(st, lower_body(st, b, i)),
        is_open(st) && runs_through(b, i) ==> is_open(lower_body(st, b, i)),
    decreases stmts_size(b), 3int, b.len() - i,
{
    if 0 <= i < b.len() {
        lemma_stmts_size_elem(b, i);
        lemma_frame_stmt(st, b[i]);
        let st1 = lower_stmt(st, b[i]);
        lemma_frame_body(st1, b, i + 1);
        lemma_frame_trans(st, st1, lower_body(st1, b, i + 1));
        if is_open(st) && runs_through(b, i) {
            assert(no_jump(b[i]));
            assert(runs_through(b, i + 1));
        }
    }
}

/// Appending a statement to, or closing, the block where lowering stands
/// keeps a frame.
proof fn lemma_frame_at_curr(c: BuildV, d: BuildV, e: BuildV)
    requires
        0 <= c.curr < c.blocks.len(),
        frame(c, d),
        e.blocks.len() == d.blocks.len(),
        forall|k: int| 0 <= k < d.blocks.len() && k != d.curr ==> #[trigger] e.blocks[k] == d.blocks[k],
        e.brk == d.brk && e.cont == d.cont && e.exit == d.exit && e.curr == d.curr,
    ensures
        frame(c, e),
{
    assert forall|k: int| 0 <= k < c.blocks.len() && k != c.curr implies #[trigger] e.blocks[k] == c.blocks[k] by {
        assert(k != d.curr);
        assert(e.blocks[k] == d.blocks[k]);
    }
}

proof fn lemma_frame_loop(st: BuildV, cond: ExprV, body: Seq<StmtV>, step: Option<StmtV>)
    requires
        0 <= st.curr < st.blocks.len(),
    ensures
        frame(st, lower_loop(st, cond, body, step)),
        is_open(lower_loop(st, cond, body, step)),
    decreases stmts_size(body) + 1, 1int, 0int,
{
    let cond_bb = st.blocks.len() as int;
    let body_bb = cond_bb + 1;
    let exit_bb = cond_bb + 2;
    let a = add_block(add_block(add_block(st)));
    let b = close(at(close(a, TermV::Goto(cond_bb)), cond_bb), TermV::Branch { cond, then_block: body_bb, else_block: exit_bb });
    let c = at(BuildV { brk: b.brk.push(exit_bb), cont: b.cont.push(cond_bb), ..b }, body_bb);
    assert(c.blocks.len() == st.blocks.len() + 3);
    assert(c.blocks[exit_bb] == empty_block());
    assert forall|k: int| 0 <= k < st.blocks.len() && k != st.curr implies #[trigger] c.blocks[k] == st.blocks[k] by {}
    lemma_frame_body(c, body, 0);
    let d = lower_body(c, body, 0);
    let e = if is_open(d) {
        close(
            match step {
                Some(x) => emit(d, x),
                None => d,
            },
            TermV::Goto(cond_bb),
        )
    } else {
        d
    };
    if is_open(d) {
        lemma_frame_at_curr(c, d, e);
    }
    assert(frame(c, e));
    assert(e.blocks[exit_bb] == empty_block()) by {
        assert(exit_bb != c.curr);
    }
    let f = at(BuildV { brk: e.brk.drop_last(), cont: e.cont.drop_last(), ..e }, exit_bb);
    assert(f == lower_loop(st, cond, body, step));
    assert forall|k: int| 0 <= k < st.blocks.len() && k != st.curr implies #[trigger] f.blocks[k] == st.blocks[k] by {
        assert(k != c.curr);
        assert(e.blocks[k] == c.blocks[k]);
    }
    assert(c.brk == st.brk.push(exit_bb));
    assert(f.brk =~= st.brk);
    assert(f.cont =~= st.cont);
}

proof fn lemma_frame_if(st: BuildV, cond: ExprV, then_b: Seq<StmtV>, else_b: Option<Seq<StmtV>>)
    requires
        0 <= st.curr < st.blocks.len(),
    ensures
        frame(st, lower_if(st, cond, then_b, else_b)),
        is_open(lower_if(st, cond, then_b, else_b)),
    decreases stmts_size(then_b) + match else_b {
        Some(b) => stmts_size(b),
        None => 0,
    } + 1, 1int, 0int,
{
    let then_bb = st.blocks.len() as int;
    let join_bb = then_bb + 1;
    let else_bb = if else_b is Some { then_bb + 2 } else { join_bb };
    let a = if else_b is Some { add_block(add_block(add_block(st))) } else { add_block(add_block(st)) };
    let b = close(a, TermV::Branch { cond, then_block: then_bb, else_block: else_bb });
    let b1 = at(b, then_bb);
    assert(b1.blocks[join_bb] == empty_block());
    lemma_frame_body(b1, then_b, 0);
    let c = lower_body(b1, then_b, 0);
    let d = if is_open(c) { close(c, TermV::Goto(join_bb)) } else { c };
    if is_open(c) {
        lemma_frame_at_curr(b1, c, d);
    }
    assert(frame(b1, d));
    assert(d.blocks[join_bb] == empty_block()) by {
        assert(join_bb != b1.curr);
    }
    let e = match else_b {
        Some(eb) => {
            let x = lower_body(at(d, else_bb), eb, 0);
            if is_open(x) { close(x, TermV::Goto(join_bb)) } else { x }
        },
        None => d,
    };
    match else_b {
        Some(eb) => {
            let d1 = at(d, else_bb);
            assert(else_bb < b1.blocks.len());
            assert(d1.blocks[else_bb] == b1.blocks[else_bb]);
            lemma_frame_body(d1, eb, 0);
            let x = lower_body(d1, eb, 0);
            if is_open(x) {
                lemma_frame_at_curr(d1, x, e);
            }
            assert(frame(d1, e));
            assert(e.blocks[join_bb] == empty_block()) by {
                assert(join_bb != d1.curr);
            }
            assert forall|k: int| 0 <= k < st.blocks.len() && k != st.curr implies #[trigger] e.blocks[k] == st.blocks[k] by {
                assert(k != d1.curr);
                assert(k != b1.curr);
                assert(e.blocks[k] == d1.blocks[k]);
                assert(d.blocks[k] == b1.blocks[k]);
            }
        },
        None => {
            assert forall|k: int| 0 <= k < st.blocks.len() && k != st.curr implies #[trigger] e.blocks[k] == st.blocks[k] by {
                assert(k != b1.curr);
                assert(d.blocks[k] == b1.blocks[k]);
            }
        },
    }
    assert(at(e, join_bb) == lower_if(st, cond, then_b, else_b));
}

/// Lowering a loop whose body runs to its end (no `break`, `continue` or
/// `return` among its statements): the block where lowering stood jumps to
/// a new condition block, after a `for` loop's initializer; the condition
/// block branches on the loop's condition to the body or past the loop; a
/// later block jumps back to the condition, after a `for` loop's step; and
/// lowering goes on, open, past the loop.
pub proof fn law_loop_lowering_shape(st: BuildV, s: StmtV)
    requires
        0 <= st.curr < st.blocks.len(),
        is_open(st),
        s is For || s is While,
        s is For ==> runs_through(s->For_body, 0),
        s is While ==> runs_through(s->While_body, 0),
    ensures
        ({
            let r = lower_stmt(st, s);
            let cond_bb = st.blocks.len() as int;
            &&& r.blocks[st.curr].term == Some(TermV::Goto(cond_bb))
            &&& s is For ==> r.blocks[st.curr].stmts.len() > 0 && r.blocks[st.curr].stmts.last() == *s->For_initializer
            &&& r.blocks[cond_bb].term == Some(
                TermV::Branch {
                    cond: if s is For { s->For_condition } else { s->While_condition },
                    then_block: cond_bb + 1,
                    else_block: cond_bb + 2,
                },
            )
            &&& exists|q: int|
                cond_bb < q < r.blocks.len() && #[trigger] r.blocks[q].term == Some(TermV::Goto(cond_bb)) && (s is For
                    ==> r.blocks[q].stmts.len() > 0 && r.blocks[q].stmts.last() == *s->For_step)
            &&& r.curr == cond_bb + 2
            &&& is_open(r)
        }),
{
    let body = if s is For { s->For_body } else { s->While_body };
    let cond = if s is For { s->For_condition } else { s->While_condition };
    let step = if s is For { Some(*s->For_step) } else { None };
    let st1 = if s is For { emit(st, *s->For_initializer) } else { st };
    let cond_bb = st.blocks.len() as int;
    let body_bb = cond_bb + 1;
    let exit_bb = cond_bb + 2;
    let a = add_block(add_block(add_block(st1)));
    let b = close(at(close(a, TermV::Goto(cond_bb)), cond_bb), TermV::Branch { cond, then_block: body_bb, else_block: exit_bb });
    let c = at(BuildV { brk: b.brk.push(exit_bb), cont: b.cont.push(cond_bb), ..b }, body_bb);
    assert(is_open(c));
    lemma_frame_body(c, body, 0);
    lemma_frame_loop(st1, cond, body, step);
    let d = lower_body(c, body, 0);
    let e = close(
        match step {
            Some(x) => emit(d, x),
            None => d,
        },
        TermV::Goto(cond_bb),
    );
    let r = lower_stmt(st, s);
    assert(r.blocks == e.blocks);
    let q = d.curr;
    assert(r.blocks[q].term == Some(TermV::Goto(cond_bb)));
    if s is For {
        assert(r.blocks[q].stmts == d.blocks[q].stmts.push(*s->For_step));
    }
    assert(d.blocks[st.curr] == c.blocks[st.curr]);
    assert(d.blocks[cond_bb] == c.blocks[cond_bb]);
}


/// Lowering an `if`: the block where lowering stood branches on the
/// condition to a new `then` block and to the `else` block, or, without an
/// `else`, straight to the join block; a `then` branch that runs to its end
/// jumps to the join; and lowering goes on, open, at the join.
pub proof fn law_if_lowering_shape(st: BuildV, s: StmtV)
    requires
        0 <= st.curr < st.blocks.len(),
        is_open(st),
        s is If,
    ensures
        ({
            let r = lower_stmt(st, s);
            let then_bb = st.blocks.len() as int;
            let join_bb = then_bb + 1;
            let else_bb = if s->If_else_branch is Some { then_bb + 2 } else { join_bb };
            &&& r.blocks[st.curr].term == Some(TermV::Branch { cond: s->If_condition, then_block: then_bb, else_block: else_bb })
            &&& r.curr == join_bb
            &&& is_open(r)
            &&& runs_through(s->If_then_branch, 0) ==> exists|q: int|
                then_bb <= q < r.blocks.len() && q != join_bb && #[trigger] r.blocks[q].term == Some(TermV::Goto(join_bb))
        }),
{
    let cond = s->If_condition;
    let then_b = s->If_then_branch;
    let else_b = s->If_else_branch;
    lemma_frame_if(st, cond, then_b, else_b);
    let then_bb = st.blocks.len() as int;
    let join_bb = then_bb + 1;
    let else_bb = if else_b is Some { then_bb + 2 } else { join_bb };
    let a = if else_b is Some { add_block(add_block(add_block(st))) } else { add_block(add_block(st)) };
    let b = close(a, TermV::Branch { cond, then_block: then_bb, else_block: else_bb });
    let b1 = at(b, then_bb);
    lemma_frame_body(b1, then_b, 0);
    let c = lower_body(b1, then_b, 0);
    let d = if is_open(c) { close(c, TermV::Goto(join_bb)) } else { c };
    if is_open(c) {
        lemma_frame_at_curr(b1, c, d);
    }
    let e = match else_b {
        Some(eb) => {
            let x = lower_body(at(d, else_bb), eb, 0);
            if is_open(x) { close(x, TermV::Goto(join_bb)) } else { x }
        },
        None => d,
    };
    let r = lower_stmt(st, s);
    assert(r.blocks == e.blocks);
    assert(d.blocks[st.curr] == b1.blocks[st.curr]);
    let q = c.curr;
    match else_b {
        Some(eb) => {
            let d1 = at(d, else_bb);
            lemma_frame_body(d1, eb, 0);
            let x = lower_body(d1, eb, 0);
            if is_open(x) {
                lemma_frame_at_curr(d1, x, e);
            }
            assert(e.blocks[st.curr] == d1.blocks[st.curr]);
            if is_open(c) {
                assert(q != else_bb);
                assert(e.blocks[q] == d.blocks[q]);
            }
        },
        None => {},
    }
    if runs_through(then_b, 0) {
        assert(is_open(c));
        assert(r.blocks[q].term == Some(TermV::Goto(join_bb)));
    }
}

} // verus!
