//! Bytecode generation straight from the syntax tree: loops and branches
//! become conditional and plain jumps to absolute positions, `break` and
//! `continue` jump to the end and to the next round of their loop, and a
//! function's body becomes code of its own.
use vstd::prelude::*;
use crate::codgen::{Bytecode, BytecodeV, CodeGen as Emitter, code_view, expr_code, no_jumps, lemma_expr_code_no_jumps, lemma_no_jumps_concat};
use crate::expr::{Expr, ExprV};
use crate::stmt::{Stmt, StmtV, stmts_view, stmt_size, stmts_size, lemma_stmts_size_elem, lemma_stmt_view_bodies};
use crate::text::{copy_string, copy_strings};
use crate::bodies::{block_decls, decls_ok, fn_count, emits, lemma_emits_none, lemma_emits_trans, lemma_plain_emits, stmt_decls};
use crate::codgen::{grows_plain, lemma_grows_plain_trans};

verus! {

/// The code that a statement starts at `base` with: `brk` and `cont` are
/// where a `break` and a `continue` of the loop around it jump.
pub open spec fn stmt_code_at(s: StmtV, base: int, brk: int, cont: int) -> Seq<BytecodeV>
    decreases stmt_size(s), 0int, 0int,
{
    match s {
        StmtV::Assign { name, value } => expr_code(*value) + seq![BytecodeV::StoreVar(name)],
        StmtV::Break => seq![BytecodeV::Jump(brk as usize)],
        StmtV::Continue => seq![BytecodeV::Jump(cont as usize)],
        StmtV::Decr(n) => seq![BytecodeV::LoadVar(n), BytecodeV::PushNum("-1"@), BytecodeV::Add, BytecodeV::StoreVar(n)],
        StmtV::Incr(n) => seq![BytecodeV::LoadVar(n), BytecodeV::PushNum("1"@), BytecodeV::Add, BytecodeV::StoreVar(n)],
        StmtV::Expression(e) => expr_code(e) + (match e {
            ExprV::ListMethodCall { object, .. } => seq![BytecodeV::StoreVar(object)],
            _ => seq![BytecodeV::Pop],
        }),
        StmtV::Print(e) => expr_code(e) + seq![BytecodeV::Print],
        StmtV::Return(v) => (match v {
            Some(e) => expr_code(e),
            None => seq![BytecodeV::PushNull],
        }) + seq![BytecodeV::Return],
        StmtV::Var { name, initializer } => (match initializer {
            Some(e) => expr_code(e),
            None => seq![BytecodeV::PushNull],
        }) + seq![BytecodeV::StoreVar(name)],
        StmtV::Function { name, params, captures, .. } => seq![
            BytecodeV::Function(name, params, captures),
            BytecodeV::StoreVar(name),
        ],
        StmtV::If { condition, then_branch, else_branch } => {
            let c = expr_code(condition);
            let t_at = base + c.len() + 1;
            let else_at = t_at + block_code_at(then_branch, 0, 0, 0, 0).len() + 1;
            let e = match else_branch {
                Some(b) => block_code_at(b, 0, else_at, brk, cont),
                None => Seq::empty(),
            };
            c + seq![BytecodeV::JumpIfFalse(else_at as usize)] + block_code_at(then_branch, 0, t_at, brk, cont)
                + seq![BytecodeV::Jump((else_at + e.len()) as usize)] + e
        },
        StmtV::While { condition, body } => {
            let c = expr_code(condition);
            let b_at = base + c.len() + 1;
            let out = b_at + block_code_at(body, 0, 0, 0, 0).len() + 1;
            c + seq![BytecodeV::JumpIfFalse(out as usize)] + block_code_at(body, 0, b_at, out, base)
                + seq![BytecodeV::Jump(base as usize)]
        },
        StmtV::For { initializer, condition, step, body } => {
            let init = stmt_code_at(*initializer, base, brk, cont);
            let c_at = base + init.len();
            let c = expr_code(condition);
            let b_at = c_at + c.len() + 1;
            let s_at = b_at + block_code_at(body, 0, 0, 0, 0).len();
            let out = s_at + stmt_code_at(*step, 0, 0, 0).len() + 1;
            init + c + seq![BytecodeV::JumpIfFalse(out as usize)] + block_code_at(body, 0, b_at, out, s_at)
                + stmt_code_at(*step, s_at, out, s_at) + seq![BytecodeV::Jump(c_at as usize)]
        },
    }
}

/// The code of the statements `b[i..]` laid out from `base` on.
pub open spec fn block_code_at(b: Seq<StmtV>, i: int, base: int, brk: int, cont: int) -> Seq<BytecodeV>
    decreases stmts_size(b), 1int, b.len() - i,
{
    if !(0 <= i < b.len()) {
        Seq::empty()
    } else {
        proof {
            lemma_stmts_size_elem(b, i);
        }
        let h = stmt_code_at(b[i], base, brk, cont);
        h + block_code_at(b, i + 1, base + h.len(), brk, cont)
    }
}

/// The code of a function body: its statements, then `null` for a body
/// that ends without a `return`.
pub open spec fn body_code(b: Seq<StmtV>) -> Seq<BytecodeV> {
    block_code_at(b, 0, 0, 0, 0) + seq![BytecodeV::PushNull]
}

/// Every `break` and `continue` of the statement has a loop around it in
/// its own function: `in_loop` tells whether the statement stands in one.
pub open spec fn jumps_placed(s: StmtV, in_loop: bool) -> bool
    decreases stmt_size(s), 0int, 0int,
{
    match s {
        StmtV::Break | StmtV::Continue => in_loop,
        StmtV::If { then_branch, else_branch, .. } => jumps_placed_all(then_branch, in_loop, 0) && match else_branch {
            Some(b) => jumps_placed_all(b, in_loop, 0),
            None => true,
        },
        StmtV::While { body, .. } => jumps_placed_all(body, true, 0),
        StmtV::For { initializer, step, body, .. } => jumps_placed(*initializer, in_loop) && jumps_placed(*step, true)
            && jumps_placed_all(body, true, 0),
        StmtV::Function { body, .. } => jumps_placed_all(body, false, 0),
        _ => true,
    }
}

pub open spec fn jumps_placed_all(b: Seq<StmtV>, in_loop: bool, i: int) -> bool
    decreases stmts_size(b), 1int, b.len() - i,
{
    if !(0 <= i < b.len()) {
        true
    } else {
        proof {
            lemma_stmts_size_elem(b, i);
        }
        jumps_placed(b[i], in_loop) && jumps_placed_all(b, in_loop, i + 1)
    }
}

/// Every function body inside the statement has code whose length fits a
/// machine word.
pub open spec fn bodies_fit(s: StmtV) -> bool
    decreases stmt_size(s), 0int, 0int,
{
    match s {
        StmtV::If { then_branch, else_branch, .. } => blocks_fit(then_branch, 0) && match else_branch {
            Some(b) => blocks_fit(b, 0),
            None => true,
        },
        StmtV::While { body, .. } => blocks_fit(body, 0),
        StmtV::For { initializer, step, body, .. } => bodies_fit(*initializer) && bodies_fit(*step) && blocks_fit(
            body,
            0,
        ),
        StmtV::Function { body, .. } => body_code(body).len() <= usize::MAX && blocks_fit(body, 0),
        _ => true,
    }
}

pub open spec fn blocks_fit(b: Seq<StmtV>, i: int) -> bool
    decreases stmts_size(b), 1int, b.len() - i,
{
    if !(0 <= i < b.len()) {
        true
    } else {
        proof {
            lemma_stmts_size_elem(b, i);
        }
        bodies_fit(b[i]) && blocks_fit(b, i + 1)
    }
}

/// Where a statement's code lands and where its jumps go does not change
/// how long it is.
pub proof fn lemma_stmt_code_len(s: StmtV, base: int, brk: int, cont: int)
    ensures
        stmt_code_at(s, base, brk, cont).len() == stmt_code_at(s, 0, 0, 0).len(),
    decreases stmt_size(s), 0int, 0int,
{
    match s {
        StmtV::If { condition, then_branch, else_branch } => {
            let c = expr_code(condition);
            lemma_block_code_len(then_branch, 0, base + c.len() + 1, brk, cont);
            lemma_block_code_len(then_branch, 0, c.len() as int + 1, 0, 0);
            match else_branch {
                Some(b) => {
                    let tl = block_code_at(then_branch, 0, 0, 0, 0).len() as int;
                    lemma_block_code_len(b, 0, base + c.len() + 1 + tl + 1, brk, cont);
                    lemma_block_code_len(b, 0, c.len() as int + 1 + tl + 1, 0, 0);
                },
                None => {},
            }
        },
        StmtV::While { condition, body } => {
            let c = expr_code(condition);
            let bl = block_code_at(body, 0, 0, 0, 0).len() as int;
            lemma_block_code_len(body, 0, base + c.len() + 1, base + c.len() + 1 + bl + 1, base);
            lemma_block_code_len(body, 0, c.len() as int + 1, c.len() as int + 1 + bl + 1, 0);
        },
        StmtV::For { initializer, condition, step, body } => {
            lemma_stmt_code_len(*initializer, base, brk, cont);
            let il = stmt_code_at(*initializer, 0, 0, 0).len() as int;
            let c = expr_code(condition);
            let bl = block_code_at(body, 0, 0, 0, 0).len() as int;
            let sl = stmt_code_at(*step, 0, 0, 0).len() as int;
            let b1 = base + il + c.len() + 1;
            let b0 = il + c.len() as int + 1;
            lemma_block_code_len(body, 0, b1, b1 + bl + sl + 1, b1 + bl);
            lemma_block_code_len(body, 0, b0, b0 + bl + sl + 1, b0 + bl);
            lemma_stmt_code_len(*step, b1 + bl, b1 + bl + sl + 1, b1 + bl);
            lemma_stmt_code_len(*step, b0 + bl, b0 + bl + sl + 1, b0 + bl);
        },
        _ => {},
    }
}

pub proof fn lemma_block_code_len(b: Seq<StmtV>, i: int, base: int, brk: int, cont: int)
    ensures
        block_code_at(b, i, base, brk, cont).len() == block_code_at(b, i, 0, 0, 0).len(),
    decreases stmts_size(b), 1int, b.len() - i,
{
    if 0 <= i < b.len() {
        lemma_stmts_size_elem(b, i);
        lemma_stmt_code_len(b[i], base, brk, cont);
        lemma_stmt_code_len(b[i], 0, 0, 0);
        let h = stmt_code_at(b[i], 0, 0, 0).len() as int;
        lemma_block_code_len(b, i + 1, base + h, brk, cont);
        lemma_block_code_len(b, i + 1, h, 0, 0);
    }
}

/// Every jump of `code` goes to a position from `lo` to `hi`, or, inside a
/// loop, to where its `break` or `continue` goes.
pub open spec fn jumps_within(code: Seq<BytecodeV>, lo: int, hi: int, in_loop: bool, brk: int, cont: int) -> bool {
    forall|k: int|
        #![trigger code[k]]
        0 <= k < code.len() ==> match code[k] {
            BytecodeV::Jump(t) => lo <= t <= hi || (in_loop && (t == brk || t == cont)),
            BytecodeV::JumpIfFalse(t) => lo <= t <= hi || (in_loop && (t == brk || t == cont)),
            _ => true,
        }
}

proof fn lemma_within_concat(a: Seq<BytecodeV>, b: Seq<BytecodeV>, lo: int, hi: int, il: bool, brk: int, cont: int)
    requires
        jumps_within(a, lo, hi, il, brk, cont),
        jumps_within(b, lo, hi, il, brk, cont),
    ensures
        jumps_within(a + b, lo, hi, il, brk, cont),
{
    assert forall|k: int| 0 <= k < (a + b).len() implies match #[trigger] (a + b)[k] {
        BytecodeV::Jump(t) => lo <= t <= hi || (il && (t == brk || t == cont)),
        BytecodeV::JumpIfFalse(t) => lo <= t <= hi || (il && (t == brk || t == cont)),
        _ => true,
    } by {
        if k < a.len() {
            assert((a + b)[k] == a[k]);
        } else {
            assert((a + b)[k] == b[k - a.len()]);
        }
    }
}

/// Widens the range, and takes in the loop's own targets when they lie in it.
proof fn lemma_within_widen(
    c: Seq<BytecodeV>,
    lo: int,
    hi: int,
    il: bool,
    brk: int,
    cont: int,
    lo2: int,
    hi2: int,
    il2: bool,
    brk2: int,
    cont2: int,
)
    requires
        jumps_within(c, lo, hi, il, brk, cont),
        lo2 <= lo,
        hi <= hi2,
        il ==> (lo2 <= brk <= hi2 || (il2 && (brk == brk2 || brk == cont2))),
        il ==> (lo2 <= cont <= hi2 || (il2 && (cont == brk2 || cont == cont2))),
    ensures
        jumps_within(c, lo2, hi2, il2, brk2, cont2),
{
    assert forall|k: int| 0 <= k < c.len() implies match #[trigger] c[k] {
        BytecodeV::Jump(t) => lo2 <= t <= hi2 || (il2 && (t == brk2 || t == cont2)),
        BytecodeV::JumpIfFalse(t) => lo2 <= t <= hi2 || (il2 && (t == brk2 || t == cont2)),
        _ => true,
    } by {
        match c[k] {
            BytecodeV::Jump(t) => {},
            BytecodeV::JumpIfFalse(t) => {},
            _ => {},
        }
    }
}

proof fn lemma_within_no_jumps(c: Seq<BytecodeV>, lo: int, hi: int, il: bool, brk: int, cont: int)
    requires
        no_jumps(c),
    ensures
        jumps_within(c, lo, hi, il, brk, cont),
{
    assert forall|k: int| 0 <= k < c.len() implies match #[trigger] c[k] {
        BytecodeV::Jump(t) => lo <= t <= hi || (il && (t == brk || t == cont)),
        BytecodeV::JumpIfFalse(t) => lo <= t <= hi || (il && (t == brk || t == cont)),
        _ => true,
    } by {
        assert(!(c[k] is Jump) && !(c[k] is JumpIfFalse));
    }
}

proof fn lemma_within_single(t: int, lo: int, hi: int, il: bool, brk: int, cont: int)
    requires
        0 <= t <= usize::MAX,
        (lo <= t <= hi) || (il && (t == brk || t == cont)),
    ensures
        jumps_within(seq![BytecodeV::Jump(t as usize)], lo, hi, il, brk, cont),
        jumps_within(seq![BytecodeV::JumpIfFalse(t as usize)], lo, hi, il, brk, cont),
{
    assert((t as usize) as int == t);
}

proof fn lemma_within_plain(c: Seq<BytecodeV>, lo: int, hi: int, il: bool, brk: int, cont: int)
    requires
        forall|k: int| 0 <= k < c.len() ==> !(#[trigger] c[k] is Jump) && !(c[k] is JumpIfFalse),
    ensures
        jumps_within(c, lo, hi, il, brk, cont),
{
    lemma_within_no_jumps(c, lo, hi, il, brk, cont);
}

proof fn lemma_expr_then(e: ExprV, tail: Seq<BytecodeV>, lo: int, hi: int, il: bool, brk: int, cont: int)
    requires
        no_jumps(tail),
    ensures
        jumps_within(expr_code(e) + tail, lo, hi, il, brk, cont),
{
    lemma_expr_code_no_jumps(e);
    lemma_no_jumps_concat(expr_code(e), tail);
    lemma_within_no_jumps(expr_code(e) + tail, lo, hi, il, brk, cont);
}

/// Every jump of a statement's code goes into that code or to its end, or,
/// for a `break` or `continue`, to where the loop around it sends them.
proof fn lemma_stmt_jumps(s: StmtV, base: int, brk: int, cont: int, il: bool)
    requires
        jumps_placed(s, il),
        0 <= base,
        base + stmt_code_at(s, 0, 0, 0).len() <= usize::MAX,
        0 <= brk <= usize::MAX,
        0 <= cont <= usize::MAX,
    ensures
        jumps_within(stmt_code_at(s, base, brk, cont), base, base + stmt_code_at(s, 0, 0, 0).len(), il, brk, cont),
    decreases stmt_size(s), 0int, 0int,
{
    lemma_stmt_code_len(s, base, brk, cont);
    let code = stmt_code_at(s, base, brk, cont);
    let hi = base + stmt_code_at(s, 0, 0, 0).len();
    match s {
        StmtV::If { condition, then_branch, else_branch } => {
            let c = expr_code(condition);
            let t_at = base + c.len() + 1;
            let tl = block_code_at(then_branch, 0, 0, 0, 0).len() as int;
            let else_at = t_at + tl + 1;
            let e = match else_branch {
                Some(b) => block_code_at(b, 0, else_at, brk, cont),
                None => Seq::empty(),
            };
            let el = e.len() as int;
            lemma_block_code_len(then_branch, 0, t_at, brk, cont);
            lemma_block_code_len(then_branch, 0, c.len() as int + 1, 0, 0);
            match else_branch {
                Some(b) => {
                    lemma_block_code_len(b, 0, else_at, brk, cont);
                    lemma_block_code_len(b, 0, c.len() + 1 + tl + 1, 0, 0);
                },
                None => {},
            }
            assert(hi == else_at + el);
            lemma_expr_code_no_jumps(condition);
            lemma_within_no_jumps(c, base, hi, il, brk, cont);
            lemma_within_single(else_at, base, hi, il, brk, cont);
            lemma_block_jumps(then_branch, 0, t_at, brk, cont, il);
            lemma_within_widen(block_code_at(then_branch, 0, t_at, brk, cont), t_at, t_at + tl, il, brk, cont, base, hi, il, brk, cont);
            lemma_within_single(else_at + el, base, hi, il, brk, cont);
            match else_branch {
                Some(b) => {
                    lemma_block_jumps(b, 0, else_at, brk, cont, il);
                    lemma_within_widen(e, else_at, else_at + el, il, brk, cont, base, hi, il, brk, cont);
                },
                None => {
                    lemma_within_no_jumps(e, base, hi, il, brk, cont);
                },
            }
            let p1 = c + seq![BytecodeV::JumpIfFalse(else_at as usize)];
            lemma_within_concat(c, seq![BytecodeV::JumpIfFalse(else_at as usize)], base, hi, il, brk, cont);
            let p2 = p1 + block_code_at(then_branch, 0, t_at, brk, cont);
            lemma_within_concat(p1, block_code_at(then_branch, 0, t_at, brk, cont), base, hi, il, brk, cont);
            let p3 = p2 + seq![BytecodeV::Jump((else_at + el) as usize)];
            lemma_within_concat(p2, seq![BytecodeV::Jump((else_at + el) as usize)], base, hi, il, brk, cont);
            lemma_within_concat(p3, e, base, hi, il, brk, cont);
            assert(code == p3 + e);
        },
        StmtV::While { condition, body } => {
            let c = expr_code(condition);
            let b_at = base + c.len() + 1;
            let bl = block_code_at(body, 0, 0, 0, 0).len() as int;
            let out = b_at + bl + 1;
            lemma_block_code_len(body, 0, b_at, out, base);
            lemma_block_code_len(body, 0, c.len() as int + 1, c.len() as int + 1 + bl + 1, 0);
            assert(hi == out);
            lemma_expr_code_no_jumps(condition);
            lemma_within_no_jumps(c, base, hi, il, brk, cont);
            lemma_within_single(out, base, hi, il, brk, cont);
            lemma_block_jumps(body, 0, b_at, out, base, true);
            let bc = block_code_at(body, 0, b_at, out, base);
            lemma_within_widen(bc, b_at, b_at + bl, true, out, base, base, hi, il, brk, cont);
            lemma_within_single(base, base, hi, il, brk, cont);
            let p1 = c + seq![BytecodeV::JumpIfFalse(out as usize)];
            lemma_within_concat(c, seq![BytecodeV::JumpIfFalse(out as usize)], base, hi, il, brk, cont);
            lemma_within_concat(p1, bc, base, hi, il, brk, cont);
            lemma_within_concat(p1 + bc, seq![BytecodeV::Jump(base as usize)], base, hi, il, brk, cont);
            assert(code == p1 + bc + seq![BytecodeV::Jump(base as usize)]);
        },
        StmtV::For { initializer, condition, step, body } => {
            let init = stmt_code_at(*initializer, base, brk, cont);
            let il0 = stmt_code_at(*initializer, 0, 0, 0).len() as int;
            lemma_stmt_code_len(*initializer, base, brk, cont);
            let c_at = base + il0;
            let c = expr_code(condition);
            let b_at = c_at + c.len() + 1;
            let bl = block_code_at(body, 0, 0, 0, 0).len() as int;
            let s_at = b_at + bl;
            let sl = stmt_code_at(*step, 0, 0, 0).len() as int;
            let out = s_at + sl + 1;
            lemma_block_code_len(body, 0, b_at, out, s_at);
            lemma_stmt_code_len(*step, s_at, out, s_at);
            let b0 = il0 + c.len() + 1;
            lemma_block_code_len(body, 0, b0, b0 + bl + sl + 1, b0 + bl);
            lemma_stmt_code_len(*step, b0 + bl, b0 + bl + sl + 1, b0 + bl);
            assert(hi == out);
            lemma_stmt_jumps(*initializer, base, brk, cont, il);
            lemma_within_widen(init, base, c_at, il, brk, cont, base, hi, il, brk, cont);
            lemma_expr_code_no_jumps(condition);
            lemma_within_no_jumps(c, base, hi, il, brk, cont);
            lemma_within_single(out, base, hi, il, brk, cont);
            let bc = block_code_at(body, 0, b_at, out, s_at);
            lemma_block_jumps(body, 0, b_at, out, s_at, true);
            lemma_within_widen(bc, b_at, b_at + bl, true, out, s_at, base, hi, il, brk, cont);
            let sc = stmt_code_at(*step, s_at, out, s_at);
            lemma_stmt_jumps(*step, s_at, out, s_at, true);
            lemma_within_widen(sc, s_at, s_at + sl, true, out, s_at, base, hi, il, brk, cont);
            lemma_within_single(c_at, base, hi, il, brk, cont);
            let j = seq![BytecodeV::JumpIfFalse(out as usize)];
            lemma_within_concat(init, c, base, hi, il, brk, cont);
            lemma_within_concat(init + c, j, base, hi, il, brk, cont);
            lemma_within_concat(init + c + j, bc, base, hi, il, brk, cont);
            lemma_within_concat(init + c + j + bc, sc, base, hi, il, brk, cont);
            lemma_within_concat(init + c + j + bc + sc, seq![BytecodeV::Jump(c_at as usize)], base, hi, il, brk, cont);
            assert(code == init + c + j + bc + sc + seq![BytecodeV::Jump(c_at as usize)]);
        },
        StmtV::Break => {
            lemma_within_single(brk, base, hi, il, brk, cont);
        },
        StmtV::Continue => {
            lemma_within_single(cont, base, hi, il, brk, cont);
        },
        StmtV::Assign { name, value } => {
            lemma_expr_then(*value, seq![BytecodeV::StoreVar(name)], base, hi, il, brk, cont);
        },
        StmtV::Expression(e) => {
            match e {
                ExprV::ListMethodCall { object, .. } => lemma_expr_then(e, seq![BytecodeV::StoreVar(object)], base, hi, il, brk, cont),
                _ => lemma_expr_then(e, seq![BytecodeV::Pop], base, hi, il, brk, cont),
            }
        },
        StmtV::Print(e) => {
            lemma_expr_then(e, seq![BytecodeV::Print], base, hi, il, brk, cont);
        },
        StmtV::Return(v) => {
            match v {
                Some(e) => lemma_expr_then(e, seq![BytecodeV::Return], base, hi, il, brk, cont),
                None => lemma_within_plain(code, base, hi, il, brk, cont),
            }
        },
        StmtV::Var { name, initializer } => {
            match initializer {
                Some(e) => lemma_expr_then(e, seq![BytecodeV::StoreVar(name)], base, hi, il, brk, cont),
                None => lemma_within_plain(code, base, hi, il, brk, cont),
            }
        },
        _ => {
            lemma_within_plain(code, base, hi, il, brk, cont);
        },
    }
}

proof fn lemma_block_jumps(b: Seq<StmtV>, i: int, base: int, brk: int, cont: int, il: bool)
    requires
        jumps_placed_all(b, il, i),
        0 <= base,
        base + block_code_at(b, i, 0, 0, 0).len() <= usize::MAX,
        0 <= brk <= usize::MAX,
        0 <= cont <= usize::MAX,
    ensures
        jumps_within(block_code_at(b, i, base, brk, cont), base, base + block_code_at(b, i, 0, 0, 0).len(), il, brk, cont),
    decreases stmts_size(b), 1int, b.len() - i,
{
    lemma_block_code_len(b, i, base, brk, cont);
    let hi = base + block_code_at(b, i, 0, 0, 0).len();
    if 0 <= i < b.len() {
        lemma_stmts_size_elem(b, i);
        let hl = stmt_code_at(b[i], 0, 0, 0).len() as int;
        lemma_stmt_code_len(b[i], base, brk, cont);
        lemma_block_code_len(b, i + 1, base + hl, brk, cont);
        lemma_block_code_len(b, i + 1, hl, 0, 0);
        let h = stmt_code_at(b[i], base, brk, cont);
        let t = block_code_at(b, i + 1, base + hl, brk, cont);
        let tl = block_code_at(b, i + 1, 0, 0, 0).len() as int;
        assert(hi == base + hl + tl);
        lemma_stmt_jumps(b[i], base, brk, cont, il);
        lemma_within_widen(h, base, base + hl, il, brk, cont, base, hi, il, brk, cont);
        lemma_block_jumps(b, i + 1, base + hl, brk, cont, il);
        lemma_within_widen(t, base + hl, hi, il, brk, cont, base, hi, il, brk, cont);
        lemma_within_concat(h, t, base, hi, il, brk, cont);
    } else {
        lemma_within_plain(block_code_at(b, i, base, brk, cont), base, hi, il, brk, cont);
    }
}

/// The code of a program whose `break`s and `continue`s all stand in loops
/// jumps only to its own positions, its end included.
pub proof fn law_program_jumps_land_in_code(ast: Seq<StmtV>)
    requires
        jumps_placed_all(ast, false, 0),
        block_code_at(ast, 0, 0, 0, 0).len() <= usize::MAX,
    ensures
        jumps_within(block_code_at(ast, 0, 0, 0, 0), 0, block_code_at(ast, 0, 0, 0, 0).len() as int, false, 0, 0),
{
    lemma_block_jumps(ast, 0, 0, 0, 0, false);
}

/// Generates code from a syntax tree.
pub struct CodeGen {
    out: Emitter,
}

impl CodeGen {
    /// The code generated so far.
    pub closed spec fn code(&self) -> Seq<BytecodeV> {
        self.out.code()
    }

    spec fn raw(&self) -> Seq<Bytecode> {
        self.out.raw()
    }

    pub fn new() -> (r: Self)
        ensures
            r.code() == Seq::<BytecodeV>::empty(),
    {
        CodeGen { out: Emitter::new() }
    }

    /// Generates the code of a program after what was generated before,
    /// and takes all of it out. The functions it declares carry, in the
    /// order they are declared, the code of their bodies. A `break` or `continue` must stand in a
    /// loop of its own function, and the code must fit a machine word.
    pub fn run(&mut self, ast: Vec<Stmt>) -> (r: Vec<Bytecode>)
        requires
            jumps_placed_all(stmts_view(ast@), false, 0),
            blocks_fit(stmts_view(ast@), 0),
            old(self).code().len() + block_code_at(stmts_view(ast@), 0, 0, 0, 0).len() <= usize::MAX,
        ensures
            code_view(r@) == old(self).code() + block_code_at(stmts_view(ast@), 0, old(self).code().len() as int, 0, 0),
            decls_ok(r@.subrange(old(self).code().len() as int, r@.len() as int), block_decls(stmts_view(ast@), 0)),
            final(self).code() == Seq::<BytecodeV>::empty(),
    {
        proof {
            lemma_block_code_len(stmts_view(ast@), 0, self.code().len() as int, 0, 0);
        }
        let ghost r0 = self.raw();
        proof {
            self.out.lemma_raw_code();
        }
        self.gen_block(&ast, 0, false, 0, 0);
        self.out.take_code()
    }

    fn gen_block(&mut self, b: &Vec<Stmt>, i: usize, in_loop: bool, brk: usize, cont: usize)
        requires
            jumps_placed_all(stmts_view(b@), in_loop, i as int),
            blocks_fit(stmts_view(b@), i as int),
            old(self).code().len() + block_code_at(stmts_view(b@), i as int, 0, 0, 0).len() <= usize::MAX,
        ensures
            final(self).code() == old(self).code() + block_code_at(stmts_view(b@), i as int, old(self).code().len() as int, brk as int, cont as int),
            emits(old(self).raw(), final(self).raw(), block_decls(stmts_view(b@), i as int)),
        decreases stmts_size(stmts_view(b@)), 2int, b@.len() - i,
    {
        let ghost bv = stmts_view(b@);
        let ghost base = self.code().len() as int;
        let ghost r0 = self.raw();
        if i >= b.len() {
            assert(self.code() =~= old(self).code() + block_code_at(bv, i as int, base, brk as int, cont as int));
            proof {
                lemma_emits_none(r0);
            }
            return;
        }
        proof {
            lemma_stmts_size_elem(bv, i as int);
            let h = stmt_code_at(bv[i as int], 0, 0, 0).len() as int;
            lemma_block_code_len(bv, i + 1, h, 0, 0);
            lemma_stmt_code_len(bv[i as int], base, brk as int, cont as int);
            lemma_block_code_len(bv, i + 1, base + h, brk as int, cont as int);
        }
        self.gen_stmt(&b[i], in_loop, brk, cont);
        let ghost r1 = self.raw();
        self.gen_block(b, i + 1, in_loop, brk, cont);
        assert(self.code() =~= old(self).code() + block_code_at(bv, i as int, base, brk as int, cont as int));
        proof {
            lemma_emits_trans(r0, r1, self.raw(), stmt_decls(bv[i as int]), block_decls(bv, i + 1));
        }
    }

    fn gen_stmt(&mut self, s: &Stmt, in_loop: bool, brk: usize, cont: usize)
        requires
            jumps_placed(s@, in_loop),
            bodies_fit(s@),
            old(self).code().len() + stmt_code_at(s@, 0, 0, 0).len() <= usize::MAX,
        ensures
            final(self).code() == old(self).code() + stmt_code_at(s@, old(self).code().len() as int, brk as int, cont as int),
            emits(old(self).raw(), final(self).raw(), stmt_decls(s@)),
        decreases stmt_size(s@), 1int, 0int,
    {
        let ghost r0 = self.raw();
        match s {
            Stmt::If { .. } => self.gen_if(s, in_loop, brk, cont),
            Stmt::While { .. } => self.gen_while(s, in_loop, brk, cont),
            Stmt::For { .. } => self.gen_for(s, in_loop, brk, cont),
            Stmt::Function { .. } => self.gen_function(s),
            _ => {
                self.gen_simple(s, brk, cont);
                proof {
                    lemma_plain_emits(r0, self.raw());
                    assert(stmt_decls(s@) =~= Seq::empty());
                }
            },
        }
    }

    fn gen_simple(&mut self, s: &Stmt, brk: usize, cont: usize)
        requires
            !(s@ is If || s@ is While || s@ is For || s@ is Function),
        ensures
            final(self).code() == old(self).code() + stmt_code_at(s@, old(self).code().len() as int, brk as int, cont as int),
            grows_plain(old(self).raw(), final(self).raw()),
    {
        let ghost c0 = self.code();
        match s {
            Stmt::Assign { name, value } => {
                self.out.visit_expr(value);
                self.out.emit(Bytecode::StoreVar(copy_string(name)));
            },
            Stmt::Break => {
                self.out.emit(Bytecode::Jump(brk));
            },
            Stmt::Continue => {
                self.out.emit(Bytecode::Jump(cont));
            },
            Stmt::Decr(n) => {
                self.out.emit(Bytecode::LoadVar(copy_string(n)));
                self.out.emit(Bytecode::PushNum("-1".to_owned()));
                self.out.emit(Bytecode::Add);
                self.out.emit(Bytecode::StoreVar(copy_string(n)));
            },
            Stmt::Incr(n) => {
                self.out.emit(Bytecode::LoadVar(copy_string(n)));
                self.out.emit(Bytecode::PushNum("1".to_owned()));
                self.out.emit(Bytecode::Add);
                self.out.emit(Bytecode::StoreVar(copy_string(n)));
            },
            Stmt::Expression(e) => {
                self.out.visit_expr(e);
                match e {
                    Expr::ListMethodCall { object, .. } => self.out.emit(Bytecode::StoreVar(copy_string(object))),
                    _ => self.out.emit(Bytecode::Pop),
                }
            },
            Stmt::Print(e) => {
                self.out.visit_expr(e);
                self.out.emit(Bytecode::Print);
            },
            Stmt::Return(v) => {
                match v {
                    Some(e) => self.out.visit_expr(e),
                    None => self.out.emit(Bytecode::PushNull),
                }
                self.out.emit(Bytecode::Return);
            },
            Stmt::Var { name, initializer } => {
                match initializer {
                    Some(e) => self.out.visit_expr(e),
                    None => self.out.emit(Bytecode::PushNull),
                }
                self.out.emit(Bytecode::StoreVar(copy_string(name)));
            },
            _ => {},
        }
        assert(self.code() =~= c0 + stmt_code_at(s@, c0.len() as int, brk as int, cont as int));
    }

    fn gen_function(&mut self, s: &Stmt)
        requires
            s@ is Function,
            jumps_placed(s@, false) || jumps_placed(s@, true),
            bodies_fit(s@),
        ensures
            final(self).code() == old(self).code() + stmt_code_at(s@, old(self).code().len() as int, 0, 0),
            emits(old(self).raw(), final(self).raw(), stmt_decls(s@)),
        decreases stmt_size(s@), 0int, 0int,
    {
        proof {
            lemma_stmt_view_bodies(s);
        }
        let ghost c0 = self.code();
        let ghost r0 = self.raw();
        match s {
            Stmt::Function { name, params, body, captures } => {
                let ghost fb = stmts_view(body@);
                let mut inner = CodeGen::new();
                let ghost i0 = inner.raw();
                proof {
                    inner.out.lemma_raw_code();
                }
                inner.gen_block(body, 0, false, 0, 0);
                let ghost i1 = inner.raw();
                inner.out.emit(Bytecode::PushNull);
                proof {
                    lemma_plain_emits(i1, inner.raw());
                    lemma_emits_trans(i0, i1, inner.raw(), block_decls(fb, 0), Seq::empty());
                    assert(block_decls(fb, 0) + Seq::<Seq<StmtV>>::empty() =~= block_decls(fb, 0));
                    assert(i0.len() == 0);
                    assert(inner.raw().subrange(0, inner.raw().len() as int) =~= inner.raw());
                }
                let code = inner.out.take_code();
                assert(decls_ok(code@, block_decls(fb, 0)));
                let f = Bytecode::Function(copy_string(name), copy_strings(params), copy_strings(captures), code);
                self.out.emit(f);
                self.out.emit(Bytecode::StoreVar(copy_string(name)));
                proof {
                    let seg = self.raw().subrange(r0.len() as int, self.raw().len() as int);
                    assert(self.raw().subrange(0, r0.len() as int) =~= r0);
                    assert(seg.len() == 2);
                    assert(seg[0] == f);
                    assert(!(seg[1] is Function));
                    assert(seg[0] is Function);
                    assert(fn_count(seg, 0) == 0);
                    assert(fn_count(seg, 1) == 1);
                    assert(fn_count(seg, 2) == 1);
                    assert(s@->Function_body == fb);
                    assert(stmt_decls(s@) == seq![fb]);
                    assert(code_view(code@) == body_code(fb));
                    assert(decls_ok(seg, seq![fb]));
                }
            },
            _ => {},
        }
        assert(self.code() =~= c0 + stmt_code_at(s@, c0.len() as int, 0, 0));
    }

    fn gen_if(&mut self, s: &Stmt, in_loop: bool, brk: usize, cont: usize)
        requires
            s@ is If,
            jumps_placed(s@, in_loop),
            bodies_fit(s@),
            old(self).code().len() + stmt_code_at(s@, 0, 0, 0).len() <= usize::MAX,
        ensures
            final(self).code() == old(self).code() + stmt_code_at(s@, old(self).code().len() as int, brk as int, cont as int),
            emits(old(self).raw(), final(self).raw(), stmt_decls(s@)),
        decreases stmt_size(s@), 0int, 0int,
    {
        proof {
            lemma_stmt_view_bodies(s);
            lemma_stmt_code_len(s@, old(self).code().len() as int, brk as int, cont as int);
        }
        let ghost c0 = self.code();
        let ghost base = c0.len() as int;
        match s {
            Stmt::If { condition, then_branch, else_branch } => {
                let ghost tv = stmts_view(then_branch@);
                let ghost cl = expr_code(condition@).len() as int;
                let ghost tl = block_code_at(tv, 0, 0, 0, 0).len() as int;
                proof {
                    lemma_block_code_len(tv, 0, base + cl + 1, brk as int, cont as int);
                    lemma_block_code_len(tv, 0, cl + 1, 0, 0);
                    match else_branch {
                        Some(b) => {
                            lemma_block_code_len(stmts_view(b@), 0, base + cl + 1 + tl + 1, brk as int, cont as int);
                            lemma_block_code_len(stmts_view(b@), 0, cl + 1 + tl + 1, 0, 0);
                        },
                        None => {},
                    }
                }
                let ghost r0 = self.raw();
                self.out.visit_expr(condition);
                let t = Self::block_len(then_branch, 0);
                let else_at = self.out.len() + 1 + t + 1;
                let ghost r1 = self.raw();
                self.out.emit(Bytecode::JumpIfFalse(else_at));
                let ghost r2 = self.raw();
                proof {
                    lemma_grows_plain_trans(r0, r1, r2);
                    lemma_plain_emits(r0, r2);
                }
                self.gen_block(then_branch, 0, in_loop, brk, cont);
                let ghost r3 = self.raw();
                let e = match else_branch {
                    Some(b) => Self::block_len(b, 0),
                    None => 0,
                };
                self.out.emit(Bytecode::Jump(else_at + e));
                let ghost r4 = self.raw();
                proof {
                    lemma_emits_trans(r0, r2, r3, Seq::empty(), block_decls(tv, 0));
                    lemma_plain_emits(r3, r4);
                    lemma_emits_trans(r0, r3, r4, Seq::empty() + block_decls(tv, 0), Seq::empty());
                    assert(Seq::<Seq<StmtV>>::empty() + block_decls(tv, 0) + Seq::<Seq<StmtV>>::empty() =~= block_decls(tv, 0));
                }
                match else_branch {
                    Some(b) => {
                        self.gen_block(b, 0, in_loop, brk, cont);
                        proof {
                            lemma_emits_trans(r0, r4, self.raw(), block_decls(tv, 0), block_decls(stmts_view(b@), 0));
                        }
                    },
                    None => {
                        proof {
                            assert(block_decls(tv, 0) + Seq::<Seq<StmtV>>::empty() =~= block_decls(tv, 0));
                        }
                    },
                }
            },
            _ => {},
        }
        assert(self.code() =~= c0 + stmt_code_at(s@, base, brk as int, cont as int));
    }

    fn gen_while(&mut self, s: &Stmt, in_loop: bool, brk: usize, cont: usize)
        requires
            s@ is While,
            jumps_placed(s@, in_loop),
            bodies_fit(s@),
            old(self).code().len() + stmt_code_at(s@, 0, 0, 0).len() <= usize::MAX,
        ensures
            final(self).code() == old(self).code() + stmt_code_at(s@, old(self).code().len() as int, brk as int, cont as int),
            emits(old(self).raw(), final(self).raw(), stmt_decls(s@)),
        decreases stmt_size(s@), 0int, 0int,
    {
        proof {
            lemma_stmt_view_bodies(s);
            lemma_stmt_code_len(s@, old(self).code().len() as int, brk as int, cont as int);
        }
        let ghost c0 = self.code();
        let ghost base = c0.len() as int;
        match s {
            Stmt::While { condition, body } => {
                let ghost bv = stmts_view(body@);
                let ghost cl = expr_code(condition@).len() as int;
                let ghost bl = block_code_at(bv, 0, 0, 0, 0).len() as int;
                proof {
                    lemma_block_code_len(bv, 0, base + cl + 1, base + cl + 1 + bl + 1, base);
                }
                let start = self.out.len();
                let ghost r0 = self.raw();
                self.out.visit_expr(condition);
                let b = Self::block_len(body, 0);
                let out = self.out.len() + 1 + b + 1;
                let ghost r1 = self.raw();
                self.out.emit(Bytecode::JumpIfFalse(out));
                let ghost r2 = self.raw();
                proof {
                    lemma_grows_plain_trans(r0, r1, r2);
                    lemma_plain_emits(r0, r2);
                }
                self.gen_block(body, 0, true, out, start);
                let ghost r3 = self.raw();
                self.out.emit(Bytecode::Jump(start));
                proof {
                    lemma_emits_trans(r0, r2, r3, Seq::empty(), block_decls(bv, 0));
                    lemma_plain_emits(r3, self.raw());
                    lemma_emits_trans(r0, r3, self.raw(), Seq::empty() + block_decls(bv, 0), Seq::empty());
                    assert(Seq::<Seq<StmtV>>::empty() + block_decls(bv, 0) + Seq::<Seq<StmtV>>::empty() =~= block_decls(bv, 0));
                }
            },
            _ => {},
        }
        assert(self.code() =~= c0 + stmt_code_at(s@, base, brk as int, cont as int));
    }

    #[verifier::rlimit(60)]
    fn gen_for(&mut self, s: &Stmt, in_loop: bool, brk: usize, cont: usize)
        requires
            s@ is For,
            jumps_placed(s@, in_loop),
            bodies_fit(s@),
            old(self).code().len() + stmt_code_at(s@, 0, 0, 0).len() <= usize::MAX,
        ensures
            final(self).code() == old(self).code() + stmt_code_at(s@, old(self).code().len() as int, brk as int, cont as int),
            emits(old(self).raw(), final(self).raw(), stmt_decls(s@)),
        decreases stmt_size(s@), 0int, 0int,
    {
        proof {
            lemma_stmt_view_bodies(s);
            lemma_stmt_code_len(s@, old(self).code().len() as int, brk as int, cont as int);
        }
        let ghost c0 = self.code();
        let ghost base = c0.len() as int;
        match s {
            Stmt::For { initializer, condition, step, body } => {
                let ghost bv = stmts_view(body@);
                let ghost il = stmt_code_at((**initializer)@, 0, 0, 0).len() as int;
                let ghost cl = expr_code(condition@).len() as int;
                let ghost bl = block_code_at(bv, 0, 0, 0, 0).len() as int;
                let ghost sl = stmt_code_at((**step)@, 0, 0, 0).len() as int;
                proof {
                    lemma_stmt_code_len((**initializer)@, base, brk as int, cont as int);
                    let b1 = base + il + cl + 1;
                    lemma_block_code_len(bv, 0, b1, b1 + bl + sl + 1, b1 + bl);
                    lemma_stmt_code_len((**step)@, b1 + bl, b1 + bl + sl + 1, b1 + bl);
                }
                let ghost r0 = self.raw();
                self.gen_stmt(initializer, in_loop, brk, cont);
                let ghost r1 = self.raw();
                let c_at = self.out.len();
                self.out.visit_expr(condition);
                let b = Self::block_len(body, 0);
                let s_at = self.out.len() + 1 + b;
                let st = Self::stmt_len(step);
                let out = s_at + st + 1;
                let ghost r2 = self.raw();
                self.out.emit(Bytecode::JumpIfFalse(out));
                let ghost r3 = self.raw();
                self.gen_block(body, 0, true, out, s_at);
                let ghost r4 = self.raw();
                self.gen_stmt(step, true, out, s_at);
                let ghost r5 = self.raw();
                self.out.emit(Bytecode::Jump(c_at));
                proof {
                    let di = stmt_decls((**initializer)@);
                    let db = block_decls(bv, 0);
                    let ds = stmt_decls((**step)@);
                    let z = Seq::<Seq<StmtV>>::empty();
                    lemma_grows_plain_trans(r1, r2, r3);
                    lemma_plain_emits(r1, r3);
                    lemma_emits_trans(r0, r1, r3, di, z);
                    lemma_emits_trans(r0, r3, r4, di + z, db);
                    lemma_emits_trans(r0, r4, r5, di + z + db, ds);
                    lemma_plain_emits(r5, self.raw());
                    lemma_emits_trans(r0, r5, self.raw(), di + z + db + ds, z);
                    assert(di + z + db + ds + z =~= di + db + ds);
                }
            },
            _ => {},
        }
        assert(self.code() =~= c0 + stmt_code_at(s@, base, brk as int, cont as int));
    }

    fn expr_len(e: &Expr) -> (r: usize)
        ensures
            r == expr_code(e@).len(),
    {
        let mut scratch = Emitter::new();
        scratch.visit_expr(e);
        scratch.len()
    }

    /// The length of a statement's code.
    fn stmt_len(s: &Stmt) -> (r: usize)
        requires
            stmt_code_at(s@, 0, 0, 0).len() <= usize::MAX,
        ensures
            r == stmt_code_at(s@, 0, 0, 0).len(),
        decreases stmt_size(s@), 1int, 0int,
    {
        proof {
            lemma_stmt_view_bodies(s);
        }
        match s {
            Stmt::If { condition, then_branch, else_branch } => {
                let c = Self::expr_len(condition);
                proof {
                    let tl = block_code_at(stmts_view(then_branch@), 0, 0, 0, 0).len() as int;
                    lemma_block_code_len(stmts_view(then_branch@), 0, c + 1, 0, 0);
                    match else_branch {
                        Some(b) => {
                            lemma_block_code_len(stmts_view(b@), 0, c + 1 + tl + 1, 0, 0);
                        },
                        None => {},
                    }
                }
                let t = Self::block_len(then_branch, 0);
                let e = match else_branch {
                    Some(b) => Self::block_len(b, 0),
                    None => 0,
                };
                c + t + e + 2
            },
            Stmt::While { condition, body } => {
                let c = Self::expr_len(condition);
                proof {
                    let bl = block_code_at(stmts_view(body@), 0, 0, 0, 0).len() as int;
                    lemma_block_code_len(stmts_view(body@), 0, c + 1, c + 1 + bl + 1, 0);
                }
                let b = Self::block_len(body, 0);
                c + b + 2
            },
            Stmt::For { initializer, condition, step, body } => {
                proof {
                    let il = stmt_code_at((**initializer)@, 0, 0, 0).len() as int;
                    let cl = expr_code(condition@).len() as int;
                    let bl = block_code_at(stmts_view(body@), 0, 0, 0, 0).len() as int;
                    let sl = stmt_code_at((**step)@, 0, 0, 0).len() as int;
                    let b0 = il + cl + 1;
                    lemma_block_code_len(stmts_view(body@), 0, b0, b0 + bl + sl + 1, b0 + bl);
                    lemma_stmt_code_len((**step)@, b0 + bl, b0 + bl + sl + 1, b0 + bl);
                }
                let i = Self::stmt_len(initializer);
                let c = Self::expr_len(condition);
                let b = Self::block_len(body, 0);
                let st = Self::stmt_len(step);
                i + c + b + st + 2
            },
            Stmt::Assign { value, .. } => Self::expr_len(value) + 1,
            Stmt::Expression(e) => Self::expr_len(e) + 1,
            Stmt::Print(e) => Self::expr_len(e) + 1,
            Stmt::Return(v) => match v {
                Some(e) => Self::expr_len(e) + 1,
                None => 2,
            },
            Stmt::Var { initializer, .. } => match initializer {
                Some(e) => Self::expr_len(e) + 1,
                None => 2,
            },
            Stmt::Decr(_) | Stmt::Incr(_) => 4,
            Stmt::Function { .. } => 2,
            Stmt::Break | Stmt::Continue => 1,
        }
    }

    /// The length of the code of `b[i..]`.
    fn block_len(b: &Vec<Stmt>, i: usize) -> (r: usize)
        requires
            block_code_at(stmts_view(b@), i as int, 0, 0, 0).len() <= usize::MAX,
        ensures
            r == block_code_at(stmts_view(b@), i as int, 0, 0, 0).len(),
        decreases stmts_size(stmts_view(b@)), 2int, b@.len() - i,
    {
        if i >= b.len() {
            return 0;
        }
        proof {
            lemma_stmts_size_elem(stmts_view(b@), i as int);
            let h = stmt_code_at(b@[i as int]@, 0, 0, 0).len() as int;
            lemma_block_code_len(stmts_view(b@), i + 1, h, 0, 0);
        }
        let h = Self::stmt_len(&b[i]);
        let t = Self::block_len(b, i + 1);
        h + t
    }
}

} // verus!
