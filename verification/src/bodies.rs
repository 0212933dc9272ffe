//! Which function bodies the code generated from a syntax tree carries:
//! the function declarations of a block in the order their code is laid
//! out, and the code each declaration carries.
use vstd::prelude::*;
use crate::codgen::{Bytecode, code_view, grows_plain};
use crate::codegen::body_code;
use crate::stmt::{StmtV, stmt_size, stmts_size, lemma_stmts_size_elem};

verus! {

/// The bodies of the functions that a statement declares, in the order
/// their declarations stand in its code. A function declared inside another
/// belongs to the code of the outer function's body, not here.
pub open spec fn stmt_decls(s: StmtV) -> Seq<Seq<StmtV>>
    decreases stmt_size(s), 0int, 0int,
{
    match s {
        StmtV::Function { body, .. } => seq![body],
        StmtV::If { then_branch, else_branch, .. } => block_decls(then_branch, 0) + match else_branch {
            Some(b) => block_decls(b, 0),
            None => Seq::empty(),
        },
        StmtV::While { body, .. } => block_decls(body, 0),
        StmtV::For { initializer, step, body, .. } => stmt_decls(*initializer) + block_decls(body, 0) + stmt_decls(*step),
        _ => Seq::empty(),
    }
}

/// The bodies of the functions that `b[i..]` declares, in code order.
pub open spec fn block_decls(b: Seq<StmtV>, i: int) -> Seq<Seq<StmtV>>
    decreases stmts_size(b), 1int, b.len() - i,
{
    if !(0 <= i < b.len()) {
        Seq::empty()
    } else {
        proof {
            lemma_stmts_size_elem(b, i);
        }
        stmt_decls(b[i]) + block_decls(b, i + 1)
    }
}

/// How many of the instructions `c[..i]` declare a function.
pub open spec fn fn_count(c: Seq<Bytecode>, i: int) -> int
    decreases i,
{
    if i <= 0 {
        0
    } else {
        fn_count(c, i - 1) + if c[i - 1] is Function { 1int } else { 0int }
    }
}

/// The function declarations of `code` carry, in order, the bodies `ds`:
/// the `j`-th declaration carries the code of the `j`-th body, and so on
/// inside it.
pub open spec fn decls_ok(code: Seq<Bytecode>, ds: Seq<Seq<StmtV>>) -> bool
    decreases code,
{
    &&& fn_count(code, code.len() as int) == ds.len()
    &&& forall|i: int|
        0 <= i < code.len() ==> match #[trigger] code[i] {
            Bytecode::Function(_, _, _, body) => {
                &&& code_view(body@) == body_code(ds[fn_count(code, i)])
                &&& decls_ok(body@, block_decls(ds[fn_count(code, i)], 0))
            },
            _ => true,
        }
}

/// `b` is `a` followed by code whose function declarations carry `ds`.
pub open spec fn emits(a: Seq<Bytecode>, b: Seq<Bytecode>, ds: Seq<Seq<StmtV>>) -> bool {
    &&& a.len() <= b.len()
    &&& b.subrange(0, a.len() as int) == a
    &&& decls_ok(b.subrange(a.len() as int, b.len() as int), ds)
}

proof fn lemma_fn_count_bounds(c: Seq<Bytecode>, i: int, j: int)
    requires
        0 <= i <= j <= c.len(),
    ensures
        0 <= fn_count(c, i) <= fn_count(c, j),
    decreases j,
{
    if i < j {
        lemma_fn_count_bounds(c, i, j - 1);
    } else if i > 0 {
        lemma_fn_count_bounds(c, i - 1, i - 1);
    }
}

proof fn lemma_fn_count_concat(a: Seq<Bytecode>, b: Seq<Bytecode>, i: int)
    requires
        0 <= i <= a.len() + b.len(),
    ensures
        i <= a.len() ==> fn_count(a + b, i) == fn_count(a, i),
        i >= a.len() ==> fn_count(a + b, i) == fn_count(a, a.len() as int) + fn_count(b, i - a.len()),
    decreases i,
{
    if i > 0 {
        lemma_fn_count_concat(a, b, i - 1);
        if i - 1 < a.len() {
            assert((a + b)[i - 1] == a[i - 1]);
        } else {
            assert((a + b)[i - 1] == b[i - 1 - a.len()]);
        }
    }
}

proof fn lemma_fn_count_plain(c: Seq<Bytecode>, i: int)
    requires
        0 <= i <= c.len(),
        forall|k: int| 0 <= k < c.len() ==> !(#[trigger] c[k] is Function),
    ensures
        fn_count(c, i) == 0,
    decreases i,
{
    if i > 0 {
        lemma_fn_count_plain(c, i - 1);
    }
}

pub proof fn lemma_decls_concat(a: Seq<Bytecode>, da: Seq<Seq<StmtV>>, b: Seq<Bytecode>, db: Seq<Seq<StmtV>>)
    requires
        decls_ok(a, da),
        decls_ok(b, db),
    ensures
        decls_ok(a + b, da + db),
{
    let c = a + b;
    let d = da + db;
    lemma_fn_count_concat(a, b, c.len() as int);
    assert forall|i: int| 0 <= i < c.len() implies match #[trigger] c[i] {
        Bytecode::Function(_, _, _, body) => {
            &&& code_view(body@) == body_code(d[fn_count(c, i)])
            &&& decls_ok(body@, block_decls(d[fn_count(c, i)], 0))
        },
        _ => true,
    } by {
        lemma_fn_count_concat(a, b, i);
        lemma_fn_count_concat(a, b, i + 1);
        if i < a.len() {
            assert(c[i] == a[i]);
            lemma_fn_count_bounds(a, i + 1, a.len() as int);
            lemma_fn_count_bounds(a, i, i);
            if a[i] is Function {
                assert(fn_count(a, i + 1) == fn_count(a, i) + 1);
                assert(d[fn_count(c, i)] == da[fn_count(a, i)]);
            }
        } else {
            let k = i - a.len();
            assert(c[i] == b[k]);
            lemma_fn_count_bounds(b, k + 1, b.len() as int);
            lemma_fn_count_bounds(b, k, k);
            if b[k] is Function {
                assert(fn_count(b, k + 1) == fn_count(b, k) + 1);
                assert(d[fn_count(c, i)] == db[fn_count(b, k)]);
            }
        }
    }
}

/// Code emitted by two runs in turn carries the bodies of both, in turn.
pub proof fn lemma_emits_trans(a: Seq<Bytecode>, b: Seq<Bytecode>, c: Seq<Bytecode>, d1: Seq<Seq<StmtV>>, d2: Seq<Seq<StmtV>>)
    requires
        emits(a, b, d1),
        emits(b, c, d2),
    ensures
        emits(a, c, d1 + d2),
{
    assert(c.subrange(0, a.len() as int) =~= b.subrange(0, a.len() as int));
    assert(c.subrange(a.len() as int, c.len() as int) =~= b.subrange(a.len() as int, b.len() as int) + c.subrange(
        b.len() as int,
        c.len() as int,
    ));
    lemma_decls_concat(b.subrange(a.len() as int, b.len() as int), d1, c.subrange(b.len() as int, c.len() as int), d2);
}

/// Code that declares no function carries no body.
pub proof fn lemma_plain_emits(a: Seq<Bytecode>, b: Seq<Bytecode>)
    requires
        grows_plain(a, b),
    ensures
        emits(a, b, Seq::empty()),
{
    let seg = b.subrange(a.len() as int, b.len() as int);
    assert(b.subrange(0, a.len() as int) =~= a);
    assert forall|k: int| 0 <= k < seg.len() implies !(#[trigger] seg[k] is Function) by {
        assert(seg[k] == b[k + a.len()]);
    }
    lemma_fn_count_plain(seg, seg.len() as int);
}

/// Nothing emitted carries nothing.
pub proof fn lemma_emits_none(a: Seq<Bytecode>)
    ensures
        emits(a, a, Seq::empty()),
{
    assert(a.subrange(0, a.len() as int) =~= a);
    assert(a.subrange(a.len() as int, a.len() as int) =~= Seq::<Bytecode>::empty());
}

} // verus!
