//! Liveness analysis over control-flow graphs, and the removal of
//! assignments whose value is never read.
use vstd::prelude::*;
use crate::cfg::{BasicBlock, BlockId, FunctionCFG, Terminator, term_targets};
use crate::expr::{Expr, ExprV, exprs_view, expr_size, exprs_size, opt_expr_size, lemma_exprs_size_elem, lemma_expr_view_args};
use crate::stmt::{Stmt, StmtV, stmts_view};
use crate::text::{copy_string, same_text};

verus! {

/// The names a set of variables holds.
pub open spec fn names(v: Seq<String>) -> Set<Seq<char>> {
    Set::new(|n: Seq<char>| exists|i: int| 0 <= i < v.len() && (#[trigger] v[i])@ == n)
}

/// The variables an expression reads.
pub open spec fn expr_reads(e: ExprV) -> Set<Seq<char>>
    decreases expr_size(e), 0int, 0int,
{
    match e {
        ExprV::Var(name) => set![name],
        ExprV::Index { list, index } => set![list] + expr_reads(*index),
        ExprV::Slice { list, start, end } => set![list] + match start {
            Some(x) => {
                proof {
                    assert(opt_expr_size(start) == expr_size(*x));
                }
                expr_reads(*x)
            },
            None => Set::empty(),
        } + match end {
            Some(x) => {
                proof {
                    assert(opt_expr_size(end) == expr_size(*x));
                }
                expr_reads(*x)
            },
            None => Set::empty(),
        },
        ExprV::ListMethodCall { object, arguments, .. } => set![object] + exprs_reads(arguments, 0),
        ExprV::Binary { left, right, .. } => expr_reads(*left) + expr_reads(*right),
        ExprV::Logical { left, right, .. } => expr_reads(*left) + expr_reads(*right),
        ExprV::Membership { left, right, .. } => expr_reads(*left) + expr_reads(*right),
        ExprV::Unary { right, .. } => expr_reads(*right),
        ExprV::Grouping(x) => expr_reads(*x),
        ExprV::Call { callee, arguments } => expr_reads(*callee) + exprs_reads(arguments, 0),
        ExprV::List(items) => exprs_reads(items, 0),
        ExprV::Literal(_) => Set::empty(),
    }
}

/// The variables `es[i..]` read.
pub open spec fn exprs_reads(es: Seq<ExprV>, i: int) -> Set<Seq<char>>
    decreases exprs_size(es), 1int, es.len() - i,
{
    if !(0 <= i < es.len()) {
        Set::empty()
    } else {
        proof {
            lemma_exprs_size_elem(es, i);
        }
        expr_reads(es[i]) + exprs_reads(es, i + 1)
    }
}

/// Whether evaluating an expression can do more than compute a value: a
/// call or a list method may change state.
pub open spec fn side_effects(e: ExprV) -> bool
    decreases expr_size(e), 0int, 0int,
{
    match e {
        ExprV::Call { .. } | ExprV::ListMethodCall { .. } => true,
        ExprV::Binary { left, right, .. } => side_effects(*left) || side_effects(*right),
        ExprV::Logical { left, right, .. } => side_effects(*left) || side_effects(*right),
        ExprV::Membership { left, right, .. } => side_effects(*left) || side_effects(*right),
        ExprV::Unary { right, .. } => side_effects(*right),
        ExprV::Grouping(x) => side_effects(*x),
        ExprV::List(items) => any_side_effects(items, 0),
        ExprV::Index { index, .. } => side_effects(*index),
        ExprV::Slice { start, end, .. } => (match start {
            Some(x) => {
                proof {
                    assert(opt_expr_size(start) == expr_size(*x));
                }
                side_effects(*x)
            },
            None => false,
        }) || (match end {
            Some(x) => {
                proof {
                    assert(opt_expr_size(end) == expr_size(*x));
                }
                side_effects(*x)
            },
            None => false,
        }),
        ExprV::Var(_) | ExprV::Literal(_) => false,
    }
}

pub open spec fn any_side_effects(es: Seq<ExprV>, i: int) -> bool
    decreases exprs_size(es), 1int, es.len() - i,
{
    if !(0 <= i < es.len()) {
        false
    } else {
        proof {
            lemma_exprs_size_elem(es, i);
        }
        side_effects(es[i]) || any_side_effects(es, i + 1)
    }
}

/// The variables a statement reads.
pub open spec fn stmt_reads(s: StmtV) -> Set<Seq<char>> {
    match s {
        StmtV::Assign { value, .. } => expr_reads(*value),
        StmtV::Expression(e) => expr_reads(e),
        StmtV::Print(e) => expr_reads(e),
        StmtV::Return(Some(e)) => expr_reads(e),
        StmtV::If { condition, .. } => expr_reads(condition),
        StmtV::While { condition, .. } => expr_reads(condition),
        StmtV::For { condition, .. } => expr_reads(condition),
        StmtV::Incr(n) => set![n],
        StmtV::Decr(n) => set![n],
        StmtV::Var { initializer: Some(e), .. } => expr_reads(e),
        _ => Set::empty(),
    }
}

/// The variables a statement writes.
pub open spec fn stmt_writes(s: StmtV) -> Set<Seq<char>> {
    match s {
        StmtV::Assign { name, .. } => set![name],
        StmtV::Var { name, .. } => set![name],
        StmtV::Incr(n) => set![n],
        StmtV::Decr(n) => set![n],
        _ => Set::empty(),
    }
}

/// The variables that statements `ss[..i]` read before writing them.
pub open spec fn uses_upto(ss: Seq<StmtV>, i: int) -> Set<Seq<char>>
    decreases i,
{
    if i <= 0 || i > ss.len() {
        Set::empty()
    } else {
        uses_upto(ss, i - 1) + stmt_reads(ss[i - 1]).difference(defs_upto(ss, i - 1))
    }
}

/// The variables that statements `ss[..i]` write.
pub open spec fn defs_upto(ss: Seq<StmtV>, i: int) -> Set<Seq<char>>
    decreases i,
{
    if i <= 0 || i > ss.len() {
        Set::empty()
    } else {
        defs_upto(ss, i - 1) + stmt_writes(ss[i - 1])
    }
}

/// The variables a terminator reads: a branch's condition, a returned value.
pub open spec fn term_reads(t: Option<Terminator>) -> Set<Seq<char>> {
    match t {
        Some(Terminator::Branch { cond, .. }) => expr_reads(cond@),
        Some(Terminator::Return(Some(e))) => expr_reads(e@),
        _ => Set::empty(),
    }
}

/// The variables a block reads before writing them, its terminator last.
pub open spec fn block_uses(b: BasicBlock) -> Set<Seq<char>> {
    uses_upto(stmts_view(b.stmts@), b.stmts@.len() as int) + term_reads(b.terminator).difference(
        defs_upto(stmts_view(b.stmts@), b.stmts@.len() as int),
    )
}

pub open spec fn block_defs(b: BasicBlock) -> Set<Seq<char>> {
    defs_upto(stmts_view(b.stmts@), b.stmts@.len() as int)
}


fn set_has(v: &Vec<String>, n: &String) -> (r: bool)
    ensures
        r == names(v@).contains(n@),
{
    let mut i: usize = 0;
    while i < v.len()
        invariant
            i <= v@.len(),
            forall|j: int| 0 <= j < i ==> v@[j]@ != n@,
        decreases v@.len() - i,
    {
        if same_text(&v[i], n) {
            return true;
        }
        i = i + 1;
    }
    false
}

fn set_add(v: &mut Vec<String>, n: &String)
    ensures
        names(final(v)@) == names(old(v)@).insert(n@),
{
    if !set_has(v, n) {
        v.push(copy_string(n));
        assert(names(v@) =~= names(old(v)@).insert(n@)) by {
            assert forall|x: Seq<char>| names(old(v)@).insert(n@).contains(x) implies names(v@).contains(x) by {
                if x == n@ {
                    assert(v@[v@.len() - 1]@ == x);
                } else {
                    let j = choose|j: int| 0 <= j < old(v)@.len() && (#[trigger] old(v)@[j])@ == x;
                    assert(v@[j] == old(v)@[j]);
                }
            }
            assert forall|x: Seq<char>| names(v@).contains(x) implies names(old(v)@).insert(n@).contains(x) by {
                let j = choose|j: int| 0 <= j < v@.len() && (#[trigger] v@[j])@ == x;
                if j < old(v)@.len() {
                    assert(v@[j] == old(v)@[j]);
                }
            }
        }
    } else {
        assert(names(v@) =~= names(old(v)@).insert(n@));
    }
}

fn set_remove(v: &mut Vec<String>, n: &String)
    ensures
        names(final(v)@) == names(old(v)@).remove(n@),
{
    let mut out: Vec<String> = Vec::new();
    let mut i: usize = 0;
    while i < v.len()
        invariant
            i <= v@.len(),
            v@ == old(v)@,
            forall|x: Seq<char>| names(out@).contains(x) <==> (x != n@ && exists|j: int| 0 <= j < i && (#[trigger] v@[j])@ == x),
        decreases v@.len() - i,
    {
        if !same_text(&v[i], n) {
            let ghost before = out@;
            out.push(copy_string(&v[i]));
            assert forall|x: Seq<char>| names(out@).contains(x) <==> (x != n@ && exists|j: int| 0 <= j < i + 1 && (#[trigger] v@[j])@ == x) by {
                if names(out@).contains(x) {
                    let k = choose|k: int| 0 <= k < out@.len() && (#[trigger] out@[k])@ == x;
                    if k < before.len() {
                        assert(names(before).contains(x));
                    }
                }
                if x != n@ && exists|j: int| 0 <= j < i + 1 && (#[trigger] v@[j])@ == x {
                    let j = choose|j: int| 0 <= j < i + 1 && (#[trigger] v@[j])@ == x;
                    if j < i {
                        assert(names(before).contains(x));
                        let k = choose|k: int| 0 <= k < before.len() && (#[trigger] before[k])@ == x;
                        assert(out@[k] == before[k]);
                    } else {
                        assert(out@[out@.len() - 1]@ == x);
                    }
                }
            }
        } else {
            assert forall|x: Seq<char>| names(out@).contains(x) <==> (x != n@ && exists|j: int| 0 <= j < i + 1 && (#[trigger] v@[j])@ == x) by {
                if x != n@ && exists|j: int| 0 <= j < i + 1 && (#[trigger] v@[j])@ == x {
                    let j = choose|j: int| 0 <= j < i + 1 && (#[trigger] v@[j])@ == x;
                    assert(j < i);
                }
            }
        }
        i = i + 1;
    }
    *v = out;
    assert(names(v@) =~= names(old(v)@).remove(n@));
}

proof fn lemma_names_extend(w: Seq<String>, i: int)
    requires
        0 <= i < w.len(),
    ensures
        names(w.subrange(0, i + 1)) == names(w.subrange(0, i)).insert(w[i]@),
{
    let a = w.subrange(0, i + 1);
    let b = w.subrange(0, i);
    assert forall|x: Seq<char>| names(a).contains(x) implies names(b).insert(w[i]@).contains(x) by {
        let j = choose|j: int| 0 <= j < a.len() && (#[trigger] a[j])@ == x;
        if j < i {
            assert(b[j] == a[j]);
        }
    }
    assert forall|x: Seq<char>| names(b).insert(w[i]@).contains(x) implies names(a).contains(x) by {
        if x == w[i]@ {
            assert(a[i] == w[i]);
        } else {
            let j = choose|j: int| 0 <= j < b.len() && (#[trigger] b[j])@ == x;
            assert(a[j] == b[j]);
        }
    }
    assert(names(a) =~= names(b).insert(w[i]@));
}

fn set_union_into(v: &mut Vec<String>, w: &Vec<String>)
    ensures
        names(final(v)@) == names(old(v)@) + names(w@),
{
    let mut i: usize = 0;
    assert(names(w@.subrange(0, 0)) =~= Set::<Seq<char>>::empty());
    assert(names(v@) =~= names(old(v)@) + names(w@.subrange(0, 0)));
    while i < w.len()
        invariant
            i <= w@.len(),
            names(v@) == names(old(v)@) + names(w@.subrange(0, i as int)),
        decreases w@.len() - i,
    {
        set_add(v, &w[i]);
        proof {
            lemma_names_extend(w@, i as int);
        }
        assert(names(v@) =~= names(old(v)@) + names(w@.subrange(0, i + 1)));
        i = i + 1;
    }
    assert(w@.subrange(0, w@.len() as int) =~= w@);
}

fn set_equal(a: &Vec<String>, b: &Vec<String>) -> (r: bool)
    ensures
        r == (names(a@) == names(b@)),
{
    let mut i: usize = 0;
    while i < a.len()
        invariant
            i <= a@.len(),
            forall|j: int| 0 <= j < i ==> names(b@).contains((#[trigger] a@[j])@),
        decreases a@.len() - i,
    {
        if !set_has(b, &a[i]) {
            assert(!names(b@).contains(a@[i as int]@) && names(a@).contains(a@[i as int]@));
            return false;
        }
        i = i + 1;
    }
    let mut k: usize = 0;
    while k < b.len()
        invariant
            k <= b@.len(),
            forall|j: int| 0 <= j < a@.len() ==> names(b@).contains((#[trigger] a@[j])@),
            forall|j: int| 0 <= j < k ==> names(a@).contains((#[trigger] b@[j])@),
        decreases b@.len() - k,
    {
        if !set_has(a, &b[k]) {
            assert(!names(a@).contains(b@[k as int]@) && names(b@).contains(b@[k as int]@));
            return false;
        }
        k = k + 1;
    }
    assert(names(a@) =~= names(b@)) by {
        assert forall|x: Seq<char>| names(a@).contains(x) implies names(b@).contains(x) by {
            let j = choose|j: int| 0 <= j < a@.len() && (#[trigger] a@[j])@ == x;
        }
        assert forall|x: Seq<char>| names(b@).contains(x) implies names(a@).contains(x) by {
            let j = choose|j: int| 0 <= j < b@.len() && (#[trigger] b@[j])@ == x;
        }
    }
    true
}


/// Adds the variables an expression reads to `out`.
fn read_expr_vars(e: &Expr, out: &mut Vec<String>)
    ensures
        names(final(out)@) == names(old(out)@) + expr_reads(e@),
    decreases expr_size(e@), 0int, 0int,
{
    proof {
        lemma_expr_view_args(e);
    }
    let ghost o0 = names(out@);
    match e {
        Expr::Var(name) => {
            set_add(out, name);
        },
        Expr::Index { list, index } => {
            set_add(out, list);
            read_expr_vars(index, out);
        },
        Expr::Slice { list, start, end } => {
            assert(e@ is Slice);
            set_add(out, list);
            let ghost o1 = names(out@);
            match start {
                Some(x) => {
                    assert(e@->Slice_start == Some(Box::new((**x)@)));
                    assert(opt_expr_size(e@->Slice_start) == expr_size((**x)@));
                    read_expr_vars(x, out);
                },
                None => {},
            }
            match end {
                Some(x) => {
                    assert(e@->Slice_end == Some(Box::new((**x)@)));
                    assert(opt_expr_size(e@->Slice_end) == expr_size((**x)@));
                    read_expr_vars(x, out);
                },
                None => {},
            }
        },
        Expr::ListMethodCall { object, arguments, .. } => {
            set_add(out, object);
            read_exprs_vars(arguments, 0, out);
        },
        Expr::Binary { left, right, .. } => {
            read_expr_vars(left, out);
            read_expr_vars(right, out);
        },
        Expr::Logical { left, right, .. } => {
            read_expr_vars(left, out);
            read_expr_vars(right, out);
        },
        Expr::Membership { left, right, .. } => {
            read_expr_vars(left, out);
            read_expr_vars(right, out);
        },
        Expr::Unary { right, .. } => {
            read_expr_vars(right, out);
        },
        Expr::Grouping(x) => {
            read_expr_vars(x, out);
        },
        Expr::Call { callee, arguments } => {
            read_expr_vars(callee, out);
            read_exprs_vars(arguments, 0, out);
        },
        Expr::List(items) => {
            read_exprs_vars(items, 0, out);
        },
        Expr::Literal(_) => {},
    }
    assert(names(out@) =~= o0 + expr_reads(e@));
}

fn read_exprs_vars(es: &Vec<Expr>, i: usize, out: &mut Vec<String>)
    ensures
        names(final(out)@) == names(old(out)@) + exprs_reads(exprs_view(es@), i as int),
    decreases exprs_size(exprs_view(es@)), 1int, es@.len() - i,
{
    if i >= es.len() {
        assert(names(out@) =~= names(old(out)@) + exprs_reads(exprs_view(es@), i as int));
        return;
    }
    proof {
        lemma_exprs_size_elem(exprs_view(es@), i as int);
    }
    read_expr_vars(&es[i], out);
    read_exprs_vars(es, i + 1, out);
    assert(names(out@) =~= names(old(out)@) + exprs_reads(exprs_view(es@), i as int));
}

/// Whether evaluating the expression can change state.
pub fn expr_has_side_effects(e: &Expr) -> (r: bool)
    ensures
        r == side_effects(e@),
    decreases expr_size(e@), 0int, 0int,
{
    proof {
        lemma_expr_view_args(e);
    }
    match e {
        Expr::Call { .. } | Expr::ListMethodCall { .. } => true,
        Expr::Binary { left, right, .. } => expr_has_side_effects(left) || expr_has_side_effects(right),
        Expr::Logical { left, right, .. } => expr_has_side_effects(left) || expr_has_side_effects(right),
        Expr::Membership { left, right, .. } => expr_has_side_effects(left) || expr_has_side_effects(right),
        Expr::Unary { right, .. } => expr_has_side_effects(right),
        Expr::Grouping(x) => expr_has_side_effects(x),
        Expr::List(items) => any_has_side_effects(items, 0),
        Expr::Index { index, .. } => expr_has_side_effects(index),
        Expr::Slice { start, end, .. } => {
            assert(e@ is Slice);
            let a = match start {
                Some(x) => {
                    assert(e@->Slice_start == Some(Box::new((**x)@)));
                    assert(opt_expr_size(e@->Slice_start) == expr_size((**x)@));
                    expr_has_side_effects(x)
                },
                None => false,
            };
            if a {
                return true;
            }
            match end {
                Some(x) => {
                    assert(e@->Slice_end == Some(Box::new((**x)@)));
                    assert(opt_expr_size(e@->Slice_end) == expr_size((**x)@));
                    expr_has_side_effects(x)
                },
                None => false,
            }
        },
        Expr::Var(_) | Expr::Literal(_) => false,
    }
}

fn any_has_side_effects(es: &Vec<Expr>, i: usize) -> (r: bool)
    ensures
        r == any_side_effects(exprs_view(es@), i as int),
    decreases exprs_size(exprs_view(es@)), 1int, es@.len() - i,
{
    if i >= es.len() {
        return false;
    }
    proof {
        lemma_exprs_size_elem(exprs_view(es@), i as int);
    }
    expr_has_side_effects(&es[i]) || any_has_side_effects(es, i + 1)
}

/// The variables a statement reads.
fn read_stmt_vars(s: &Stmt) -> (r: Vec<String>)
    ensures
        names(r@) == stmt_reads(s@),
{
    let mut out: Vec<String> = Vec::new();
    assert(names(out@) =~= Set::<Seq<char>>::empty());
    match s {
        Stmt::Assign { value, .. } => read_expr_vars(value, &mut out),
        Stmt::Expression(e) => read_expr_vars(e, &mut out),
        Stmt::Print(e) => read_expr_vars(e, &mut out),
        Stmt::Return(Some(e)) => read_expr_vars(e, &mut out),
        Stmt::If { condition, .. } => read_expr_vars(condition, &mut out),
        Stmt::While { condition, .. } => read_expr_vars(condition, &mut out),
        Stmt::For { condition, .. } => read_expr_vars(condition, &mut out),
        Stmt::Incr(n) => set_add(&mut out, n),
        Stmt::Decr(n) => set_add(&mut out, n),
        Stmt::Var { initializer: Some(e), .. } => read_expr_vars(e, &mut out),
        _ => {},
    }
    assert(names(out@) =~= stmt_reads(s@));
    out
}

/// The variables a statement writes.
fn written_stmt_vars(s: &Stmt) -> (r: Vec<String>)
    ensures
        names(r@) == stmt_writes(s@),
{
    let mut out: Vec<String> = Vec::new();
    assert(names(out@) =~= Set::<Seq<char>>::empty());
    match s {
        Stmt::Assign { name, .. } => set_add(&mut out, name),
        Stmt::Var { name, .. } => set_add(&mut out, name),
        Stmt::Incr(n) => set_add(&mut out, n),
        Stmt::Decr(n) => set_add(&mut out, n),
        _ => {},
    }
    assert(names(out@) =~= stmt_writes(s@));
    out
}


/// The sets of names of a list of variable sets.
pub open spec fn sets_view(v: Seq<Vec<String>>) -> Seq<Set<Seq<char>>> {
    Seq::new(v.len(), |i: int| names(v[i]@))
}

/// What is live on leaving a block: what is live on entering any of the
/// first `k` of its successors `ts`.
pub open spec fn succ_live(ins: Seq<Set<Seq<char>>>, ts: Seq<BlockId>, k: int) -> Set<Seq<char>>
    decreases k,
{
    if k <= 0 || k > ts.len() {
        Set::empty()
    } else {
        succ_live(ins, ts, k - 1) + ins[ts[k - 1] as int]
    }
}

/// The liveness equations of block `b`: its live-out is the union of its
/// successors' live-in, and its live-in is what it uses before writing, with
/// what is live after it and not written by it.
pub open spec fn live_eq(bs: Seq<BasicBlock>, ins: Seq<Set<Seq<char>>>, outs: Seq<Set<Seq<char>>>, b: int) -> bool {
    let ts = term_targets(bs[b].terminator);
    &&& outs[b] == succ_live(ins, ts, ts.len() as int)
    &&& ins[b] == block_uses(bs[b]) + outs[b].difference(block_defs(bs[b]))
}

/// A solution of the liveness equations for all blocks.
pub open spec fn live_solution(bs: Seq<BasicBlock>, ins: Seq<Set<Seq<char>>>, outs: Seq<Set<Seq<char>>>) -> bool {
    &&& ins.len() == bs.len()
    &&& outs.len() == bs.len()
    &&& forall|b: int| 0 <= b < bs.len() ==> #[trigger] live_eq(bs, ins, outs, b)
}

/// The variables a block uses before writing them, and those it writes.
fn compute_use_def(b: &BasicBlock) -> (r: (Vec<String>, Vec<String>))
    ensures
        names(r.0@) == block_uses(*b),
        names(r.1@) == block_defs(*b),
{
    let ghost ss = stmts_view(b.stmts@);
    let mut uses: Vec<String> = Vec::new();
    let mut defs: Vec<String> = Vec::new();
    assert(names(uses@) =~= Set::<Seq<char>>::empty());
    assert(names(defs@) =~= Set::<Seq<char>>::empty());
    let mut i: usize = 0;
    while i < b.stmts.len()
        invariant
            i <= b.stmts@.len(),
            ss == stmts_view(b.stmts@),
            names(uses@) == uses_upto(ss, i as int),
            names(defs@) == defs_upto(ss, i as int),
        decreases b.stmts@.len() - i,
    {
        let reads = read_stmt_vars(&b.stmts[i]);
        let ghost u0 = names(uses@);
        let mut k: usize = 0;
        assert(names(reads@.subrange(0, 0)) =~= Set::<Seq<char>>::empty());
        while k < reads.len()
            invariant
                k <= reads@.len(),
                names(uses@) == u0 + names(reads@.subrange(0, k as int)).difference(names(defs@)),
            decreases reads@.len() - k,
        {
            proof {
                lemma_names_extend(reads@, k as int);
            }
            if !set_has(&defs, &reads[k]) {
                set_add(&mut uses, &reads[k]);
            }
            assert(names(uses@) =~= u0 + names(reads@.subrange(0, k + 1)).difference(names(defs@)));
            k = k + 1;
        }
        assert(reads@.subrange(0, reads@.len() as int) =~= reads@);
        let writes = written_stmt_vars(&b.stmts[i]);
        set_union_into(&mut defs, &writes);
        assert(names(uses@) =~= uses_upto(ss, i + 1));
        assert(names(defs@) =~= defs_upto(ss, i + 1));
        i = i + 1;
    }
    let treads = read_term_vars(&b.terminator);
    let ghost u1 = names(uses@);
    let mut k: usize = 0;
    assert(names(treads@.subrange(0, 0)) =~= Set::<Seq<char>>::empty());
    while k < treads.len()
        invariant
            k <= treads@.len(),
            names(uses@) == u1 + names(treads@.subrange(0, k as int)).difference(names(defs@)),
        decreases treads@.len() - k,
    {
        proof {
            lemma_names_extend(treads@, k as int);
        }
        if !set_has(&defs, &treads[k]) {
            set_add(&mut uses, &treads[k]);
        }
        assert(names(uses@) =~= u1 + names(treads@.subrange(0, k + 1)).difference(names(defs@)));
        k = k + 1;
    }
    assert(treads@.subrange(0, treads@.len() as int) =~= treads@);
    assert(names(uses@) =~= block_uses(*b));
    (uses, defs)
}

/// The variables a terminator reads.
fn read_term_vars(t: &Option<Terminator>) -> (r: Vec<String>)
    ensures
        names(r@) == term_reads(*t),
{
    let mut out: Vec<String> = Vec::new();
    assert(names(out@) =~= Set::<Seq<char>>::empty());
    match t {
        Some(Terminator::Branch { cond, .. }) => read_expr_vars(cond, &mut out),
        Some(Terminator::Return(Some(e))) => read_expr_vars(e, &mut out),
        _ => {},
    }
    assert(names(out@) =~= term_reads(*t));
    out
}

/// The names that any of the sets `s[..k]` holds.
pub open spec fn union_upto(s: Seq<Set<Seq<char>>>, k: int) -> Set<Seq<char>>
    decreases k,
{
    if k <= 0 || k > s.len() {
        Set::empty()
    } else {
        union_upto(s, k - 1) + s[k - 1]
    }
}

/// The sizes of the sets `s[..k]`, added up.
pub open spec fn size_sum(s: Seq<Set<Seq<char>>>, k: int) -> int
    decreases k,
{
    if k <= 0 || k > s.len() {
        0
    } else {
        size_sum(s, k - 1) + s[k - 1].len()
    }
}

/// Live sets that grow towards the least solution: each holds no more than
/// one step of the equations gives it.
pub open spec fn live_below(bs: Seq<BasicBlock>, ins: Seq<Set<Seq<char>>>, outs: Seq<Set<Seq<char>>>) -> bool {
    forall|b: int|
        0 <= b < bs.len() ==> (#[trigger] outs[b]).subset_of(
            succ_live(ins, term_targets(bs[b].terminator), term_targets(bs[b].terminator).len() as int),
        ) && ins[b].subset_of(block_uses(bs[b]) + outs[b].difference(block_defs(bs[b])))
}

/// Live sets that lie within every solution of the equations.
pub open spec fn live_within(bs: Seq<BasicBlock>, ins: Seq<Set<Seq<char>>>, outs: Seq<Set<Seq<char>>>) -> bool {
    forall|si: Seq<Set<Seq<char>>>, so: Seq<Set<Seq<char>>>, b: int|
        #![trigger live_solution(bs, si, so), ins[b]]
        live_solution(bs, si, so) && 0 <= b < bs.len() ==> ins[b].subset_of(si[b]) && outs[b].subset_of(so[b])
}

proof fn lemma_names_finite(v: Seq<String>)
    ensures
        names(v).finite(),
    decreases v.len(),
{
    if v.len() == 0 {
        assert(names(v) =~= Set::<Seq<char>>::empty());
    } else {
        let w = v.drop_last();
        lemma_names_finite(w);
        assert(names(v) =~= names(w).insert(v.last()@)) by {
            assert forall|x: Seq<char>| names(v).contains(x) implies names(w).insert(v.last()@).contains(x) by {
                let j = choose|j: int| 0 <= j < v.len() && (#[trigger] v[j])@ == x;
                if j < v.len() - 1 {
                    assert(w[j] == v[j]);
                }
            }
            assert forall|x: Seq<char>| names(w).insert(v.last()@).contains(x) implies names(v).contains(x) by {
                if x != v.last()@ {
                    let j = choose|j: int| 0 <= j < w.len() && (#[trigger] w[j])@ == x;
                    assert(v[j] == w[j]);
                }
            }
        }
    }
}

proof fn lemma_union_upto(s: Seq<Set<Seq<char>>>, k: int)
    requires
        0 <= k <= s.len(),
        forall|j: int| 0 <= j < s.len() ==> (#[trigger] s[j]).finite(),
    ensures
        union_upto(s, k).finite(),
        forall|j: int| 0 <= j < k ==> (#[trigger] s[j]).subset_of(union_upto(s, k)),
    decreases k,
{
    if k > 0 {
        lemma_union_upto(s, k - 1);
    }
}

proof fn lemma_succ_live_within(ins: Seq<Set<Seq<char>>>, ts: Seq<BlockId>, k: int, u: Set<Seq<char>>)
    requires
        0 <= k <= ts.len(),
        forall|j: int| 0 <= j < ts.len() ==> 0 <= #[trigger] ts[j] < ins.len(),
        forall|j: int| 0 <= j < ins.len() ==> (#[trigger] ins[j]).subset_of(u),
    ensures
        succ_live(ins, ts, k).subset_of(u),
    decreases k,
{
    if k > 0 {
        lemma_succ_live_within(ins, ts, k - 1, u);
        assert(ins[ts[k - 1] as int].subset_of(u));
    }
}

proof fn lemma_succ_live_mono(a: Seq<Set<Seq<char>>>, b: Seq<Set<Seq<char>>>, ts: Seq<BlockId>, k: int)
    requires
        0 <= k <= ts.len(),
        a.len() == b.len(),
        forall|j: int| 0 <= j < ts.len() ==> 0 <= #[trigger] ts[j] < a.len(),
        forall|j: int| 0 <= j < a.len() ==> (#[trigger] a[j]).subset_of(b[j]),
    ensures
        succ_live(a, ts, k).subset_of(succ_live(b, ts, k)),
    decreases k,
{
    if k > 0 {
        lemma_succ_live_mono(a, b, ts, k - 1);
        assert(a[ts[k - 1] as int].subset_of(b[ts[k - 1] as int]));
    }
}

proof fn lemma_size_sum_bound(s: Seq<Set<Seq<char>>>, k: int, u: Set<Seq<char>>)
    requires
        0 <= k <= s.len(),
        u.finite(),
        forall|j: int| 0 <= j < s.len() ==> (#[trigger] s[j]).subset_of(u),
    ensures
        0 <= size_sum(s, k) <= k * u.len(),
    decreases k,
{
    if k > 0 {
        lemma_size_sum_bound(s, k - 1, u);
        vstd::set_lib::lemma_len_subset(s[k - 1], u);
        assert((k - 1) * u.len() + u.len() == k * u.len()) by (nonlinear_arith);
    }
}

proof fn lemma_size_sum_update(s: Seq<Set<Seq<char>>>, b: int, x: Set<Seq<char>>, k: int)
    requires
        0 <= b < s.len(),
        0 <= k <= s.len(),
    ensures
        b < k ==> size_sum(s.update(b, x), k) == size_sum(s, k) - s[b].len() + x.len(),
        b >= k ==> size_sum(s.update(b, x), k) == size_sum(s, k),
    decreases k,
{
    if k > 0 {
        lemma_size_sum_update(s, b, x, k - 1);
        assert(s.update(b, x)[k - 1] == if k - 1 == b { x } else { s[k - 1] });
    }
}

/// Replacing a set by a finite superset does not shrink the sum, and a
/// strictly larger one grows it.
proof fn lemma_size_sum_grow(s: Seq<Set<Seq<char>>>, b: int, x: Set<Seq<char>>)
    requires
        0 <= b < s.len(),
        s[b].subset_of(x),
        x.finite(),
    ensures
        size_sum(s.update(b, x), s.len() as int) >= size_sum(s, s.len() as int),
        s[b] != x ==> size_sum(s.update(b, x), s.len() as int) > size_sum(s, s.len() as int),
{
    lemma_size_sum_update(s, b, x, s.len() as int);
    vstd::set_lib::lemma_len_subset(s[b], x);
    if s[b] != x {
        assert(!(s[b] =~= x));
        let e = choose|e: Seq<char>| x.contains(e) && !s[b].contains(e);
        s[b].lemma_subset_not_in_lt(x, e);
    }
}

/// What the removal of dead assignments does to one statement, given what
/// is live after it: the statements that replace it and what is live before
/// them. An assignment to a dead variable goes, or becomes the evaluation of
/// its value when that has side effects.
pub open spec fn dce_step(s: StmtV, live: Set<Seq<char>>) -> (Seq<StmtV>, Set<Seq<char>>) {
    match s {
        StmtV::Assign { name, value } => if !live.contains(name) {
            if side_effects(*value) {
                (seq![StmtV::Expression(*value)], live)
            } else {
                (Seq::empty(), live)
            }
        } else {
            (seq![s], live.remove(name) + stmt_reads(s))
        },
        StmtV::Var { name, initializer } => if !live.contains(name) && initializer is Some {
            if side_effects(initializer->0) {
                (seq![StmtV::Expression(initializer->0)], live)
            } else {
                (Seq::empty(), live)
            }
        } else {
            (seq![s], if initializer is Some { live.remove(name) + stmt_reads(s) } else { live.remove(name) })
        },
        _ => (seq![s], live + stmt_reads(s)),
    }
}

/// The statements `ss[i..]` with dead assignments removed, working back from
/// the end where `live_end` is live, and what is live before them.
pub open spec fn dce_from(ss: Seq<StmtV>, i: int, live_end: Set<Seq<char>>) -> (Seq<StmtV>, Set<Seq<char>>)
    decreases ss.len() - i,
{
    if !(0 <= i < ss.len()) {
        (Seq::empty(), live_end)
    } else {
        let (rest, l) = dce_from(ss, i + 1, live_end);
        let (k, l2) = dce_step(ss[i], l);
        (k + rest, l2)
    }
}

/// The `print` statements of `ss[..k]`, in order.
pub open spec fn prints(ss: Seq<StmtV>, k: int) -> Seq<StmtV>
    decreases k,
{
    if k <= 0 || k > ss.len() {
        Seq::empty()
    } else {
        prints(ss, k - 1) + if ss[k - 1] is Print { seq![ss[k - 1]] } else { Seq::empty() }
    }
}

proof fn lemma_prints_concat(a: Seq<StmtV>, b: Seq<StmtV>, k: int)
    requires
        0 <= k <= b.len(),
    ensures
        prints(a + b, a.len() + k) == prints(a, a.len() as int) + prints(b, k),
    decreases k,
{
    if k == 0 {
        assert(prints(a + b, a.len() as int) == prints(a, a.len() as int)) by {
            lemma_prints_prefix(a + b, a, a.len() as int);
        }
    } else {
        lemma_prints_concat(a, b, k - 1);
        assert((a + b)[a.len() + k - 1] == b[k - 1]);
    }
}

proof fn lemma_prints_prefix(x: Seq<StmtV>, a: Seq<StmtV>, k: int)
    requires
        0 <= k <= a.len(),
        k <= x.len(),
        forall|j: int| 0 <= j < k ==> x[j] == a[j],
    ensures
        prints(x, k) == prints(a, k),
    decreases k,
{
    if k > 0 {
        lemma_prints_prefix(x, a, k - 1);
    }
}

proof fn lemma_prints_step(s: StmtV, live: Set<Seq<char>>)
    ensures
        prints(dce_step(s, live).0, dce_step(s, live).0.len() as int) == prints(seq![s], 1),
{
    let out = dce_step(s, live).0;
    assert(prints(seq![s], 0) == Seq::<StmtV>::empty());
    if out.len() == 1 {
        assert(prints(out, 0) == Seq::<StmtV>::empty());
    }
}

/// Removing dead assignments keeps every `print` statement, in order.
pub proof fn law_dead_assignment_removal_keeps_prints(ss: Seq<StmtV>, i: int, live_end: Set<Seq<char>>)
    requires
        0 <= i <= ss.len(),
    ensures
        prints(dce_from(ss, i, live_end).0, dce_from(ss, i, live_end).0.len() as int) == prints(
            ss.subrange(i, ss.len() as int),
            ss.len() - i,
        ),
    decreases ss.len() - i,
{
    let tail = ss.subrange(i, ss.len() as int);
    if i == ss.len() {
        assert(prints(tail, 0) == Seq::<StmtV>::empty());
    } else {
        law_dead_assignment_removal_keeps_prints(ss, i + 1, live_end);
        let (rest, l) = dce_from(ss, i + 1, live_end);
        let k = dce_step(ss[i], l).0;
        lemma_prints_step(ss[i], l);
        lemma_prints_concat(k, rest, rest.len() as int);
        let tail1 = ss.subrange(i + 1, ss.len() as int);
        assert(tail =~= seq![ss[i]] + tail1);
        lemma_prints_concat(seq![ss[i]], tail1, tail1.len() as int);
    }
}

fn dce_block(ss: &Vec<Stmt>, live_end: &Vec<String>) -> (r: Vec<Stmt>)
    ensures
        stmts_view(r@) == dce_from(stmts_view(ss@), 0, names(live_end@)).0,
{
    let ghost sv = stmts_view(ss@);
    let ghost le = names(live_end@);
    let mut out: Vec<Stmt> = Vec::new();
    let mut live: Vec<String> = Vec::new();
    set_union_into(&mut live, live_end);
    assert(names(live@) =~= le);
    assert(stmts_view(out@) =~= Seq::<StmtV>::empty());
    let mut i: usize = ss.len();
    while i > 0
        invariant
            i <= ss@.len(),
            sv == stmts_view(ss@),
            le == names(live_end@),
            (stmts_view(out@), names(live@)) == dce_from(sv, i as int, le),
        decreases i,
    {
        i = i - 1;
        let ghost o0 = stmts_view(out@);
        let ghost l0 = names(live@);
        let s = &ss[i];
        match s {
            Stmt::Assign { name, value } => {
                if !set_has(&live, name) {
                    if expr_has_side_effects(value) {
                        out.insert(0, Stmt::Expression(value.duplicate()));
                    }
                } else {
                    out.insert(0, s.duplicate());
                    let reads = read_stmt_vars(s);
                    set_remove(&mut live, name);
                    set_union_into(&mut live, &reads);
                }
            },
            Stmt::Var { name, initializer } => {
                let dead = !set_has(&live, name);
                match initializer {
                    Some(e) => {
                        if dead {
                            if expr_has_side_effects(e) {
                                out.insert(0, Stmt::Expression(e.duplicate()));
                            }
                        } else {
                            out.insert(0, s.duplicate());
                            let reads = read_stmt_vars(s);
                            set_remove(&mut live, name);
                            set_union_into(&mut live, &reads);
                        }
                    },
                    None => {
                        out.insert(0, s.duplicate());
                        set_remove(&mut live, name);
                    },
                }
            },
            _ => {
                out.insert(0, s.duplicate());
                let reads = read_stmt_vars(s);
                set_union_into(&mut live, &reads);
            },
        }
        assert(stmts_view(out@) =~= dce_step(sv[i as int], l0).0 + o0);
        assert(names(live@) == dce_step(sv[i as int], l0).1);
    }
    out
}

/// Removes assignments whose value no path reads.
pub struct Liveliness {}

impl Liveliness {
    /// Computes what is live on entering and on leaving each block, by
    /// iterating the liveness equations from empty sets, block by block from the
    /// last, until a whole round changes nothing: the least solution of the
    /// equations.
    pub fn compute_liveliness(&self, cfg: &FunctionCFG) -> (r: (Vec<Vec<String>>, Vec<Vec<String>>))
        requires
            crate::cfg::blocks_wf(cfg.blocks@),
        ensures
            live_solution(cfg.blocks@, sets_view(r.0@), sets_view(r.1@)),
            live_within(cfg.blocks@, sets_view(r.0@), sets_view(r.1@)),
    {
        let n = cfg.blocks.len();
        let ghost bs = cfg.blocks@;
        let mut uses: Vec<Vec<String>> = Vec::new();
        let mut defs: Vec<Vec<String>> = Vec::new();
        let mut ins: Vec<Vec<String>> = Vec::new();
        let mut outs: Vec<Vec<String>> = Vec::new();
        let mut i: usize = 0;
        while i < n
            invariant
                n == cfg.blocks@.len(),
                i <= n,
                uses@.len() == i,
                defs@.len() == i,
                ins@.len() == i,
                outs@.len() == i,
                forall|j: int| 0 <= j < i ==> names(#[trigger] uses@[j]@) == block_uses(cfg.blocks@[j]),
                forall|j: int| 0 <= j < i ==> names(#[trigger] defs@[j]@) == block_defs(cfg.blocks@[j]),
                forall|j: int| 0 <= j < i ==> names(#[trigger] ins@[j]@) == Set::<Seq<char>>::empty(),
                forall|j: int| 0 <= j < i ==> names(#[trigger] outs@[j]@) == Set::<Seq<char>>::empty(),
            decreases n - i,
        {
            let (u, d) = compute_use_def(&cfg.blocks[i]);
            uses.push(u);
            defs.push(d);
            let e1: Vec<String> = Vec::new();
            let e2: Vec<String> = Vec::new();
            assert(names(e1@) =~= Set::<Seq<char>>::empty());
            assert(names(e2@) =~= Set::<Seq<char>>::empty());
            ins.push(e1);
            outs.push(e2);
            i = i + 1;
        }
        let ghost uv = sets_view(uses@);
        let ghost univ = union_upto(uv, n as int);
        proof {
            assert forall|j: int| 0 <= j < n implies (#[trigger] uv[j]).finite() by {
                lemma_names_finite(uses@[j]@);
            }
            lemma_union_upto(uv, n as int);
            assert forall|b: int| 0 <= b < n implies (#[trigger] sets_view(outs@)[b]).subset_of(
                succ_live(sets_view(ins@), term_targets(bs[b].terminator), term_targets(bs[b].terminator).len() as int),
            ) && sets_view(ins@)[b].subset_of(block_uses(bs[b]) + sets_view(outs@)[b].difference(block_defs(bs[b]))) by {
                assert(sets_view(outs@)[b] =~= Set::<Seq<char>>::empty());
                assert(sets_view(ins@)[b] =~= Set::<Seq<char>>::empty());
            }
            assert forall|j: int| 0 <= j < n implies (#[trigger] sets_view(ins@)[j]).subset_of(univ) && sets_view(outs@)[j].subset_of(univ) by {
                assert(sets_view(outs@)[j] =~= Set::<Seq<char>>::empty());
                assert(sets_view(ins@)[j] =~= Set::<Seq<char>>::empty());
            }
            assert forall|si: Seq<Set<Seq<char>>>, so: Seq<Set<Seq<char>>>, b: int|
                #![trigger live_solution(bs, si, so), sets_view(ins@)[b]]
                live_solution(bs, si, so) && 0 <= b < bs.len() implies sets_view(ins@)[b].subset_of(si[b]) && sets_view(outs@)[b].subset_of(so[b]) by {
                assert(sets_view(outs@)[b] =~= Set::<Seq<char>>::empty());
                assert(sets_view(ins@)[b] =~= Set::<Seq<char>>::empty());
            }
            lemma_size_sum_bound(sets_view(ins@), n as int, univ);
            lemma_size_sum_bound(sets_view(outs@), n as int, univ);
        }
        loop
            invariant
                n == cfg.blocks@.len(),
                bs == cfg.blocks@,
                crate::cfg::blocks_wf(cfg.blocks@),
                uses@.len() == n,
                defs@.len() == n,
                ins@.len() == n,
                outs@.len() == n,
                forall|j: int| 0 <= j < n ==> names(#[trigger] uses@[j]@) == block_uses(cfg.blocks@[j]),
                forall|j: int| 0 <= j < n ==> names(#[trigger] defs@[j]@) == block_defs(cfg.blocks@[j]),
                uv == sets_view(uses@),
                univ == union_upto(uv, n as int),
                univ.finite(),
                forall|j: int| 0 <= j < n ==> (#[trigger] uv[j]).subset_of(univ),
                forall|j: int| 0 <= j < n ==> (#[trigger] sets_view(ins@)[j]).subset_of(univ) && sets_view(outs@)[j].subset_of(univ),
                live_below(bs, sets_view(ins@), sets_view(outs@)),
                live_within(bs, sets_view(ins@), sets_view(outs@)),
            decreases 2 * n * univ.len() - size_sum(sets_view(ins@), n as int) - size_sum(sets_view(outs@), n as int),
        {
            let ghost ins0 = sets_view(ins@);
            let ghost outs0 = sets_view(outs@);
            let ghost m0 = size_sum(ins0, n as int) + size_sum(outs0, n as int);
            let mut changed = false;
            let mut b: usize = n;
            while b > 0
                invariant
                    n == cfg.blocks@.len(),
                    bs == cfg.blocks@,
                    crate::cfg::blocks_wf(cfg.blocks@),
                    b <= n,
                    uses@.len() == n,
                    defs@.len() == n,
                    ins@.len() == n,
                    outs@.len() == n,
                    forall|j: int| 0 <= j < n ==> names(#[trigger] uses@[j]@) == block_uses(cfg.blocks@[j]),
                    forall|j: int| 0 <= j < n ==> names(#[trigger] defs@[j]@) == block_defs(cfg.blocks@[j]),
                    uv == sets_view(uses@),
                    univ.finite(),
                    forall|j: int| 0 <= j < n ==> (#[trigger] uv[j]).subset_of(univ),
                    forall|j: int| 0 <= j < n ==> (#[trigger] sets_view(ins@)[j]).subset_of(univ) && sets_view(outs@)[j].subset_of(univ),
                    live_below(bs, sets_view(ins@), sets_view(outs@)),
                    live_within(bs, sets_view(ins@), sets_view(outs@)),
                    size_sum(sets_view(ins@), n as int) + size_sum(sets_view(outs@), n as int) >= m0,
                    changed ==> size_sum(sets_view(ins@), n as int) + size_sum(sets_view(outs@), n as int) > m0,
                    !changed ==> sets_view(ins@) == ins0 && sets_view(outs@) == outs0,
                    !changed ==> forall|j: int| b <= j < n ==> #[trigger] live_eq(bs, sets_view(ins@), sets_view(outs@), j),
                decreases b,
            {
                b = b - 1;
                let succs = cfg.blocks[b].successors();
                let ghost ts = succs@;
                let ghost iv = sets_view(ins@);
                let ghost ov0 = sets_view(outs@);
                let mut out: Vec<String> = Vec::new();
                assert(names(out@) =~= Set::<Seq<char>>::empty());
                let mut k: usize = 0;
                while k < succs.len()
                    invariant
                        n == cfg.blocks@.len(),
                        bs == cfg.blocks@,
                        crate::cfg::blocks_wf(cfg.blocks@),
                        b < n,
                        ins@.len() == n,
                        iv == sets_view(ins@),
                        succs@ == ts,
                        ts == term_targets(cfg.blocks@[b as int].terminator),
                        k <= succs@.len(),
                        names(out@) == succ_live(iv, ts, k as int),
                    decreases succs@.len() - k,
                {
                    assert(cfg.blocks@[b as int].id == b);
                    assert(ts[k as int] < n);
                    set_union_into(&mut out, &ins[succs[k]]);
                    assert(names(out@) =~= succ_live(iv, ts, k + 1));
                    k = k + 1;
                }
                let mut inn: Vec<String> = Vec::new();
                set_union_into(&mut inn, &out);
                let mut d: usize = 0;
                let ghost dv = defs@[b as int]@;
                while d < defs[b].len()
                    invariant
                        b < n,
                        defs@.len() == n,
                        dv == defs@[b as int]@,
                        d <= dv.len(),
                        names(inn@) == names(out@).difference(names(dv.subrange(0, d as int))),
                    decreases dv.len() - d,
                {
                    proof {
                        lemma_names_extend(dv, d as int);
                    }
                    set_remove(&mut inn, &defs[b][d]);
                    assert(names(inn@) =~= names(out@).difference(names(dv.subrange(0, d + 1))));
                    d = d + 1;
                }
                assert(dv.subrange(0, dv.len() as int) =~= dv);
                set_union_into(&mut inn, &uses[b]);
                assert(names(inn@) =~= block_uses(bs[b as int]) + names(out@).difference(block_defs(bs[b as int])));
                let moved = !set_equal(&inn, &ins[b]) || !set_equal(&out, &outs[b]);
                if moved {
                    changed = true;
                }
                let ghost new_out = names(out@);
                let ghost new_in = names(inn@);
                proof {
                    assert forall|j: int| 0 <= j < ts.len() implies 0 <= #[trigger] ts[j] < iv.len() by {
                        assert(cfg.blocks@[b as int].id == b);
                    }
                    lemma_succ_live_within(iv, ts, ts.len() as int, univ);
                    assert(uv[b as int] == block_uses(bs[b as int]));
                    assert(new_out.subset_of(univ));
                    assert(new_in.subset_of(univ));
                    // The sets only grow.
                    assert(ov0[b as int].subset_of(new_out));
                    assert(iv[b as int].subset_of(new_in));
                    lemma_names_finite(out@);
                    lemma_names_finite(inn@);
                    lemma_size_sum_grow(iv, b as int, new_in);
                    lemma_size_sum_grow(ov0, b as int, new_out);
                }
                ins.set(b, inn);
                outs.set(b, out);
                proof {
                    let iv2 = sets_view(ins@);
                    let ov2 = sets_view(outs@);
                    assert(iv2 =~= iv.update(b as int, new_in));
                    assert(ov2 =~= ov0.update(b as int, new_out));
                    assert forall|j: int| 0 <= j < n implies (#[trigger] iv[j]).subset_of(iv2[j]) by {}
                    assert forall|c: int| 0 <= c < n implies (#[trigger] ov2[c]).subset_of(
                        succ_live(iv2, term_targets(bs[c].terminator), term_targets(bs[c].terminator).len() as int),
                    ) && iv2[c].subset_of(block_uses(bs[c]) + ov2[c].difference(block_defs(bs[c]))) by {
                        let tc = term_targets(bs[c].terminator);
                        assert forall|j: int| 0 <= j < tc.len() implies 0 <= #[trigger] tc[j] < iv.len() by {
                            assert(bs[c].id == c);
                            assert(crate::cfg::targets_below(bs[c].terminator, n as int));
                        }
                        lemma_succ_live_mono(iv, iv2, tc, tc.len() as int);
                        assert(ov0[c].subset_of(succ_live(iv, tc, tc.len() as int)));
                    }
                    assert forall|si: Seq<Set<Seq<char>>>, so: Seq<Set<Seq<char>>>, c: int|
                        #![trigger live_solution(bs, si, so), iv2[c]]
                        live_solution(bs, si, so) && 0 <= c < bs.len() implies iv2[c].subset_of(si[c]) && ov2[c].subset_of(so[c]) by {
                        if c == b {
                            assert(live_eq(bs, si, so, c));
                            assert forall|j: int| 0 <= j < n implies (#[trigger] iv[j]).subset_of(si[j]) by {
                                assert(iv[j].subset_of(si[j]));
                            }
                            lemma_succ_live_mono(iv, si, ts, ts.len() as int);
                        }
                    }
                    assert(size_sum(iv2, n as int) >= size_sum(iv, n as int));
                    assert(size_sum(ov2, n as int) >= size_sum(ov0, n as int));
                    if moved {
                        assert(new_in != iv[b as int] || new_out != ov0[b as int]);
                    }
                    if !changed {
                        assert(iv2 =~= ins0);
                        assert(ov2 =~= outs0);
                        assert(live_eq(bs, iv2, ov2, b as int));
                    }
                }
            }
            if !changed {
                return (ins, outs);
            }
            proof {
                lemma_size_sum_bound(sets_view(ins@), n as int, univ);
                lemma_size_sum_bound(sets_view(outs@), n as int, univ);
                lemma_size_sum_bound(ins0, n as int, univ);
                lemma_size_sum_bound(outs0, n as int, univ);
                let nu = n * univ.len();
                assert(2 * n * univ.len() == nu + nu) by (nonlinear_arith)
                    requires
                        nu == n * univ.len(),
                ;
                assert(size_sum(sets_view(ins@), n as int) + size_sum(sets_view(outs@), n as int) > m0);
            }
        }
    }

    pub fn new() -> (r: Self) {
        Liveliness {}
    }

    /// Removes, block by block, the assignments to variables that are not
    /// live after them, by the least solution of the liveness equations,
    /// keeping the evaluation of values with side effects.
    pub fn eliminate_dead_assignments(&self, cfg: &mut FunctionCFG)
        requires
            crate::cfg::blocks_wf(old(cfg).blocks@),
        ensures
            final(cfg).name == old(cfg).name,
            final(cfg).params == old(cfg).params,
            final(cfg).captures == old(cfg).captures,
            final(cfg).entry == old(cfg).entry,
            final(cfg).exit == old(cfg).exit,
            final(cfg).nested_functions == old(cfg).nested_functions,
            final(cfg).blocks@.len() == old(cfg).blocks@.len(),
            old(cfg).wf() ==> final(cfg).wf(),
            forall|b: int| 0 <= b < old(cfg).blocks@.len() ==> (#[trigger] final(cfg).blocks@[b]).id == old(cfg).blocks@[b].id
                && final(cfg).blocks@[b].terminator == old(cfg).blocks@[b].terminator,
            exists|ins: Seq<Set<Seq<char>>>, outs: Seq<Set<Seq<char>>>|
                live_solution(old(cfg).blocks@, ins, outs) && live_within(old(cfg).blocks@, ins, outs)
                && forall|b: int| 0 <= b < old(cfg).blocks@.len() ==>
                    stmts_view((#[trigger] final(cfg).blocks@[b]).stmts@) == dce_from(stmts_view(old(cfg).blocks@[b].stmts@), 0, term_reads(old(cfg).blocks@[b].terminator) + outs[b]).0,
    {
        let (ins, outs) = self.compute_liveliness(cfg);
        let ghost iv = sets_view(ins@);
        let ghost ov = sets_view(outs@);
        let n = cfg.blocks.len();
        let mut b: usize = 0;
        while b < n
            invariant
                n == old(cfg).blocks@.len(),
                cfg.blocks@.len() == n,
                outs@.len() == n,
                ov == sets_view(outs@),
                live_solution(old(cfg).blocks@, iv, ov),
                cfg.name == old(cfg).name,
                cfg.params == old(cfg).params,
                cfg.captures == old(cfg).captures,
                cfg.entry == old(cfg).entry,
                cfg.exit == old(cfg).exit,
                cfg.nested_functions == old(cfg).nested_functions,
                forall|j: int| 0 <= j < n ==> (#[trigger] cfg.blocks@[j]).id == old(cfg).blocks@[j].id
                    && cfg.blocks@[j].terminator == old(cfg).blocks@[j].terminator,
                forall|j: int| b <= j < n ==> (#[trigger] cfg.blocks@[j]).stmts == old(cfg).blocks@[j].stmts,
                forall|j: int| 0 <= j < b ==> stmts_view((#[trigger] cfg.blocks@[j]).stmts@) == dce_from(stmts_view(old(cfg).blocks@[j].stmts@), 0, term_reads(old(cfg).blocks@[j].terminator) + ov[j]).0,
            decreases n - b,
        {
            let mut live_end = read_term_vars(&cfg.blocks[b].terminator);
            set_union_into(&mut live_end, &outs[b]);
            let new_stmts = dce_block(&cfg.blocks[b].stmts, &live_end);
            cfg.blocks[b].stmts = new_stmts;
            b = b + 1;
        }
        proof {
            if old(cfg).wf() {
                assert(crate::cfg::blocks_wf(cfg.blocks@));
                assert(cfg.blocks@[1].terminator == old(cfg).blocks@[1].terminator);
            }
        }
    }
}


/// Whether the expression names the variable `x` somewhere, at any depth:
/// as a variable, or as the list it indexes, slices or calls a method of.
pub open spec fn var_occurs(e: ExprV, x: Seq<char>) -> bool
    decreases e,
{
    match e {
        ExprV::Var(name) => name == x,
        ExprV::Binary { left, right, .. } => var_occurs(*left, x) || var_occurs(*right, x),
        ExprV::Logical { left, right, .. } => var_occurs(*left, x) || var_occurs(*right, x),
        ExprV::Membership { left, right, .. } => var_occurs(*left, x) || var_occurs(*right, x),
        ExprV::Unary { right, .. } => var_occurs(*right, x),
        ExprV::Grouping(y) => var_occurs(*y, x),
        ExprV::Index { list, index } => list == x || var_occurs(*index, x),
        ExprV::Slice { list, start, end } => list == x || (match start {
            Some(y) => var_occurs(*y, x),
            None => false,
        }) || (match end {
            Some(y) => var_occurs(*y, x),
            None => false,
        }),
        ExprV::Call { callee, arguments } => var_occurs(*callee, x) || exists|i: int|
            0 <= i < arguments.len() && var_occurs(#[trigger] arguments[i], x),
        ExprV::List(items) => exists|i: int| 0 <= i < items.len() && var_occurs(#[trigger] items[i], x),
        ExprV::ListMethodCall { object, arguments, .. } => object == x || exists|i: int|
            0 <= i < arguments.len() && var_occurs(#[trigger] arguments[i], x),
        ExprV::Literal(_) => false,
    }
}

proof fn lemma_exprs_reads_elem(es: Seq<ExprV>, i: int, k: int)
    requires
        0 <= i <= k < es.len(),
    ensures
        expr_reads(es[k]).subset_of(exprs_reads(es, i)),
    decreases k - i,
{
    lemma_exprs_size_elem(es, i);
    if i < k {
        lemma_exprs_reads_elem(es, i + 1, k);
    }
}

/// An expression reads every variable it names, at any depth: a variable
/// of the left or the right operand of an operator, of an index, a bound, a
/// callee or an argument, and a list it indexes, slices or calls a method
/// of.
pub proof fn law_expr_reads_every_variable(e: ExprV, x: Seq<char>)
    requires
        var_occurs(e, x),
    ensures
        expr_reads(e).contains(x),
    decreases e,
{
    match e {
        ExprV::Binary { left, right, .. } | ExprV::Logical { left, right, .. } | ExprV::Membership { left, right, .. } => {
            if var_occurs(*left, x) {
                law_expr_reads_every_variable(*left, x);
            } else {
                law_expr_reads_every_variable(*right, x);
            }
        },
        ExprV::Unary { right, .. } => law_expr_reads_every_variable(*right, x),
        ExprV::Grouping(y) => law_expr_reads_every_variable(*y, x),
        ExprV::Index { list, index } => if list != x {
            law_expr_reads_every_variable(*index, x);
        },
        ExprV::Slice { list, start, end } => if list != x {
            match start {
                Some(y) => if var_occurs(*y, x) {
                    law_expr_reads_every_variable(*y, x);
                    assert(opt_expr_size(start) == expr_size(*y));
                },
                None => {},
            }
            match end {
                Some(y) => if var_occurs(*y, x) {
                    law_expr_reads_every_variable(*y, x);
                    assert(opt_expr_size(end) == expr_size(*y));
                },
                None => {},
            }
        },
        ExprV::Call { callee, arguments } => {
            if var_occurs(*callee, x) {
                law_expr_reads_every_variable(*callee, x);
            } else {
                let i = choose|i: int| 0 <= i < arguments.len() && var_occurs(#[trigger] arguments[i], x);
                law_expr_reads_every_variable(arguments[i], x);
                lemma_exprs_reads_elem(arguments, 0, i);
            }
        },
        ExprV::List(items) => {
            let i = choose|i: int| 0 <= i < items.len() && var_occurs(#[trigger] items[i], x);
            law_expr_reads_every_variable(items[i], x);
            lemma_exprs_reads_elem(items, 0, i);
        },
        ExprV::ListMethodCall { object, arguments, .. } => if object != x {
            let i = choose|i: int| 0 <= i < arguments.len() && var_occurs(#[trigger] arguments[i], x);
            law_expr_reads_every_variable(arguments[i], x);
            lemma_exprs_reads_elem(arguments, 0, i);
        },
        _ => {},
    }
}

/// An operator reads what both its operands read.
pub proof fn law_operator_reads_both_operands(e: ExprV)
    requires
        e is Binary || e is Logical || e is Membership,
    ensures
        match e {
            ExprV::Binary { left, right, .. } | ExprV::Logical { left, right, .. } | ExprV::Membership { left, right, .. } =>
                expr_reads(*left).subset_of(expr_reads(e)) && expr_reads(*right).subset_of(expr_reads(e)),
            _ => true,
        },
{
}


proof fn lemma_live_until_print(ss: Seq<StmtV>, x: Seq<char>, k: int, j: int, le: Set<Seq<char>>)
    requires
        0 <= k <= j < ss.len(),
        ss[j] is Print,
        var_occurs(ss[j]->Print_0, x),
        forall|m: int| k <= m < j ==> !stmt_writes(#[trigger] ss[m]).contains(x),
    ensures
        dce_from(ss, k, le).1.contains(x),
    decreases j - k,
{
    if k == j {
        law_expr_reads_every_variable(ss[j]->Print_0, x);
    } else {
        lemma_live_until_print(ss, x, k + 1, j, le);
        assert(!stmt_writes(ss[k]).contains(x));
    }
}

/// An assignment or declaration of `x` whose value a later `print` shows,
/// with no write of `x` between them, survives dead-assignment removal
/// unchanged, whatever is live at the end.
pub proof fn law_assignment_read_by_print_kept(ss: Seq<StmtV>, i: int, j: int, le: Set<Seq<char>>)
    requires
        0 <= i < j < ss.len(),
        ss[i] is Var || ss[i] is Assign,
        ss[j] is Print,
        var_occurs(ss[j]->Print_0, if ss[i] is Var { ss[i]->Var_name } else { ss[i]->Assign_name }),
        forall|m: int|
            i < m < j ==> !stmt_writes(#[trigger] ss[m]).contains(
                if ss[i] is Var { ss[i]->Var_name } else { ss[i]->Assign_name },
            ),
    ensures
        dce_from(ss, i, le).0.len() > 0,
        dce_from(ss, i, le).0[0] == ss[i],
{
    let x = if ss[i] is Var { ss[i]->Var_name } else { ss[i]->Assign_name };
    lemma_live_until_print(ss, x, i + 1, j, le);
}

} // verus!
