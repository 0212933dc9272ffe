//! Semantic analysis: scoping of names, definite assignment, and the use of
//! `break`, `continue` and list methods.
use vstd::prelude::*;
use crate::error::{CompileError, CompileErrorV, SemanticError, SemanticErrorV};
use crate::expr::{
    Expr, ExprV, exprs_view, expr_size, exprs_size, opt_expr_size, lemma_exprs_size_elem,
    lemma_expr_view_args,
};
use crate::stmt::{Stmt, StmtV, stmts_view, stmt_size, stmts_size, lemma_stmts_size_elem, lemma_stmt_view_bodies};
use crate::text::{copy_string, same_text, strings_view, text_is};

verus! {

/// A symbol of a scope: its name and whether it holds a value.
pub type SymV = (Seq<char>, bool);

/// The stack of scopes, the innermost last.
pub type ScopesV = Seq<Seq<SymV>>;

pub open spec fn scope_has(sc: Seq<SymV>, n: Seq<char>) -> bool {
    exists|k: int| 0 <= k < sc.len() && (#[trigger] sc[k]).0 == n
}

pub open spec fn scope_assigned(sc: Seq<SymV>, n: Seq<char>) -> bool {
    exists|k: int| 0 <= k < sc.len() && (#[trigger] sc[k]).0 == n && sc[k].1
}

/// Whether some scope declares `n`.
pub open spec fn declared(st: ScopesV, n: Seq<char>) -> bool {
    exists|i: int| 0 <= i < st.len() && scope_has(#[trigger] st[i], n)
}

/// Whether some scope holds a value for `n`.
pub open spec fn assigned(st: ScopesV, n: Seq<char>) -> bool {
    exists|i: int| 0 <= i < st.len() && scope_assigned(#[trigger] st[i], n)
}

/// The scope with every symbol named `n` marked as holding a value.
pub open spec fn mark(sc: Seq<SymV>, n: Seq<char>) -> Seq<SymV> {
    Seq::new(sc.len(), |k: int| if sc[k].0 == n { (sc[k].0, true) } else { sc[k] })
}

/// An assignment to `n`, looked up from scope `i` outwards.
pub open spec fn assign_from(st: ScopesV, n: Seq<char>, i: int) -> ScopesV
    decreases i + 1,
{
    if i < 0 || i >= st.len() {
        st
    } else if scope_has(st[i], n) {
        st.update(i, mark(st[i], n))
    } else {
        assign_from(st, n, i - 1)
    }
}

/// An assignment to `n`: the innermost scope declaring it records a value.
pub open spec fn assign(st: ScopesV, n: Seq<char>) -> ScopesV {
    assign_from(st, n, st.len() - 1)
}

/// After an `if`: a symbol holds a value when it does after both branches.
pub open spec fn merge_scope(b: Seq<SymV>, t: Seq<SymV>, e: Seq<SymV>) -> Seq<SymV> {
    Seq::new(b.len(), |k: int| (b[k].0, scope_assigned(t, b[k].0) && scope_assigned(e, b[k].0)))
}

pub open spec fn merge(b: ScopesV, t: ScopesV, e: ScopesV) -> ScopesV {
    Seq::new(b.len(), |i: int| merge_scope(b[i], t[i], e[i]))
}

/// Declares `n` in the innermost scope.
pub open spec fn declare(st: ScopesV, n: Seq<char>, has_value: bool) -> ScopesV {
    st.update(st.len() - 1, st.last().push((n, has_value)))
}

pub open spec fn is_list_method(m: Seq<char>) -> bool {
    m == "index"@ || m == "insertAt"@ || m == "len"@ || m == "pop"@ || m == "push"@ || m
        == "remove"@ || m == "sort"@
}

pub open spec fn sem_expr(st: ScopesV, e: ExprV) -> Result<(), SemanticErrorV>
    decreases expr_size(e), 0int, 0int,
{
    match e {
        ExprV::Binary { left, right, .. } => match sem_expr(st, *left) {
            Err(x) => Err(x),
            Ok(_) => sem_expr(st, *right),
        },
        ExprV::Call { callee, arguments } => match sem_expr(st, *callee) {
            Err(x) => Err(x),
            Ok(_) => sem_exprs(st, arguments, 0),
        },
        ExprV::Grouping(x) => sem_expr(st, *x),
        ExprV::Index { list, index } => match sem_expr(st, *index) {
            Err(x) => Err(x),
            Ok(_) => if assigned(st, list) {
                Ok(())
            } else {
                Err(SemanticErrorV::UnassignedListIndexed { name: list })
            },
        },
        ExprV::List(items) => sem_exprs(st, items, 0),
        ExprV::ListMethodCall { object, method_name, arguments } => match sem_exprs(st, arguments, 0) {
            Err(x) => Err(x),
            Ok(_) => if !is_list_method(method_name) {
                Err(SemanticErrorV::UnknownListMethod { list: object, method_name })
            } else if !assigned(st, object) {
                Err(SemanticErrorV::MethodOnUnassignedList { list: object })
            } else {
                Ok(())
            },
        },
        ExprV::Literal(_) => Ok(()),
        ExprV::Logical { left, right, .. } => match sem_expr(st, *left) {
            Err(x) => Err(x),
            Ok(_) => sem_expr(st, *right),
        },
        ExprV::Membership { left, right, .. } => match sem_expr(st, *left) {
            Err(x) => Err(x),
            Ok(_) => sem_expr(st, *right),
        },
        ExprV::Slice { list, start, end } => {
            let s = match start {
                Some(x) => {
                    proof {
                        assert(opt_expr_size(start) == expr_size(*x));
                    }
                    sem_expr(st, *x)
                },
                None => Ok(()),
            };
            match s {
                Err(x) => Err(x),
                Ok(_) => {
                    let en = match end {
                        Some(x) => {
                            proof {
                                assert(opt_expr_size(end) == expr_size(*x));
                            }
                            sem_expr(st, *x)
                        },
                        None => Ok(()),
                    };
                    match en {
                        Err(x) => Err(x),
                        Ok(_) => if assigned(st, list) {
                            Ok(())
                        } else {
                            Err(SemanticErrorV::UndefinedListSliced { list })
                        },
                    }
                },
            }
        },
        ExprV::Unary { right, .. } => sem_expr(st, *right),
        ExprV::Var(name) => if assigned(st, name) {
            Ok(())
        } else {
            Err(SemanticErrorV::UnassignedVariable { name })
        },
    }
}

/// The expressions `es[i..]`, checked in order.
pub open spec fn sem_exprs(st: ScopesV, es: Seq<ExprV>, i: int) -> Result<(), SemanticErrorV>
    decreases exprs_size(es), 1int, es.len() - i,
{
    if !(0 <= i < es.len()) {
        Ok(())
    } else {
        proof {
            lemma_exprs_size_elem(es, i);
        }
        match sem_expr(st, es[i]) {
            Err(x) => Err(x),
            Ok(_) => sem_exprs(st, es, i + 1),
        }
    }
}


/// The parameters `ps[i..]`, declared in the innermost scope in order.
pub open spec fn sem_params(st: ScopesV, ps: Seq<Seq<char>>, i: int) -> Result<ScopesV, SemanticErrorV>
    decreases ps.len() - i,
{
    if !(0 <= i < ps.len()) {
        Ok(st)
    } else if st.len() == 0 {
        Err(SemanticErrorV::NoScopeAvailable)
    } else if scope_has(st.last(), ps[i]) {
        Err(SemanticErrorV::ParameterRedeclared { name: ps[i] })
    } else {
        sem_params(declare(st, ps[i], true), ps, i + 1)
    }
}

/// The scopes after a block run in a scope of its own, that scope dropped.
pub open spec fn leave(r: Result<ScopesV, SemanticErrorV>) -> Result<ScopesV, SemanticErrorV> {
    match r {
        Ok(st) => Ok(st.drop_last()),
        Err(x) => Err(x),
    }
}

/// What checking statement `s` does to the scopes, or the error it finds.
/// `in_loop` tells whether `s` stands inside a loop.
pub open spec fn sem_stmt(st: ScopesV, in_loop: bool, s: StmtV) -> Result<ScopesV, SemanticErrorV>
    decreases stmt_size(s), 0int, 0int,
{
    match s {
        StmtV::Assign { name, .. } => if declared(st, name) {
            Ok(assign(st, name))
        } else {
            Err(SemanticErrorV::UndeclaredVariable { name })
        },
        StmtV::Break => if in_loop {
            Ok(st)
        } else {
            Err(SemanticErrorV::BreakOutsideLoop)
        },
        StmtV::Continue => if in_loop {
            Ok(st)
        } else {
            Err(SemanticErrorV::ContinueOutsideLoop)
        },
        StmtV::Decr(name) => if declared(st, name) && assigned(st, name) {
            Ok(st)
        } else {
            Err(SemanticErrorV::UndefinedVariable { name })
        },
        StmtV::Incr(name) => if declared(st, name) && assigned(st, name) {
            Ok(st)
        } else {
            Err(SemanticErrorV::UndefinedVariable { name })
        },
        StmtV::Expression(e) => match sem_expr(st, e) {
            Err(x) => Err(x),
            Ok(_) => Ok(st),
        },
        StmtV::Print(e) => match sem_expr(st, e) {
            Err(x) => Err(x),
            Ok(_) => Ok(st),
        },
        StmtV::Return(v) => match v {
            Some(e) => match sem_expr(st, e) {
                Err(x) => Err(x),
                Ok(_) => Ok(st),
            },
            None => Ok(st),
        },
        StmtV::Var { name, initializer } => if st.len() == 0 {
            Err(SemanticErrorV::NoScopeAvailable)
        } else if scope_has(st.last(), name) {
            Err(SemanticErrorV::VariableRedefined { name })
        } else {
            Ok(declare(st, name, initializer is Some))
        },
        StmtV::For { initializer, condition, step, body } => match sem_stmt(st, in_loop, *initializer) {
            Err(x) => Err(x),
            Ok(st1) => {
                let inner = st1.push(Seq::empty());
                match sem_expr(inner, condition) {
                    Err(x) => Err(x),
                    Ok(_) => match sem_block(inner, true, body, 0) {
                        Err(x) => Err(x),
                        Ok(st2) => match sem_stmt(st2, true, *step) {
                            Err(x) => Err(x),
                            Ok(_) => Ok(st1),
                        },
                    },
                }
            },
        },
        StmtV::Function { name, params, body, .. } => if st.len() == 0 {
            Err(SemanticErrorV::NoScopeAvailable)
        } else if scope_has(st.last(), name) {
            Err(SemanticErrorV::FunctionRedefined { name })
        } else {
            match sem_params(declare(st, name, true).push(Seq::empty()), params, 0) {
                Err(x) => Err(x),
                Ok(st1) => leave(sem_block(st1, in_loop, body, 0)),
            }
        },
        StmtV::If { condition, then_branch, else_branch } => match sem_expr(st, condition) {
            Err(x) => Err(x),
            Ok(_) => match leave(sem_block(st.push(Seq::empty()), in_loop, then_branch, 0)) {
                Err(x) => Err(x),
                Ok(t) => {
                    let e = match else_branch {
                        Some(b) => leave(sem_block(st.push(Seq::empty()), in_loop, b, 0)),
                        None => Ok(st),
                    };
                    match e {
                        Err(x) => Err(x),
                        Ok(e) => Ok(merge(st, t, e)),
                    }
                },
            },
        },
        StmtV::While { condition, body } => match sem_expr(st, condition) {
            Err(x) => Err(x),
            Ok(_) => match sem_block(st.push(Seq::empty()), true, body, 0) {
                Err(x) => Err(x),
                Ok(_) => Ok(st),
            },
        },
    }
}

/// The statements `b[i..]`, checked in order.
pub open spec fn sem_block(st: ScopesV, in_loop: bool, b: Seq<StmtV>, i: int) -> Result<ScopesV, SemanticErrorV>
    decreases stmts_size(b), 1int, b.len() - i,
{
    if !(0 <= i < b.len()) {
        Ok(st)
    } else {
        proof {
            lemma_stmts_size_elem(b, i);
        }
        match sem_stmt(st, in_loop, b[i]) {
            Err(x) => Err(x),
            Ok(st1) => sem_block(st1, in_loop, b, i + 1),
        }
    }
}

/// What the analysis of a whole program finds: it starts with one empty
/// scope, outside any loop.
pub open spec fn analyse(ast: Seq<StmtV>) -> Result<ScopesV, SemanticErrorV> {
    sem_block(seq![Seq::empty()], false, ast, 0)
}


/// A name known in a scope, and whether it holds a value.
pub struct SymbolInfo {
    pub name: String,
    pub assigned: bool,
}

impl View for SymbolInfo {
    type V = SymV;

    open spec fn view(&self) -> SymV {
        (self.name@, self.assigned)
    }
}

pub open spec fn scope_view(sc: Seq<SymbolInfo>) -> Seq<SymV> {
    Seq::new(sc.len(), |k: int| sc[k]@)
}

pub open spec fn scopes_view(sts: Seq<Vec<SymbolInfo>>) -> ScopesV {
    Seq::new(sts.len(), |i: int| scope_view(sts[i]@))
}

fn scope_contains(sc: &Vec<SymbolInfo>, name: &String) -> (r: bool)
    ensures
        r == scope_has(scope_view(sc@), name@),
{
    let mut k: usize = 0;
    while k < sc.len()
        invariant
            k <= sc@.len(),
            forall|j: int| 0 <= j < k ==> sc@[j].name@ != name@,
        decreases sc@.len() - k,
    {
        if same_text(&sc[k].name, name) {
            assert(scope_view(sc@)[k as int].0 == name@);
            return true;
        }
        k = k + 1;
    }
    proof {
        if scope_has(scope_view(sc@), name@) {
            let j = choose|j: int| 0 <= j < scope_view(sc@).len() && (#[trigger] scope_view(sc@)[j]).0 == name@;
            assert(sc@[j].name@ == name@);
        }
    }
    false
}

fn scope_holds(sc: &Vec<SymbolInfo>, name: &String) -> (r: bool)
    ensures
        r == scope_assigned(scope_view(sc@), name@),
{
    let mut k: usize = 0;
    while k < sc.len()
        invariant
            k <= sc@.len(),
            forall|j: int| 0 <= j < k ==> !(sc@[j].name@ == name@ && sc@[j].assigned),
        decreases sc@.len() - k,
    {
        if sc[k].assigned && same_text(&sc[k].name, name) {
            assert(scope_view(sc@)[k as int].0 == name@);
            return true;
        }
        k = k + 1;
    }
    proof {
        if scope_assigned(scope_view(sc@), name@) {
            let j = choose|j: int| 0 <= j < scope_view(sc@).len() && (#[trigger] scope_view(sc@)[j]).0 == name@ && scope_view(sc@)[j].1;
            assert(sc@[j].name@ == name@);
        }
    }
    false
}

fn copy_scope(sc: &Vec<SymbolInfo>) -> (r: Vec<SymbolInfo>)
    ensures
        scope_view(r@) == scope_view(sc@),
{
    let mut out: Vec<SymbolInfo> = Vec::new();
    let mut k: usize = 0;
    while k < sc.len()
        invariant
            k <= sc@.len(),
            out@.len() == k,
            forall|j: int| 0 <= j < k ==> out@[j]@ == sc@[j]@,
        decreases sc@.len() - k,
    {
        out.push(SymbolInfo { name: copy_string(&sc[k].name), assigned: sc[k].assigned });
        k = k + 1;
    }
    assert(scope_view(out@) =~= scope_view(sc@));
    out
}

fn copy_scopes(sts: &Vec<Vec<SymbolInfo>>) -> (r: Vec<Vec<SymbolInfo>>)
    ensures
        scopes_view(r@) == scopes_view(sts@),
        r@.len() == sts@.len(),
{
    let mut out: Vec<Vec<SymbolInfo>> = Vec::new();
    let mut i: usize = 0;
    while i < sts.len()
        invariant
            i <= sts@.len(),
            out@.len() == i,
            forall|j: int| 0 <= j < i ==> scope_view(out@[j]@) == scope_view(sts@[j]@),
        decreases sts@.len() - i,
    {
        out.push(copy_scope(&sts[i]));
        i = i + 1;
    }
    assert(scopes_view(out@) =~= scopes_view(sts@));
    out
}

/// Marks every symbol named `name` of the scope as holding a value.
fn mark_scope(sc: &Vec<SymbolInfo>, name: &String) -> (r: Vec<SymbolInfo>)
    ensures
        scope_view(r@) == mark(scope_view(sc@), name@),
{
    let mut out: Vec<SymbolInfo> = Vec::new();
    let mut k: usize = 0;
    while k < sc.len()
        invariant
            k <= sc@.len(),
            out@.len() == k,
            forall|j: int| 0 <= j < k ==> out@[j]@ == mark(scope_view(sc@), name@)[j],
        decreases sc@.len() - k,
    {
        let hit = same_text(&sc[k].name, name);
        out.push(SymbolInfo { name: copy_string(&sc[k].name), assigned: sc[k].assigned || hit });
        k = k + 1;
    }
    assert(scope_view(out@) =~= mark(scope_view(sc@), name@));
    out
}

fn merge_one(b: &Vec<SymbolInfo>, t: &Vec<SymbolInfo>, e: &Vec<SymbolInfo>) -> (r: Vec<SymbolInfo>)
    ensures
        scope_view(r@) == merge_scope(scope_view(b@), scope_view(t@), scope_view(e@)),
{
    let mut out: Vec<SymbolInfo> = Vec::new();
    let mut k: usize = 0;
    while k < b.len()
        invariant
            k <= b@.len(),
            out@.len() == k,
            forall|j: int| 0 <= j < k ==> out@[j]@ == merge_scope(scope_view(b@), scope_view(t@), scope_view(e@))[j],
        decreases b@.len() - k,
    {
        let name = &b[k].name;
        let flag = scope_holds(t, name) && scope_holds(e, name);
        out.push(SymbolInfo { name: copy_string(name), assigned: flag });
        k = k + 1;
    }
    assert(scope_view(out@) =~= merge_scope(scope_view(b@), scope_view(t@), scope_view(e@)));
    out
}

fn merge_scopes(b: &Vec<Vec<SymbolInfo>>, t: &Vec<Vec<SymbolInfo>>, e: &Vec<Vec<SymbolInfo>>) -> (r: Vec<Vec<SymbolInfo>>)
    requires
        t@.len() == b@.len(),
        e@.len() == b@.len(),
    ensures
        scopes_view(r@) == merge(scopes_view(b@), scopes_view(t@), scopes_view(e@)),
        r@.len() == b@.len(),
{
    let mut out: Vec<Vec<SymbolInfo>> = Vec::new();
    let mut i: usize = 0;
    while i < b.len()
        invariant
            i <= b@.len(),
            t@.len() == b@.len(),
            e@.len() == b@.len(),
            out@.len() == i,
            forall|j: int| 0 <= j < i ==> scope_view(out@[j]@) == merge(scopes_view(b@), scopes_view(t@), scopes_view(e@))[j],
        decreases b@.len() - i,
    {
        out.push(merge_one(&b[i], &t[i], &e[i]));
        i = i + 1;
    }
    assert(scopes_view(out@) =~= merge(scopes_view(b@), scopes_view(t@), scopes_view(e@)));
    out
}


fn list_method_known(m: &String) -> (r: bool)
    ensures
        r == is_list_method(m@),
{
    text_is(m, "index") || text_is(m, "insertAt") || text_is(m, "len") || text_is(m, "pop")
        || text_is(m, "push") || text_is(m, "remove") || text_is(m, "sort")
}

/// The semantic analyser: a stack of scopes and the depth of loops it is in.
pub struct Semantics {
    sts: Vec<Vec<SymbolInfo>>,
    loop_depth: usize,
}

/// The answer of a check of an expression against the spec.
pub open spec fn agrees_unit(r: Result<(), SemanticError>, s: Result<(), SemanticErrorV>) -> bool {
    match s {
        Ok(_) => r is Ok,
        Err(x) => r is Err && r->Err_0@ == x,
    }
}

impl Semantics {
    pub closed spec fn scopes(&self) -> ScopesV {
        scopes_view(self.sts@)
    }

    pub closed spec fn in_loop(&self) -> bool {
        self.loop_depth > 0
    }

    /// How many loops the analysis stands in.
    pub closed spec fn depth(&self) -> nat {
        self.loop_depth as nat
    }

    /// A state the statement checks leave behind: it agrees with `s`, and a
    /// success keeps the number of scopes and the loop depth.
    pub closed spec fn after(&self, before: &Self, r: Result<(), SemanticError>, s: Result<ScopesV, SemanticErrorV>) -> bool {
        match s {
            Ok(st) => r is Ok && self.scopes() == st && self.sts@.len() == before.sts@.len()
                && self.loop_depth == before.loop_depth,
            Err(x) => r is Err && r->Err_0@ == x,
        }
    }

    /// A fresh analyser: one empty scope, outside any loop.
    pub fn new() -> (r: Self)
        ensures
            r.scopes() == seq![Seq::<SymV>::empty()],
            !r.in_loop(),
            r.depth() == 0,
    {
        let mut sts: Vec<Vec<SymbolInfo>> = Vec::new();
        sts.push(Vec::new());
        let r = Semantics { sts, loop_depth: 0 };
        assert(scope_view(r.sts@[0]@) =~= Seq::<SymV>::empty());
        assert(r.scopes() =~= seq![Seq::<SymV>::empty()]);
        r
    }

    fn is_declared(&self, name: &String) -> (r: bool)
        ensures
            r == declared(self.scopes(), name@),
    {
        let mut i: usize = self.sts.len();
        while i > 0
            invariant
                i <= self.sts@.len(),
                forall|j: int| i <= j < self.sts@.len() ==> !scope_has(#[trigger] self.scopes()[j], name@),
            decreases i,
        {
            i = i - 1;
            if scope_contains(&self.sts[i], name) {
                assert(scope_has(self.scopes()[i as int], name@));
                return true;
            }
        }
        false
    }

    fn is_assigned(&self, name: &String) -> (r: bool)
        ensures
            r == assigned(self.scopes(), name@),
    {
        let mut i: usize = self.sts.len();
        while i > 0
            invariant
                i <= self.sts@.len(),
                forall|j: int| i <= j < self.sts@.len() ==> !scope_assigned(#[trigger] self.scopes()[j], name@),
            decreases i,
        {
            i = i - 1;
            if scope_holds(&self.sts[i], name) {
                assert(scope_assigned(self.scopes()[i as int], name@));
                return true;
            }
        }
        false
    }

    fn assign(&mut self, name: &String)
        ensures
            final(self).scopes() == assign(old(self).scopes(), name@),
            final(self).sts@.len() == old(self).sts@.len(),
            final(self).loop_depth == old(self).loop_depth,
    {
        let ghost st = self.scopes();
        let mut i: usize = self.sts.len();
        while i > 0
            invariant
                i <= self.sts@.len(),
                self.scopes() == st,
                st == old(self).scopes(),
                self.sts@.len() == st.len(),
                old(self).sts@.len() == st.len(),
                self.loop_depth == old(self).loop_depth,
                assign(st, name@) == assign_from(st, name@, i - 1),
            decreases i,
        {
            i = i - 1;
            if scope_contains(&self.sts[i], name) {
                let marked = mark_scope(&self.sts[i], name);
                self.sts.set(i, marked);
                assert(self.scopes() =~= st.update(i as int, mark(st[i as int], name@)));
                assert(assign_from(st, name@, i as int) == st.update(i as int, mark(st[i as int], name@)));
                return;
            }
        }
    }

    /// Adds `name` to the innermost scope.
    fn declare_here(&mut self, name: &String, has_value: bool)
        requires
            old(self).sts@.len() > 0,
        ensures
            final(self).scopes() == declare(old(self).scopes(), name@, has_value),
            final(self).sts@.len() == old(self).sts@.len(),
            final(self).loop_depth == old(self).loop_depth,
    {
        let ghost st = self.scopes();
        let last = self.sts.len() - 1;
        let mut sc = copy_scope(&self.sts[last]);
        sc.push(SymbolInfo { name: copy_string(name), assigned: has_value });
        assert(scope_view(sc@) =~= st.last().push((name@, has_value)));
        self.sts.set(last, sc);
        assert(self.scopes() =~= declare(st, name@, has_value));
    }

    fn enter_scope(&mut self)
        ensures
            final(self).scopes() == old(self).scopes().push(Seq::empty()),
            final(self).sts@.len() == old(self).sts@.len() + 1,
            final(self).loop_depth == old(self).loop_depth,
    {
        self.sts.push(Vec::new());
        assert(scope_view(self.sts@[self.sts@.len() - 1]@) =~= Seq::<SymV>::empty());
        assert(self.scopes() =~= old(self).scopes().push(Seq::empty()));
    }

    fn exit_scope(&mut self)
        requires
            old(self).sts@.len() > 0,
        ensures
            final(self).scopes() == old(self).scopes().drop_last(),
            final(self).sts@.len() == old(self).sts@.len() - 1,
            final(self).loop_depth == old(self).loop_depth,
    {
        let _ = self.sts.pop();
        assert(self.scopes() =~= old(self).scopes().drop_last());
    }

    fn visit_expr(&self, e: &Expr) -> (r: Result<(), SemanticError>)
        ensures
            agrees_unit(r, sem_expr(self.scopes(), e@)),
        decreases expr_size(e@), 0int, 0int,
    {
        proof {
            lemma_expr_view_args(e);
        }
        match e {
            Expr::Binary { left, right, .. } => {
                match self.visit_expr(left) {
                    Ok(()) => {},
                    Err(x) => return Err(x),
                }
                self.visit_expr(right)
            },
            Expr::Call { callee, arguments } => {
                match self.visit_expr(callee) {
                    Ok(()) => {},
                    Err(x) => return Err(x),
                }
                self.visit_exprs(arguments, 0)
            },
            Expr::Grouping(x) => self.visit_expr(x),
            Expr::Index { list, index } => {
                match self.visit_expr(index) {
                    Ok(()) => {},
                    Err(x) => return Err(x),
                }
                if self.is_assigned(list) {
                    Ok(())
                } else {
                    Err(SemanticError::UnassignedListIndexed { name: copy_string(list) })
                }
            },
            Expr::List(items) => self.visit_exprs(items, 0),
            Expr::ListMethodCall { object, method_name, arguments } => {
                match self.visit_exprs(arguments, 0) {
                    Ok(()) => {},
                    Err(x) => return Err(x),
                }
                if !list_method_known(method_name) {
                    Err(
                        SemanticError::UnknownListMethod {
                            list: copy_string(object),
                            method_name: copy_string(method_name),
                        },
                    )
                } else if !self.is_assigned(object) {
                    Err(SemanticError::MethodOnUnassignedList { list: copy_string(object) })
                } else {
                    Ok(())
                }
            },
            Expr::Literal(_) => Ok(()),
            Expr::Logical { left, right, .. } => {
                match self.visit_expr(left) {
                    Ok(()) => {},
                    Err(x) => return Err(x),
                }
                self.visit_expr(right)
            },
            Expr::Membership { left, right, .. } => {
                match self.visit_expr(left) {
                    Ok(()) => {},
                    Err(x) => return Err(x),
                }
                self.visit_expr(right)
            },
            Expr::Slice { list, start, end } => {
                assert(e@ is Slice);
                match start {
                    Some(x) => {
                        assert(e@->Slice_start == Some(Box::new((**x)@)));
                        assert(opt_expr_size(e@->Slice_start) == expr_size((**x)@));
                        match self.visit_expr(x) {
                            Ok(()) => {},
                            Err(er) => return Err(er),
                        }
                    },
                    None => {},
                }
                match end {
                    Some(x) => {
                        assert(e@->Slice_end == Some(Box::new((**x)@)));
                        assert(opt_expr_size(e@->Slice_end) == expr_size((**x)@));
                        match self.visit_expr(x) {
                            Ok(()) => {},
                            Err(er) => return Err(er),
                        }
                    },
                    None => {},
                }
                if self.is_assigned(list) {
                    Ok(())
                } else {
                    Err(SemanticError::UndefinedListSliced { list: copy_string(list) })
                }
            },
            Expr::Unary { right, .. } => self.visit_expr(right),
            Expr::Var(name) => {
                if self.is_assigned(name) {
                    Ok(())
                } else {
                    Err(SemanticError::UnassignedVariable { name: copy_string(name) })
                }
            },
        }
    }

    fn visit_exprs(&self, es: &Vec<Expr>, i: usize) -> (r: Result<(), SemanticError>)
        ensures
            agrees_unit(r, sem_exprs(self.scopes(), exprs_view(es@), i as int)),
        decreases exprs_size(exprs_view(es@)), 1int, es@.len() - i,
    {
        if i >= es.len() {
            return Ok(());
        }
        proof {
            lemma_exprs_size_elem(exprs_view(es@), i as int);
        }
        match self.visit_expr(&es[i]) {
            Ok(()) => {},
            Err(x) => return Err(x),
        }
        self.visit_exprs(es, i + 1)
    }

    fn visit_block(&mut self, b: &Vec<Stmt>, i: usize) -> (r: Result<(), SemanticError>)
        ensures
            final(self).after(old(self), r, sem_block(old(self).scopes(), old(self).in_loop(), stmts_view(b@), i as int)),
        decreases stmts_size(stmts_view(b@)), 2int, b@.len() - i,
    {
        if i >= b.len() {
            return Ok(());
        }
        proof {
            lemma_stmts_size_elem(stmts_view(b@), i as int);
        }
        match self.visit_stmt(&b[i]) {
            Ok(()) => {},
            Err(x) => return Err(x),
        }
        self.visit_block(b, i + 1)
    }

    fn declare_params(&mut self, ps: &Vec<String>, i: usize) -> (r: Result<(), SemanticError>)
        ensures
            final(self).after(old(self), r, sem_params(old(self).scopes(), strings_view(ps@), i as int)),
        decreases ps@.len() - i,
    {
        if i >= ps.len() {
            return Ok(());
        }
        if self.sts.len() == 0 {
            return Err(SemanticError::NoScopeAvailable);
        }
        let last = self.sts.len() - 1;
        if scope_contains(&self.sts[last], &ps[i]) {
            return Err(SemanticError::ParameterRedeclared { name: copy_string(&ps[i]) });
        }
        self.declare_here(&ps[i], true);
        self.declare_params(ps, i + 1)
    }

    fn visit_stmt(&mut self, s: &Stmt) -> (r: Result<(), SemanticError>)
        ensures
            final(self).after(old(self), r, sem_stmt(old(self).scopes(), old(self).in_loop(), s@)),
        decreases stmt_size(s@), 1int, 0int,
    {
        match s {
            Stmt::For { .. } => self.visit_for(s),
            Stmt::Function { .. } => self.visit_function(s),
            Stmt::If { .. } => self.visit_if(s),
            Stmt::While { .. } => self.visit_while(s),
            _ => self.visit_simple(s),
        }
    }

    fn visit_simple(&mut self, s: &Stmt) -> (r: Result<(), SemanticError>)
        requires
            !(s@ is For || s@ is Function || s@ is If || s@ is While),
        ensures
            final(self).after(old(self), r, sem_stmt(old(self).scopes(), old(self).in_loop(), s@)),
    {
        match s {
            Stmt::Assign { name, .. } => {
                if !self.is_declared(name) {
                    return Err(SemanticError::UndeclaredVariable { name: copy_string(name) });
                }
                self.assign(name);
                Ok(())
            },
            Stmt::Break => {
                if self.loop_depth == 0 {
                    Err(SemanticError::BreakOutsideLoop)
                } else {
                    Ok(())
                }
            },
            Stmt::Continue => {
                if self.loop_depth == 0 {
                    Err(SemanticError::ContinueOutsideLoop)
                } else {
                    Ok(())
                }
            },
            Stmt::Decr(name) => {
                if self.is_declared(name) && self.is_assigned(name) {
                    Ok(())
                } else {
                    Err(SemanticError::UndefinedVariable { name: copy_string(name) })
                }
            },
            Stmt::Incr(name) => {
                if self.is_declared(name) && self.is_assigned(name) {
                    Ok(())
                } else {
                    Err(SemanticError::UndefinedVariable { name: copy_string(name) })
                }
            },
            Stmt::Expression(e) => self.visit_expr(e),
            Stmt::Print(e) => self.visit_expr(e),
            Stmt::Return(v) => match v {
                Some(e) => self.visit_expr(e),
                None => Ok(()),
            },
            Stmt::Var { name, initializer } => {
                if self.sts.len() == 0 {
                    return Err(SemanticError::NoScopeAvailable);
                }
                let last = self.sts.len() - 1;
                if scope_contains(&self.sts[last], name) {
                    return Err(SemanticError::VariableRedefined { name: copy_string(name) });
                }
                self.declare_here(name, initializer.is_some());
                Ok(())
            },
            _ => Ok(()),
        }
    }

    fn visit_for(&mut self, s: &Stmt) -> (r: Result<(), SemanticError>)
        requires
            s@ is For,
        ensures
            final(self).after(old(self), r, sem_stmt(old(self).scopes(), old(self).in_loop(), s@)),
        decreases stmt_size(s@), 0int, 0int,
    {
        proof {
            lemma_stmt_view_bodies(s);
        }
        match s {
            Stmt::For { initializer, condition, step, body } => {
                match self.visit_stmt(initializer) {
                    Ok(()) => {},
                    Err(x) => return Err(x),
                }
                let before = copy_scopes(&self.sts);
                let saved = self.loop_depth;
                self.loop_depth = if saved < usize::MAX {
                    saved + 1
                } else {
                    saved
                };
                self.enter_scope();
                match self.visit_expr(condition) {
                    Ok(()) => {},
                    Err(x) => return Err(x),
                }
                match self.visit_block(body, 0) {
                    Ok(()) => {},
                    Err(x) => return Err(x),
                }
                match self.visit_stmt(step) {
                    Ok(()) => {},
                    Err(x) => return Err(x),
                }
                self.loop_depth = saved;
                self.sts = before;
                Ok(())
            },
            _ => Ok(()),
        }
    }

    fn visit_function(&mut self, s: &Stmt) -> (r: Result<(), SemanticError>)
        requires
            s@ is Function,
        ensures
            final(self).after(old(self), r, sem_stmt(old(self).scopes(), old(self).in_loop(), s@)),
        decreases stmt_size(s@), 0int, 0int,
    {
        proof {
            lemma_stmt_view_bodies(s);
        }
        match s {
            Stmt::Function { name, params, body, .. } => {
                if self.sts.len() == 0 {
                    return Err(SemanticError::NoScopeAvailable);
                }
                let last = self.sts.len() - 1;
                if scope_contains(&self.sts[last], name) {
                    return Err(SemanticError::FunctionRedefined { name: copy_string(name) });
                }
                self.declare_here(name, true);
                self.enter_scope();
                match self.declare_params(params, 0) {
                    Ok(()) => {},
                    Err(x) => return Err(x),
                }
                match self.visit_block(body, 0) {
                    Ok(()) => {},
                    Err(x) => return Err(x),
                }
                self.exit_scope();
                Ok(())
            },
            _ => Ok(()),
        }
    }

    fn visit_if(&mut self, s: &Stmt) -> (r: Result<(), SemanticError>)
        requires
            s@ is If,
        ensures
            final(self).after(old(self), r, sem_stmt(old(self).scopes(), old(self).in_loop(), s@)),
        decreases stmt_size(s@), 0int, 0int,
    {
        proof {
            lemma_stmt_view_bodies(s);
        }
        match s {
            Stmt::If { condition, then_branch, else_branch } => {
                match self.visit_expr(condition) {
                    Ok(()) => {},
                    Err(x) => return Err(x),
                }
                let before = copy_scopes(&self.sts);
                self.enter_scope();
                match self.visit_block(then_branch, 0) {
                    Ok(()) => {},
                    Err(x) => return Err(x),
                }
                self.exit_scope();
                let then_state = copy_scopes(&self.sts);
                self.sts = copy_scopes(&before);
                let else_state = match else_branch {
                    Some(b) => {
                        assert(stmts_size(stmts_view(b@)) < stmt_size(s@));
                        self.enter_scope();
                        match self.visit_block(b, 0) {
                            Ok(()) => {},
                            Err(x) => return Err(x),
                        }
                        self.exit_scope();
                        copy_scopes(&self.sts)
                    },
                    None => copy_scopes(&before),
                };
                let ghost st = old(self).scopes();
                let ghost tv = scopes_view(then_state@);
                let ghost ev = scopes_view(else_state@);
                self.sts = merge_scopes(&before, &then_state, &else_state);
                assert(self.scopes() == merge(st, tv, ev));
                Ok(())
            },
            _ => Ok(()),
        }
    }

    fn visit_while(&mut self, s: &Stmt) -> (r: Result<(), SemanticError>)
        requires
            s@ is While,
        ensures
            final(self).after(old(self), r, sem_stmt(old(self).scopes(), old(self).in_loop(), s@)),
        decreases stmt_size(s@), 0int, 0int,
    {
        proof {
            lemma_stmt_view_bodies(s);
        }
        match s {
            Stmt::While { condition, body } => {
                match self.visit_expr(condition) {
                    Ok(()) => {},
                    Err(x) => return Err(x),
                }
                let before = copy_scopes(&self.sts);
                let saved = self.loop_depth;
                self.loop_depth = if saved < usize::MAX {
                    saved + 1
                } else {
                    saved
                };
                self.enter_scope();
                match self.visit_block(body, 0) {
                    Ok(()) => {},
                    Err(x) => return Err(x),
                }
                self.loop_depth = saved;
                self.sts = before;
                Ok(())
            },
            _ => Ok(()),
        }
    }

    /// Checks a program, statement by statement, in the current scopes.
    pub fn run(&mut self, ast: &Vec<Stmt>) -> (r: Result<(), CompileError>)
        ensures
            match sem_block(old(self).scopes(), old(self).in_loop(), stmts_view(ast@), 0) {
                Ok(st) => r is Ok && final(self).scopes() == st && final(self).depth() == old(self).depth(),
                Err(x) => r is Err && r->Err_0@ == CompileErrorV::Semantic(x),
            },
    {
        match self.visit_block(ast, 0) {
            Ok(()) => Ok(()),
            Err(x) => Err(CompileError::Semantic(x)),
        }
    }
}


/// Reading a name that holds no value is an error: printing it is rejected
/// with `UnassignedVariable`.
pub proof fn law_unassigned_read_rejected(st: ScopesV, in_loop: bool, name: Seq<char>)
    requires
        !assigned(st, name),
    ensures
        sem_stmt(st, in_loop, StmtV::Print(ExprV::Var(name))) == Err::<ScopesV, SemanticErrorV>(
            SemanticErrorV::UnassignedVariable { name },
        ),
{
}

/// The analysis does not depend on whether a branch can run: an error in
/// the `then` branch of an `if` is the error of the whole statement, whatever
/// its condition.
pub proof fn law_branch_errors_reported(
    st: ScopesV,
    in_loop: bool,
    condition: ExprV,
    then_branch: Seq<StmtV>,
    else_branch: Option<Seq<StmtV>>,
)
    requires
        sem_expr(st, condition) is Ok,
        sem_block(st.push(Seq::empty()), in_loop, then_branch, 0) is Err,
    ensures
        sem_stmt(st, in_loop, StmtV::If { condition, then_branch, else_branch }) == sem_block(
            st.push(Seq::empty()),
            in_loop,
            then_branch,
            0,
        ),
{
}

proof fn lemma_params_len(st: ScopesV, ps: Seq<Seq<char>>, i: int)
    requires
        sem_params(st, ps, i) is Ok,
    ensures
        sem_params(st, ps, i)->Ok_0.len() == st.len(),
    decreases ps.len() - i,
{
    if 0 <= i < ps.len() && st.len() > 0 && !scope_has(st.last(), ps[i]) {
        lemma_params_len(declare(st, ps[i], true), ps, i + 1);
    }
}

proof fn lemma_assign_len(st: ScopesV, n: Seq<char>, i: int)
    ensures
        assign_from(st, n, i).len() == st.len(),
    decreases i + 1,
{
    if 0 <= i < st.len() && !scope_has(st[i], n) {
        lemma_assign_len(st, n, i - 1);
    }
}

/// Checking a statement keeps the number of scopes: whatever scopes a
/// statement opens, it closes.
pub proof fn law_scopes_balanced(st: ScopesV, in_loop: bool, s: StmtV)
    requires
        sem_stmt(st, in_loop, s) is Ok,
    ensures
        sem_stmt(st, in_loop, s)->Ok_0.len() == st.len(),
    decreases stmt_size(s), 0int, 0int,
{
    match s {
        StmtV::Assign { name, .. } => {
            lemma_assign_len(st, name, st.len() - 1);
        },
        StmtV::For { initializer, condition, step, body } => {
            law_scopes_balanced(st, in_loop, *initializer);
        },
        StmtV::Function { name, params, body, .. } => {
            let st0 = declare(st, name, true).push(Seq::empty());
            lemma_params_len(st0, params, 0);
            let st1 = sem_params(st0, params, 0)->Ok_0;
            lemma_block_balanced(st1, in_loop, body, 0);
        },
        StmtV::If { condition, then_branch, else_branch } => {
            lemma_block_balanced(st.push(Seq::empty()), in_loop, then_branch, 0);
            match else_branch {
                Some(b) => {
                    lemma_block_balanced(st.push(Seq::empty()), in_loop, b, 0);
                },
                None => {},
            }
        },
        _ => {},
    }
}

proof fn lemma_block_balanced(st: ScopesV, in_loop: bool, b: Seq<StmtV>, i: int)
    requires
        sem_block(st, in_loop, b, i) is Ok,
    ensures
        sem_block(st, in_loop, b, i)->Ok_0.len() == st.len(),
    decreases stmts_size(b), 1int, b.len() - i,
{
    if 0 <= i < b.len() {
        lemma_stmts_size_elem(b, i);
        law_scopes_balanced(st, in_loop, b[i]);
        let st1 = sem_stmt(st, in_loop, b[i])->Ok_0;
        lemma_block_balanced(st1, in_loop, b, i + 1);
    }
}

} // verus!
