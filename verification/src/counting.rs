//! What the code of `n++` and `n--` does to a variable holding a whole
//! number, and what the code of a list method call does with its result:
//! a small stack machine over whole numbers runs the instructions involved.
use vstd::prelude::*;
use crate::codgen::{BytecodeV, binary_code, stmt_code, expr_code};
use crate::codegen::stmt_code_at;
use crate::expr::{BinaryOp, ExprV, UnaryOp};
use crate::value::ValueV;
use crate::stmt::StmtV;

verus! {

/// The value of a run of decimal digits.
pub open spec fn digits_value(t: Seq<char>) -> Option<int>
    decreases t.len(),
{
    if t.len() == 0 {
        None
    } else {
        let d = t.last();
        if !('0' <= d && d <= '9') {
            None
        } else {
            let v = (d as u32 - '0' as u32) as int;
            if t.len() == 1 {
                Some(v)
            } else {
                match digits_value(t.drop_last()) {
                    Some(h) => Some(h * 10 + v),
                    None => None,
                }
            }
        }
    }
}

/// The whole number a numeric literal's text stands for: digits, with an
/// optional leading `-`.
pub open spec fn int_text(t: Seq<char>) -> Option<int> {
    if t.len() > 0 && t[0] == '-' {
        match digits_value(t.drop_first()) {
            Some(v) => Some(-v),
            None => None,
        }
    } else {
        digits_value(t)
    }
}

/// Runs instructions over whole numbers: loads and stores of variables,
/// literals, addition, subtraction, multiplication and negation. Gives the
/// variables and the stack at the end, or nothing where an instruction
/// falls outside this fragment or lacks its operands.
pub open spec fn exec_ints(code: Seq<BytecodeV>, env: Map<Seq<char>, int>, stack: Seq<int>) -> Option<(Map<Seq<char>, int>, Seq<int>)>
    decreases code.len(),
{
    if code.len() == 0 {
        Some((env, stack))
    } else {
        let rest = code.drop_first();
        let n = stack.len();
        match code[0] {
            BytecodeV::LoadVar(x) => if env.contains_key(x) {
                exec_ints(rest, env, stack.push(env[x]))
            } else {
                None
            },
            BytecodeV::PushNum(t) => match int_text(t) {
                Some(v) => exec_ints(rest, env, stack.push(v)),
                None => None,
            },
            BytecodeV::Add => if n >= 2 {
                exec_ints(rest, env, stack.subrange(0, n - 2).push(stack[n - 2] + stack[n - 1]))
            } else {
                None
            },
            BytecodeV::Sub => if n >= 2 {
                exec_ints(rest, env, stack.subrange(0, n - 2).push(stack[n - 2] - stack[n - 1]))
            } else {
                None
            },
            BytecodeV::Mul => if n >= 2 {
                exec_ints(rest, env, stack.subrange(0, n - 2).push(stack[n - 2] * stack[n - 1]))
            } else {
                None
            },
            BytecodeV::Neg => if n >= 1 {
                exec_ints(rest, env, stack.subrange(0, n - 1).push(-stack[n - 1]))
            } else {
                None
            },
            BytecodeV::StoreVar(x) => if n >= 1 {
                exec_ints(rest, env.insert(x, stack[n - 1]), stack.subrange(0, n - 1))
            } else {
                None
            },
            _ => None,
        }
    }
}

/// The variables once the instructions have run from an empty stack.
pub open spec fn run_ints(code: Seq<BytecodeV>, env: Map<Seq<char>, int>) -> Option<Map<Seq<char>, int>> {
    match exec_ints(code, env, Seq::empty()) {
        Some((e, _)) => Some(e),
        None => None,
    }
}

/// The whole number an expression made of variables, whole-number
/// literals, `+`, `-`, `*`, prefix `-` and parentheses has, where the
/// variables hold whole numbers; nothing for other expressions.
pub open spec fn int_eval(e: ExprV, env: Map<Seq<char>, int>) -> Option<int>
    decreases e,
{
    match e {
        ExprV::Var(x) => if env.contains_key(x) { Some(env[x]) } else { None },
        ExprV::Literal(ValueV::Num(t)) => int_text(t),
        ExprV::Grouping(y) => int_eval(*y, env),
        ExprV::Binary { left, operator, right } => match (int_eval(*left, env), int_eval(*right, env)) {
            (Some(a), Some(b)) => match operator {
                BinaryOp::Add => Some(a + b),
                BinaryOp::Sub => Some(a - b),
                BinaryOp::Mul => Some(a * b),
                _ => None,
            },
            _ => None,
        },
        ExprV::Unary { operator: UnaryOp::Neg, right } => match int_eval(*right, env) {
            Some(a) => Some(-a),
            None => None,
        },
        _ => None,
    }
}

/// Running two pieces of code in turn is running the first, then the
/// second from where the first left off.
pub proof fn lemma_exec_concat(a: Seq<BytecodeV>, b: Seq<BytecodeV>, env: Map<Seq<char>, int>, stack: Seq<int>)
    ensures
        exec_ints(a + b, env, stack) == match exec_ints(a, env, stack) {
            Some((e1, s1)) => exec_ints(b, e1, s1),
            None => None,
        },
    decreases a.len(),
{
    if a.len() == 0 {
        assert(a + b =~= b);
    } else {
        assert((a + b).drop_first() =~= a.drop_first() + b);
        assert((a + b)[0] == a[0]);
        let n = stack.len();
        match a[0] {
            BytecodeV::LoadVar(x) => lemma_exec_concat(a.drop_first(), b, env, stack.push(env[x])),
            BytecodeV::PushNum(t) => match int_text(t) {
                Some(v) => lemma_exec_concat(a.drop_first(), b, env, stack.push(v)),
                None => {},
            },
            BytecodeV::Add => lemma_exec_concat(a.drop_first(), b, env, stack.subrange(0, n - 2).push(stack[n - 2] + stack[n - 1])),
            BytecodeV::Sub => lemma_exec_concat(a.drop_first(), b, env, stack.subrange(0, n - 2).push(stack[n - 2] - stack[n - 1])),
            BytecodeV::Mul => lemma_exec_concat(a.drop_first(), b, env, stack.subrange(0, n - 2).push(stack[n - 2] * stack[n - 1])),
            BytecodeV::Neg => lemma_exec_concat(a.drop_first(), b, env, stack.subrange(0, n - 1).push(-stack[n - 1])),
            BytecodeV::StoreVar(x) => lemma_exec_concat(a.drop_first(), b, env.insert(x, stack[n - 1]), stack.subrange(0, n - 1)),
            _ => {},
        }
    }
}

/// The code of an expression of whole numbers pushes its value: run from
/// any stack, it leaves the variables as they were and the stack with the
/// expression's value on top. So operands go in their order, and each
/// operator computes what it stands for.
pub proof fn law_expression_code_pushes_its_value(e: ExprV, env: Map<Seq<char>, int>, stack: Seq<int>)
    requires
        int_eval(e, env) is Some,
    ensures
        exec_ints(expr_code(e), env, stack) == Some((env, stack.push(int_eval(e, env)->0))),
    decreases e,
{
    match e {
        ExprV::Var(x) => {
            let c = seq![BytecodeV::LoadVar(x)];
            assert(expr_code(e) == c);
            assert(c.drop_first() =~= Seq::<BytecodeV>::empty());
            assert(exec_ints(c, env, stack) == exec_ints(Seq::empty(), env, stack.push(env[x])));
            assert(exec_ints(expr_code(e), env, stack) == Some((env, stack.push(int_eval(e, env)->0))));
        },
        ExprV::Literal(v) => {
            let t = v->Num_0;
            let c = seq![BytecodeV::PushNum(t)];
            assert(expr_code(e) == c);
            assert(c.drop_first() =~= Seq::<BytecodeV>::empty());
            assert(exec_ints(c, env, stack) == exec_ints(Seq::empty(), env, stack.push(int_text(t)->0)));
            assert(exec_ints(expr_code(e), env, stack) == Some((env, stack.push(int_eval(e, env)->0))));
        },
        ExprV::Grouping(y) => law_expression_code_pushes_its_value(*y, env, stack),
        ExprV::Binary { left, operator, right } => {
            let a = int_eval(*left, env)->0;
            let b = int_eval(*right, env)->0;
            law_expression_code_pushes_its_value(*left, env, stack);
            law_expression_code_pushes_its_value(*right, env, stack.push(a));
            let op = seq![binary_code(operator)];
            lemma_exec_concat(expr_code(*left) + expr_code(*right), op, env, stack);
            lemma_exec_concat(expr_code(*left), expr_code(*right), env, stack);
            let s2 = stack.push(a).push(b);
            assert(s2.subrange(0, s2.len() - 2) =~= stack);
            assert(op.drop_first() =~= Seq::<BytecodeV>::empty());
            assert(expr_code(e) == expr_code(*left) + expr_code(*right) + op);
            assert(exec_ints(expr_code(*left) + expr_code(*right), env, stack) == Some((env, s2)));
            assert(s2[s2.len() - 2] == a && s2[s2.len() - 1] == b);
            let v = int_eval(e, env)->0;
            match operator {
                BinaryOp::Add => assert(exec_ints(op, env, s2) == exec_ints(Seq::empty(), env, stack.push(a + b))),
                BinaryOp::Sub => assert(exec_ints(op, env, s2) == exec_ints(Seq::empty(), env, stack.push(a - b))),
                BinaryOp::Mul => assert(exec_ints(op, env, s2) == exec_ints(Seq::empty(), env, stack.push(a * b))),
                _ => {},
            }
            assert(exec_ints(op, env, s2) == Some((env, stack.push(v))));
            assert(exec_ints(expr_code(e), env, stack) == Some((env, stack.push(int_eval(e, env)->0))));
        },
        ExprV::Unary { operator, right } => {
            let a = int_eval(*right, env)->0;
            law_expression_code_pushes_its_value(*right, env, stack);
            let op = seq![BytecodeV::Neg];
            lemma_exec_concat(expr_code(*right), op, env, stack);
            let s1 = stack.push(a);
            assert(s1.subrange(0, s1.len() - 1) =~= stack);
            assert(op.drop_first() =~= Seq::<BytecodeV>::empty());
            assert(operator == UnaryOp::Neg);
            assert(expr_code(e) == expr_code(*right) + op);
            assert(exec_ints(op, env, s1) == exec_ints(Seq::empty(), env, stack.push(-a)));
            assert(exec_ints(expr_code(e), env, stack) == Some((env, stack.push(int_eval(e, env)->0))));
        },
        _ => {},
    }
}

/// Assigning or declaring a variable with an expression of whole numbers
/// stores the expression's value in it and changes no other variable, in
/// the code generated from the control-flow graph and in the code
/// generated from the syntax tree.
pub proof fn law_assignment_code_stores_value(x: Seq<char>, e: ExprV, env: Map<Seq<char>, int>, base: int, brk: int, cont: int)
    requires
        int_eval(e, env) is Some,
    ensures
        run_ints(stmt_code(StmtV::Assign { name: x, value: Box::new(e) }), env) == Some(env.insert(x, int_eval(e, env)->0)),
        run_ints(stmt_code(StmtV::Var { name: x, initializer: Some(e) }), env) == Some(env.insert(x, int_eval(e, env)->0)),
        run_ints(stmt_code_at(StmtV::Assign { name: x, value: Box::new(e) }, base, brk, cont), env) == Some(env.insert(x, int_eval(e, env)->0)),
        run_ints(stmt_code_at(StmtV::Var { name: x, initializer: Some(e) }, base, brk, cont), env) == Some(env.insert(x, int_eval(e, env)->0)),
{
    let v = int_eval(e, env)->0;
    law_expression_code_pushes_its_value(e, env, Seq::empty());
    let st = seq![BytecodeV::StoreVar(x)];
    lemma_exec_concat(expr_code(e), st, env, Seq::empty());
    let s1 = Seq::<int>::empty().push(v);
    assert(s1.subrange(0, 0) =~= Seq::<int>::empty());
    assert(st.drop_first() =~= Seq::<BytecodeV>::empty());
    assert(exec_ints(expr_code(e), env, Seq::empty()) == Some((env, s1)));
    assert(exec_ints(st, env, s1) == exec_ints(Seq::empty(), env.insert(x, v), Seq::<int>::empty()));
    assert(exec_ints(expr_code(e) + st, env, Seq::empty()) == Some((env.insert(x, v), Seq::<int>::empty())));
    assert(stmt_code(StmtV::Assign { name: x, value: Box::new(e) }) == expr_code(e) + st);
    assert(stmt_code(StmtV::Var { name: x, initializer: Some(e) }) == expr_code(e) + st);
    assert(stmt_code_at(StmtV::Assign { name: x, value: Box::new(e) }, base, brk, cont) == expr_code(e) + st);
    assert(stmt_code_at(StmtV::Var { name: x, initializer: Some(e) }, base, brk, cont) == expr_code(e) + st);
}

proof fn lemma_one_texts()
    ensures
        int_text("1"@) == Some(1int),
        int_text("-1"@) == Some(-1int),
{
    reveal_strlit("1");
    reveal_strlit("-1");
    assert("-1"@.drop_first() =~= "1"@);
}

proof fn lemma_run_counter(n: Seq<char>, t: Seq<char>, k: int, env: Map<Seq<char>, int>)
    requires
        env.contains_key(n),
        int_text(t) == Some(k),
    ensures
        run_ints(seq![BytecodeV::LoadVar(n), BytecodeV::PushNum(t), BytecodeV::Add, BytecodeV::StoreVar(n)], env)
            == Some(env.insert(n, env[n] + k)),
{
    let c = seq![BytecodeV::LoadVar(n), BytecodeV::PushNum(t), BytecodeV::Add, BytecodeV::StoreVar(n)];
    let e = env.insert(n, env[n] + k);
    let s1 = Seq::<int>::empty().push(env[n]);
    let s2 = s1.push(k);
    let s3 = s2.subrange(0, 0).push(env[n] + k);
    assert(c.drop_first() =~= seq![BytecodeV::PushNum(t), BytecodeV::Add, BytecodeV::StoreVar(n)]);
    assert(c.drop_first().drop_first() =~= seq![BytecodeV::Add, BytecodeV::StoreVar(n)]);
    assert(c.drop_first().drop_first().drop_first() =~= seq![BytecodeV::StoreVar(n)]);
    assert(c.drop_first().drop_first().drop_first().drop_first() =~= Seq::<BytecodeV>::empty());
    assert(exec_ints(Seq::empty(), e, s3.subrange(0, 0)) == Some((e, s3.subrange(0, 0))));
    assert(exec_ints(seq![BytecodeV::StoreVar(n)], env, s3) == Some((e, s3.subrange(0, 0))));
    assert(exec_ints(seq![BytecodeV::Add, BytecodeV::StoreVar(n)], env, s2) == Some((e, s3.subrange(0, 0))));
    assert(exec_ints(seq![BytecodeV::PushNum(t), BytecodeV::Add, BytecodeV::StoreVar(n)], env, s1) == Some((e, s3.subrange(0, 0))));
    assert(exec_ints(c, env, Seq::empty()) == Some((e, s3.subrange(0, 0))));
}

/// The code generated from the control-flow graph for `n++` adds one to a
/// variable holding a whole number, and for `n--` takes one from it; no
/// other variable changes.
pub proof fn law_graph_code_counts(n: Seq<char>, env: Map<Seq<char>, int>)
    requires
        env.contains_key(n),
    ensures
        run_ints(stmt_code(StmtV::Incr(n)), env) == Some(env.insert(n, env[n] + 1)),
        run_ints(stmt_code(StmtV::Decr(n)), env) == Some(env.insert(n, env[n] - 1)),
{
    lemma_one_texts();
    lemma_run_counter(n, "1"@, 1, env);
    lemma_run_counter(n, "-1"@, -1, env);
}

/// The code generated from the syntax tree for `n++` adds one to a variable
/// holding a whole number, and for `n--` takes one from it, wherever the
/// statement stands.
pub proof fn law_tree_code_counts(n: Seq<char>, env: Map<Seq<char>, int>, base: int, brk: int, cont: int)
    requires
        env.contains_key(n),
    ensures
        run_ints(stmt_code_at(StmtV::Incr(n), base, brk, cont), env) == Some(env.insert(n, env[n] + 1)),
        run_ints(stmt_code_at(StmtV::Decr(n), base, brk, cont), env) == Some(env.insert(n, env[n] - 1)),
{
    lemma_one_texts();
    lemma_run_counter(n, "1"@, 1, env);
    lemma_run_counter(n, "-1"@, -1, env);
}

/// An expression statement that calls a method of the list in `object`
/// stores what the call gives back into `object`: its code is the call's
/// code, then a store into `object`. Any other expression statement drops
/// its value. This holds of the code generated from the control-flow graph
/// and of the code generated from the syntax tree.
pub proof fn law_list_method_result_stored(e: ExprV, base: int, brk: int, cont: int)
    ensures
        stmt_code(StmtV::Expression(e)) == expr_code(e) + seq![
            match e {
                ExprV::ListMethodCall { object, .. } => BytecodeV::StoreVar(object),
                _ => BytecodeV::Pop,
            },
        ],
        stmt_code_at(StmtV::Expression(e), base, brk, cont) == stmt_code(StmtV::Expression(e)),
        e matches ExprV::ListMethodCall { object, .. } ==> stmt_code(StmtV::Expression(e)).last() == BytecodeV::StoreVar(object),
        !(e is ListMethodCall) ==> stmt_code(StmtV::Expression(e)).last() == BytecodeV::Pop,
{
}

} // verus!
