//! Bytecode generation: control-flow graphs to code for the stack machine.
use vstd::prelude::*;
use crate::cfg::{BasicBlock, BlockId, FunctionCFG, NestedFunction, Terminator, blocks_wf, term_targets};
use crate::expr::{
    BinaryOp, Expr, ExprV, LogicalOp, UnaryOp, exprs_view, expr_size, exprs_size, opt_expr_size,
    lemma_exprs_size_elem, lemma_expr_view_args,
};
use crate::stmt::{Stmt, StmtV, stmts_view};
use crate::text::{copy_string, copy_strings, strings_view};
use crate::value::{Value, ValueV};

verus! {

/// Instructions of the stack machine. Numbers are carried as their
/// decimal text.
#[derive(Debug)]
pub enum Bytecode {
    PushNum(String),
    PushStr(String),
    PushBool(bool),
    PushNull,
    Pop,
    LoadVar(String),
    StoreVar(String),
    Add,
    Sub,
    Mul,
    Div,
    Neg,
    Less,
    LessEq,
    Greater,
    GreaterEq,
    Eq,
    NotEq,
    And,
    Or,
    Not,
    Jump(usize),
    JumpIfFalse(usize),
    Function(String, Vec<String>, Vec<String>, Vec<Bytecode>),
    Call(usize),
    Return,
    Print,
    MakeList(usize),
    Index,
    In,
    Slice(bool, bool),
    ListMethodCall(String, usize),
}

/// The instructions a statement or expression compiles to, with names as
/// character sequences. A function's code is left out of its view: it is
/// generated from the function's own graph.
pub enum BytecodeV {
    PushNum(Seq<char>),
    PushStr(Seq<char>),
    PushBool(bool),
    PushNull,
    Pop,
    LoadVar(Seq<char>),
    StoreVar(Seq<char>),
    Add,
    Sub,
    Mul,
    Div,
    Neg,
    Less,
    LessEq,
    Greater,
    GreaterEq,
    Eq,
    NotEq,
    And,
    Or,
    Not,
    Jump(usize),
    JumpIfFalse(usize),
    Function(Seq<char>, Seq<Seq<char>>, Seq<Seq<char>>),
    Call(usize),
    Return,
    Print,
    MakeList(usize),
    Index,
    In,
    Slice(bool, bool),
    ListMethodCall(Seq<char>, usize),
}

impl View for Bytecode {
    type V = BytecodeV;

    open spec fn view(&self) -> BytecodeV {
        match self {
            Bytecode::PushNum(n) => BytecodeV::PushNum(n@),
            Bytecode::PushStr(s) => BytecodeV::PushStr(s@),
            Bytecode::PushBool(b) => BytecodeV::PushBool(*b),
            Bytecode::PushNull => BytecodeV::PushNull,
            Bytecode::Pop => BytecodeV::Pop,
            Bytecode::LoadVar(n) => BytecodeV::LoadVar(n@),
            Bytecode::StoreVar(n) => BytecodeV::StoreVar(n@),
            Bytecode::Add => BytecodeV::Add,
            Bytecode::Sub => BytecodeV::Sub,
            Bytecode::Mul => BytecodeV::Mul,
            Bytecode::Div => BytecodeV::Div,
            Bytecode::Neg => BytecodeV::Neg,
            Bytecode::Less => BytecodeV::Less,
            Bytecode::LessEq => BytecodeV::LessEq,
            Bytecode::Greater => BytecodeV::Greater,
            Bytecode::GreaterEq => BytecodeV::GreaterEq,
            Bytecode::Eq => BytecodeV::Eq,
            Bytecode::NotEq => BytecodeV::NotEq,
            Bytecode::And => BytecodeV::And,
            Bytecode::Or => BytecodeV::Or,
            Bytecode::Not => BytecodeV::Not,
            Bytecode::Jump(t) => BytecodeV::Jump(*t),
            Bytecode::JumpIfFalse(t) => BytecodeV::JumpIfFalse(*t),
            Bytecode::Function(n, ps, cs, _) => BytecodeV::Function(n@, strings_view(ps@), strings_view(cs@)),
            Bytecode::Call(k) => BytecodeV::Call(*k),
            Bytecode::Return => BytecodeV::Return,
            Bytecode::Print => BytecodeV::Print,
            Bytecode::MakeList(k) => BytecodeV::MakeList(*k),
            Bytecode::Index => BytecodeV::Index,
            Bytecode::In => BytecodeV::In,
            Bytecode::Slice(a, b) => BytecodeV::Slice(*a, *b),
            Bytecode::ListMethodCall(m, k) => BytecodeV::ListMethodCall(m@, *k),
        }
    }
}

pub open spec fn code_view(v: Seq<Bytecode>) -> Seq<BytecodeV> {
    Seq::new(v.len(), |i: int| v[i]@)
}

pub open spec fn binary_code(op: BinaryOp) -> BytecodeV {
    match op {
        BinaryOp::Add => BytecodeV::Add,
        BinaryOp::Sub => BytecodeV::Sub,
        BinaryOp::Mul => BytecodeV::Mul,
        BinaryOp::Div => BytecodeV::Div,
        BinaryOp::Less => BytecodeV::Less,
        BinaryOp::LessEq => BytecodeV::LessEq,
        BinaryOp::Greater => BytecodeV::Greater,
        BinaryOp::GreaterEq => BytecodeV::GreaterEq,
        BinaryOp::Eq => BytecodeV::Eq,
        BinaryOp::NotEq => BytecodeV::NotEq,
    }
}

/// A literal's instruction; a value that no literal denotes has none.
pub open spec fn literal_code(v: ValueV) -> Seq<BytecodeV> {
    match v {
        ValueV::Num(n) => seq![BytecodeV::PushNum(n)],
        ValueV::Str(s) => seq![BytecodeV::PushStr(s)],
        ValueV::Bool(b) => seq![BytecodeV::PushBool(b)],
        ValueV::Null => seq![BytecodeV::PushNull],
        _ => Seq::empty(),
    }
}

/// The code of an expression: its operands in order, then its operation,
/// so that running it leaves the expression's value on the stack.
pub open spec fn expr_code(e: ExprV) -> Seq<BytecodeV>
    decreases expr_size(e), 0int, 0int,
{
    match e {
        ExprV::Binary { left, operator, right } => expr_code(*left) + expr_code(*right) + seq![binary_code(operator)],
        ExprV::Call { callee, arguments } => expr_code(*callee) + exprs_code(arguments, 0)
            + seq![BytecodeV::Call(arguments.len() as usize)],
        ExprV::Grouping(x) => expr_code(*x),
        ExprV::Index { list, index } => seq![BytecodeV::LoadVar(list)] + expr_code(*index) + seq![BytecodeV::Index],
        ExprV::List(items) => exprs_code_rev(items, items.len() as int) + seq![BytecodeV::MakeList(items.len() as usize)],
        ExprV::ListMethodCall { object, method_name, arguments } => seq![BytecodeV::LoadVar(object)]
            + exprs_code(arguments, 0) + seq![BytecodeV::ListMethodCall(method_name, arguments.len() as usize)],
        ExprV::Literal(v) => literal_code(v),
        ExprV::Logical { operator, left, right } => expr_code(*left) + expr_code(*right) + seq![
            match operator {
                LogicalOp::And => BytecodeV::And,
                LogicalOp::Or => BytecodeV::Or,
            },
        ],
        ExprV::Membership { left, not, right } => expr_code(*left) + expr_code(*right) + seq![BytecodeV::In] + if not {
            seq![BytecodeV::Not]
        } else {
            Seq::empty()
        },
        ExprV::Slice { list, start, end } => seq![BytecodeV::LoadVar(list)] + match start {
            Some(x) => {
                proof {
                    assert(opt_expr_size(start) == expr_size(*x));
                }
                expr_code(*x)
            },
            None => Seq::empty(),
        } + match end {
            Some(x) => {
                proof {
                    assert(opt_expr_size(end) == expr_size(*x));
                }
                expr_code(*x)
            },
            None => Seq::empty(),
        } + seq![BytecodeV::Slice(start is Some, end is Some)],
        ExprV::Unary { operator, right } => expr_code(*right) + seq![
            match operator {
                UnaryOp::Neg => BytecodeV::Neg,
                UnaryOp::Not => BytecodeV::Not,
            },
        ],
        ExprV::Var(name) => seq![BytecodeV::LoadVar(name)],
    }
}

/// The code of `es[i..]`, in order.
pub open spec fn exprs_code(es: Seq<ExprV>, i: int) -> Seq<BytecodeV>
    decreases exprs_size(es), 1int, es.len() - i,
{
    if !(0 <= i < es.len()) {
        Seq::empty()
    } else {
        proof {
            lemma_exprs_size_elem(es, i);
        }
        expr_code(es[i]) + exprs_code(es, i + 1)
    }
}

/// The code of `es[..i]`, last first (list items are pushed in reverse).
pub open spec fn exprs_code_rev(es: Seq<ExprV>, i: int) -> Seq<BytecodeV>
    decreases exprs_size(es), 1int, i,
{
    if !(0 < i <= es.len()) {
        Seq::empty()
    } else {
        proof {
            lemma_exprs_size_elem(es, i - 1);
        }
        expr_code(es[i - 1]) + exprs_code_rev(es, i - 1)
    }
}


/// The code holds no jump.
pub open spec fn no_jumps(c: Seq<BytecodeV>) -> bool {
    forall|k: int| 0 <= k < c.len() ==> !(#[trigger] c[k] is Jump) && !(c[k] is JumpIfFalse)
}

pub proof fn lemma_no_jumps_concat(a: Seq<BytecodeV>, b: Seq<BytecodeV>)
    requires
        no_jumps(a),
        no_jumps(b),
    ensures
        no_jumps(a + b),
{
    assert forall|k: int| 0 <= k < (a + b).len() implies !(#[trigger] (a + b)[k] is Jump) && !((a + b)[k] is JumpIfFalse) by {
        if k < a.len() {
            assert((a + b)[k] == a[k]);
        } else {
            assert((a + b)[k] == b[k - a.len()]);
        }
    }
}

/// The code of an expression holds no jump.
pub proof fn lemma_expr_code_no_jumps(e: ExprV)
    ensures
        no_jumps(expr_code(e)),
    decreases expr_size(e), 0int, 0int,
{
    match e {
        ExprV::Binary { left, right, .. } | ExprV::Logical { left, right, .. } | ExprV::Membership { left, right, .. } => {
            lemma_expr_code_no_jumps(*left);
            lemma_expr_code_no_jumps(*right);
            lemma_no_jumps_concat(expr_code(*left), expr_code(*right));
            let ab = expr_code(*left) + expr_code(*right);
            match e {
                ExprV::Membership { not, .. } => {
                    lemma_no_jumps_concat(ab, seq![BytecodeV::In]);
                    if not {
                        lemma_no_jumps_concat(ab + seq![BytecodeV::In], seq![BytecodeV::Not]);
                    } else {
                        assert(ab + seq![BytecodeV::In] + Seq::<BytecodeV>::empty() =~= ab + seq![BytecodeV::In]);
                    }
                },
                ExprV::Binary { operator, .. } => {
                    lemma_no_jumps_concat(ab, seq![binary_code(operator)]);
                },
                ExprV::Logical { operator, .. } => {
                    lemma_no_jumps_concat(ab, seq![
                        match operator {
                            LogicalOp::And => BytecodeV::And,
                            LogicalOp::Or => BytecodeV::Or,
                        },
                    ]);
                },
                _ => {},
            }
        },
        ExprV::Call { callee, arguments } => {
            lemma_expr_code_no_jumps(*callee);
            lemma_exprs_code_no_jumps(arguments, 0);
            lemma_no_jumps_concat(expr_code(*callee), exprs_code(arguments, 0));
            lemma_no_jumps_concat(expr_code(*callee) + exprs_code(arguments, 0), seq![BytecodeV::Call(arguments.len() as usize)]);
        },
        ExprV::Grouping(x) => {
            lemma_expr_code_no_jumps(*x);
        },
        ExprV::Index { list, index } => {
            lemma_expr_code_no_jumps(*index);
            lemma_no_jumps_concat(seq![BytecodeV::LoadVar(list)], expr_code(*index));
            lemma_no_jumps_concat(seq![BytecodeV::LoadVar(list)] + expr_code(*index), seq![BytecodeV::Index]);
        },
        ExprV::List(items) => {
            lemma_exprs_code_rev_no_jumps(items, items.len() as int);
            lemma_no_jumps_concat(exprs_code_rev(items, items.len() as int), seq![BytecodeV::MakeList(items.len() as usize)]);
        },
        ExprV::ListMethodCall { object, method_name, arguments } => {
            lemma_exprs_code_no_jumps(arguments, 0);
            lemma_no_jumps_concat(seq![BytecodeV::LoadVar(object)], exprs_code(arguments, 0));
            lemma_no_jumps_concat(
                seq![BytecodeV::LoadVar(object)] + exprs_code(arguments, 0),
                seq![BytecodeV::ListMethodCall(method_name, arguments.len() as usize)],
            );
        },
        ExprV::Slice { list, start, end } => {
            let a = match start {
                Some(x) => {
                    assert(opt_expr_size(start) == expr_size(*x));
                    lemma_expr_code_no_jumps(*x);
                    expr_code(*x)
                },
                None => Seq::empty(),
            };
            let b = match end {
                Some(x) => {
                    assert(opt_expr_size(end) == expr_size(*x));
                    lemma_expr_code_no_jumps(*x);
                    expr_code(*x)
                },
                None => Seq::empty(),
            };
            lemma_no_jumps_concat(seq![BytecodeV::LoadVar(list)], a);
            lemma_no_jumps_concat(seq![BytecodeV::LoadVar(list)] + a, b);
            lemma_no_jumps_concat(seq![BytecodeV::LoadVar(list)] + a + b, seq![BytecodeV::Slice(start is Some, end is Some)]);
        },
        ExprV::Unary { operator, right } => {
            lemma_expr_code_no_jumps(*right);
            lemma_no_jumps_concat(expr_code(*right), seq![
                match operator {
                    UnaryOp::Neg => BytecodeV::Neg,
                    UnaryOp::Not => BytecodeV::Not,
                },
            ]);
        },
        _ => {},
    }
}

proof fn lemma_exprs_code_no_jumps(es: Seq<ExprV>, i: int)
    ensures
        no_jumps(exprs_code(es, i)),
    decreases exprs_size(es), 1int, es.len() - i,
{
    if 0 <= i < es.len() {
        lemma_exprs_size_elem(es, i);
        lemma_expr_code_no_jumps(es[i]);
        lemma_exprs_code_no_jumps(es, i + 1);
        lemma_no_jumps_concat(expr_code(es[i]), exprs_code(es, i + 1));
    }
}

proof fn lemma_exprs_code_rev_no_jumps(es: Seq<ExprV>, i: int)
    ensures
        no_jumps(exprs_code_rev(es, i)),
    decreases exprs_size(es), 1int, i,
{
    if 0 < i <= es.len() {
        lemma_exprs_size_elem(es, i - 1);
        lemma_expr_code_no_jumps(es[i - 1]);
        lemma_exprs_code_rev_no_jumps(es, i - 1);
        lemma_no_jumps_concat(expr_code(es[i - 1]), exprs_code_rev(es, i - 1));
    }
}

/// The code of a statement that a block holds. Control flow lives in the
/// terminators, so the other statements have none.
pub open spec fn stmt_code(s: StmtV) -> Seq<BytecodeV> {
    match s {
        StmtV::Assign { name, value } => expr_code(*value) + seq![BytecodeV::StoreVar(name)],
        StmtV::Print(e) => expr_code(e) + seq![BytecodeV::Print],
        StmtV::Expression(e) => expr_code(e) + (match e {
            ExprV::ListMethodCall { object, .. } => seq![BytecodeV::StoreVar(object)],
            _ => seq![BytecodeV::Pop],
        }),
        StmtV::Var { name, initializer } => (match initializer {
            Some(i) => expr_code(i),
            None => seq![BytecodeV::PushNull],
        }) + seq![BytecodeV::StoreVar(name)],
        StmtV::Incr(n) => seq![BytecodeV::LoadVar(n), BytecodeV::PushNum("1"@), BytecodeV::Add, BytecodeV::StoreVar(n)],
        StmtV::Decr(n) => seq![BytecodeV::LoadVar(n), BytecodeV::PushNum("-1"@), BytecodeV::Add, BytecodeV::StoreVar(n)],
        StmtV::Function { name, params, captures, .. } => seq![
            BytecodeV::Function(name, params, captures),
            BytecodeV::StoreVar(name),
        ],
        _ => Seq::empty(),
    }
}

/// The code of `ss[..i]`.
pub open spec fn stmts_code(ss: Seq<StmtV>, i: int) -> Seq<BytecodeV>
    decreases i,
{
    if i <= 0 || i > ss.len() {
        Seq::empty()
    } else {
        stmts_code(ss, i - 1) + stmt_code(ss[i - 1])
    }
}

/// The code of a terminator, jumping to the block starts in `starts`.
pub open spec fn term_code(t: Option<Terminator>, starts: Seq<int>) -> Seq<BytecodeV> {
    match t {
        Some(Terminator::Goto(x)) => seq![BytecodeV::Jump(starts[x as int] as usize)],
        Some(Terminator::Branch { cond, then_block, else_block }) => expr_code(cond@) + seq![
            BytecodeV::JumpIfFalse(starts[else_block as int] as usize),
            BytecodeV::Jump(starts[then_block as int] as usize),
        ],
        Some(Terminator::Return(Some(e))) => expr_code(e@) + seq![BytecodeV::Return],
        Some(Terminator::Return(None)) => seq![BytecodeV::Return],
        None => Seq::empty(),
    }
}

/// The code of a block: its statements, then its terminator.
pub open spec fn block_code(b: BasicBlock, starts: Seq<int>) -> Seq<BytecodeV> {
    stmts_code(stmts_view(b.stmts@), b.stmts@.len() as int) + term_code(b.terminator, starts)
}

/// Where each of the blocks `bs[..k]` starts when they are laid out in
/// order from `base`; the length of a block's code does not depend on where
/// its jumps go.
pub open spec fn block_starts(bs: Seq<BasicBlock>, k: int) -> Seq<int>
    decreases k,
{
    if k <= 0 {
        Seq::empty()
    } else {
        let prev = block_starts(bs, k - 1);
        let last_start = if k - 1 == 0 { 0 } else { prev[k - 2] + block_code(bs[k - 2], Seq::empty()).len() };
        prev.push(last_start)
    }
}

/// All the blocks laid out in order, each jump aimed at the start of its
/// target block.
pub open spec fn layout(bs: Seq<BasicBlock>, starts: Seq<int>, k: int) -> Seq<BytecodeV>
    decreases k,
{
    if k <= 0 {
        Seq::empty()
    } else {
        layout(bs, starts, k - 1) + block_code(bs[k - 1], starts)
    }
}

/// The code of a whole graph.
pub open spec fn cfg_code(cfg: FunctionCFG) -> Seq<BytecodeV> {
    layout(cfg.blocks@, block_starts(cfg.blocks@, cfg.blocks@.len() as int), cfg.blocks@.len() as int)
}

/// The place of the first nested function of `ns[k..]` named `name`.
pub open spec fn nested_index(ns: Seq<NestedFunction>, name: Seq<char>, k: int) -> Option<int>
    decreases ns.len() - k,
{
    if !(0 <= k < ns.len()) {
        None
    } else if ns[k].name@ == name {
        Some(k)
    } else {
        nested_index(ns, name, k + 1)
    }
}

/// An instruction of the code of `cfg` is whole: a function declaration
/// carries the code of the nested function of that name, generated from
/// its own graph (none where the graph has no such function).
pub open spec fn item_ok(x: Bytecode, cfg: FunctionCFG) -> bool {
    match x {
        Bytecode::Function(n, _, _, body) => match nested_index(cfg.nested_functions@, n@, 0) {
            Some(k) => if 0 <= k < cfg.nested_functions@.len() {
                &&& code_view(body@) == cfg_code(cfg.nested_functions@[k].cfg)
                &&& bodies_ok(body@, cfg.nested_functions@[k].cfg)
            } else {
                false
            },
            None => body@.len() == 0,
        },
        _ => true,
    }
}

/// Every function declaration of `code` carries its whole code (each
/// instruction is `item_ok`).
pub open spec fn bodies_ok(code: Seq<Bytecode>, cfg: FunctionCFG) -> bool
    decreases cfg,
{
    forall|i: int|
        0 <= i < code.len() ==> match #[trigger] code[i] {
            Bytecode::Function(n, _, _, body) => match nested_index(cfg.nested_functions@, n@, 0) {
                Some(k) => if 0 <= k < cfg.nested_functions@.len() {
                    &&& code_view(body@) == cfg_code(cfg.nested_functions@[k].cfg)
                    &&& bodies_ok(body@, cfg.nested_functions@[k].cfg)
                } else {
                    false
                },
                None => body@.len() == 0,
            },
            _ => true,
        }
}

/// `b` is `a` with instructions added that declare no function.
pub open spec fn grows_plain(a: Seq<Bytecode>, b: Seq<Bytecode>) -> bool {
    &&& a.len() <= b.len()
    &&& forall|i: int| 0 <= i < a.len() ==> b[i] == a[i]
    &&& forall|i: int| a.len() <= i < b.len() ==> !(#[trigger] b[i] is Function)
}

/// `b` is `a` with whole instructions of `cfg` added.
pub open spec fn grows_ok(a: Seq<Bytecode>, b: Seq<Bytecode>, cfg: FunctionCFG) -> bool {
    &&& a.len() <= b.len()
    &&& forall|i: int| 0 <= i < a.len() ==> b[i] == a[i]
    &&& forall|i: int| a.len() <= i < b.len() ==> #[trigger] item_ok(b[i], cfg)
}

proof fn lemma_grows_ok_trans(a: Seq<Bytecode>, b: Seq<Bytecode>, c: Seq<Bytecode>, cfg: FunctionCFG)
    requires
        grows_ok(a, b, cfg),
        grows_ok(b, c, cfg) || grows_plain(b, c),
    ensures
        grows_ok(a, c, cfg),
{
    assert forall|i: int| a.len() <= i < c.len() implies #[trigger] item_ok(c[i], cfg) by {
        if i < b.len() {
            assert(c[i] == b[i]);
            assert(item_ok(b[i], cfg));
        } else if grows_plain(b, c) {
            assert(!(c[i] is Function));
        } else {
            assert(item_ok(c[i], cfg));
        }
    }
}

proof fn lemma_plain_ok(a: Seq<Bytecode>, b: Seq<Bytecode>, cfg: FunctionCFG)
    requires
        grows_plain(a, b),
    ensures
        grows_ok(a, b, cfg),
{
    assert forall|i: int| a.len() <= i < b.len() implies #[trigger] item_ok(b[i], cfg) by {
        assert(!(b[i] is Function));
    }
}

pub proof fn lemma_grows_plain_trans(a: Seq<Bytecode>, b: Seq<Bytecode>, c: Seq<Bytecode>)
    requires
        grows_plain(a, b),
        grows_plain(b, c),
    ensures
        grows_plain(a, c),
{
    assert forall|i: int| a.len() <= i < c.len() implies !(#[trigger] c[i] is Function) by {
        if i < b.len() {
            assert(c[i] == b[i]);
            assert(!(b[i] is Function));
        }
    }
}

/// Generates code for one function graph at a time.
pub struct CodeGen {
    code: Vec<Bytecode>,
}

impl CodeGen {
    pub closed spec fn code(&self) -> Seq<BytecodeV> {
        code_view(self.code@)
    }

    /// The instructions emitted so far.
    pub closed spec fn raw(&self) -> Seq<Bytecode> {
        self.code@
    }

    /// The code is the view of the instructions.
    pub proof fn lemma_raw_code(&self)
        ensures
            self.code() == code_view(self.raw()),
    {
    }

    pub fn new() -> (r: Self)
        ensures
            r.code() == Seq::<BytecodeV>::empty(),
            r.raw() == Seq::<Bytecode>::empty(),
    {
        let r = CodeGen { code: Vec::new() };
        assert(r.code() =~= Seq::<BytecodeV>::empty());
        r
    }

    /// How many instructions have been emitted.
    pub(crate) fn len(&self) -> (r: usize)
        ensures
            r == self.code().len(),
    {
        self.code.len()
    }

    /// Takes the emitted code out, leaving none.
    pub(crate) fn take_code(&mut self) -> (r: Vec<Bytecode>)
        ensures
            code_view(r@) == old(self).code(),
            r@ == old(self).raw(),
            final(self).code() == Seq::<BytecodeV>::empty(),
    {
        let mut out: Vec<Bytecode> = Vec::new();
        std::mem::swap(&mut out, &mut self.code);
        assert(self.code() =~= Seq::<BytecodeV>::empty());
        out
    }

    pub(crate) fn emit(&mut self, bc: Bytecode)
        ensures
            final(self).code() == old(self).code().push(bc@),
            final(self).raw() == old(self).raw().push(bc),
    {
        let ghost b = bc@;
        self.code.push(bc);
        assert(self.code() =~= old(self).code().push(b));
    }

    pub(crate) fn visit_expr(&mut self, e: &Expr)
        ensures
            final(self).code() == old(self).code() + expr_code(e@),
            grows_plain(old(self).raw(), final(self).raw()),
        decreases expr_size(e@), 1int, 0int,
    {
        match e {
            Expr::Binary { .. } | Expr::Logical { .. } | Expr::Membership { .. } => self.visit_pair(e),
            Expr::Call { .. } | Expr::List(_) | Expr::ListMethodCall { .. } => self.visit_many(e),
            Expr::Slice { .. } => self.visit_slice(e),
            _ => self.visit_single(e),
        }
    }

    fn visit_pair(&mut self, e: &Expr)
        requires
            e@ is Binary || e@ is Logical || e@ is Membership,
        ensures
            final(self).code() == old(self).code() + expr_code(e@),
            grows_plain(old(self).raw(), final(self).raw()),
        decreases expr_size(e@), 0int, 0int,
    {
        proof {
            lemma_expr_view_args(e);
        }
        let ghost c0 = self.code();
        match e {
            Expr::Binary { left, operator, right } => {
                self.visit_expr(left);
                self.visit_expr(right);
                let op = match operator {
                    BinaryOp::Add => Bytecode::Add,
                    BinaryOp::Sub => Bytecode::Sub,
                    BinaryOp::Mul => Bytecode::Mul,
                    BinaryOp::Div => Bytecode::Div,
                    BinaryOp::Less => Bytecode::Less,
                    BinaryOp::LessEq => Bytecode::LessEq,
                    BinaryOp::Greater => Bytecode::Greater,
                    BinaryOp::GreaterEq => Bytecode::GreaterEq,
                    BinaryOp::Eq => Bytecode::Eq,
                    BinaryOp::NotEq => Bytecode::NotEq,
                };
                assert(op@ == binary_code(*operator));
                self.emit(op);
                assert(self.code() =~= c0 + expr_code(e@));
            },
            Expr::Logical { operator, left, right } => {
                self.visit_expr(left);
                self.visit_expr(right);
                match operator {
                    LogicalOp::And => self.emit(Bytecode::And),
                    LogicalOp::Or => self.emit(Bytecode::Or),
                }
                assert(self.code() =~= c0 + expr_code(e@));
            },
            Expr::Membership { left, not, right } => {
                self.visit_expr(left);
                self.visit_expr(right);
                self.emit(Bytecode::In);
                if *not {
                    self.emit(Bytecode::Not);
                }
                assert(self.code() =~= c0 + expr_code(e@));
            },
            _ => {},
        }
    }

    fn visit_many(&mut self, e: &Expr)
        requires
            e@ is Call || e@ is List || e@ is ListMethodCall,
        ensures
            final(self).code() == old(self).code() + expr_code(e@),
            grows_plain(old(self).raw(), final(self).raw()),
        decreases expr_size(e@), 0int, 0int,
    {
        proof {
            lemma_expr_view_args(e);
        }
        let ghost c0 = self.code();
        match e {
            Expr::Call { callee, arguments } => {
                self.visit_expr(callee);
                self.visit_exprs(arguments, 0);
                self.emit(Bytecode::Call(arguments.len()));
                assert(self.code() =~= c0 + expr_code(e@));
            },
            Expr::List(items) => {
                self.visit_exprs_rev(items, items.len());
                self.emit(Bytecode::MakeList(items.len()));
                assert(self.code() =~= c0 + expr_code(e@));
            },
            Expr::ListMethodCall { object, method_name, arguments } => {
                self.emit(Bytecode::LoadVar(copy_string(object)));
                self.visit_exprs(arguments, 0);
                self.emit(Bytecode::ListMethodCall(copy_string(method_name), arguments.len()));
                assert(self.code() =~= c0 + expr_code(e@));
            },
            _ => {},
        }
    }

    fn visit_slice(&mut self, e: &Expr)
        requires
            e@ is Slice,
        ensures
            final(self).code() == old(self).code() + expr_code(e@),
            grows_plain(old(self).raw(), final(self).raw()),
        decreases expr_size(e@), 0int, 0int,
    {
        proof {
            lemma_expr_view_args(e);
        }
        let ghost c0 = self.code();
        match e {
            Expr::Slice { list, start, end } => {
                self.emit(Bytecode::LoadVar(copy_string(list)));
                match start {
                    Some(x) => {
                        assert(e@->Slice_start == Some(Box::new((**x)@)));
                        assert(opt_expr_size(e@->Slice_start) == expr_size((**x)@));
                        self.visit_expr(x);
                    },
                    None => {},
                }
                match end {
                    Some(x) => {
                        assert(e@->Slice_end == Some(Box::new((**x)@)));
                        assert(opt_expr_size(e@->Slice_end) == expr_size((**x)@));
                        self.visit_expr(x);
                    },
                    None => {},
                }
                self.emit(Bytecode::Slice(start.is_some(), end.is_some()));
                assert(self.code() =~= c0 + expr_code(e@));
            },
            _ => {},
        }
    }

    fn visit_single(&mut self, e: &Expr)
        requires
            !(e@ is Binary || e@ is Logical || e@ is Membership || e@ is Call || e@ is List
                || e@ is ListMethodCall || e@ is Slice),
        ensures
            final(self).code() == old(self).code() + expr_code(e@),
            grows_plain(old(self).raw(), final(self).raw()),
        decreases expr_size(e@), 0int, 0int,
    {
        proof {
            lemma_expr_view_args(e);
        }
        let ghost c0 = self.code();
        match e {
            Expr::Grouping(x) => {
                self.visit_expr(x);
            },
            Expr::Index { list, index } => {
                self.emit(Bytecode::LoadVar(copy_string(list)));
                self.visit_expr(index);
                self.emit(Bytecode::Index);
                assert(self.code() =~= c0 + expr_code(e@));
            },
            Expr::Literal(v) => {
                match v {
                    Value::Num(n) => self.emit(Bytecode::PushNum(copy_string(n))),
                    Value::Str(s) => self.emit(Bytecode::PushStr(copy_string(s))),
                    Value::Bool(b) => self.emit(Bytecode::PushBool(*b)),
                    Value::Null => self.emit(Bytecode::PushNull),
                    _ => {},
                }
                assert(self.code() =~= c0 + expr_code(e@));
            },
            Expr::Unary { operator, right } => {
                self.visit_expr(right);
                match operator {
                    UnaryOp::Neg => self.emit(Bytecode::Neg),
                    UnaryOp::Not => self.emit(Bytecode::Not),
                }
                assert(self.code() =~= c0 + expr_code(e@));
            },
            Expr::Var(name) => {
                self.emit(Bytecode::LoadVar(copy_string(name)));
                assert(self.code() =~= c0 + expr_code(e@));
            },
            _ => {},
        }
    }

    fn visit_exprs(&mut self, es: &Vec<Expr>, i: usize)
        ensures
            final(self).code() == old(self).code() + exprs_code(exprs_view(es@), i as int),
            grows_plain(old(self).raw(), final(self).raw()),
        decreases exprs_size(exprs_view(es@)), 2int, es@.len() - i,
    {
        if i >= es.len() {
            assert(self.code() =~= old(self).code() + exprs_code(exprs_view(es@), i as int));
            return;
        }
        proof {
            lemma_exprs_size_elem(exprs_view(es@), i as int);
        }
        self.visit_expr(&es[i]);
        self.visit_exprs(es, i + 1);
        assert(self.code() =~= old(self).code() + exprs_code(exprs_view(es@), i as int));
    }

    fn visit_exprs_rev(&mut self, es: &Vec<Expr>, i: usize)
        requires
            i <= es@.len(),
        ensures
            final(self).code() == old(self).code() + exprs_code_rev(exprs_view(es@), i as int),
            grows_plain(old(self).raw(), final(self).raw()),
        decreases exprs_size(exprs_view(es@)), 2int, i,
    {
        if i == 0 {
            assert(self.code() =~= old(self).code() + exprs_code_rev(exprs_view(es@), i as int));
            return;
        }
        proof {
            lemma_exprs_size_elem(exprs_view(es@), i - 1);
        }
        self.visit_expr(&es[i - 1]);
        self.visit_exprs_rev(es, i - 1);
        assert(self.code() =~= old(self).code() + exprs_code_rev(exprs_view(es@), i as int));
    }

    /// Emits the code of a statement of a block of `cfg`. With `deep` false,
    /// a nested function is emitted without its code, which has no bearing
    /// on the layout.
    fn visit_stmt(&mut self, s: &Stmt, cfg: &FunctionCFG, deep: bool)
        requires
            cfg.gen_ready(),
        ensures
            final(self).code() == old(self).code() + stmt_code(s@),
            deep ==> grows_ok(old(self).raw(), final(self).raw(), *cfg),
        decreases cfg, 1int,
    {
        let ghost c0 = self.code();
        let ghost r0 = self.raw();
        match s {
            Stmt::Assign { name, value } => {
                self.visit_expr(value);
                self.emit(Bytecode::StoreVar(copy_string(name)));
            },
            Stmt::Print(e) => {
                self.visit_expr(e);
                self.emit(Bytecode::Print);
            },
            Stmt::Expression(e) => {
                self.visit_expr(e);
                match e {
                    Expr::ListMethodCall { object, .. } => self.emit(Bytecode::StoreVar(copy_string(object))),
                    _ => self.emit(Bytecode::Pop),
                }
            },
            Stmt::Var { name, initializer } => {
                match initializer {
                    Some(i) => self.visit_expr(i),
                    None => self.emit(Bytecode::PushNull),
                }
                self.emit(Bytecode::StoreVar(copy_string(name)));
            },
            Stmt::Incr(n) => {
                self.emit(Bytecode::LoadVar(copy_string(n)));
                self.emit(Bytecode::PushNum("1".to_owned()));
                self.emit(Bytecode::Add);
                self.emit(Bytecode::StoreVar(copy_string(n)));
            },
            Stmt::Decr(n) => {
                self.emit(Bytecode::LoadVar(copy_string(n)));
                self.emit(Bytecode::PushNum("-1".to_owned()));
                self.emit(Bytecode::Add);
                self.emit(Bytecode::StoreVar(copy_string(n)));
            },
            Stmt::Function { name, params, captures, .. } => {
                let body = if deep {
                    self.nested_code(name, cfg)
                } else {
                    Vec::new()
                };
                let f = Bytecode::Function(copy_string(name), copy_strings(params), copy_strings(captures), body);
                assert(deep ==> item_ok(f, *cfg));
                self.emit(f);
                self.emit(Bytecode::StoreVar(copy_string(name)));
                assert(deep ==> grows_ok(r0, self.raw(), *cfg)) by {
                    if deep {
                        assert forall|i: int| r0.len() <= i < self.raw().len() implies #[trigger] item_ok(self.raw()[i], *cfg) by {
                            if i == r0.len() {
                                assert(self.raw()[i] == f);
                            }
                        }
                    }
                }
            },
            _ => {},
        }
        assert(self.code() =~= c0 + stmt_code(s@));
        proof {
            if !(s is Function) {
                lemma_plain_ok(r0, self.raw(), *cfg);
            }
        }
    }

    /// The code of the nested function `name` of the graph, generated from
    /// its own graph; none when the graph has no such function.
    fn nested_code(&mut self, name: &String, cfg: &FunctionCFG) -> (r: Vec<Bytecode>)
        requires
            cfg.gen_ready(),
        ensures
            final(self).code() == old(self).code(),
            final(self).raw() == old(self).raw(),
            match nested_index(cfg.nested_functions@, name@, 0) {
                Some(k) => {
                    &&& 0 <= k < cfg.nested_functions@.len()
                    &&& code_view(r@) == cfg_code(cfg.nested_functions@[k].cfg)
                    &&& bodies_ok(r@, cfg.nested_functions@[k].cfg)
                },
                None => r@.len() == 0,
            },
        decreases cfg, 0int,
    {
        let mut k: usize = 0;
        while k < cfg.nested_functions.len()
            invariant
                cfg.gen_ready(),
                k <= cfg.nested_functions@.len(),
                nested_index(cfg.nested_functions@, name@, 0) == nested_index(cfg.nested_functions@, name@, k as int),
            decreases cfg.nested_functions@.len() - k,
        {
            if crate::text::same_text(&cfg.nested_functions[k].name, name) {
                let inner = &cfg.nested_functions[k].cfg;
                assert(inner.gen_ready());
                assert(decreases_to!(cfg => cfg.nested_functions));
                assert(decreases_to!(cfg.nested_functions => cfg.nested_functions@));
                assert(decreases_to!(cfg.nested_functions@ => cfg.nested_functions@[k as int]));
                assert(decreases_to!(cfg.nested_functions@[k as int] => cfg.nested_functions@[k as int].cfg));
                let mut g = CodeGen::new();
                return g.generate(inner);
            }
            k = k + 1;
        }
        Vec::new()
    }

    fn visit_terminator(&mut self, t: &Option<Terminator>, offsets: &Vec<usize>, starts: Ghost<Seq<int>>)
        requires
            offsets@.len() == starts@.len(),
            forall|j: int| 0 <= j < offsets@.len() ==> offsets@[j] == starts@[j],
            forall|k: int| 0 <= k < term_targets(*t).len() ==> term_targets(*t)[k] < offsets@.len(),
        ensures
            final(self).code() == old(self).code() + term_code(*t, starts@),
            grows_plain(old(self).raw(), final(self).raw()),
    {
        let ghost c0 = self.code();
        match t {
            Some(Terminator::Goto(x)) => {
                assert(term_targets(*t)[0] == *x);
                self.emit(Bytecode::Jump(offsets[*x]));
            },
            Some(Terminator::Branch { cond, then_block, else_block }) => {
                assert(term_targets(*t)[0] == *then_block);
                assert(term_targets(*t)[1] == *else_block);
                self.visit_expr(cond);
                self.emit(Bytecode::JumpIfFalse(offsets[*else_block]));
                self.emit(Bytecode::Jump(offsets[*then_block]));
            },
            Some(Terminator::Return(v)) => {
                match v {
                    Some(e) => self.visit_expr(e),
                    None => {},
                }
                self.emit(Bytecode::Return);
            },
            None => {},
        }
        assert(self.code() =~= c0 + term_code(*t, starts@));
    }

    fn emit_block(&mut self, b: &BasicBlock, cfg: &FunctionCFG, deep: bool, offsets: &Vec<usize>, starts: Ghost<Seq<int>>)
        requires
            cfg.gen_ready(),
            offsets@.len() == starts@.len(),
            forall|j: int| 0 <= j < offsets@.len() ==> offsets@[j] == starts@[j],
            forall|k: int| 0 <= k < term_targets(b.terminator).len() ==> term_targets(b.terminator)[k] < offsets@.len(),
        ensures
            final(self).code() == old(self).code() + block_code(*b, starts@),
            deep ==> grows_ok(old(self).raw(), final(self).raw(), *cfg),
        decreases cfg, 2int,
    {
        let ghost c0 = self.code();
        let ghost r0 = self.raw();
        let ghost ss = stmts_view(b.stmts@);
        let mut i: usize = 0;
        while i < b.stmts.len()
            invariant
                cfg.gen_ready(),
                i <= b.stmts@.len(),
                ss == stmts_view(b.stmts@),
                self.code() == c0 + stmts_code(ss, i as int),
                deep ==> grows_ok(r0, self.raw(), *cfg),
            decreases b.stmts@.len() - i,
        {
            let ghost before = self.code();
            let ghost rb = self.raw();
            self.visit_stmt(&b.stmts[i], cfg, deep);
            proof {
                if deep {
                    lemma_grows_ok_trans(r0, rb, self.raw(), *cfg);
                }
            }
            assert(stmts_code(ss, i + 1) == stmts_code(ss, i as int) + stmt_code(ss[i as int]));
            assert(self.code() =~= c0 + stmts_code(ss, i + 1));
            i = i + 1;
        }
        let ghost rt = self.raw();
        self.visit_terminator(&b.terminator, offsets, starts);
        proof {
            if deep {
                lemma_grows_ok_trans(r0, rt, self.raw(), *cfg);
            }
        }
        assert(self.code() =~= c0 + block_code(*b, starts@));
    }

    /// Generates the code of a function graph: its blocks laid out in
    /// order, each jump aimed at the first instruction of its target block,
    /// each declared function carrying the code of its own graph. The code
    /// is taken out of the generator.
    pub fn generate(&mut self, cfg: &FunctionCFG) -> (r: Vec<Bytecode>)
        requires
            cfg.gen_ready(),
        ensures
            code_view(r@) == old(self).code() + cfg_code(*cfg),
            final(self).code() == Seq::<BytecodeV>::empty(),
            bodies_ok(old(self).raw(), *cfg) ==> bodies_ok(r@, *cfg),
        decreases cfg, 3int,
    {
        let n = cfg.blocks.len();
        let ghost bs = cfg.blocks@;
        let ghost starts = block_starts(bs, n as int);
        let ghost zs = Seq::new(n as nat, |j: int| 0int);
        let mut zeros: Vec<usize> = Vec::new();
        while zeros.len() < n
            invariant
                zeros@.len() <= n,
                forall|j: int| 0 <= j < zeros@.len() ==> zeros@[j] == 0,
            decreases n - zeros@.len(),
        {
            zeros.push(0);
        }
        let mut scratch = CodeGen::new();
        let mut offsets: Vec<usize> = Vec::new();
        let mut k: usize = 0;
        while k < n
            invariant
                cfg.gen_ready(),
                n == cfg.blocks@.len(),
                bs == cfg.blocks@,
                starts == block_starts(bs, n as int),
                zs == Seq::new(n as nat, |j: int| 0int),
                zeros@.len() == n,
                forall|j: int| 0 <= j < zeros@.len() ==> zeros@[j] == 0,
                k <= n,
                scratch.code() == layout(bs, zs, k as int),
                offsets@.len() == k,
                forall|j: int| 0 <= j < k ==> offsets@[j] == starts[j],
            decreases n - k,
        {
            proof {
                lemma_layout_len(bs, zs, Seq::empty(), k as int);
                lemma_block_starts(bs, n as int, k as int);
            }
            offsets.push(scratch.code.len());
            assert(cfg.blocks@[k as int].id == k);
            scratch.emit_block(&cfg.blocks[k], cfg, false, &zeros, Ghost(zs));
            assert(layout(bs, zs, k + 1) == layout(bs, zs, k as int) + block_code(bs[k as int], zs));
            k = k + 1;
        }
        let ghost c0 = self.code();
        let ghost r0 = self.raw();
        k = 0;
        while k < n
            invariant
                cfg.gen_ready(),
                n == cfg.blocks@.len(),
                bs == cfg.blocks@,
                starts == block_starts(bs, n as int),
                k <= n,
                offsets@.len() == n,
                forall|j: int| 0 <= j < n ==> offsets@[j] == starts[j],
                self.code() == c0 + layout(bs, starts, k as int),
                grows_ok(r0, self.raw(), *cfg),
            decreases n - k,
        {
            proof {
                lemma_block_starts(bs, n as int, 0);
            }
            let ghost rb = self.raw();
            self.emit_block(&cfg.blocks[k], cfg, true, &offsets, Ghost(starts));
            proof {
                lemma_grows_ok_trans(r0, rb, self.raw(), *cfg);
            }
            assert(layout(bs, starts, k + 1) == layout(bs, starts, k as int) + block_code(bs[k as int], starts));
            assert(self.code() =~= c0 + layout(bs, starts, k + 1));
            k = k + 1;
        }
        let mut out: Vec<Bytecode> = Vec::new();
        std::mem::swap(&mut out, &mut self.code);
        assert(self.code() =~= Seq::<BytecodeV>::empty());
        assert(bodies_ok(r0, *cfg) ==> bodies_ok(out@, *cfg)) by {
            if bodies_ok(r0, *cfg) {
                reveal_with_fuel(bodies_ok, 2);
                assert(forall|i: int| 0 <= i < r0.len() ==> #[trigger] item_ok(r0[i], *cfg));
                assert forall|i: int| 0 <= i < out@.len() implies item_ok(#[trigger] out@[i], *cfg) by {
                    if i < r0.len() {
                        assert(out@[i] == r0[i]);
                        assert(item_ok(r0[i], *cfg));
                    }
                }
            }
        }
        out
    }
}

pub proof fn lemma_term_len(t: Option<Terminator>, s1: Seq<int>, s2: Seq<int>)
    ensures
        term_code(t, s1).len() == term_code(t, s2).len(),
{
}

pub proof fn lemma_layout_len(bs: Seq<BasicBlock>, s1: Seq<int>, s2: Seq<int>, k: int)
    ensures
        layout(bs, s1, k).len() == layout(bs, s2, k).len(),
    decreases k,
{
    if k > 0 {
        lemma_layout_len(bs, s1, s2, k - 1);
        lemma_term_len(bs[k - 1].terminator, s1, s2);
    }
}

pub proof fn lemma_block_starts_len(bs: Seq<BasicBlock>, n: int)
    requires
        n >= 0,
    ensures
        block_starts(bs, n).len() == n,
    decreases n,
{
    if n > 0 {
        lemma_block_starts_len(bs, n - 1);
    }
}

/// Block `k` starts where the code of the blocks before it ends.
pub proof fn lemma_block_starts(bs: Seq<BasicBlock>, n: int, k: int)
    requires
        0 <= k < n,
    ensures
        block_starts(bs, n).len() == n,
        block_starts(bs, n)[k] == layout(bs, Seq::empty(), k).len(),
    decreases n,
{
    lemma_block_starts_len(bs, n);
    lemma_block_starts_len(bs, n - 1);
    if k < n - 1 {
        lemma_block_starts(bs, n - 1, k);
    } else if k > 0 {
        lemma_block_starts(bs, n - 1, k - 1);
    }
}

} // verus!
