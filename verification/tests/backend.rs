use pyru::cfg::{BasicBlock, FunctionCFG, Terminator};
use pyru::codgen::Bytecode;
use pyru::expr::Expr;
use pyru::pipeline::{check_source, generate_program, lower_program};
use pyru::lexer::Lexer;
use pyru::parser::Parser;
use pyru::stmt::Stmt;

fn block(id: usize, terminator: Terminator) -> BasicBlock {
    BasicBlock { id, stmts: Vec::new(), terminator: Some(terminator) }
}

fn graph(blocks: Vec<BasicBlock>) -> FunctionCFG {
    FunctionCFG {
        name: "main".to_string(),
        params: Vec::new(),
        captures: Vec::new(),
        entry: 0,
        exit: 1,
        blocks,
        nested_functions: Vec::new(),
    }
}

#[test]
fn renumbering_maps_targets_to_places() {
    let mut g = graph(vec![
        block(0, Terminator::Goto(5)),
        block(2, Terminator::Return(None)),
        block(5, Terminator::Branch { cond: Expr::Var("x".to_string()), then_block: 2, else_block: 0 }),
    ]);
    g.renumber_blocks();
    let ids: Vec<usize> = g.blocks.iter().map(|b| b.id).collect();
    assert_eq!(ids, vec![0, 1, 2]);
    assert!(matches!(g.blocks[0].terminator, Some(Terminator::Goto(2))));
    assert!(matches!(g.blocks[2].terminator, Some(Terminator::Branch { then_block: 1, else_block: 0, .. })));
}

#[test]
fn clean_up_drops_unreachable_blocks() {
    let mut g = graph(vec![
        block(0, Terminator::Goto(2)),
        block(1, Terminator::Return(None)),
        block(2, Terminator::Goto(1)),
        block(3, Terminator::Goto(1)),
    ]);
    g.clean_up();
    let ids: Vec<usize> = g.blocks.iter().map(|b| b.id).collect();
    assert_eq!(ids, vec![0, 1, 2]);
}

#[test]
fn code_after_break_is_not_generated() {
    let tokens = Lexer::new("let i = 0;\nwhile i < 1:\n    break;\n    print(i);\n").tokenise().ok().unwrap();
    let ast = with_jumps(Parser::new(tokens).parse().ok().unwrap());
    let (_, code) = generate_program(lower_program(&ast).ok().expect("lowers"));
    assert!(!code.iter().any(|b| matches!(b, Bytecode::Print)));
    for b in &code {
        match b {
            Bytecode::Jump(t) | Bytecode::JumpIfFalse(t) => assert!(*t < code.len()),
            _ => {}
        }
    }
}

#[test]
fn back_end_graph_is_numbered_by_place() {
    let ast = check_source("let a = 1;\nif a < 2:\n    print(a);\n").ok().unwrap();
    let cfg = lower_program(&ast).ok().unwrap();
    assert!(cfg.is_well_formed());
    let (g, code) = generate_program(cfg);
    for (i, b) in g.blocks.iter().enumerate() {
        assert_eq!(b.id, i);
    }
    assert!(code.iter().any(|b| matches!(b, Bytecode::Print)));
}

#[test]
fn well_formedness_is_checked() {
    let bad = graph(vec![block(0, Terminator::Goto(7)), block(1, Terminator::Return(None))]);
    assert!(!bad.is_well_formed());
}

fn set_of(v: &[usize]) -> std::collections::HashSet<usize> {
    v.iter().copied().collect()
}

#[test]
fn dominators_of_a_diamond() {
    let g = graph(vec![
        block(0, Terminator::Branch { cond: Expr::Var("c".to_string()), then_block: 2, else_block: 3 }),
        block(1, Terminator::Return(None)),
        block(2, Terminator::Goto(4)),
        block(3, Terminator::Goto(4)),
        block(4, Terminator::Goto(1)),
        block(5, Terminator::Goto(1)),
    ]);
    let dom = g.compute_dominators();
    assert_eq!(dom.len(), 6);
    assert_eq!(dom[0], set_of(&[0]));
    assert_eq!(dom[2], set_of(&[0, 2]));
    assert_eq!(dom[3], set_of(&[0, 3]));
    assert_eq!(dom[4], set_of(&[0, 4]));
    assert_eq!(dom[5], set_of(&[0, 1, 2, 3, 4, 5]));
    assert_eq!(dom[1], set_of(&[0, 1, 4]));
}

#[test]
fn dominators_of_a_loop() {
    let ast = check_source("let i = 0;\nwhile i < 3:\n    i++;\n").ok().unwrap();
    let cfg = lower_program(&ast).ok().unwrap();
    let dom = cfg.compute_dominators();
    assert_eq!(dom.len(), cfg.blocks.len());
    assert_eq!(dom[0], set_of(&[0]));
    for (b, d) in dom.iter().enumerate() {
        assert!(d.contains(&b));
        assert!(d.contains(&0));
    }
}

#[test]
fn liveness_of_a_loop() {
    let ast = check_source("let i = 0;\nwhile i < 3:\n    print(i);\n    i++;\nlet d = 5;\n").ok().unwrap();
    let cfg = lower_program(&ast).ok().unwrap();
    let (ins, outs) = pyru::liveliness::Liveliness::new().compute_liveliness(&cfg);
    assert_eq!(ins.len(), cfg.blocks.len());
    assert_eq!(outs.len(), cfg.blocks.len());
    // Nothing is live on entering the program, and `d` is never read.
    assert!(ins[0].is_empty());
    for set in ins.iter().chain(outs.iter()) {
        assert!(!set.iter().any(|n| n == "d"));
    }
    // The loop variable is live on leaving the entry block.
    assert!(outs[0].iter().any(|n| n == "i"));
}

#[test]
fn dead_assignments_go_but_prints_stay() {
    let ast = check_source("let a = 1;\nprint(2);\na = 3;\nprint(a);\nlet b = 4;\n").ok().unwrap();
    let mut cfg = lower_program(&ast).ok().unwrap();
    let before: usize = cfg.blocks.iter().map(|b| b.stmts.len()).sum();
    pyru::liveliness::Liveliness::new().eliminate_dead_assignments(&mut cfg);
    let after: usize = cfg.blocks.iter().map(|b| b.stmts.len()).sum();
    assert!(after < before);
    let prints = cfg.blocks.iter().flat_map(|b| b.stmts.iter()).filter(|s| matches!(s, pyru::stmt::Stmt::Print(_))).count();
    assert_eq!(prints, 2);
}

/// The words `break` and `continue` are no keywords of the lexer, so a
/// statement `break;` parses as an expression; this turns such statements
/// into the jump statements of the syntax tree.
fn with_jumps(v: Vec<Stmt>) -> Vec<Stmt> {
    v.into_iter().map(with_jump).collect()
}

fn with_jump(s: Stmt) -> Stmt {
    match s {
        Stmt::Expression(Expr::Var(n)) if n == "break" => Stmt::Break,
        Stmt::Expression(Expr::Var(n)) if n == "continue" => Stmt::Continue,
        Stmt::While { condition, body } => Stmt::While { condition, body: with_jumps(body) },
        Stmt::For { initializer, condition, step, body } => Stmt::For { initializer, condition, step, body: with_jumps(body) },
        Stmt::If { condition, then_branch, else_branch } => Stmt::If {
            condition,
            then_branch: with_jumps(then_branch),
            else_branch: else_branch.map(with_jumps),
        },
        Stmt::Function { name, params, body, captures } => Stmt::Function { name, params, body: with_jumps(body), captures },
        other => other,
    }
}

fn show<T: std::fmt::Debug>(v: &T) -> String {
    format!("{:?}", v)
}

#[test]
fn graph_of_a_print() {
    let ast = vec![Stmt::Print(Expr::Literal(pyru::value::Value::Num("1".to_string())))];
    let cfg = FunctionCFG::from_ast("main".to_string(), &ast);
    assert_eq!(cfg.blocks.len(), 2);
    assert_eq!(cfg.blocks[0].stmts.len(), 3);
    assert!(matches!(&cfg.blocks[0].stmts[0], Stmt::Var { name, initializer: Some(Expr::Literal(pyru::value::Value::Null)) } if name == "__ret"));
    assert!(matches!(&cfg.blocks[0].stmts[1], Stmt::Print(_)));
    assert!(matches!(&cfg.blocks[0].stmts[2], Stmt::Assign { name, .. } if name == "__ret"));
    assert!(matches!(cfg.blocks[0].terminator, Some(Terminator::Goto(1))));
    assert!(cfg.blocks[1].stmts.is_empty());
    assert!(matches!(&cfg.blocks[1].terminator, Some(Terminator::Return(Some(Expr::Var(n)))) if n == "__ret"));
    assert!(cfg.params.is_empty() && cfg.nested_functions.is_empty());
}

#[test]
fn graph_of_a_loop_with_break() {
    let ast = vec![Stmt::While {
        condition: Expr::Var("c".to_string()),
        body: vec![Stmt::Break, Stmt::Print(Expr::Literal(pyru::value::Value::Num("2".to_string())))],
    }];
    let cfg = FunctionCFG::from_ast("main".to_string(), &ast);
    assert_eq!(cfg.blocks.len(), 5);
    assert!(matches!(cfg.blocks[0].terminator, Some(Terminator::Goto(2))));
    assert!(matches!(cfg.blocks[2].terminator, Some(Terminator::Branch { then_block: 3, else_block: 4, .. })));
    assert!(cfg.blocks[3].stmts.is_empty());
    assert!(matches!(cfg.blocks[3].terminator, Some(Terminator::Goto(4))));
    assert_eq!(cfg.blocks[4].stmts.len(), 1);
    assert!(matches!(cfg.blocks[4].terminator, Some(Terminator::Goto(1))));
}

#[test]
fn nested_function_is_registered_with_an_empty_body() {
    let ast = check_source("def f(x):\n    return x;\nprint(f(1));\n").ok().unwrap();
    let cfg = FunctionCFG::from_ast("main".to_string(), &ast);
    assert_eq!(cfg.nested_functions.len(), 1);
    assert_eq!(cfg.nested_functions[0].name, "f");
    assert_eq!(cfg.nested_functions[0].cfg.params, vec!["x".to_string()]);
    match &cfg.blocks[0].stmts[1] {
        Stmt::Function { name, body, .. } => {
            assert_eq!(name, "f");
            assert!(body.is_empty());
        }
        other => panic!("expected the declaration, got {}", show(other)),
    }
}

#[test]
fn live_declaration_read_by_a_loop_condition_stays() {
    let ast = check_source("let n = 3;\nlet i = 0;\nwhile i < n:\n    i++;\n").ok().unwrap();
    let mut cfg = FunctionCFG::from_ast("main".to_string(), &ast);
    pyru::liveliness::Liveliness::new().eliminate_dead_assignments(&mut cfg);
    assert!(cfg.blocks[0].stmts.iter().any(|s| matches!(s, Stmt::Var { name, .. } if name == "n")));
}

#[test]
fn clean_up_follows_ids_that_are_not_places() {
    let mut g = graph(vec![
        block(0, Terminator::Goto(7)),
        block(4, Terminator::Return(None)),
        block(7, Terminator::Goto(4)),
        block(9, Terminator::Goto(0)),
        block(12, Terminator::Goto(40)),
    ]);
    g.clean_up();
    let ids: Vec<usize> = g.blocks.iter().map(|b| b.id).collect();
    assert_eq!(ids, vec![0, 4, 7]);
}

#[test]
fn second_clean_up_changes_nothing() {
    let mut g = graph(vec![
        block(0, Terminator::Goto(2)),
        block(1, Terminator::Goto(3)),
        block(2, Terminator::Return(None)),
        block(3, Terminator::Goto(2)),
        block(4, Terminator::Goto(0)),
    ]);
    g.clean_up();
    let once: Vec<usize> = g.blocks.iter().map(|b| b.id).collect();
    assert_eq!(once, vec![0, 2]);
    g.clean_up();
    let twice: Vec<usize> = g.blocks.iter().map(|b| b.id).collect();
    assert_eq!(twice, once);
}

#[test]
fn code_of_a_print_graph() {
    let ast = vec![Stmt::Print(Expr::Literal(pyru::value::Value::Num("1".to_string())))];
    let cfg = FunctionCFG::from_ast("main".to_string(), &ast);
    let code = pyru::codgen::CodeGen::new().generate(&cfg);
    let shown: Vec<String> = code.iter().map(|b| format!("{:?}", b)).collect();
    assert_eq!(
        shown,
        vec![
            "PushNull",
            "StoreVar(\"__ret\")",
            "PushNum(\"1\")",
            "Print",
            "PushNull",
            "StoreVar(\"__ret\")",
            "Jump(7)",
            "LoadVar(\"__ret\")",
            "Return",
        ]
    );
}

#[test]
fn nested_function_carries_its_code() {
    let ast = check_source("def f(x):\n    return x;\nprint(f(1));\n").ok().unwrap();
    let (_, code) = generate_program(lower_program(&ast).ok().unwrap());
    let body = code
        .iter()
        .find_map(|b| match b {
            Bytecode::Function(name, params, _, body) if name == "f" => {
                assert_eq!(params, &vec!["x".to_string()]);
                Some(body)
            }
            _ => None,
        })
        .expect("the declaration of f");
    assert!(body.iter().any(|b| matches!(b, Bytecode::LoadVar(n) if n == "x")));
    assert!(matches!(body.last(), Some(Bytecode::Return)));
}
