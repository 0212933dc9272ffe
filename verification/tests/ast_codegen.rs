use pyru::codgen::Bytecode;
use pyru::codegen::CodeGen;
use pyru::lexer::Lexer;
use pyru::parser::Parser;
use pyru::stmt::Stmt;
use pyru::expr::Expr;

fn code(src: &str) -> Vec<Bytecode> {
    let tokens = Lexer::new(src).tokenise().ok().expect("lexes");
    let ast = Parser::new(tokens).parse().ok().expect("parses");
    CodeGen::new().run(with_jumps(ast))
}

fn show(v: &[Bytecode]) -> Vec<String> {
    v.iter().map(|b| format!("{:?}", b)).collect()
}

#[test]
fn straight_line_code() {
    let c = code("let a = 1;\nprint(a);\n");
    assert_eq!(show(&c), vec![
        "PushNum(\"1\")", "StoreVar(\"a\")", "LoadVar(\"a\")", "Print",
    ]);
}

#[test]
fn if_else_jumps() {
    let c = code("let a = 1;\nif a < 2:\n    print(1);\nelse:\n    print(2);\n");
    assert_eq!(c.len(), 11);
    assert!(matches!(c[5], Bytecode::JumpIfFalse(9)));
    assert!(matches!(c[8], Bytecode::Jump(11)));
    assert!(matches!(c[10], Bytecode::Print));
}

#[test]
fn break_jumps_past_the_loop() {
    let c = code("while true:\n    break;\n");
    assert_eq!(c.len(), 4);
    assert!(matches!(c[0], Bytecode::PushBool(true)));
    assert!(matches!(c[1], Bytecode::JumpIfFalse(4)));
    assert!(matches!(c[2], Bytecode::Jump(4)));
    assert!(matches!(c[3], Bytecode::Jump(0)));
}

#[test]
fn continue_in_for_jumps_to_the_step() {
    let c = code("for i in 0..2:\n    continue;\n");
    // init (2), condition (3), test, body jump, step (4), back jump
    assert_eq!(c.len(), 12);
    assert!(matches!(c[5], Bytecode::JumpIfFalse(12)));
    assert!(matches!(c[6], Bytecode::Jump(7)));
    assert!(matches!(c[11], Bytecode::Jump(2)));
}

#[test]
fn function_body_is_its_own_code() {
    let c = code("def f():\n    return 1;\n");
    assert_eq!(c.len(), 2);
    match &c[0] {
        Bytecode::Function(name, params, _, body) => {
            assert_eq!(name, "f");
            assert!(params.is_empty());
            assert_eq!(show(body), vec!["PushNum(\"1\")", "Return", "PushNull"]);
        }
        _ => panic!("expected a function"),
    }
    assert!(matches!(&c[1], Bytecode::StoreVar(n) if n == "f"));
}

#[test]
fn every_jump_lands_in_the_code() {
    let c = code(
        "let n = 0;\nfor i in 0..5:\n    if i == 2:\n        continue;\n    while n < i:\n        n = n + 1;\n        if n > 3:\n            break;\n    print(n);\n",
    );
    for b in &c {
        match b {
            Bytecode::Jump(t) | Bytecode::JumpIfFalse(t) => assert!(*t <= c.len()),
            _ => {}
        }
    }
    assert!(c.iter().any(|b| matches!(b, Bytecode::Print)));
}

/// The words `break` and `continue` are no keywords of the lexer, so a
/// statement `break;` parses as an expression; this turns such statements
/// into the jump statements of the syntax tree.
fn with_jumps(v: Vec<Stmt>) -> Vec<Stmt> {
    v.into_iter().map(with_jump).collect()
}

fn with_jump(s: Stmt) -> Stmt {
    match s {
        Stmt::Expression(Expr::Var(n)) if n == "break" => Stmt::Break,
        Stmt::Expression(Expr::Var(n)) if n == "continue" => Stmt::Continue,
        Stmt::While { condition, body } => Stmt::While { condition, body: with_jumps(body) },
        Stmt::For { initializer, condition, step, body } => Stmt::For { initializer, condition, step, body: with_jumps(body) },
        Stmt::If { condition, then_branch, else_branch } => Stmt::If {
            condition,
            then_branch: with_jumps(then_branch),
            else_branch: else_branch.map(with_jumps),
        },
        Stmt::Function { name, params, body, captures } => Stmt::Function { name, params, body: with_jumps(body), captures },
        other => other,
    }
}

#[test]
fn nested_function_body_is_carried_inside() {
    let c = code("def f():\n    def g():\n        return 2;\n    return g;\n");
    let f_body = match &c[0] {
        Bytecode::Function(name, _, _, body) if name == "f" => body,
        _ => panic!("expected f"),
    };
    assert_eq!(f_body.len(), 5);
    match &f_body[0] {
        Bytecode::Function(name, _, _, body) => {
            assert_eq!(name, "g");
            assert_eq!(show(body), vec!["PushNum(\"2\")", "Return", "PushNull"]);
        }
        _ => panic!("expected g"),
    }
    assert_eq!(show(&f_body[1..]), vec!["StoreVar(\"g\")", "LoadVar(\"g\")", "Return", "PushNull"]);
}
