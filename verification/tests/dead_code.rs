use pyru::dce::DeadCodeEliminator;
use pyru::lexer::Lexer;
use pyru::parser::Parser;
use pyru::stmt::Stmt;
use pyru::expr::Expr;
use pyru::value::Value;

fn parse(src: &str) -> Vec<Stmt> {
    let tokens = Lexer::new(src).tokenise().ok().expect("lexes");
    Parser::new(tokens).parse().ok().expect("parses")
}

fn print_num(n: &str) -> Stmt {
    Stmt::Print(Expr::Literal(Value::Num(n.to_string())))
}

fn show(v: &[Stmt]) -> String {
    format!("{:?}", v)
}

#[test]
fn constant_true_branch_is_spliced() {
    let ast = parse("if true:\n    print(1);\nelse:\n    print(2);\n");
    let out = DeadCodeEliminator::new().eliminate(ast);
    assert_eq!(show(&out), show(&[print_num("1")]));
}

#[test]
fn constant_false_branch_takes_else() {
    let ast = parse("if false:\n    print(1);\nelse:\n    print(2);\nprint(3);\n");
    let out = DeadCodeEliminator::new().eliminate(ast);
    assert_eq!(show(&out), show(&[print_num("2"), print_num("3")]));
}

#[test]
fn constant_false_without_else_vanishes() {
    let ast = parse("if false:\n    print(1);\n");
    let out = DeadCodeEliminator::new().eliminate(ast);
    assert!(out.is_empty());
}

#[test]
fn while_false_vanishes() {
    let ast = parse("while false:\n    print(1);\nprint(2);\n");
    let out = DeadCodeEliminator::new().eliminate(ast);
    assert_eq!(show(&out), show(&[print_num("2")]));
}

#[test]
fn code_after_return_is_dropped() {
    let ast = parse("def f():\n    return 1;\n    print(2);\nprint(3);\n");
    let out = DeadCodeEliminator::new().eliminate(ast);
    assert_eq!(out.len(), 2);
    match &out[0] {
        Stmt::Function { body, .. } => {
            assert_eq!(body.len(), 1);
            assert!(matches!(body[0], Stmt::Return(Some(_))));
        }
        _ => panic!("expected the function"),
    }
}

#[test]
fn break_ends_loop_body() {
    let ast = with_jumps(parse("while true:\n    break;\n    print(1);\n"));
    let out = DeadCodeEliminator::new().eliminate(ast);
    match &out[0] {
        Stmt::While { body, .. } => {
            assert_eq!(body.len(), 1);
            assert!(matches!(body[0], Stmt::Break));
        }
        _ => panic!("expected the loop"),
    }
}

#[test]
fn spliced_return_does_not_stop_the_block() {
    // A `return` that comes out of a constant branch does not end the
    // enclosing block: only a statement kept as it stands does.
    let ast = vec![
        Stmt::If {
            condition: Expr::Literal(Value::Bool(true)),
            then_branch: vec![Stmt::Return(None)],
            else_branch: None,
        },
        print_num("1"),
    ];
    let out = DeadCodeEliminator::new().eliminate(ast);
    assert_eq!(show(&out), show(&[Stmt::Return(None), print_num("1")]));
}

#[test]
fn ordinary_branches_are_kept_and_cleaned() {
    let ast = parse("let a = 1;\nif a < 2:\n    if false:\n        print(1);\n    print(2);\n");
    let out = DeadCodeEliminator::new().eliminate(ast);
    assert_eq!(out.len(), 2);
    match &out[1] {
        Stmt::If { then_branch, else_branch, .. } => {
            assert_eq!(show(then_branch), show(&[print_num("2")]));
            assert!(else_branch.is_none());
        }
        _ => panic!("expected the branch"),
    }
}

#[test]
fn for_loop_body_is_cleaned() {
    let ast = parse("for i in 0..3:\n    while false:\n        print(i);\n    print(i);\n");
    let out = DeadCodeEliminator::new().eliminate(ast);
    match &out[0] {
        Stmt::For { body, .. } => {
            assert_eq!(body.len(), 1);
            assert!(matches!(body[0], Stmt::Print(_)));
        }
        _ => panic!("expected the loop"),
    }
}

/// The words `break` and `continue` are no keywords of the lexer, so a
/// statement `break;` parses as an expression; this turns such statements
/// into the jump statements of the syntax tree.
fn with_jumps(v: Vec<Stmt>) -> Vec<Stmt> {
    v.into_iter().map(with_jump).collect()
}

fn with_jump(s: Stmt) -> Stmt {
    match s {
        Stmt::Expression(Expr::Var(n)) if n == "break" => Stmt::Break,
        Stmt::Expression(Expr::Var(n)) if n == "continue" => Stmt::Continue,
        Stmt::While { condition, body } => Stmt::While { condition, body: with_jumps(body) },
        Stmt::For { initializer, condition, step, body } => Stmt::For { initializer, condition, step, body: with_jumps(body) },
        Stmt::If { condition, then_branch, else_branch } => Stmt::If {
            condition,
            then_branch: with_jumps(then_branch),
            else_branch: else_branch.map(with_jumps),
        },
        Stmt::Function { name, params, body, captures } => Stmt::Function { name, params, body: with_jumps(body), captures },
        other => other,
    }
}
