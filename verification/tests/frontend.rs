use pyru::error::{CompileError, LexerError, ParserError, SemanticError};
use pyru::lexer::Lexer;
use pyru::parser::Parser;
use pyru::pipeline::check_source;
use pyru::semantics::Semantics;
use pyru::stmt::Stmt;
use pyru::expr::{BinaryOp, Expr};
use pyru::token::TokenKind;
use pyru::value::Value;
use pyru::codgen::Bytecode;
use pyru::cfg::{FunctionCFG, Terminator};
use pyru::liveliness::expr_has_side_effects;

fn has_print(stmts: &[Stmt]) -> bool {
    stmts.iter().any(|s| match s {
        Stmt::Print(_) => true,
        Stmt::If { then_branch, else_branch, .. } => {
            has_print(then_branch) || else_branch.as_ref().map_or(false, |b| has_print(b))
        }
        Stmt::While { body, .. } | Stmt::For { body, .. } | Stmt::Function { body, .. } => has_print(body),
        _ => false,
    })
}

fn kinds(src: &str) -> Vec<TokenKind> {
    Lexer::new(src).tokenise().ok().expect("lexes").iter().map(|t| t.kind).collect()
}

#[test]
fn smoke_no_output() {
    let ast = check_source("let a = 1;\n").ok().expect("expected success");
    assert!(!has_print(&ast));
    let code = pyru::pipeline::compile_source("let a = 1;\n").ok().expect("compiles");
    assert!(!code.iter().any(|b| matches!(b, Bytecode::Print)));
}

#[test]
fn invalid_assignment_target() {
    assert!(check_source("(a) = 1;\n").is_err());
}

#[test]
fn undefined_variable_is_error() {
    assert!(check_source("print(x);\n").is_err());
}

#[test]
fn error_in_unreachable_code_still_error() {
    assert!(check_source("if false:\n    print(x);\n").is_err());
}

#[test]
fn lexer_ends_with_eof() {
    assert_eq!(kinds(""), vec![TokenKind::Eof]);
    assert_eq!(
        kinds("let a = 1;"),
        vec![TokenKind::Let, TokenKind::Identifier, TokenKind::Equal, TokenKind::Num, TokenKind::Semicolon, TokenKind::Eof]
    );
}

#[test]
fn lexer_emits_indentation() {
    let k = kinds("if true:\n    print(1);\n");
    assert!(k.contains(&TokenKind::Indent));
    assert!(k.contains(&TokenKind::Dedent));
    assert_eq!(*k.last().unwrap(), TokenKind::Eof);
}

#[test]
fn lexer_rejects_unterminated_string() {
    match Lexer::new("print(\"abc);\n").tokenise() {
        Err(CompileError::Lexer(LexerError::UnterminatedString { .. })) => {}
        _ => panic!("expected an unterminated string error"),
    }
}

#[test]
fn parser_precedence() {
    let tokens = Lexer::new("print(2 + 3 * 4);\n").tokenise().ok().unwrap();
    let ast = Parser::new(tokens).parse().ok().unwrap();
    assert_eq!(ast.len(), 1);
    match &ast[0] {
        Stmt::Print(Expr::Binary { left, operator, right }) => {
            assert_eq!(*operator, BinaryOp::Add);
            assert!(matches!(**left, Expr::Literal(Value::Num(ref n)) if n == "2"));
            assert!(matches!(**right, Expr::Binary { operator: BinaryOp::Mul, .. }));
        }
        _ => panic!("expected a print of a sum"),
    }
}

#[test]
fn parser_reports_missing_semicolon() {
    let tokens = Lexer::new("print(1)\n").tokenise().ok().unwrap();
    match Parser::new(tokens).parse() {
        Err(CompileError::Parser(ParserError::CouldntConsumeToken { expected, .. })) => {
            assert_eq!(expected, TokenKind::Semicolon);
        }
        _ => panic!("expected a missing semicolon"),
    }
}

#[test]
fn parser_builds_for_loop() {
    let tokens = Lexer::new("for i in 0..3:\n    print(i);\n").tokenise().ok().unwrap();
    let ast = Parser::new(tokens).parse().ok().unwrap();
    match &ast[0] {
        Stmt::For { initializer, step, body, .. } => {
            assert!(matches!(**initializer, Stmt::Var { ref name, initializer: Some(_) } if name == "i"));
            assert!(matches!(**step, Stmt::Incr(ref n) if n == "i"));
            assert_eq!(body.len(), 1);
        }
        _ => panic!("expected a for loop"),
    }
}

#[test]
fn parser_rejects_bad_number() {
    let tokens = Lexer::new("print(1.2.3);\n").tokenise();
    if let Ok(tokens) = tokens {
        assert!(Parser::new(tokens).parse().is_err());
    }
}

#[test]
fn semantics_accepts_declared_names() {
    assert!(check_source("let a = 1;\nprint(a);\na = 2;\na++;\n").is_ok());
}

#[test]
fn semantics_rejects_break_outside_loop() {
    match Semantics::new().run(&vec![Stmt::Break]) {
        Err(CompileError::Semantic(SemanticError::BreakOutsideLoop)) => {}
        _ => panic!("expected break outside loop"),
    }
}

#[test]
fn semantics_rejects_redefinition() {
    match check_source("let a = 1;\nlet a = 2;\n") {
        Err(CompileError::Semantic(SemanticError::VariableRedefined { name })) => assert_eq!(name, "a"),
        _ => panic!("expected a redefinition error"),
    }
}

#[test]
fn semantics_rejects_undeclared_assignment() {
    match check_source("b = 1;\n") {
        Err(CompileError::Semantic(SemanticError::UndeclaredVariable { name })) => assert_eq!(name, "b"),
        _ => panic!("expected an undeclared variable error"),
    }
}

#[test]
fn semantics_merges_branches() {
    assert!(check_source("let a;\nif true:\n    a = 1;\nelse:\n    a = 2;\nprint(a);\n").is_ok());
    assert!(check_source("let a;\nif true:\n    a = 1;\nprint(a);\n").is_err());
}

#[test]
fn semantics_loop_allows_break() {
    let tokens = Lexer::new("while true:\n    break;\n").tokenise().ok().unwrap();
    let ast = with_jumps(Parser::new(tokens).parse().ok().unwrap());
    assert!(Semantics::new().run(&ast).is_ok());
}

#[test]
fn semantics_unknown_list_method() {
    match check_source("let l = [1, 2];\nl.shuffle();\n") {
        Err(CompileError::Semantic(SemanticError::UnknownListMethod { method_name, .. })) => {
            assert_eq!(method_name, "shuffle")
        }
        _ => panic!("expected an unknown list method"),
    }
}

#[test]
fn semantics_run_directly() {
    let tokens = Lexer::new("def f(x):\n    return x;\nprint(f(1));\n").tokenise().ok().unwrap();
    let ast = Parser::new(tokens).parse().ok().unwrap();
    let mut sem = Semantics::new();
    assert!(sem.run(&ast).is_ok());
}

#[test]
fn leading_whitespace_is_ignored() {
    assert!(check_source("\n  \nlet a = 1;\n").is_ok());
}

#[test]
fn compile_print_program() {
    let code = pyru::pipeline::compile_source("let a = 1;\nprint(a);\n").ok().expect("compiles");
    assert_eq!(code.len(), 9);
    assert!(matches!(&code[0], Bytecode::PushNum(n) if n == "1"));
    assert!(matches!(&code[1], Bytecode::StoreVar(n) if n == "a"));
    assert!(matches!(&code[2], Bytecode::LoadVar(n) if n == "a"));
    assert!(matches!(&code[3], Bytecode::Print));
    assert!(matches!(&code[4], Bytecode::PushNull));
    assert!(matches!(&code[5], Bytecode::StoreVar(n) if n == "__ret"));
    assert!(matches!(&code[6], Bytecode::Jump(7)));
    assert!(matches!(&code[7], Bytecode::LoadVar(n) if n == "__ret"));
    assert!(matches!(&code[8], Bytecode::Return));
}

#[test]
fn dead_assignment_removed() {
    let code = pyru::pipeline::compile_source("let a = 1;\n").ok().expect("compiles");
    assert_eq!(code.len(), 5);
    assert!(matches!(&code[0], Bytecode::PushNull));
    assert!(matches!(&code[1], Bytecode::StoreVar(n) if n == "__ret"));
    assert!(matches!(&code[2], Bytecode::Jump(3)));
    assert!(!code.iter().any(|b| matches!(b, Bytecode::Print)));
}

#[test]
fn while_loop_jumps_land_on_blocks() {
    let code = pyru::pipeline::compile_source("let i = 0;\nwhile i < 3:\n    print(i);\n    i++;\n").ok().expect("compiles");
    for b in &code {
        match b {
            Bytecode::Jump(t) | Bytecode::JumpIfFalse(t) => assert!(*t < code.len()),
            _ => {}
        }
    }
    assert!(code.iter().any(|b| matches!(b, Bytecode::JumpIfFalse(_))));
    assert!(code.iter().any(|b| matches!(b, Bytecode::Print)));
}

#[test]
fn cfg_of_if_else() {
    let ast = check_source("let a = 1;\nif a < 2:\n    print(1);\nelse:\n    print(2);\n").ok().unwrap();
    let cfg = FunctionCFG::from_ast("main".to_string(), &ast);
    assert_eq!(cfg.entry, 0);
    assert_eq!(cfg.exit, 1);
    for (i, b) in cfg.blocks.iter().enumerate() {
        assert_eq!(b.id, i);
        assert!(b.terminator.is_some());
    }
    assert!(matches!(cfg.blocks[0].terminator, Some(Terminator::Branch { .. })));
    assert!(matches!(cfg.blocks[1].terminator, Some(Terminator::Return(Some(_)))));
    let preds = cfg.compute_block_predecessors(1);
    assert!(!preds.is_empty());
}

#[test]
fn break_in_function_outside_loop_is_refused() {
    let tokens = Lexer::new("while true:\n    def f():\n        break;\n").tokenise().ok().unwrap();
    let ast = with_jumps(Parser::new(tokens).parse().ok().unwrap());
    match pyru::pipeline::lower_program(&ast) {
        Err(CompileError::Semantic(SemanticError::BreakOutsideLoop)) => {}
        _ => panic!("expected a refused break"),
    }
}

#[test]
fn side_effects_detected() {
    let tokens = Lexer::new("f(1) + 2;\nlet x = 1 + 2;\n").tokenise().ok().unwrap();
    let ast = Parser::new(tokens).parse().ok().unwrap();
    match &ast[0] {
        Stmt::Expression(e) => assert!(expr_has_side_effects(e)),
        _ => panic!(),
    }
    match &ast[1] {
        Stmt::Var { initializer: Some(e), .. } => assert!(!expr_has_side_effects(e)),
        _ => panic!(),
    }
}

#[test]
fn tokens_are_shown_with_kind_lexeme_and_line() {
    let tokens = Lexer::new("let abc = 12;\nprint(abc);\n").tokenise().ok().unwrap();
    for t in &tokens {
        let expected = format!("Token {{ kind: {:?}, lexeme: {}, line: {} }}", t.kind, t.span.literal, t.line);
        assert_eq!(pyru::token::serialize_token(t), expected);
    }
    assert_eq!(pyru::token::serialize_token(&tokens[1]), format!("Token {{ kind: Identifier, lexeme: abc, line: {} }}", tokens[1].line));
}

#[test]
fn break_and_continue_are_identifiers() {
    assert_eq!(kinds("break continue"), vec![TokenKind::Identifier, TokenKind::Identifier, TokenKind::Eof]);
}

/// The words `break` and `continue` are no keywords of the lexer, so a
/// statement `break;` parses as an expression; this turns such statements
/// into the jump statements of the syntax tree.
fn with_jumps(v: Vec<Stmt>) -> Vec<Stmt> {
    v.into_iter().map(with_jump).collect()
}

fn with_jump(s: Stmt) -> Stmt {
    match s {
        Stmt::Expression(Expr::Var(n)) if n == "break" => Stmt::Break,
        Stmt::Expression(Expr::Var(n)) if n == "continue" => Stmt::Continue,
        Stmt::While { condition, body } => Stmt::While { condition, body: with_jumps(body) },
        Stmt::For { initializer, condition, step, body } => Stmt::For { initializer, condition, step, body: with_jumps(body) },
        Stmt::If { condition, then_branch, else_branch } => Stmt::If {
            condition,
            then_branch: with_jumps(then_branch),
            else_branch: else_branch.map(with_jumps),
        },
        Stmt::Function { name, params, body, captures } => Stmt::Function { name, params, body: with_jumps(body), captures },
        other => other,
    }
}

#[test]
fn number_literal_prints_as_its_value() {
    let toks = Lexer::new("let a = 1.50 + 007 + 2.0 + 0.0 + 3.;").tokenise().unwrap();
    let nums: Vec<String> = toks
        .iter()
        .filter(|t| t.kind == TokenKind::Num)
        .map(|t| t.span.literal.clone())
        .collect();
    assert_eq!(nums, vec!["1.5".to_string(), "7".to_string(), "2".to_string(), "0".to_string(), "3".to_string()]);
}

#[test]
fn numbered_lines_list_from_zero() {
    let lines = vec!["PushNull".to_string(), "Print".to_string(), "Return".to_string()];
    assert_eq!(pyru::token::numbered_lines(&lines), "0: PushNull\n1: Print\n2: Return");
    assert_eq!(pyru::token::numbered_lines(&Vec::new()), "");
}

#[test]
fn eof_span_follows_trailing_blanks() {
    let toks = Lexer::new("ab\n ").tokenise().ok().expect("lexes");
    let eof = toks.last().unwrap();
    assert_eq!(eof.kind, TokenKind::Eof);
    assert_eq!((eof.span.start, eof.span.end), (0, 1));
}
