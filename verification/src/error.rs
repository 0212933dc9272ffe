//! Errors that a compilation can end with.
use vstd::prelude::*;
use crate::token::TokenKind;

verus! {

#[derive(Clone, Copy, Debug, PartialEq, Eq, Structural)]
pub enum LexerError {
    UnexpectedSymbol { line: usize, symbol: char },
    InvalidIndentation { line: usize, col: usize },
    UnterminatedString { line: usize },
}

#[derive(Debug)]
pub enum ParserError {
    TooManyParameters { func_name: String },
    TooManyArgs { func_name: String },
    UnknownStatement,
    ExpectedIdentifier { got: TokenKind, line: usize },
    ExpectedBinaryOp { got: TokenKind, line: usize },
    ExpectedComparisonOp { got: TokenKind, line: usize },
    ExpectedTermOp { got: TokenKind, line: usize },
    ExpectedFactorOp { got: TokenKind, line: usize },
    ExpectedUnaryOp { got: TokenKind, line: usize },
    MethodCallNotOnList,
    ListMethodCallMissingParen { got: TokenKind, line: usize },
    UnableToParseLiteralToFloat { literal: String, line: usize },
    UnexpectedLiteral { got: TokenKind, line: usize },
    ExpectedExpression { got: TokenKind, line: usize },
    CouldntConsumeToken { expected: TokenKind, got: TokenKind, line: usize },
}

pub enum ParserErrorV {
    TooManyParameters { func_name: Seq<char> },
    TooManyArgs { func_name: Seq<char> },
    UnknownStatement,
    ExpectedIdentifier { got: TokenKind, line: usize },
    ExpectedBinaryOp { got: TokenKind, line: usize },
    ExpectedComparisonOp { got: TokenKind, line: usize },
    ExpectedTermOp { got: TokenKind, line: usize },
    ExpectedFactorOp { got: TokenKind, line: usize },
    ExpectedUnaryOp { got: TokenKind, line: usize },
    MethodCallNotOnList,
    ListMethodCallMissingParen { got: TokenKind, line: usize },
    UnableToParseLiteralToFloat { literal: Seq<char>, line: usize },
    UnexpectedLiteral { got: TokenKind, line: usize },
    ExpectedExpression { got: TokenKind, line: usize },
    CouldntConsumeToken { expected: TokenKind, got: TokenKind, line: usize },
}

impl View for ParserError {
    type V = ParserErrorV;

    open spec fn view(&self) -> ParserErrorV {
        match self {
            ParserError::TooManyParameters { func_name } => ParserErrorV::TooManyParameters {
                func_name: func_name@,
            },
            ParserError::TooManyArgs { func_name } => ParserErrorV::TooManyArgs {
                func_name: func_name@,
            },
            ParserError::UnknownStatement => ParserErrorV::UnknownStatement,
            ParserError::ExpectedIdentifier { got, line } => ParserErrorV::ExpectedIdentifier {
                got: *got,
                line: *line,
            },
            ParserError::ExpectedBinaryOp { got, line } => ParserErrorV::ExpectedBinaryOp {
                got: *got,
                line: *line,
            },
            ParserError::ExpectedComparisonOp { got, line } => ParserErrorV::ExpectedComparisonOp {
                got: *got,
                line: *line,
            },
            ParserError::ExpectedTermOp { got, line } => ParserErrorV::ExpectedTermOp {
                got: *got,
                line: *line,
            },
            ParserError::ExpectedFactorOp { got, line } => ParserErrorV::ExpectedFactorOp {
                got: *got,
                line: *line,
            },
            ParserError::ExpectedUnaryOp { got, line } => ParserErrorV::ExpectedUnaryOp {
                got: *got,
                line: *line,
            },
            ParserError::MethodCallNotOnList => ParserErrorV::MethodCallNotOnList,
            ParserError::ListMethodCallMissingParen { got, line } =>
                ParserErrorV::ListMethodCallMissingParen { got: *got, line: *line },
            ParserError::UnableToParseLiteralToFloat { literal, line } =>
                ParserErrorV::UnableToParseLiteralToFloat { literal: literal@, line: *line },
            ParserError::UnexpectedLiteral { got, line } => ParserErrorV::UnexpectedLiteral {
                got: *got,
                line: *line,
            },
            ParserError::ExpectedExpression { got, line } => ParserErrorV::ExpectedExpression {
                got: *got,
                line: *line,
            },
            ParserError::CouldntConsumeToken { expected, got, line } =>
                ParserErrorV::CouldntConsumeToken { expected: *expected, got: *got, line: *line },
        }
    }
}

#[derive(Debug)]
pub enum SemanticError {
    UndeclaredVariable { name: String },
    UndefinedVariable { name: String },
    NoScopeAvailable,
    FunctionRedefined { name: String },
    ParameterRedeclared { name: String },
    VariableRedefined { name: String },
    BreakOutsideLoop,
    ContinueOutsideLoop,
    UnassignedListIndexed { name: String },
    UnknownListMethod { list: String, method_name: String },
    MethodOnUnassignedList { list: String },
    UndefinedListSliced { list: String },
    UnassignedVariable { name: String },
    TriedExitingGlobalScope,
}

pub enum SemanticErrorV {
    UndeclaredVariable { name: Seq<char> },
    UndefinedVariable { name: Seq<char> },
    NoScopeAvailable,
    FunctionRedefined { name: Seq<char> },
    ParameterRedeclared { name: Seq<char> },
    VariableRedefined { name: Seq<char> },
    BreakOutsideLoop,
    ContinueOutsideLoop,
    UnassignedListIndexed { name: Seq<char> },
    UnknownListMethod { list: Seq<char>, method_name: Seq<char> },
    MethodOnUnassignedList { list: Seq<char> },
    UndefinedListSliced { list: Seq<char> },
    UnassignedVariable { name: Seq<char> },
    TriedExitingGlobalScope,
}

impl View for SemanticError {
    type V = SemanticErrorV;

    open spec fn view(&self) -> SemanticErrorV {
        match self {
            SemanticError::UndeclaredVariable { name } => SemanticErrorV::UndeclaredVariable {
                name: name@,
            },
            SemanticError::UndefinedVariable { name } => SemanticErrorV::UndefinedVariable {
                name: name@,
            },
            SemanticError::NoScopeAvailable => SemanticErrorV::NoScopeAvailable,
            SemanticError::FunctionRedefined { name } => SemanticErrorV::FunctionRedefined {
                name: name@,
            },
            SemanticError::ParameterRedeclared { name } => SemanticErrorV::ParameterRedeclared {
                name: name@,
            },
            SemanticError::VariableRedefined { name } => SemanticErrorV::VariableRedefined {
                name: name@,
            },
            SemanticError::BreakOutsideLoop => SemanticErrorV::BreakOutsideLoop,
            SemanticError::ContinueOutsideLoop => SemanticErrorV::ContinueOutsideLoop,
            SemanticError::UnassignedListIndexed { name } => SemanticErrorV::UnassignedListIndexed {
                name: name@,
            },
            SemanticError::UnknownListMethod { list, method_name } =>
                SemanticErrorV::UnknownListMethod { list: list@, method_name: method_name@ },
            SemanticError::MethodOnUnassignedList { list } =>
                SemanticErrorV::MethodOnUnassignedList { list: list@ },
            SemanticError::UndefinedListSliced { list } => SemanticErrorV::UndefinedListSliced {
                list: list@,
            },
            SemanticError::UnassignedVariable { name } => SemanticErrorV::UnassignedVariable {
                name: name@,
            },
            SemanticError::TriedExitingGlobalScope => SemanticErrorV::TriedExitingGlobalScope,
        }
    }
}

#[derive(Debug)]
pub enum CompileError {
    Lexer(LexerError),
    Parser(ParserError),
    Semantic(SemanticError),
}

pub enum CompileErrorV {
    Lexer(LexerError),
    Parser(ParserErrorV),
    Semantic(SemanticErrorV),
}

impl View for CompileError {
    type V = CompileErrorV;

    open spec fn view(&self) -> CompileErrorV {
        match self {
            CompileError::Lexer(e) => CompileErrorV::Lexer(*e),
            CompileError::Parser(e) => CompileErrorV::Parser(e@),
            CompileError::Semantic(e) => CompileErrorV::Semantic(e@),
        }
    }
}

} // verus!
