//! A compiler for the Pyru language: lexing, parsing, semantic analysis,
//! control-flow graphs, dataflow optimisations and bytecode generation.
pub mod text;
pub mod token;
pub mod value;
pub mod expr;
pub mod stmt;
pub mod error;
pub mod lexer;
pub mod numtext;
pub mod grammar;
pub mod parser;
pub mod semantics;
pub mod pipeline;
pub mod cfg;
pub mod lowering;
pub mod codgen;
pub mod codegen;
pub mod liveliness;
pub mod dce;
pub mod cleanup;
pub mod bodies;
pub mod counting;
pub mod operators;
