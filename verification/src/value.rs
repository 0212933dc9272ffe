//! Values of the language. Numbers are carried as their decimal text, which
//! the parser has checked reads as a floating-point number (see `numtext`);
//! the stack machine reads them. Lists and functions refer by index to the
//! heaps of the stack machine.
use vstd::prelude::*;
use crate::text::{strings_view, copy_string, copy_strings};

verus! {

#[derive(Debug)]
pub enum Value {
    Num(String),
    Str(String),
    Bool(bool),
    Null,
    List(usize),
    Function { params: Vec<String>, arity: usize, body: usize, env: usize },
}

pub enum ValueV {
    Num(Seq<char>),
    Str(Seq<char>),
    Bool(bool),
    Null,
    List(usize),
    Function { params: Seq<Seq<char>>, arity: usize, body: usize, env: usize },
}

impl View for Value {
    type V = ValueV;

    open spec fn view(&self) -> ValueV {
        match self {
            Value::Num(s) => ValueV::Num(s@),
            Value::Str(s) => ValueV::Str(s@),
            Value::Bool(b) => ValueV::Bool(*b),
            Value::Null => ValueV::Null,
            Value::List(i) => ValueV::List(*i),
            Value::Function { params, arity, body, env } => ValueV::Function {
                params: strings_view(params@),
                arity: *arity,
                body: *body,
                env: *env,
            },
        }
    }
}

impl Value {
    pub fn duplicate(&self) -> (r: Value)
        ensures
            r@ == self@,
    {
        match self {
            Value::Num(s) => Value::Num(copy_string(s)),
            Value::Str(s) => Value::Str(copy_string(s)),
            Value::Bool(b) => Value::Bool(*b),
            Value::Null => Value::Null,
            Value::List(i) => Value::List(*i),
            Value::Function { params, arity, body, env } => Value::Function {
                params: copy_strings(params),
                arity: *arity,
                body: *body,
                env: *env,
            },
        }
    }
}

} // verus!
