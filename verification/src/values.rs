//! The value model: what a cell holds, what a formula variable is bound to,
//! and how evaluation can fail.

use vstd::prelude::*;

verus! {

/// The value stored in a cell: empty, an integer, text, or an error value
/// produced by a formula that could not be computed.
#[derive(Debug)]
pub enum Value {
    Empty,
    Int(i64),
    Text(String),
    Error(String),
}

/// Mathematical model of a [`Value`]: text is abstracted to its character
/// sequence.
pub enum ValSpec {
    Empty,
    Int(i64),
    Text(Seq<char>),
    Error(Seq<char>),
}

impl View for Value {
    type V = ValSpec;

    open spec fn view(&self) -> ValSpec {
        match self {
            Value::Empty => ValSpec::Empty,
            Value::Int(i) => ValSpec::Int(*i),
            Value::Text(s) => ValSpec::Text(s@),
            Value::Error(s) => ValSpec::Error(s@),
        }
    }
}

impl DeepView for Value {
    type V = ValSpec;

    open spec fn deep_view(&self) -> ValSpec {
        self.view()
    }
}

impl Clone for Value {
    fn clone(&self) -> (r: Self)
        ensures
            r@ == self@,
    {
        match self {
            Value::Empty => Value::Empty,
            Value::Int(i) => Value::Int(*i),
            Value::Text(s) => Value::Text(s.clone()),
            Value::Error(s) => Value::Error(s.clone()),
        }
    }
}

/// What a formula variable is bound to before evaluation: one value for a
/// plain cell reference, an ordered list for a linear range, an ordered list
/// of rows for a rectangular range.
#[derive(Debug)]
pub enum Argument {
    Single(Value),
    Vector(Vec<Value>),
    Matrix(Vec<Vec<Value>>),
}

/// Mathematical model of an [`Argument`].
pub enum ArgSpec {
    Single(ValSpec),
    Vector(Seq<ValSpec>),
    Matrix(Seq<Seq<ValSpec>>),
}

impl View for Argument {
    type V = ArgSpec;

    open spec fn view(&self) -> ArgSpec {
        match self {
            Argument::Single(v) => ArgSpec::Single(v@),
            Argument::Vector(vs) => ArgSpec::Vector(vs.deep_view()),
            Argument::Matrix(m) => ArgSpec::Matrix(m.deep_view()),
        }
    }
}

/// The one way evaluation itself can fail: some variable of the formula was
/// bound to an error value.  Every other problem (syntax errors, unknown
/// names, type mismatches) surfaces as an error [`Value`] instead.
#[derive(Debug, Clone, Copy, PartialEq, Eq, Structural)]
pub enum EvalError {
    DependsOnError,
}

/// What reading a cell produces: its stored value, or the message recorded
/// when the cell's most recent evaluation failed.
#[derive(Debug)]
pub enum GetResult {
    Value(Value),
    Error(String),
}

} // verus!
