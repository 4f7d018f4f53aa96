//! The bridge to the outside formula evaluator.
//!
//! Formula text is parsed and evaluated by the `rsheet_lib` crate.  The
//! engine hands it a binding for every variable token of the formula and
//! receives a value back.  Everything `rsheet_lib` computes is named or
//! stated here and believed, not proved: the list of variable tokens of a
//! formula (`formula_vars`), the contents of a binding map
//! (`bindings_model`), and the possible outcomes of one evaluation
//! (`eval_possible`).  The outcome is deliberately a relation, not a
//! function: formula text can reach the evaluator's clock (`rhai` registers
//! its time package), so two evaluations of the same text under the same
//! bindings may differ.  What is stated of every outcome: evaluation fails
//! exactly when some binding holds an error value.

use crate::values::{ArgSpec, Argument, EvalError, ValSpec, Value};
use rsheet_lib::cell_expr::CellArgument;
use rsheet_lib::cell_expr::CellExpr;
use rsheet_lib::cell_expr::CellExprEvalError;
use rsheet_lib::cell_value::CellValue;
use std::collections::HashMap;
use vstd::prelude::*;

verus! {

#[verifier::external_type_specification]
#[verifier::external_body]
pub struct ExCellArgument(CellArgument);

/// The variable tokens of a formula, in the order the evaluator reports
/// them.  A function of the formula text alone.
pub uninterp spec fn formula_vars(text: Seq<char>) -> Seq<Seq<char>>;

/// The contents of a binding map handed to the evaluator, token by token.
pub uninterp spec fn bindings_model(m: HashMap<String, CellArgument>) -> Map<Seq<char>, ArgSpec>;

/// One possible outcome of evaluating a formula under the given bindings.
/// Every call of the evaluator returns an outcome satisfying this relation;
/// nothing ties two calls together, since the evaluator can read the clock.
pub uninterp spec fn eval_possible(
    text: Seq<char>,
    bindings: Map<Seq<char>, ArgSpec>,
    outcome: Result<ValSpec, EvalError>,
) -> bool;

/// Whether a binding holds an error value anywhere inside it.
pub open spec fn arg_has_error(a: ArgSpec) -> bool {
    match a {
        ArgSpec::Single(v) => v is Error,
        ArgSpec::Vector(vs) => exists|i: int| 0 <= i < vs.len() && vs[i] is Error,
        ArgSpec::Matrix(m) => exists|i: int, j: int|
            0 <= i < m.len() && 0 <= j < m[i].len() && m[i][j] is Error,
    }
}

/// Whether any binding of the map holds an error value.
pub open spec fn bindings_have_error(b: Map<Seq<char>, ArgSpec>) -> bool {
    exists|k: Seq<char>| #[trigger] b.dom().contains(k) && arg_has_error(b[k])
}

/// Relies on `CellExpr::new` and `CellExpr::find_variable_names`: the tokens
/// found in a formula depend on its text alone.
#[verifier::external_body]
pub(crate) fn find_variables(text: &str) -> (vars: Vec<String>)
    ensures
        vars.deep_view() == formula_vars(text@),
{
    CellExpr::new(text).find_variable_names()
}

/// A binding map as the evaluator takes it: token text to argument.
pub type Bindings = HashMap<String, CellArgument>;

/// The model of a map with no bindings.
pub open spec fn empty_bindings() -> Map<Seq<char>, ArgSpec> {
    Map::empty()
}

/// Relies on `HashMap::new`: a fresh map holds no bindings.
#[verifier::external_body]
pub(crate) fn new_bindings() -> (m: Bindings)
    ensures
        bindings_model(m) == empty_bindings(),
{
    HashMap::new()
}

/// Relies on `HashMap::insert` and on `CellArgument`'s and `CellValue`'s
/// constructors: the argument is rebuilt variant for variant, value for
/// value, and stored under the token.
#[verifier::external_body]
pub(crate) fn bind_argument(m: &mut Bindings, token: String, a: Argument)
    ensures
        bindings_model(*final(m)) == bindings_model(*old(m)).insert(token@, a@),
{
    let cv = |v: &Value| match v {
        Value::Empty => CellValue::None,
        Value::Int(i) => CellValue::Int(*i),
        Value::Text(s) => CellValue::String(s.clone()),
        Value::Error(e) => CellValue::Error(e.clone()),
    };
    let arg = match &a {
        Argument::Single(v) => CellArgument::Value(cv(v)),
        Argument::Vector(vs) => CellArgument::Vector(vs.iter().map(cv).collect()),
        Argument::Matrix(rs) => CellArgument::Matrix(
            rs.iter().map(|r| r.iter().map(cv).collect()).collect(),
        ),
    };
    m.insert(token, arg);
}

/// Relies on `CellExpr::new` and `CellExpr::evaluate`: evaluation fails if
/// and only if some binding holds an error value — that check is the one
/// `Err` path, and every other problem comes back as an ordinary error
/// value.
///
/// Two helpers `rsheet_lib` registers can keep a call from returning
/// normally, and no `requires` here can truthfully rule them out.  `sum`
/// adds with unchecked arithmetic, and formula text can steer any array
/// into it — an array literal, or one repeating a bound value any number of
/// times — so no bound on the bindings excludes an overflowing call.
/// `sleep_then` blocks for as long as its first argument asks, which may be
/// a literal.  The dangerous inputs are thus a property of the formula
/// text, which is arbitrary client data, and spelling them out would mean
/// writing the expression language itself into a spec.  This contract
/// therefore speaks only of calls that return normally.
#[verifier::external_body]
pub(crate) fn evaluate_formula(text: &str, bindings: &Bindings) -> (r: Result<Value, EvalError>)
    ensures
        (match r {
            Ok(v) => eval_possible(
                text@,
                bindings_model(*bindings),
                Ok::<ValSpec, EvalError>(v@),
            ),
            Err(e) => eval_possible(
                text@,
                bindings_model(*bindings),
                Err::<ValSpec, EvalError>(e),
            ),
        }),
        r is Err <==> bindings_have_error(bindings_model(*bindings)),
{
    match CellExpr::new(text).evaluate(bindings) {
        Ok(CellValue::None) => Ok(Value::Empty),
        Ok(CellValue::Int(i)) => Ok(Value::Int(i)),
        Ok(CellValue::String(s)) => Ok(Value::Text(s)),
        Ok(CellValue::Error(e)) => Ok(Value::Error(e)),
        Err(CellExprEvalError::VariableDependsOnError) => Err(EvalError::DependsOnError),
    }
}

} // verus!
