//! The engine's own behavior, through its public interface.

use rsheet_engine::addr::cell_name;
use rsheet_engine::engine::{Engine, SetOutcome};
use rsheet_engine::values::{Argument, GetResult, Value};
use rsheet_lib::command::CellIdentifier;

#[test]
fn test_cell_to_string() {
    let cell_identifier = CellIdentifier { row: 0, col: 1 }; // Expected "B1"
    assert_eq!(cell_name(cell_identifier.col, cell_identifier.row), "B1");
}

#[test]
fn test_handle_set_valid_expr() {
    let mut engine = Engine::new();
    let cell_id = CellIdentifier { row: 0, col: 1 }; // Cell "B1"
    let cell_expr = "5";

    assert!(matches!(
        engine.set(cell_id.col, cell_id.row, cell_expr.to_string()),
        SetOutcome::Applied
    ));
    assert!(matches!(
        engine.get(cell_id.col, cell_id.row),
        GetResult::Value(Value::Int(5))
    ));
}

#[test]
fn test_evaluate_expr() {
    let mut engine = Engine::new();
    // cell "A1"
    engine.set(0, 0, "10".to_string());
    assert!(matches!(engine.get(0, 0), GetResult::Value(Value::Int(10))));
    assert!(!matches!(engine.get(0, 0), GetResult::Error(_)));
}

#[test]
fn test_evaluate_expr_with_error() {
    let mut engine = Engine::new();
    // "invalid" evaluates to an error value for A1
    engine.set(0, 0, "invalid".to_string());
    // A2 reads A1 and therefore fails to evaluate
    engine.set(0, 1, "A1 + 1".to_string());
    assert!(matches!(engine.get(0, 1), GetResult::Error(_)));
}

#[test]
fn test_parse_expr_args() {
    let mut engine = Engine::new();
    // cell "B1" holds 5
    engine.set(1, 0, "5".to_string());
    let arg = engine.resolve("B1");
    assert!(matches!(arg, Argument::Single(Value::Int(5))));
}

#[test]
fn test_process_dependencies() {
    let mut engine = Engine::new();
    // "A1" reads "B1": A1 is (0,0), B1 is (1,0)
    engine.set(0, 0, "B1".to_string());
    let inputs = engine.inputs_list(0, 0);
    assert_eq!(inputs, vec![rsheet_engine::addr::cell_key(1, 0)]);
    let consumers = engine.consumers_list(1, 0);
    assert_eq!(consumers, vec![rsheet_engine::addr::cell_key(0, 0)]);
}
