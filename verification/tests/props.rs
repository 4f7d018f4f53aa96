//! End-to-end behavior of the engine: reads of unset cells, cascades,
//! range expansion, error propagation, dependency pruning, graph symmetry,
//! the address codec, and cycle handling.

use rsheet_engine::addr::{cell_key, cell_name, parse_cell_name};
use rsheet_engine::engine::{Engine, SetOutcome};
use rsheet_engine::myrc::MyRc;
use rsheet_engine::values::{Argument, GetResult, Value};

fn get_int(engine: &Engine, col: u32, row: u32) -> i64 {
    match engine.get(col, row) {
        GetResult::Value(Value::Int(i)) => i,
        other => panic!("expected an integer, got {:?}", other),
    }
}

#[test]
fn p_unset_cell_reads_none() {
    let engine = Engine::new();
    assert!(matches!(engine.get(0, 0), GetResult::Value(Value::Empty)));
    assert!(matches!(engine.get(25, 999), GetResult::Value(Value::Empty)));
    // setting one cell leaves every other cell unset
    let mut engine = Engine::new();
    engine.set(0, 0, "5".to_string());
    assert!(matches!(engine.get(1, 1), GetResult::Value(Value::Empty)));
}

#[test]
fn p_set_then_get() {
    let mut engine = Engine::new();
    engine.set(0, 0, "5".to_string());
    assert_eq!(get_int(&engine, 0, 0), 5);
}

#[test]
fn p_cascade() {
    let mut engine = Engine::new();
    engine.set(0, 0, "5".to_string());
    engine.set(0, 1, "A1 + 1".to_string());
    assert_eq!(get_int(&engine, 0, 1), 6);
    engine.set(0, 0, "10".to_string());
    assert_eq!(get_int(&engine, 0, 1), 11);
}

#[test]
fn p_cascade_chain() {
    let mut engine = Engine::new();
    engine.set(0, 0, "1".to_string());
    engine.set(0, 1, "A1 + 1".to_string());
    engine.set(0, 2, "A2 + 1".to_string());
    assert_eq!(get_int(&engine, 0, 2), 3);
    engine.set(0, 0, "7".to_string());
    assert_eq!(get_int(&engine, 0, 1), 8);
    assert_eq!(get_int(&engine, 0, 2), 9);
}

#[test]
fn p_vector_range_sum() {
    let mut engine = Engine::new();
    engine.set(0, 0, "1".to_string());
    engine.set(0, 1, "2".to_string());
    engine.set(0, 2, "3".to_string());
    engine.set(1, 0, "sum(A1_A3)".to_string());
    assert_eq!(get_int(&engine, 1, 0), 6);
    // the range members, not the token, entered the input set
    let inputs = engine.inputs_list(1, 0);
    assert_eq!(inputs.len(), 3);
    assert!(inputs.contains(&cell_key(0, 0)));
    assert!(inputs.contains(&cell_key(0, 1)));
    assert!(inputs.contains(&cell_key(0, 2)));
    // updating one member cascades through the range
    engine.set(0, 1, "20".to_string());
    assert_eq!(get_int(&engine, 1, 0), 24);
}

#[test]
fn p_matrix_range_sum() {
    let mut engine = Engine::new();
    engine.set(0, 0, "1".to_string());
    engine.set(1, 0, "2".to_string());
    engine.set(0, 1, "3".to_string());
    engine.set(1, 1, "4".to_string());
    engine.set(2, 0, "sum(A1_B2)".to_string());
    assert_eq!(get_int(&engine, 2, 0), 10);
}

#[test]
fn p_row_vector_sum() {
    let mut engine = Engine::new();
    engine.set(0, 0, "4".to_string());
    engine.set(1, 0, "5".to_string());
    engine.set(2, 0, "6".to_string());
    engine.set(0, 1, "sum(A1_C1)".to_string());
    assert_eq!(get_int(&engine, 0, 1), 15);
}

#[test]
fn p_missing_members_read_as_empty() {
    let mut engine = Engine::new();
    engine.set(0, 0, "1".to_string());
    // A2 and A3 were never set: they resolve to empty values, not errors
    match engine.resolve("A1_A3") {
        Argument::Vector(v) => {
            assert_eq!(v.len(), 3);
            assert!(matches!(v[0], Value::Int(1)));
            assert!(matches!(v[1], Value::Empty));
            assert!(matches!(v[2], Value::Empty));
        }
        other => panic!("expected a vector, got {:?}", other),
    }
}

#[test]
fn p_error_propagation_and_recovery() {
    let mut engine = Engine::new();
    engine.set(0, 0, "bogus(".to_string());
    // the failed parse is an error value stored in A1
    assert!(matches!(engine.get(0, 0), GetResult::Value(Value::Error(_))));
    // A2 reads A1 and now fails to evaluate
    match engine.set(0, 1, "A1+1".to_string()) {
        SetOutcome::EvalFailed(m) => assert_eq!(m, "VariableDependsOnError"),
        other => panic!("expected an evaluation failure, got {:?}", other),
    }
    assert!(matches!(engine.get(0, 1), GetResult::Error(_)));
    // fixing A1 clears both
    assert!(matches!(
        engine.set(0, 0, "1".to_string()),
        SetOutcome::Applied
    ));
    assert_eq!(get_int(&engine, 0, 0), 1);
    assert_eq!(get_int(&engine, 0, 1), 2);
}

#[test]
fn p_dependency_pruning() {
    let mut engine = Engine::new();
    engine.set(0, 1, "A1".to_string());
    engine.set(0, 1, "5".to_string());
    engine.set(0, 0, "999".to_string());
    assert_eq!(get_int(&engine, 0, 1), 5);
    // A2 no longer consumes A1
    assert!(!engine.consumers_list(0, 0).contains(&cell_key(0, 1)));
    assert!(engine.inputs_list(0, 1).is_empty());
}

#[test]
fn p_graph_symmetry_random_sets() {
    // issue a pseudo-random sequence of formulas over a small grid, then
    // check that b is an input of a exactly when a is a consumer of b
    let mut engine = Engine::new();
    let mut state: u64 = 0x2545F4914F6CDD1D;
    let names = ["A1", "A2", "A3", "B1", "B2", "B3", "C1", "C2", "C3"];
    for step in 0..60 {
        state = state.wrapping_mul(6364136223846793005).wrapping_add(1442695040888963407);
        let col = ((state >> 16) % 3) as u32;
        let row = ((state >> 32) % 3) as u32;
        let a = names[(state % 9) as usize];
        let b = names[((state >> 8) % 9) as usize];
        let formula = match step % 4 {
            0 => format!("{}", step),
            1 => format!("{} + 1", a),
            2 => format!("{} + {}", a, b),
            _ => format!("sum(A1_A3) + {}", step),
        };
        engine.set(col, row, formula);
        for ca in 0..3u32 {
            for ra in 0..3u32 {
                for cb in 0..3u32 {
                    for rb in 0..3u32 {
                        let a_in_b = engine.inputs_list(ca, ra).contains(&cell_key(cb, rb));
                        let b_cons_a = engine.consumers_list(cb, rb).contains(&cell_key(ca, ra));
                        assert_eq!(a_in_b, b_cons_a);
                    }
                }
            }
        }
    }
}

#[test]
fn p_codec_encodes_canonical_names() {
    assert_eq!(cell_name(0, 0), "A1");
    assert_eq!(cell_name(1, 11), "B12");
    assert_eq!(cell_name(25, 0), "Z1");
    assert_eq!(cell_name(26, 0), "AA1");
    assert_eq!(cell_name(701, 8), "ZZ9");
    assert_eq!(cell_name(702, 0), "AAA1");
}

#[test]
fn p_codec_roundtrip() {
    for &(col, row) in &[(0u32, 0u32), (1, 11), (25, 0), (26, 99), (701, 8), (702, 123456)] {
        assert_eq!(parse_cell_name(&cell_name(col, row)), Some((col, row)));
    }
}

#[test]
fn p_codec_rejects_non_canonical() {
    assert_eq!(parse_cell_name("A0"), None);
    assert_eq!(parse_cell_name("A01"), None);
    assert_eq!(parse_cell_name("a1"), None);
    assert_eq!(parse_cell_name(""), None);
    assert_eq!(parse_cell_name("AA"), None);
    assert_eq!(parse_cell_name("12"), None);
    assert_eq!(parse_cell_name("A1B"), None);
    assert_eq!(parse_cell_name("A99999999999"), None);
}

#[test]
fn p_degenerate_range_is_single_cell_vector() {
    let mut engine = Engine::new();
    engine.set(0, 0, "7".to_string());
    engine.set(1, 0, "sum(A1_A1)".to_string());
    assert_eq!(get_int(&engine, 1, 0), 7);
    match engine.resolve("A1_A1") {
        Argument::Vector(v) => assert_eq!(v.len(), 1),
        other => panic!("expected a vector, got {:?}", other),
    }
}

#[test]
fn p_reversed_range_is_empty() {
    let mut engine = Engine::new();
    engine.set(0, 0, "1".to_string());
    engine.set(0, 2, "3".to_string());
    match engine.resolve("A3_A1") {
        Argument::Vector(v) => assert!(v.is_empty()),
        other => panic!("expected a vector, got {:?}", other),
    }
}

#[test]
fn p_malformed_token_binds_empty() {
    let engine = Engine::new();
    assert!(matches!(
        engine.resolve("A1_A2_A3"),
        Argument::Single(Value::Empty)
    ));
    assert!(matches!(engine.resolve("A01"), Argument::Single(Value::Empty)));
}

#[test]
fn p_cycle_is_detected_and_marked() {
    let mut engine = Engine::new();
    engine.set(0, 0, "B1".to_string());
    match engine.set(1, 0, "A1".to_string()) {
        SetOutcome::CycleDetected(m) => assert_eq!(m, "CircularDependency"),
        other => panic!("expected a cycle, got {:?}", other),
    }
    assert!(matches!(engine.get(0, 0), GetResult::Error(_)));
    assert!(matches!(engine.get(1, 0), GetResult::Error(_)));
    // an unrelated cell still works afterwards
    engine.set(2, 2, "42".to_string());
    assert_eq!(get_int(&engine, 2, 2), 42);
}

#[test]
fn p_text_values() {
    let mut engine = Engine::new();
    engine.set(0, 0, "\"hi\" + \" there\"".to_string());
    match engine.get(0, 0) {
        GetResult::Value(Value::Text(s)) => assert_eq!(s, "hi there"),
        other => panic!("expected text, got {:?}", other),
    }
}

#[test]
fn p_get_error_message_text() {
    assert_eq!(
        Engine::get_error_message(0, 0, "boom"),
        "Cannot get cell A1: it depends on an error - boom"
    );
    assert_eq!(
        Engine::get_error_message(26, 11, "x"),
        "Cannot get cell AA12: it depends on an error - x"
    );
}

#[test]
fn p_myrc_shares_one_value() {
    let rc = MyRc::new(5i64);
    assert_eq!(*rc.get(), 5);
    let rc2 = rc.clone();
    assert_eq!(*rc2.get(), 5);
    let rs = MyRc::new(String::from("shared"));
    let rs2 = rs.clone();
    assert_eq!(rs.get(), "shared");
    assert_eq!(rs2.get(), "shared");
}
