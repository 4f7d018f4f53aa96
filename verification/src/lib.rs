//! A small in-memory reactive spreadsheet engine.
//!
//! Clients set named cells to formula text and read computed values back.
//! The engine keeps every cell consistent with the formulas of everything it
//! transitively depends on: the dependency graph between cells is maintained
//! incrementally on every assignment, and changes cascade to all consumers.
//! Formula evaluation itself is delegated to the `rsheet_lib` crate; the
//! address codec, the range resolver, the cell store and the dependency
//! graph are implemented and verified here.

pub mod addr;
pub mod engine;
pub mod evaluator;
pub mod myrc;
pub mod range;
pub mod values;
