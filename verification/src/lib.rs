//! The core of a spreadsheet calculation engine: stable integer identities
//! for rows, columns, cells, sheets and names; a navigator that translates
//! between grid positions and identities, blocks included; per-sheet cell
//! storage over persistent maps; a formula parser; the dependency graph with
//! cycle detection and topological recomputation order; and the serial-date
//! coupon helpers.

pub mod ast;
pub mod base;
pub mod bond;
pub mod cell_value;
pub mod container;
pub mod datetime;
pub mod formula_manager;
pub mod gents;
pub mod id_manager;
pub mod navigator;
pub mod parser;
pub mod persist;
pub mod sheet_nav;
pub mod sheet_pos;
pub mod style;
pub mod theme;
pub mod unparser;
pub mod worksheet;
