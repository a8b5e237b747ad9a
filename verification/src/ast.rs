//! Formula syntax trees.
//!
//! A parsed formula is first a concrete syntax tree over names and A1
//! coordinates, and is then resolved into an abstract tree whose leaves
//! carry identities only, never names or coordinates — the invariant that
//! makes references survive structural edits.

use crate::base::{CellId, FuncId, SheetId};
use vstd::prelude::*;

verus! {

#[derive(Debug, Clone, Copy, PartialEq, Eq, Structural)]
pub enum BinOp {
    Add,
    Sub,
    Mul,
    Div,
}

/// A formula over names and positions, before identity resolution.
#[derive(Debug)]
pub enum Cst {
    Number(i64),
    /// Column and row are zero-based grid positions.
    CellRef { sheet: Option<Vec<u8>>, col: u32, row: u32 },
    Range { sheet: Option<Vec<u8>>, start_col: u32, start_row: u32, end_col: u32, end_row: u32 },
    Func { name: Vec<u8>, args: CstList },
    Op { op: BinOp, lhs: Box<Cst>, rhs: Box<Cst> },
}

/// A list of argument trees.
#[derive(Debug)]
pub enum CstList {
    Nil,
    Cons(Box<Cst>, Box<CstList>),
}

/// A formula over identities: what the engine stores and evaluates.
#[derive(Debug)]
pub enum Ast {
    Number(i64),
    CellRef { sheet: SheetId, cell: CellId },
    Range { sheet: SheetId, start: CellId, end: CellId },
    Func { func: FuncId, args: AstList },
    Op { op: BinOp, lhs: Box<Ast>, rhs: Box<Ast> },
}

/// A list of argument trees.
#[derive(Debug)]
pub enum AstList {
    Nil,
    Cons(Box<Ast>, Box<AstList>),
}

} // verus!
