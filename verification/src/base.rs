//! Identity types of the engine.
//!
//! Every row, column, cell, sheet, defined name, text and function is known
//! to the engine by a dense integer identity that never changes once it has
//! been handed out, so that formula references survive structural edits.

use vstd::prelude::*;

verus! {

pub type SheetId = u32;

pub type RowId = u32;

pub type ColId = u32;

pub type TextId = u32;

pub type FuncId = u32;

pub type NameId = u32;

pub type BlockId = u32;

pub type ExtBookId = u32;

pub type AuthorId = u32;

pub type StyleId = u32;

/// A cell pinned by a row identity and a column identity.  When `follow_row`
/// is set, the cell has no row of its own: its row index is resolved through
/// the followed row, so the cell tracks that row across structural edits.
/// `follow_col` plays the same role for columns.
#[derive(Debug, Clone, Copy, PartialEq, Eq, Hash, Structural)]
pub struct NormalCellId {
    pub row: RowId,
    pub col: ColId,
    pub follow_row: Option<RowId>,
    pub follow_col: Option<ColId>,
}

/// A cell inside a block: the block's private row and column identities.
#[derive(Debug, Clone, Copy, PartialEq, Eq, Hash, Structural)]
pub struct BlockCellId {
    pub block_id: BlockId,
    pub row: RowId,
    pub col: ColId,
}

/// Identity-based coordinate of one cell.
#[derive(Debug, Clone, Copy, PartialEq, Eq, Hash, Structural)]
pub enum CellId {
    NormalCell(NormalCellId),
    BlockCell(BlockCellId),
}

/// Plain row-and-column cell identity without follow pins.
pub fn plain_normal_cell(row: RowId, col: ColId) -> (r: NormalCellId)
    ensures
        r == (NormalCellId { row, col, follow_row: None, follow_col: None }),
{
    NormalCellId { row, col, follow_row: None, follow_col: None }
}

} // verus!
