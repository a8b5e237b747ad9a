//! Cell contents: the value stored in a cell and the in-cell error kinds.

use crate::base::TextId;
use vstd::prelude::*;

verus! {

/// An in-cell error.  Errors are values: they propagate through dependent
/// formulas and are never surfaced as API errors.
#[derive(Debug, Clone, Copy, PartialEq, Eq, Structural)]
pub enum CellError {
    Div0,
    Value,
    Name,
    Ref,
    Na,
    Circ,
    Num,
}

impl CellError {
    /// The display text of the error, as it appears in a cell.
    pub fn text(&self) -> (r: String)
        ensures
            r@ == self.spec_text(),
    {
        proof {
            reveal_strlit("#DIV/0!");
            reveal_strlit("#VALUE!");
            reveal_strlit("#NAME?");
            reveal_strlit("#REF!");
            reveal_strlit("#N/A");
            reveal_strlit("#CIRC!");
            reveal_strlit("#NUM!");
        }
        match self {
            CellError::Div0 => "#DIV/0!".to_owned(),
            CellError::Value => "#VALUE!".to_owned(),
            CellError::Name => "#NAME?".to_owned(),
            CellError::Ref => "#REF!".to_owned(),
            CellError::Na => "#N/A".to_owned(),
            CellError::Circ => "#CIRC!".to_owned(),
            CellError::Num => "#NUM!".to_owned(),
        }
    }

    pub open spec fn spec_text(self) -> Seq<char> {
        match self {
            CellError::Div0 => "#DIV/0!"@,
            CellError::Value => "#VALUE!"@,
            CellError::Name => "#NAME?"@,
            CellError::Ref => "#REF!"@,
            CellError::Na => "#N/A"@,
            CellError::Circ => "#CIRC!"@,
            CellError::Num => "#NUM!"@,
        }
    }
}

/// What one cell holds.  Numbers are the engine's integer scalars; a date is
/// a day count from the 1900 epoch.
#[derive(Debug, Clone, PartialEq, Eq)]
pub enum CellValue {
    Blank,
    Boolean(bool),
    Number(i64),
    String(TextId),
    InlineStr(String),
    FormulaStr(String),
    Date(u32),
    Error(CellError),
}

} // verus!
