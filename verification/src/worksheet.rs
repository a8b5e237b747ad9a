//! The read API over one sheet: values, styles, merged ranges, comments and
//! the used dimension, each resolved through the navigator's current
//! positions.

use crate::ast::Ast;
use crate::base::{AuthorId, CellId, NormalCellId, SheetId};
use crate::cell_value::CellValue;
use crate::container::{alist_distinct, alist_get, alist_has, DataContainer, SheetDataContainer};
use crate::id_manager::{covers, injective, IdManager};
use crate::navigator::{spec_cell_idx, spec_norm_cell_idx, Data};
use crate::sheet_nav::{same_structure, Navigator};
use vstd::prelude::*;

verus! {

/// A lookup that named an absent entity.
#[derive(Debug, Clone, Copy, PartialEq, Eq, Structural)]
pub enum ApiErr {
    NotFound,
}

/// A cell value as the API hands it out.
#[derive(Debug, Clone, PartialEq, Eq)]
pub enum DisplayValue {
    Empty,
    Bool(bool),
    Number(i64),
    Str(String),
    ErrorText(String),
}

/// A merged rectangle in display coordinates.
#[derive(Debug, Clone, Copy, PartialEq, Eq, Structural)]
pub struct MergeCell {
    pub row_start: usize,
    pub col_start: usize,
    pub row_end: usize,
    pub col_end: usize,
}

/// How a stored cell value displays: dates, inline strings and blanks show
/// as empty; shared strings show their registered text, or nothing when the
/// id is unbound; formula text and errors show as their text.
pub open spec fn display_matches(r: DisplayValue, v: CellValue, texts: Map<Seq<char>, u32>) -> bool {
    match v {
        CellValue::Blank => r is Empty,
        CellValue::Boolean(b) => r == DisplayValue::Bool(b),
        CellValue::Number(n) => r == DisplayValue::Number(n),
        CellValue::Date(_) => r is Empty,
        CellValue::InlineStr(_) => r is Empty,
        CellValue::FormulaStr(f) => match r {
            DisplayValue::Str(s) => s@ == f@,
            _ => false,
        },
        CellValue::String(tid) => match r {
            DisplayValue::Str(s) => if covers(texts, tid) {
                s@ == (choose|k: Seq<char>| texts.contains_key(k) && #[trigger] texts[k] == tid)
            } else {
                s@ == Seq::<char>::empty()
            },
            _ => false,
        },
        CellValue::Error(e) => match r {
            DisplayValue::ErrorText(s) => s@ == e.spec_text(),
            _ => false,
        },
    }
}

/// The value displayed at a position: the stored cell's value, empty for an
/// absent cell, and a lookup failure exactly when the position does not name
/// a cell.
pub fn get_value(
    nav: &mut Navigator,
    dc: &DataContainer,
    texts: &IdManager,
    sheet: SheetId,
    row: usize,
    col: usize,
) -> (r: Result<DisplayValue, ApiErr>)
    requires
        old(nav).wf(),
        dc.wf(),
        injective(texts.contents()),
    ensures
        final(nav).wf(),
        same_structure(*old(nav), *final(nav)),
        match r {
            Ok(dv) => {
                let cid = old(nav).spec_fetch_cell_id(sheet, row as int, col as int);
                &&& cid is Some
                &&& (if dc.contents().contains_key(sheet) && alist_has(
                    dc.contents()[sheet].cells@,
                    cid.unwrap(),
                ) {
                    display_matches(
                        dv,
                        alist_get(dc.contents()[sheet].cells@, cid.unwrap()).value,
                        texts.contents(),
                    )
                } else {
                    dv is Empty
                })
            },
            Err(e) => old(nav).spec_fetch_cell_id(sheet, row as int, col as int) is None && e
                == ApiErr::NotFound,
        },
{
    let cell_id = match nav.fetch_cell_id(sheet, row, col) {
        Some(cid) => cid,
        None => {
            return Err(ApiErr::NotFound);
        },
    };
    match dc.get_cell(sheet, &cell_id) {
        Some(cell) => {
            let dv = match &cell.value {
                CellValue::Blank => DisplayValue::Empty,
                CellValue::Boolean(b) => DisplayValue::Bool(*b),
                CellValue::Number(n) => DisplayValue::Number(*n),
                CellValue::Date(_) => DisplayValue::Empty,
                CellValue::InlineStr(_) => DisplayValue::Empty,
                CellValue::FormulaStr(f) => DisplayValue::Str(crate::id_manager::clone_string(f)),
                CellValue::String(tid) => match texts.get_string(tid) {
                    Some(text) => {
                        proof {
                            let k = choose|k: Seq<char>|
                                texts.contents().contains_key(k) && #[trigger] texts.contents()[k]
                                    == *tid;
                            assert(k == text@);
                        }
                        DisplayValue::Str(text)
                    },
                    None => DisplayValue::Str(String::new()),
                },
                CellValue::Error(e) => DisplayValue::ErrorText(e.text()),
            };
            Ok(dv)
        },
        None => Ok(DisplayValue::Empty),
    }
}

/// The style fallback at a position: the cell's own style, else the row's,
/// else the column's by the column's own id, else the default style zero.
pub open spec fn spec_style_at(
    sc: SheetDataContainer,
    cid: CellId,
    row_id: u32,
    col_id: u32,
) -> u32 {
    if alist_has(sc.cells@, cid) {
        alist_get(sc.cells@, cid).style
    } else if alist_has(sc.row_info@, row_id) {
        alist_get(sc.row_info@, row_id).style
    } else if alist_has(sc.col_info@, col_id) {
        alist_get(sc.col_info@, col_id).style
    } else {
        0
    }
}

/// The style id in effect at a position, by the cell-row-column-default
/// fallback; a lookup failure exactly when the position names no cell.
pub fn get_style_id(
    nav: &mut Navigator,
    dc: &DataContainer,
    sheet: SheetId,
    row: usize,
    col: usize,
) -> (r: Result<u32, ApiErr>)
    requires
        old(nav).wf(),
        dc.wf(),
    ensures
        final(nav).wf(),
        same_structure(*old(nav), *final(nav)),
        match r {
            Ok(style) => {
                let o = *old(nav);
                let cid = o.spec_fetch_cell_id(sheet, row as int, col as int);
                &&& cid is Some
                &&& o.spec_fetch_row_id(sheet, row as int) is Some
                &&& o.spec_fetch_col_id(sheet, col as int) is Some
                &&& (if dc.contents().contains_key(sheet) {
                    style == spec_style_at(
                        dc.contents()[sheet],
                        cid.unwrap(),
                        o.spec_fetch_row_id(sheet, row as int).unwrap(),
                        o.spec_fetch_col_id(sheet, col as int).unwrap(),
                    )
                } else {
                    style == 0
                })
            },
            Err(e) => old(nav).spec_fetch_cell_id(sheet, row as int, col as int) is None && e
                == ApiErr::NotFound,
        },
{
    let cell_id = match nav.fetch_cell_id(sheet, row, col) {
        Some(cid) => cid,
        None => {
            return Err(ApiErr::NotFound);
        },
    };
    let ghost o = *old(nav);
    proof {
        crate::unparser::lemma_same_structure_data(o, *nav);
    }
    let row_id = match nav.fetch_row_id(sheet, row) {
        Some(rid) => rid,
        None => {
            proof {
                assert(false);
            }
            0
        },
    };
    proof {
        crate::unparser::lemma_same_structure_data(o, *nav);
        assert(same_structure(o, *nav));
    }
    let col_id = match nav.fetch_col_id(sheet, col) {
        Some(cid2) => cid2,
        None => {
            proof {
                assert(false);
            }
            0
        },
    };
    proof {
        assert(same_structure(o, *nav));
    }
    let sc = match dc.get_sheet(sheet) {
        Some(sc) => sc,
        None => {
            return Ok(0);
        },
    };
    if let Some(cell) = sc.get_cell(&cell_id) {
        Ok(cell.style)
    } else if let Some(ri) = sc.get_row_info(row_id) {
        Ok(ri.style)
    } else if let Some(ci) = sc.get_col_info(col_id) {
        Ok(ci.style)
    } else {
        Ok(0)
    }
}

/// The merged rectangles whose two corners both resolve, in stored order,
/// with their current display coordinates.
pub open spec fn spec_merge_cells(d: Data, pairs: Seq<(NormalCellId, NormalCellId)>) -> Seq<
    MergeCell,
>
    decreases pairs.len(),
{
    if pairs.len() == 0 {
        Seq::empty()
    } else {
        let rest = spec_merge_cells(d, pairs.drop_last());
        let p = pairs.last();
        match (spec_norm_cell_idx(d, p.0), spec_norm_cell_idx(d, p.1)) {
            (Some(s), Some(e)) => rest.push(
                MergeCell {
                    row_start: s.0 as usize,
                    col_start: s.1 as usize,
                    row_end: e.0 as usize,
                    col_end: e.1 as usize,
                },
            ),
            _ => rest,
        }
    }
}

/// The merged ranges of the sheet in display coordinates: one entry per
/// stored pair whose two corner cells both resolve, in stored order; empty
/// when the sheet does not exist.
pub fn get_merge_cells(
    nav: &mut Navigator,
    sheet: SheetId,
    merges: &Vec<(NormalCellId, NormalCellId)>,
) -> (r: Vec<MergeCell>)
    requires
        old(nav).wf(),
    ensures
        final(nav).wf(),
        same_structure(*old(nav), *final(nav)),
        match old(nav).spec_data(sheet) {
            Some(d) => r@ == spec_merge_cells(d, merges@),
            None => r@.len() == 0,
        },
{
    let ghost o = *old(nav);
    let mut out: Vec<MergeCell> = Vec::new();
    let n = merges.len();
    let mut i: usize = 0;
    while i < n
        invariant
            i <= n,
            n == merges@.len(),
            nav.wf(),
            same_structure(o, *nav),
            o.wf(),
            match o.spec_data(sheet) {
                Some(d) => out@ == spec_merge_cells(d, merges@.subrange(0, i as int)),
                None => out@.len() == 0,
            },
        decreases n - i,
    {
        let ghost pre = *nav;
        let start = nav.fetch_normal_cell_idx(sheet, &merges[i].0);
        let ghost mid = *nav;
        let end = nav.fetch_normal_cell_idx(sheet, &merges[i].1);
        proof {
            crate::unparser::lemma_same_structure_data(o, pre);
            crate::unparser::lemma_same_structure_data(o, mid);
            assert(same_structure(o, *nav));
            if o.spec_data(sheet) is Some {
                let d = o.spec_data(sheet).unwrap();
                assert(merges@.subrange(0, i as int + 1).drop_last() =~= merges@.subrange(
                    0,
                    i as int,
                ));
                assert(merges@.subrange(0, i as int + 1).last() == merges@[i as int]);
            }
        }
        match (start, end) {
            (Some(s), Some(e)) => {
                out.push(
                    MergeCell { row_start: s.0, col_start: s.1, row_end: e.0, col_end: e.1 },
                );
            },
            _ => {},
        }
        i = i + 1;
    }
    proof {
        assert(merges@.subrange(0, n as int) =~= merges@);
    }
    out
}

/// The componentwise greatest resolved position among the stored cells.
pub open spec fn spec_dimension(d: Data, cells: Seq<(CellId, crate::container::Cell)>) -> (
    int,
    int,
)
    decreases cells.len(),
{
    if cells.len() == 0 {
        (0int, 0int)
    } else {
        let rest = spec_dimension(d, cells.drop_last());
        match spec_cell_idx(d, cells.last().0) {
            Some(p) => (
                if p.0 > rest.0 {
                    p.0
                } else {
                    rest.0
                },
                if p.1 > rest.1 {
                    p.1
                } else {
                    rest.1
                },
            ),
            None => rest,
        }
    }
}

/// The sheet's used dimension: the componentwise greatest current position
/// of any stored cell, and the origin when nothing resolves or the sheet
/// does not exist.
pub fn get_sheet_dimension(
    nav: &mut Navigator,
    sc: &SheetDataContainer,
    sheet: SheetId,
) -> (r: (usize, usize))
    requires
        old(nav).wf(),
    ensures
        final(nav).wf(),
        same_structure(*old(nav), *final(nav)),
        match old(nav).spec_data(sheet) {
            Some(d) => r.0 == spec_dimension(d, sc.cells@).0 && r.1 == spec_dimension(
                d,
                sc.cells@,
            ).1,
            None => r == (0usize, 0usize),
        },
{
    let ghost o = *old(nav);
    let mut best_row: usize = 0;
    let mut best_col: usize = 0;
    let n = sc.cells.len();
    let mut i: usize = 0;
    while i < n
        invariant
            i <= n,
            n == sc.cells@.len(),
            nav.wf(),
            same_structure(o, *nav),
            o.wf(),
            match o.spec_data(sheet) {
                Some(d) => best_row == spec_dimension(d, sc.cells@.subrange(0, i as int)).0
                    && best_col == spec_dimension(d, sc.cells@.subrange(0, i as int)).1,
                None => best_row == 0 && best_col == 0,
            },
        decreases n - i,
    {
        let ghost pre = *nav;
        let idx = nav.fetch_cell_idx(sheet, &sc.cells[i].0);
        proof {
            crate::unparser::lemma_same_structure_data(o, pre);
            assert(same_structure(o, *nav));
            if o.spec_data(sheet) is Some {
                assert(sc.cells@.subrange(0, i as int + 1).drop_last() =~= sc.cells@.subrange(
                    0,
                    i as int,
                ));
                assert(sc.cells@.subrange(0, i as int + 1).last() == sc.cells@[i as int]);
            }
        }
        match idx {
            Some(p) => {
                if p.0 > best_row {
                    best_row = p.0;
                }
                if p.1 > best_col {
                    best_col = p.1;
                }
            },
            None => {},
        }
        i = i + 1;
    }
    proof {
        assert(sc.cells@.subrange(0, n as int) =~= sc.cells@);
    }
    (best_row, best_col)
}

/// The canonical text of the formula stored at a position: empty when the
/// cell has no formula or a reference in it no longer resolves, and a
/// lookup failure exactly when the position names no cell.
pub fn get_formula(
    nav: &mut Navigator,
    formulas: &Vec<((SheetId, CellId), Ast)>,
    sheets: &IdManager,
    funcs: &IdManager,
    sheet: SheetId,
    row: usize,
    col: usize,
) -> (r: Result<Vec<u8>, ApiErr>)
    requires
        old(nav).wf(),
        alist_distinct(formulas@),
        injective(sheets.contents()),
        injective(funcs.contents()),
    ensures
        final(nav).wf(),
        same_structure(*old(nav), *final(nav)),
        match r {
            Ok(v) => {
                let o = *old(nav);
                let cid = o.spec_fetch_cell_id(sheet, row as int, col as int);
                &&& cid is Some
                &&& (if alist_has(formulas@, (sheet, cid.unwrap())) {
                    match crate::unparser::spec_unparse(
                        alist_get(formulas@, (sheet, cid.unwrap())),
                        o,
                        sheets.contents(),
                        funcs.contents(),
                        sheet,
                    ) {
                        Some(t) => v@ == t,
                        None => v@ == Seq::<u8>::empty(),
                    }
                } else {
                    v@ == Seq::<u8>::empty()
                })
            },
            Err(e) => old(nav).spec_fetch_cell_id(sheet, row as int, col as int) is None && e
                == ApiErr::NotFound,
        },
{
    let cell_id = match nav.fetch_cell_id(sheet, row, col) {
        Some(cid) => cid,
        None => {
            return Err(ApiErr::NotFound);
        },
    };
    let ghost o = *old(nav);
    let ast = match find_formula(formulas, sheet, &cell_id) {
        Some(ast) => ast,
        None => {
            return Ok(Vec::new());
        },
    };
    proof {
        crate::unparser::lemma_same_structure_data(o, *nav);
    }
    let ghost mid = *nav;
    let text = crate::unparser::unparse(ast, nav, sheets, funcs, sheet);
    proof {
        crate::unparser::lemma_unparse_congr(
            alist_get(formulas@, (sheet, cell_id)),
            o,
            mid,
            sheets.contents(),
            funcs.contents(),
            sheet,
        );
        assert(same_structure(o, *nav));
    }
    match text {
        Some(v) => Ok(v),
        None => Ok(Vec::new()),
    }
}

/// The stored formula of the cell, if any.
fn find_formula<'a>(
    formulas: &'a Vec<((SheetId, CellId), Ast)>,
    sheet: SheetId,
    cell: &CellId,
) -> (r: Option<&'a Ast>)
    requires
        alist_distinct(formulas@),
    ensures
        match r {
            Some(ast) => alist_has(formulas@, (sheet, *cell)) && *ast == alist_get(
                formulas@,
                (sheet, *cell),
            ),
            None => !alist_has(formulas@, (sheet, *cell)),
        },
{
    let n = formulas.len();
    let mut i: usize = 0;
    while i < n
        invariant
            i <= n,
            n == formulas@.len(),
            alist_distinct(formulas@),
            forall|j: int| 0 <= j < i ==> formulas@[j].0 != (sheet, *cell),
        decreases n - i,
    {
        let key = &formulas[i].0;
        if key.0 == sheet && cell_eq(&key.1, cell) {
            proof {
                assert(formulas@[i as int].0 == (sheet, *cell));
                assert(alist_has(formulas@, (sheet, *cell)));
                let j = choose|j: int|
                    0 <= j < formulas@.len() && formulas@[j].0 == (sheet, *cell);
                assert(j == i);
            }
            return Some(&formulas[i].1);
        }
        i = i + 1;
    }
    None
}

/// Whether two cell identities are the same.
fn cell_eq(a: &CellId, b: &CellId) -> (r: bool)
    ensures
        r == (*a == *b),
{
    *a == *b
}

/// A comment at its current position, with its author's registered name.
#[derive(Debug, Clone, PartialEq, Eq)]
pub struct Comment {
    pub row: usize,
    pub col: usize,
    pub author: String,
    pub content: String,
}

/// The comments whose cell resolves and whose author is registered, in
/// stored order: current position, author name, text.
pub open spec fn spec_comments(
    d: Data,
    authors: Map<Seq<char>, u32>,
    list: Seq<(CellId, AuthorId, String)>,
) -> Seq<(int, int, Seq<char>, Seq<char>)>
    decreases list.len(),
{
    if list.len() == 0 {
        Seq::empty()
    } else {
        let rest = spec_comments(d, authors, list.drop_last());
        let c = list.last();
        match spec_cell_idx(d, c.0) {
            Some(p) => if covers(authors, c.1) {
                rest.push(
                    (
                        p.0,
                        p.1,
                        choose|k: Seq<char>| authors.contains_key(k) && #[trigger] authors[k]
                            == c.1,
                        c.2@,
                    ),
                )
            } else {
                rest
            },
            None => rest,
        }
    }
}

/// The sheet's comments in display coordinates: one entry per stored
/// comment whose cell resolves and whose author is registered, in stored
/// order; empty when the sheet does not exist.
pub fn get_comments(
    nav: &mut Navigator,
    authors: &IdManager,
    sheet: SheetId,
    list: &Vec<(CellId, AuthorId, String)>,
) -> (r: Vec<Comment>)
    requires
        old(nav).wf(),
        injective(authors.contents()),
    ensures
        final(nav).wf(),
        same_structure(*old(nav), *final(nav)),
        match old(nav).spec_data(sheet) {
            Some(d) => {
                let s = spec_comments(d, authors.contents(), list@);
                &&& r@.len() == s.len()
                &&& forall|i: int|
                    0 <= i < s.len() ==> (#[trigger] r@[i]).row == s[i].0 && r@[i].col == s[i].1
                        && r@[i].author@ == s[i].2 && r@[i].content@ == s[i].3
            },
            None => r@.len() == 0,
        },
{
    let ghost o = *old(nav);
    let mut out: Vec<Comment> = Vec::new();
    let n = list.len();
    let mut i: usize = 0;
    while i < n
        invariant
            i <= n,
            n == list@.len(),
            nav.wf(),
            same_structure(o, *nav),
            o.wf(),
            injective(authors.contents()),
            match o.spec_data(sheet) {
                Some(d) => {
                    let s = spec_comments(d, authors.contents(), list@.subrange(0, i as int));
                    &&& out@.len() == s.len()
                    &&& forall|j: int|
                        0 <= j < s.len() ==> (#[trigger] out@[j]).row == s[j].0 && out@[j].col
                            == s[j].1 && out@[j].author@ == s[j].2 && out@[j].content@ == s[j].3
                },
                None => out@.len() == 0,
            },
        decreases n - i,
    {
        let ghost pre = *nav;
        let idx = nav.fetch_cell_idx(sheet, &list[i].0);
        proof {
            crate::unparser::lemma_same_structure_data(o, pre);
            assert(same_structure(o, *nav));
            if o.spec_data(sheet) is Some {
                assert(list@.subrange(0, i as int + 1).drop_last() =~= list@.subrange(
                    0,
                    i as int,
                ));
                assert(list@.subrange(0, i as int + 1).last() == list@[i as int]);
            }
        }
        match idx {
            Some(p) => {
                match authors.get_string(&list[i].1) {
                    Some(author) => {
                        proof {
                            let k = choose|k: Seq<char>|
                                authors.contents().contains_key(k)
                                    && #[trigger] authors.contents()[k] == list@[i as int].1;
                            assert(k == author@);
                        }
                        let content = crate::id_manager::clone_string(&list[i].2);
                        out.push(Comment { row: p.0, col: p.1, author, content });
                    },
                    None => {},
                }
            },
            None => {},
        }
        i = i + 1;
    }
    proof {
        assert(list@.subrange(0, n as int) =~= list@);
    }
    out
}

} // verus!
