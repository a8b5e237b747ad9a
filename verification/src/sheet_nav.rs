//! Per-workbook navigation state: one `SheetNav` per sheet, with the
//! structural edits (row and column insertion and deletion, block creation)
//! and the whole-workbook lookup operations.

use crate::base::{BlockCellId, BlockId, CellId, ColId, NormalCellId, RowId, SheetId};
use crate::container::{
    alist_distinct, alist_get, alist_has, lemma_alist_push, lemma_alist_update,
};
use crate::navigator::{
    lemma_distinct_insert, lemma_distinct_remove, seq_distinct, spec_block_cell_err,
    spec_block_cell_idx, spec_cell_at, spec_cell_idx, spec_norm_cell_idx, BlockPlace, Cache, Data,
    Fetcher, NavError, MAX_COLS, MAX_ROWS,
};
use vstd::prelude::*;

verus! {

/// One sheet's navigation state: the data, its cache, and the allocation
/// frontiers for fresh row, column and block ids on this sheet.
#[derive(Debug, Clone, PartialEq, Eq)]
pub struct SheetNav {
    pub data: Data,
    pub cache: Cache,
    pub row_max: RowId,
    pub col_max: ColId,
    pub block_max: BlockId,
}

impl SheetNav {
    pub open spec fn wf(self) -> bool {
        &&& self.data.wf()
        &&& self.cache.wf(self.data)
        &&& forall|i: int|
            0 <= i < self.data.rows@.len() ==> #[trigger] self.data.rows@[i] < self.row_max
        &&& forall|i: int|
            0 <= i < self.data.cols@.len() ==> #[trigger] self.data.cols@[i] < self.col_max
        &&& forall|i: int|
            0 <= i < self.data.blocks@.len() ==> (#[trigger] self.data.blocks@[i]).0
                < self.block_max
    }

    /// A fresh sheet whose grid holds the ids `0..row_count` and
    /// `0..col_count` in display order.
    pub fn init(row_count: u32, col_count: u32) -> (r: Self)
        requires
            row_count <= MAX_ROWS,
            col_count <= MAX_COLS,
        ensures
            r.wf(),
            r.data.rows@.len() == row_count,
            r.data.cols@.len() == col_count,
            forall|i: int| 0 <= i < row_count ==> #[trigger] r.data.rows@[i] == i,
            forall|i: int| 0 <= i < col_count ==> #[trigger] r.data.cols@[i] == i,
            r.data.blocks@.len() == 0,
            r.row_max == row_count,
            r.col_max == col_count,
    {
        let mut rows: Vec<RowId> = Vec::new();
        let mut i: u32 = 0;
        while i < row_count
            invariant
                i <= row_count,
                rows@.len() == i,
                forall|j: int| 0 <= j < i ==> #[trigger] rows@[j] == j,
            decreases row_count - i,
        {
            rows.push(i);
            i = i + 1;
        }
        let mut cols: Vec<ColId> = Vec::new();
        let mut j: u32 = 0;
        while j < col_count
            invariant
                j <= col_count,
                cols@.len() == j,
                forall|k: int| 0 <= k < j ==> #[trigger] cols@[k] == k,
            decreases col_count - j,
        {
            cols.push(j);
            j = j + 1;
        }
        SheetNav {
            data: Data { rows, cols, blocks: Vec::new() },
            cache: Cache::new(),
            row_max: row_count,
            col_max: col_count,
            block_max: 0,
        }
    }
}

/// The navigator over every sheet of the workbook.
#[derive(Debug, Clone, PartialEq, Eq)]
pub struct Navigator {
    pub sheets: Vec<(SheetId, SheetNav)>,
}

/// The two navigators hold the same sheets with the same data; only their
/// caches may differ.
pub open spec fn same_structure(a: Navigator, b: Navigator) -> bool {
    &&& a.sheets@.len() == b.sheets@.len()
    &&& forall|i: int|
        0 <= i < a.sheets@.len() ==> (#[trigger] a.sheets@[i]).0 == b.sheets@[i].0
            && a.sheets@[i].1.data == b.sheets@[i].1.data && a.sheets@[i].1.row_max
            == b.sheets@[i].1.row_max && a.sheets@[i].1.col_max == b.sheets@[i].1.col_max
            && a.sheets@[i].1.block_max == b.sheets@[i].1.block_max
}

/// Putting an entry with a warmed cache but unchanged data back in place
/// keeps the navigator's shape and well-formedness.
pub proof fn lemma_warm_entry(o: Seq<(SheetId, SheetNav)>, i: int, sn: SheetNav)
    requires
        0 <= i < o.len(),
        alist_distinct(o),
        forall|j: int| 0 <= j < o.len() ==> (#[trigger] o[j]).1.wf(),
        sn.wf(),
        sn.data == o[i].1.data,
        sn.row_max == o[i].1.row_max,
        sn.col_max == o[i].1.col_max,
        sn.block_max == o[i].1.block_max,
    ensures
        o.remove(i).insert(i, (o[i].0, sn)) =~= o.update(i, (o[i].0, sn)),
        alist_distinct(o.update(i, (o[i].0, sn))),
        forall|j: int| 0 <= j < o.len() ==> (#[trigger] o.update(i, (o[i].0, sn))[j]).1.wf(),
        forall|j: int|
            0 <= j < o.len() ==> (#[trigger] o.update(i, (o[i].0, sn))[j]).0 == o[j].0 && o.update(
                i,
                (o[i].0, sn),
            )[j].1.data == o[j].1.data && o.update(i, (o[i].0, sn))[j].1.row_max == o[j].1.row_max
                && o.update(i, (o[i].0, sn))[j].1.col_max == o[j].1.col_max && o.update(
                i,
                (o[i].0, sn),
            )[j].1.block_max == o[j].1.block_max,
{
    let s = o.update(i, (o[i].0, sn));
    assert(o.remove(i).insert(i, (o[i].0, sn)) =~= s);
    assert forall|a: int, b: int| 0 <= a < b < s.len() implies s[a].0 != s[b].0 by {
        if a != i {
            assert(s[a] == o[a]);
        }
        if b != i {
            assert(s[b] == o[b]);
        }
    }
    assert forall|j: int| 0 <= j < o.len() implies (#[trigger] s[j]).1.wf() by {
        if j != i {
            assert(s[j] == o[j]);
        }
    }
    assert forall|j: int|
        0 <= j < o.len() implies (#[trigger] s[j]).0 == o[j].0 && s[j].1.data == o[j].1.data
            && s[j].1.row_max == o[j].1.row_max && s[j].1.col_max == o[j].1.col_max
            && s[j].1.block_max == o[j].1.block_max by {
        if j != i {
            assert(s[j] == o[j]);
        }
    }
}

impl Navigator {
    pub open spec fn wf(self) -> bool {
        &&& alist_distinct(self.sheets@)
        &&& forall|i: int| 0 <= i < self.sheets@.len() ==> (#[trigger] self.sheets@[i]).1.wf()
    }

    /// The sheet's data, if the sheet exists.
    pub open spec fn spec_data(self, sheet: SheetId) -> Option<Data> {
        if alist_has(self.sheets@, sheet) {
            Some(alist_get(self.sheets@, sheet).data)
        } else {
            None
        }
    }

    /// The row id at a display position, if the sheet exists and the
    /// position is on its grid.
    pub open spec fn spec_fetch_row_id(self, sheet: SheetId, idx: int) -> Option<RowId> {
        match self.spec_data(sheet) {
            Some(d) => if 0 <= idx < d.rows@.len() {
                Some(d.rows@[idx])
            } else {
                None
            },
            None => None,
        }
    }

    /// The column id at a display position, if the sheet exists and the
    /// position is on its grid.
    pub open spec fn spec_fetch_col_id(self, sheet: SheetId, idx: int) -> Option<ColId> {
        match self.spec_data(sheet) {
            Some(d) => if 0 <= idx < d.cols@.len() {
                Some(d.cols@[idx])
            } else {
                None
            },
            None => None,
        }
    }

    /// The cell identity at a position, if the sheet exists, the position is
    /// on its grid and every block master there resolves.
    pub open spec fn spec_fetch_cell_id(self, sheet: SheetId, row: int, col: int) -> Option<
        CellId,
    > {
        match self.spec_data(sheet) {
            Some(d) => if 0 <= row < d.rows@.len() && 0 <= col < d.cols@.len() {
                spec_cell_at(d, row, col)
            } else {
                None
            },
            None => None,
        }
    }

    pub fn new() -> (r: Self)
        ensures
            r.wf(),
            r.sheets@.len() == 0,
    {
        Navigator { sheets: Vec::new() }
    }

    /// The index of the sheet in the list, if present.
    fn find_sheet(&self, sheet: SheetId) -> (r: Option<usize>)
        requires
            self.wf(),
        ensures
            match r {
                Some(i) => i < self.sheets@.len() && self.sheets@[i as int].0 == sheet
                    && alist_has(self.sheets@, sheet) && alist_get(self.sheets@, sheet)
                    == self.sheets@[i as int].1,
                None => !alist_has(self.sheets@, sheet),
            },
    {
        let n = self.sheets.len();
        let mut i: usize = 0;
        while i < n
            invariant
                n == self.sheets@.len(),
                i <= n,
                self.wf(),
                forall|j: int| 0 <= j < i ==> self.sheets@[j].0 != sheet,
            decreases n - i,
        {
            if self.sheets[i].0 == sheet {
                proof {
                    assert(alist_has(self.sheets@, sheet));
                    let j = choose|j: int|
                        0 <= j < self.sheets@.len() && self.sheets@[j].0 == sheet;
                    assert(j == i);
                }
                return Some(i);
            }
            i = i + 1;
        }
        None
    }

    /// The row id currently displayed at the position.
    pub fn fetch_row_id(&mut self, sheet_id: SheetId, row_idx: usize) -> (r: Option<RowId>)
        requires
            old(self).wf(),
        ensures
            final(self).wf(),
            same_structure(*old(self), *final(self)),
            r == old(self).spec_fetch_row_id(sheet_id, row_idx as int),
    {
        match self.find_sheet(sheet_id) {
            None => None,
            Some(i) => {
                let (sid, mut sn) = self.sheets.remove(i);
                let r = if row_idx < sn.data.rows.len() {
                    let f = Fetcher::from(&sn.data, sheet_id);
                    Some(f.get_row_id(&mut sn.cache, row_idx))
                } else {
                    None
                };
                self.sheets.insert(i, (sid, sn));
                proof {
                    lemma_warm_entry(old(self).sheets@, i as int, sn);
                    assert(self.sheets@ =~= old(self).sheets@.update(i as int, (sid, sn)));
                }
                r
            },
        }
    }

    /// The column id currently displayed at the position.
    pub fn fetch_col_id(&mut self, sheet_id: SheetId, col_idx: usize) -> (r: Option<ColId>)
        requires
            old(self).wf(),
        ensures
            final(self).wf(),
            same_structure(*old(self), *final(self)),
            r == old(self).spec_fetch_col_id(sheet_id, col_idx as int),
    {
        match self.find_sheet(sheet_id) {
            None => None,
            Some(i) => {
                let (sid, mut sn) = self.sheets.remove(i);
                let r = if col_idx < sn.data.cols.len() {
                    let f = Fetcher::from(&sn.data, sheet_id);
                    Some(f.get_col_id(&mut sn.cache, col_idx))
                } else {
                    None
                };
                self.sheets.insert(i, (sid, sn));
                proof {
                    lemma_warm_entry(old(self).sheets@, i as int, sn);
                    assert(self.sheets@ =~= old(self).sheets@.update(i as int, (sid, sn)));
                }
                r
            },
        }
    }

    /// The display position of a row id.
    pub fn fetch_row_idx(&mut self, sheet_id: SheetId, row_id: RowId) -> (r: Result<
        usize,
        NavError,
    >)
        requires
            old(self).wf(),
        ensures
            final(self).wf(),
            same_structure(*old(self), *final(self)),
            match r {
                Ok(i) => old(self).spec_data(sheet_id) is Some
                    && old(self).spec_data(sheet_id).unwrap().rows@.contains(row_id) && i == old(
                    self,
                ).spec_data(sheet_id).unwrap().rows@.index_of(row_id),
                Err(e) => (old(self).spec_data(sheet_id) is None || !old(self).spec_data(
                    sheet_id,
                ).unwrap().rows@.contains(row_id)) && e == NavError::CannotFetchRowIdx(
                    sheet_id,
                    row_id,
                ),
            },
    {
        match self.find_sheet(sheet_id) {
            None => Err(NavError::CannotFetchRowIdx(sheet_id, row_id)),
            Some(i) => {
                let (sid, mut sn) = self.sheets.remove(i);
                let f = Fetcher::from(&sn.data, sheet_id);
                let r = f.get_row_idx(&mut sn.cache, row_id);
                self.sheets.insert(i, (sid, sn));
                proof {
                    lemma_warm_entry(old(self).sheets@, i as int, sn);
                    assert(self.sheets@ =~= old(self).sheets@.update(i as int, (sid, sn)));
                }
                r
            },
        }
    }

    /// The display position of a column id.
    pub fn fetch_col_idx(&mut self, sheet_id: SheetId, col_id: ColId) -> (r: Result<
        usize,
        NavError,
    >)
        requires
            old(self).wf(),
        ensures
            final(self).wf(),
            same_structure(*old(self), *final(self)),
            match r {
                Ok(i) => old(self).spec_data(sheet_id) is Some
                    && old(self).spec_data(sheet_id).unwrap().cols@.contains(col_id) && i == old(
                    self,
                ).spec_data(sheet_id).unwrap().cols@.index_of(col_id),
                Err(e) => (old(self).spec_data(sheet_id) is None || !old(self).spec_data(
                    sheet_id,
                ).unwrap().cols@.contains(col_id)) && e == NavError::CannotFetchColIdx(
                    sheet_id,
                    col_id,
                ),
            },
    {
        match self.find_sheet(sheet_id) {
            None => Err(NavError::CannotFetchColIdx(sheet_id, col_id)),
            Some(i) => {
                let (sid, mut sn) = self.sheets.remove(i);
                let f = Fetcher::from(&sn.data, sheet_id);
                let r = f.get_col_idx(&mut sn.cache, col_id);
                self.sheets.insert(i, (sid, sn));
                proof {
                    lemma_warm_entry(old(self).sheets@, i as int, sn);
                    assert(self.sheets@ =~= old(self).sheets@.update(i as int, (sid, sn)));
                }
                r
            },
        }
    }

    /// The cell identity at a position, the latest covering block winning.
    pub fn fetch_cell_id(&mut self, sheet_id: SheetId, row: usize, col: usize) -> (r: Option<
        CellId,
    >)
        requires
            old(self).wf(),
        ensures
            final(self).wf(),
            same_structure(*old(self), *final(self)),
            r == old(self).spec_fetch_cell_id(sheet_id, row as int, col as int),
    {
        match self.find_sheet(sheet_id) {
            None => None,
            Some(i) => {
                let (sid, mut sn) = self.sheets.remove(i);
                let r = if row < sn.data.rows.len() && col < sn.data.cols.len() {
                    let f = Fetcher::from(&sn.data, sheet_id);
                    match f.get_cell_id(&mut sn.cache, row, col) {
                        Ok(cid) => Some(cid),
                        Err(_) => None,
                    }
                } else {
                    None
                };
                self.sheets.insert(i, (sid, sn));
                proof {
                    lemma_warm_entry(old(self).sheets@, i as int, sn);
                    assert(self.sheets@ =~= old(self).sheets@.update(i as int, (sid, sn)));
                }
                r
            },
        }
    }

    /// Where a cell currently sits, whichever variant it is.
    pub fn fetch_cell_idx(&mut self, sheet_id: SheetId, cell_id: &CellId) -> (r: Option<
        (usize, usize),
    >)
        requires
            old(self).wf(),
        ensures
            final(self).wf(),
            same_structure(*old(self), *final(self)),
            match r {
                Some(p) => old(self).spec_data(sheet_id) is Some && spec_cell_idx(
                    old(self).spec_data(sheet_id).unwrap(),
                    *cell_id,
                ) == Some((p.0 as int, p.1 as int)),
                None => old(self).spec_data(sheet_id) is None || spec_cell_idx(
                    old(self).spec_data(sheet_id).unwrap(),
                    *cell_id,
                ) is None,
            },
    {
        match self.find_sheet(sheet_id) {
            None => None,
            Some(i) => {
                let (sid, mut sn) = self.sheets.remove(i);
                let f = Fetcher::from(&sn.data, sheet_id);
                let r = match f.get_cell_idx(&mut sn.cache, cell_id) {
                    Ok(p) => Some(p),
                    Err(_) => None,
                };
                self.sheets.insert(i, (sid, sn));
                proof {
                    lemma_warm_entry(old(self).sheets@, i as int, sn);
                    assert(self.sheets@ =~= old(self).sheets@.update(i as int, (sid, sn)));
                }
                r
            },
        }
    }

    /// Where a normal cell currently sits.
    pub fn fetch_normal_cell_idx(&mut self, sheet_id: SheetId, cell_id: &NormalCellId) -> (r:
        Option<(usize, usize)>)
        requires
            old(self).wf(),
        ensures
            final(self).wf(),
            same_structure(*old(self), *final(self)),
            match r {
                Some(p) => old(self).spec_data(sheet_id) is Some && spec_norm_cell_idx(
                    old(self).spec_data(sheet_id).unwrap(),
                    *cell_id,
                ) == Some((p.0 as int, p.1 as int)),
                None => old(self).spec_data(sheet_id) is None || spec_norm_cell_idx(
                    old(self).spec_data(sheet_id).unwrap(),
                    *cell_id,
                ) is None,
            },
    {
        match self.find_sheet(sheet_id) {
            None => None,
            Some(i) => {
                let (sid, mut sn) = self.sheets.remove(i);
                let f = Fetcher::from(&sn.data, sheet_id);
                let r = match f.get_norm_cell_idx(&mut sn.cache, cell_id) {
                    Ok(p) => Some(p),
                    Err(_) => None,
                };
                self.sheets.insert(i, (sid, sn));
                proof {
                    lemma_warm_entry(old(self).sheets@, i as int, sn);
                    assert(self.sheets@ =~= old(self).sheets@.update(i as int, (sid, sn)));
                }
                r
            },
        }
    }

    /// Where a block cell currently sits.
    pub fn fetch_block_cell_idx(&mut self, sheet_id: SheetId, cell_id: &BlockCellId) -> (r: Result<
        (usize, usize),
        NavError,
    >)
        requires
            old(self).wf(),
        ensures
            final(self).wf(),
            same_structure(*old(self), *final(self)),
            match r {
                Ok(p) => old(self).spec_data(sheet_id) is Some && spec_block_cell_idx(
                    old(self).spec_data(sheet_id).unwrap(),
                    *cell_id,
                ) == Some((p.0 as int, p.1 as int)),
                Err(e) => (old(self).spec_data(sheet_id) is None && e
                    == NavError::CannotGetBlockById(sheet_id, cell_id.block_id)) || (old(
                    self,
                ).spec_data(sheet_id) is Some && spec_block_cell_idx(
                    old(self).spec_data(sheet_id).unwrap(),
                    *cell_id,
                ) is None && e == spec_block_cell_err(
                    old(self).spec_data(sheet_id).unwrap(),
                    sheet_id,
                    *cell_id,
                )),
            },
    {
        match self.find_sheet(sheet_id) {
            None => Err(NavError::CannotGetBlockById(sheet_id, cell_id.block_id)),
            Some(i) => {
                let (sid, mut sn) = self.sheets.remove(i);
                let f = Fetcher::from(&sn.data, sheet_id);
                let r = f.get_block_cell_idx(&mut sn.cache, cell_id);
                self.sheets.insert(i, (sid, sn));
                proof {
                    lemma_warm_entry(old(self).sheets@, i as int, sn);
                    assert(self.sheets@ =~= old(self).sheets@.update(i as int, (sid, sn)));
                }
                r
            },
        }
    }

    /// Inserts a fresh row id at the display position, shifting the rows at
    /// and below it down.  Cells pinned to the shifted row ids move with
    /// them, which is what keeps formula references stable.  Hands back
    /// whether the edit applied.
    pub fn insert_row(&mut self, sheet_id: SheetId, idx: usize) -> (applied: bool)
        requires
            old(self).wf(),
        ensures
            final(self).wf(),
            applied == (alist_has(old(self).sheets@, sheet_id) && idx <= alist_get(
                old(self).sheets@,
                sheet_id,
            ).data.rows@.len() && alist_get(old(self).sheets@, sheet_id).data.rows@.len() < MAX_ROWS
                && alist_get(old(self).sheets@, sheet_id).row_max < u32::MAX),
            !applied ==> final(self).sheets@ == old(self).sheets@,
            applied ==> {
                let osn = alist_get(old(self).sheets@, sheet_id);
                let nd = alist_get(final(self).sheets@, sheet_id).data;
                &&& alist_has(final(self).sheets@, sheet_id)
                &&& nd.rows@ == osn.data.rows@.insert(idx as int, osn.row_max)
                &&& !osn.data.rows@.contains(osn.row_max)
                &&& nd.cols@ == osn.data.cols@
                &&& nd.blocks@ == osn.data.blocks@
            },
            forall|s: SheetId|
                s != sheet_id ==> #[trigger] alist_has(final(self).sheets@, s) == alist_has(
                    old(self).sheets@,
                    s,
                ) && (alist_has(old(self).sheets@, s) ==> alist_get(final(self).sheets@, s)
                    == alist_get(old(self).sheets@, s)),
    {
        match self.find_sheet(sheet_id) {
            None => false,
            Some(i) => {
                let (sid, mut sn) = self.sheets.remove(i);
                let rows_len = sn.data.rows.len();
                if idx <= rows_len && rows_len < MAX_ROWS && sn.row_max < u32::MAX {
                    let ghost orows = sn.data.rows@;
                    let new_id = sn.row_max;
                    sn.data.rows.insert(idx, new_id);
                    sn.row_max = sn.row_max + 1;
                    sn.cache = Cache::new();
                    proof {
                        assert(!orows.contains(new_id)) by {
                            if orows.contains(new_id) {
                                let j = choose|j: int|
                                    0 <= j < orows.len() && orows[j] == new_id;
                                assert(orows[j] < new_id);
                            }
                        }
                        lemma_distinct_insert(orows, idx as int, new_id);
                        assert forall|j: int|
                            0 <= j < sn.data.rows@.len() implies #[trigger] sn.data.rows@[j]
                            < sn.row_max by {
                            if j < idx {
                                assert(sn.data.rows@[j] == orows[j]);
                            } else if j > idx {
                                assert(sn.data.rows@[j] == orows[j - 1]);
                            }
                        }
                        assert(sn.wf());
                    }
                    self.sheets.insert(i, (sid, sn));
                    proof {
                        self.lemma_after_edit(old(self).sheets@, i as int, sn);
                    }
                    true
                } else {
                    self.sheets.insert(i, (sid, sn));
                    proof {
                        assert(self.sheets@ =~= old(self).sheets@);
                    }
                    false
                }
            },
        }
    }

    /// Removes the row at the display position; the row's id stays known to
    /// the id layer, so stale references are distinguishable from unknown
    /// ones.  Hands back whether the edit applied.
    pub fn delete_row(&mut self, sheet_id: SheetId, idx: usize) -> (applied: bool)
        requires
            old(self).wf(),
        ensures
            final(self).wf(),
            applied == (alist_has(old(self).sheets@, sheet_id) && idx < alist_get(
                old(self).sheets@,
                sheet_id,
            ).data.rows@.len()),
            !applied ==> final(self).sheets@ == old(self).sheets@,
            applied ==> {
                let osn = alist_get(old(self).sheets@, sheet_id);
                let nd = alist_get(final(self).sheets@, sheet_id).data;
                &&& alist_has(final(self).sheets@, sheet_id)
                &&& nd.rows@ == osn.data.rows@.remove(idx as int)
                &&& nd.cols@ == osn.data.cols@
                &&& nd.blocks@ == osn.data.blocks@
            },
            forall|s: SheetId|
                s != sheet_id ==> #[trigger] alist_has(final(self).sheets@, s) == alist_has(
                    old(self).sheets@,
                    s,
                ) && (alist_has(old(self).sheets@, s) ==> alist_get(final(self).sheets@, s)
                    == alist_get(old(self).sheets@, s)),
    {
        match self.find_sheet(sheet_id) {
            None => false,
            Some(i) => {
                let (sid, mut sn) = self.sheets.remove(i);
                if idx < sn.data.rows.len() {
                    let ghost orows = sn.data.rows@;
                    sn.data.rows.remove(idx);
                    sn.cache = Cache::new();
                    proof {
                        lemma_distinct_remove(orows, idx as int);
                        assert forall|j: int|
                            0 <= j < sn.data.rows@.len() implies #[trigger] sn.data.rows@[j]
                            < sn.row_max by {
                            if j < idx {
                                assert(sn.data.rows@[j] == orows[j]);
                            } else {
                                assert(sn.data.rows@[j] == orows[j + 1]);
                            }
                        }
                        assert(sn.wf());
                    }
                    self.sheets.insert(i, (sid, sn));
                    proof {
                        self.lemma_after_edit(old(self).sheets@, i as int, sn);
                    }
                    true
                } else {
                    self.sheets.insert(i, (sid, sn));
                    proof {
                        assert(self.sheets@ =~= old(self).sheets@);
                    }
                    false
                }
            },
        }
    }

    /// Inserts a fresh column id at the display position.
    pub fn insert_col(&mut self, sheet_id: SheetId, idx: usize) -> (applied: bool)
        requires
            old(self).wf(),
        ensures
            final(self).wf(),
            applied == (alist_has(old(self).sheets@, sheet_id) && idx <= alist_get(
                old(self).sheets@,
                sheet_id,
            ).data.cols@.len() && alist_get(old(self).sheets@, sheet_id).data.cols@.len() < MAX_COLS
                && alist_get(old(self).sheets@, sheet_id).col_max < u32::MAX),
            !applied ==> final(self).sheets@ == old(self).sheets@,
            applied ==> {
                let osn = alist_get(old(self).sheets@, sheet_id);
                let nd = alist_get(final(self).sheets@, sheet_id).data;
                &&& alist_has(final(self).sheets@, sheet_id)
                &&& nd.cols@ == osn.data.cols@.insert(idx as int, osn.col_max)
                &&& !osn.data.cols@.contains(osn.col_max)
                &&& nd.rows@ == osn.data.rows@
                &&& nd.blocks@ == osn.data.blocks@
            },
            forall|s: SheetId|
                s != sheet_id ==> #[trigger] alist_has(final(self).sheets@, s) == alist_has(
                    old(self).sheets@,
                    s,
                ) && (alist_has(old(self).sheets@, s) ==> alist_get(final(self).sheets@, s)
                    == alist_get(old(self).sheets@, s)),
    {
        match self.find_sheet(sheet_id) {
            None => false,
            Some(i) => {
                let (sid, mut sn) = self.sheets.remove(i);
                let cols_len = sn.data.cols.len();
                if idx <= cols_len && cols_len < MAX_COLS && sn.col_max < u32::MAX {
                    let ghost ocols = sn.data.cols@;
                    let new_id = sn.col_max;
                    sn.data.cols.insert(idx, new_id);
                    sn.col_max = sn.col_max + 1;
                    sn.cache = Cache::new();
                    proof {
                        assert(!ocols.contains(new_id)) by {
                            if ocols.contains(new_id) {
                                let j = choose|j: int|
                                    0 <= j < ocols.len() && ocols[j] == new_id;
                                assert(ocols[j] < new_id);
                            }
                        }
                        lemma_distinct_insert(ocols, idx as int, new_id);
                        assert forall|j: int|
                            0 <= j < sn.data.cols@.len() implies #[trigger] sn.data.cols@[j]
                            < sn.col_max by {
                            if j < idx {
                                assert(sn.data.cols@[j] == ocols[j]);
                            } else if j > idx {
                                assert(sn.data.cols@[j] == ocols[j - 1]);
                            }
                        }
                        assert(sn.wf());
                    }
                    self.sheets.insert(i, (sid, sn));
                    proof {
                        self.lemma_after_edit(old(self).sheets@, i as int, sn);
                    }
                    true
                } else {
                    self.sheets.insert(i, (sid, sn));
                    proof {
                        assert(self.sheets@ =~= old(self).sheets@);
                    }
                    false
                }
            },
        }
    }

    /// Removes the column at the display position.
    pub fn delete_col(&mut self, sheet_id: SheetId, idx: usize) -> (applied: bool)
        requires
            old(self).wf(),
        ensures
            final(self).wf(),
            applied == (alist_has(old(self).sheets@, sheet_id) && idx < alist_get(
                old(self).sheets@,
                sheet_id,
            ).data.cols@.len()),
            !applied ==> final(self).sheets@ == old(self).sheets@,
            applied ==> {
                let osn = alist_get(old(self).sheets@, sheet_id);
                let nd = alist_get(final(self).sheets@, sheet_id).data;
                &&& alist_has(final(self).sheets@, sheet_id)
                &&& nd.cols@ == osn.data.cols@.remove(idx as int)
                &&& nd.rows@ == osn.data.rows@
                &&& nd.blocks@ == osn.data.blocks@
            },
            forall|s: SheetId|
                s != sheet_id ==> #[trigger] alist_has(final(self).sheets@, s) == alist_has(
                    old(self).sheets@,
                    s,
                ) && (alist_has(old(self).sheets@, s) ==> alist_get(final(self).sheets@, s)
                    == alist_get(old(self).sheets@, s)),
    {
        match self.find_sheet(sheet_id) {
            None => false,
            Some(i) => {
                let (sid, mut sn) = self.sheets.remove(i);
                if idx < sn.data.cols.len() {
                    let ghost ocols = sn.data.cols@;
                    sn.data.cols.remove(idx);
                    sn.cache = Cache::new();
                    proof {
                        lemma_distinct_remove(ocols, idx as int);
                        assert forall|j: int|
                            0 <= j < sn.data.cols@.len() implies #[trigger] sn.data.cols@[j]
                            < sn.col_max by {
                            if j < idx {
                                assert(sn.data.cols@[j] == ocols[j]);
                            } else {
                                assert(sn.data.cols@[j] == ocols[j + 1]);
                            }
                        }
                        assert(sn.wf());
                    }
                    self.sheets.insert(i, (sid, sn));
                    proof {
                        self.lemma_after_edit(old(self).sheets@, i as int, sn);
                    }
                    true
                } else {
                    self.sheets.insert(i, (sid, sn));
                    proof {
                        assert(self.sheets@ =~= old(self).sheets@);
                    }
                    false
                }
            },
        }
    }

    /// Places a fresh block anchored at the master cell, with its own inner
    /// id spaces `0..row_cnt` and `0..col_cnt`.  Hands back the new block's
    /// id when the edit applied.
    pub fn create_block(
        &mut self,
        sheet_id: SheetId,
        master: NormalCellId,
        row_cnt: u32,
        col_cnt: u32,
    ) -> (r: Option<BlockId>)
        requires
            old(self).wf(),
            row_cnt <= MAX_ROWS,
            col_cnt <= MAX_COLS,
        ensures
            final(self).wf(),
            r is Some == (alist_has(old(self).sheets@, sheet_id) && alist_get(
                old(self).sheets@,
                sheet_id,
            ).block_max < u32::MAX),
            r is None ==> final(self).sheets@ == old(self).sheets@,
            r is Some ==> {
                let osn = alist_get(old(self).sheets@, sheet_id);
                let nd = alist_get(final(self).sheets@, sheet_id).data;
                &&& r == Some(osn.block_max)
                &&& nd.rows@ == osn.data.rows@
                &&& nd.cols@ == osn.data.cols@
                &&& nd.blocks@.len() == osn.data.blocks@.len() + 1
                &&& nd.blocks@.last().0 == osn.block_max
                &&& nd.blocks@.last().1.master == master
                &&& nd.blocks@.last().1.rows@.len() == row_cnt
                &&& nd.blocks@.last().1.cols@.len() == col_cnt
                &&& forall|j: int|
                    0 <= j < osn.data.blocks@.len() ==> #[trigger] nd.blocks@[j]
                        == osn.data.blocks@[j]
            },
    {
        match self.find_sheet(sheet_id) {
            None => None,
            Some(i) => {
                let (sid, mut sn) = self.sheets.remove(i);
                if sn.block_max < u32::MAX {
                    let ghost oblocks = sn.data.blocks@;
                    let bid = sn.block_max;
                    let bp = BlockPlace::init(master, row_cnt, col_cnt);
                    sn.data.blocks.push((bid, bp));
                    sn.block_max = sn.block_max + 1;
                    sn.cache = Cache::new();
                    proof {
                        assert(!alist_has(oblocks, bid)) by {
                            if alist_has(oblocks, bid) {
                                let j = choose|j: int|
                                    0 <= j < oblocks.len() && oblocks[j].0 == bid;
                                assert(oblocks[j].0 < bid);
                            }
                        }
                        lemma_alist_push(oblocks, bid, bp);
                        assert forall|j: int|
                            0 <= j < sn.data.blocks@.len() implies (#[trigger] sn.data.blocks@[j]).0
                            < sn.block_max by {
                            if j < sn.data.blocks@.len() - 1 {
                                assert(sn.data.blocks@[j] == oblocks[j]);
                            }
                        }
                        assert forall|j: int|
                            0 <= j < sn.data.blocks@.len() implies (
                        #[trigger] sn.data.blocks@[j]).1.wf() by {
                            if j < sn.data.blocks@.len() - 1 {
                                assert(sn.data.blocks@[j] == oblocks[j]);
                            }
                        }
                        assert(sn.wf());
                    }
                    self.sheets.insert(i, (sid, sn));
                    proof {
                        self.lemma_after_edit(old(self).sheets@, i as int, sn);
                    }
                    Some(bid)
                } else {
                    self.sheets.insert(i, (sid, sn));
                    proof {
                        assert(self.sheets@ =~= old(self).sheets@);
                    }
                    None
                }
            },
        }
    }

    /// After an edit of one sheet's entry, the list is still a well-formed
    /// association list and every other sheet is untouched.
    proof fn lemma_after_edit(&self, o: Seq<(SheetId, SheetNav)>, i: int, sn: SheetNav)
        requires
            0 <= i < o.len(),
            alist_distinct(o),
            forall|j: int| 0 <= j < o.len() ==> (#[trigger] o[j]).1.wf(),
            sn.wf(),
            self.sheets@ == o.remove(i).insert(i, (o[i].0, sn)),
        ensures
            self.wf(),
            alist_has(self.sheets@, o[i].0),
            alist_get(self.sheets@, o[i].0) == sn,
            self.sheets@.len() == o.len(),
            forall|s: SheetId|
                s != o[i].0 ==> #[trigger] alist_has(self.sheets@, s) == alist_has(o, s) && (
                alist_has(o, s) ==> alist_get(self.sheets@, s) == alist_get(o, s)),
    {
        assert(self.sheets@ =~= o.update(i, (o[i].0, sn)));
        lemma_alist_update(o, i, sn);
        assert forall|j: int| 0 <= j < self.sheets@.len() implies (
        #[trigger] self.sheets@[j]).1.wf() by {
            if j != i {
                assert(self.sheets@[j] == o[j]);
            }
        }
        assert(self.sheets@[i].0 == o[i].0);
        assert(alist_has(self.sheets@, o[i].0)) by {
            assert(self.sheets@[i].0 == o[i].0);
        }
    }

    /// Adds a sheet with a fresh grid; nothing happens when the sheet
    /// already exists.
    pub fn add_sheet(&mut self, sheet: SheetId, row_count: u32, col_count: u32)
        requires
            old(self).wf(),
            row_count <= MAX_ROWS,
            col_count <= MAX_COLS,
        ensures
            final(self).wf(),
            alist_has(final(self).sheets@, sheet),
            alist_has(old(self).sheets@, sheet) ==> *final(self) == *old(self),
            !alist_has(old(self).sheets@, sheet) ==> {
                let d = alist_get(final(self).sheets@, sheet).data;
                &&& d.rows@.len() == row_count
                &&& d.cols@.len() == col_count
                &&& d.blocks@.len() == 0
                &&& (forall|i: int| 0 <= i < row_count ==> #[trigger] d.rows@[i] == i)
                &&& (forall|i: int| 0 <= i < col_count ==> #[trigger] d.cols@[i] == i)
            },
            forall|s: SheetId|
                s != sheet ==> #[trigger] alist_has(final(self).sheets@, s) == alist_has(
                    old(self).sheets@,
                    s,
                ) && (alist_has(old(self).sheets@, s) ==> alist_get(final(self).sheets@, s)
                    == alist_get(old(self).sheets@, s)),
    {
        match self.find_sheet(sheet) {
            Some(_) => {},
            None => {
                let sn = SheetNav::init(row_count, col_count);
                self.sheets.push((sheet, sn));
                proof {
                    lemma_alist_push(old(self).sheets@, sheet, sn);
                    assert forall|j: int| 0 <= j < self.sheets@.len() implies (
                    #[trigger] self.sheets@[j]).1.wf() by {
                        if j < self.sheets@.len() - 1 {
                            assert(self.sheets@[j] == old(self).sheets@[j]);
                        }
                    }
                }
            },
        }
    }
}

} // verus!
