//! The navigator: translation between positional coordinates and identity
//! coordinates for one sheet, transparently handling blocks.
//!
//! A sheet's `Data` is the ordered list of row ids, the ordered list of
//! column ids, and the placed blocks.  A `Cache` memoizes both directions of
//! the translation; every cache entry agrees with the data, so the cache can
//! be dropped and rebuilt at any point without loss of correctness.

use crate::base::{BlockCellId, BlockId, CellId, ColId, NormalCellId, RowId, SheetId};
use crate::container::{alist_distinct, alist_get, alist_has};
use vstd::prelude::*;

verus! {

/// A typed navigator lookup failure.
#[derive(Debug, Clone, Copy, PartialEq, Eq, Structural)]
pub enum NavError {
    CannotFetchRowIdx(SheetId, RowId),
    CannotFetchColIdx(SheetId, ColId),
    CannotGetBlockById(SheetId, BlockId),
    CannotFindIdxInBlock(SheetId, BlockId, RowId, ColId),
}

/// The largest grid a sheet can have: rows per sheet.
pub const MAX_ROWS: usize = 1048576;

/// The largest grid a sheet can have: columns per sheet.
pub const MAX_COLS: usize = 16384;

/// No element occurs twice.
pub open spec fn seq_distinct<T>(s: Seq<T>) -> bool {
    forall|i: int, j: int| 0 <= i < j < s.len() ==> s[i] != s[j]
}

/// An anchored rectangle with its own private row and column id sequences.
/// Its outer position is wherever its master cell currently resolves.
#[derive(Debug, Clone, PartialEq, Eq)]
pub struct BlockPlace {
    pub master: NormalCellId,
    pub rows: Vec<RowId>,
    pub cols: Vec<ColId>,
}

impl BlockPlace {
    pub open spec fn wf(self) -> bool {
        &&& seq_distinct(self.rows@)
        &&& seq_distinct(self.cols@)
        &&& self.rows@.len() <= MAX_ROWS
        &&& self.cols@.len() <= MAX_COLS
    }

    /// The inner ids at the given offsets from the master, if in range.
    pub open spec fn spec_inner_id(self, row_offset: int, col_offset: int) -> Option<
        (RowId, ColId),
    > {
        if 0 <= row_offset < self.rows@.len() && 0 <= col_offset < self.cols@.len() {
            Some((self.rows@[row_offset], self.cols@[col_offset]))
        } else {
            None
        }
    }

    /// The offsets of the inner ids inside the block, if present.
    pub open spec fn spec_inner_idx(self, row: RowId, col: ColId) -> Option<(int, int)> {
        if self.rows@.contains(row) && self.cols@.contains(col) {
            Some((self.rows@.index_of(row), self.cols@.index_of(col)))
        } else {
            None
        }
    }

    pub fn get_inner_id(&self, row_offset: usize, col_offset: usize) -> (r: Option<(RowId, ColId)>)
        ensures
            r == self.spec_inner_id(row_offset as int, col_offset as int),
    {
        if row_offset < self.rows.len() && col_offset < self.cols.len() {
            Some((self.rows[row_offset], self.cols[col_offset]))
        } else {
            None
        }
    }

    pub fn get_inner_idx(&self, row: RowId, col: ColId) -> (r: Option<(usize, usize)>)
        requires
            self.wf(),
        ensures
            match r {
                Some(p) => self.spec_inner_idx(row, col) == Some((p.0 as int, p.1 as int))
                    && p.0 < self.rows@.len() && p.1 < self.cols@.len(),
                None => self.spec_inner_idx(row, col) is None,
            },
    {
        let ri = find_pos(&self.rows, row);
        let ci = find_pos(&self.cols, col);
        match (ri, ci) {
            (Some(r0), Some(c0)) => Some((r0, c0)),
            _ => None,
        }
    }
}

/// Inserting a fresh element keeps a sequence duplicate-free.
pub proof fn lemma_distinct_insert(s: Seq<u32>, idx: int, x: u32)
    requires
        seq_distinct(s),
        0 <= idx <= s.len(),
        !s.contains(x),
    ensures
        seq_distinct(s.insert(idx, x)),
{
    let t = s.insert(idx, x);
    assert forall|a: int, b: int| 0 <= a < b < t.len() implies t[a] != t[b] by {
        assert(forall|j: int| 0 <= j < idx ==> t[j] == s[j]);
        assert(t[idx] == x);
        assert(forall|j: int| idx < j < t.len() ==> t[j] == s[j - 1]);
        if a == idx {
            if t[b] == x {
                assert(s[b - 1] == x);
                assert(s.contains(x));
            }
        } else if b == idx {
            if t[a] == x {
                assert(s[a] == x);
                assert(s.contains(x));
            }
        }
    }
}

/// Law: inserting a fresh row id at a display position moves every row at
/// or below that position down by exactly one and leaves the rows above in
/// place.  A formula reference carries the row's id, so its rendered
/// position reflects the shift while the stored reference is unchanged.
pub proof fn lemma_insert_row_shifts_index(rows: Seq<u32>, idx: int, fresh: u32, r: u32)
    requires
        seq_distinct(rows),
        0 <= idx <= rows.len(),
        !rows.contains(fresh),
        rows.contains(r),
    ensures
        rows.insert(idx, fresh).contains(r),
        rows.index_of(r) >= idx ==> rows.insert(idx, fresh).index_of(r) == rows.index_of(r) + 1,
        rows.index_of(r) < idx ==> rows.insert(idx, fresh).index_of(r) == rows.index_of(r),
{
    let s = rows.insert(idx, fresh);
    lemma_distinct_insert(rows, idx, fresh);
    let t = rows.index_of(r);
    assert(rows[t] == r);
    assert(forall|j: int| 0 <= j < idx ==> s[j] == rows[j]);
    assert(s[idx] == fresh);
    assert(forall|j: int| idx < j < s.len() ==> s[j] == rows[j - 1]);
    let t2: int = if t >= idx {
        t + 1
    } else {
        t
    };
    assert(s[t2] == r);
    assert(s.contains(r));
    let k = s.index_of(r);
    assert(s[k] == r);
    assert(k == t2);
}

/// Removing an element keeps a sequence duplicate-free.
pub proof fn lemma_distinct_remove(s: Seq<u32>, idx: int)
    requires
        seq_distinct(s),
        0 <= idx < s.len(),
    ensures
        seq_distinct(s.remove(idx)),
{
    let t = s.remove(idx);
    assert forall|a: int, b: int| 0 <= a < b < t.len() implies t[a] != t[b] by {
        assert(forall|j: int| 0 <= j < idx ==> t[j] == s[j]);
        assert(forall|j: int| idx <= j < t.len() ==> t[j] == s[j + 1]);
    }
}

impl BlockPlace {
    /// A fresh block anchored at the master, with inner id spaces
    /// `0..row_cnt` and `0..col_cnt`.
    pub fn init(master: NormalCellId, row_cnt: u32, col_cnt: u32) -> (r: Self)
        requires
            row_cnt <= MAX_ROWS,
            col_cnt <= MAX_COLS,
        ensures
            r.wf(),
            r.master == master,
            r.rows@.len() == row_cnt,
            r.cols@.len() == col_cnt,
            forall|i: int| 0 <= i < row_cnt ==> #[trigger] r.rows@[i] == i,
            forall|i: int| 0 <= i < col_cnt ==> #[trigger] r.cols@[i] == i,
    {
        let mut rows: Vec<RowId> = Vec::new();
        let mut i: u32 = 0;
        while i < row_cnt
            invariant
                i <= row_cnt,
                rows@.len() == i,
                forall|j: int| 0 <= j < i ==> #[trigger] rows@[j] == j,
            decreases row_cnt - i,
        {
            rows.push(i);
            i = i + 1;
        }
        let mut cols: Vec<ColId> = Vec::new();
        let mut j: u32 = 0;
        while j < col_cnt
            invariant
                j <= col_cnt,
                cols@.len() == j,
                forall|k: int| 0 <= k < j ==> #[trigger] cols@[k] == k,
            decreases col_cnt - j,
        {
            cols.push(j);
            j = j + 1;
        }
        BlockPlace { master, rows, cols }
    }
}

/// The position of the element in a duplicate-free vector.
pub fn find_pos(v: &Vec<u32>, x: u32) -> (r: Option<usize>)
    requires
        seq_distinct(v@),
    ensures
        match r {
            Some(i) => v@.contains(x) && i == v@.index_of(x) && i < v@.len(),
            None => !v@.contains(x),
        },
{
    let n = v.len();
    let mut i: usize = 0;
    while i < n
        invariant
            n == v@.len(),
            i <= n,
            seq_distinct(v@),
            forall|j: int| 0 <= j < i ==> v@[j] != x,
        decreases n - i,
    {
        if v[i] == x {
            proof {
                assert(v@.contains(x));
                let k = v@.index_of(x);
                assert(v@[k] == x);
                assert(k == i);
            }
            return Some(i);
        }
        i = i + 1;
    }
    None
}

/// The content of one sheet's navigation state: the row id at display
/// position `i` is `rows[i]`, and likewise for columns; blocks are listed in
/// insertion order.
#[derive(Debug, Clone, PartialEq, Eq)]
pub struct Data {
    pub rows: Vec<RowId>,
    pub cols: Vec<ColId>,
    pub blocks: Vec<(BlockId, BlockPlace)>,
}

impl Data {
    pub open spec fn wf(self) -> bool {
        &&& seq_distinct(self.rows@)
        &&& seq_distinct(self.cols@)
        &&& self.rows@.len() <= MAX_ROWS
        &&& self.cols@.len() <= MAX_COLS
        &&& alist_distinct(self.blocks@)
        &&& forall|i: int| 0 <= i < self.blocks@.len() ==> (#[trigger] self.blocks@[i]).1.wf()
    }
}

/// The row id and column id a normal cell resolves through: a follow-pinned
/// cell has no coordinate of its own and goes through the pinned id.
pub open spec fn effective_ids(c: NormalCellId) -> (RowId, ColId) {
    match c.follow_row {
        Some(fr) => (fr, c.col),
        None => match c.follow_col {
            Some(fc) => (c.row, fc),
            None => (c.row, c.col),
        },
    }
}

/// Where a normal cell currently sits, if its ids are present.
pub open spec fn spec_norm_cell_idx(data: Data, c: NormalCellId) -> Option<(int, int)> {
    let ids = effective_ids(c);
    if data.rows@.contains(ids.0) && data.cols@.contains(ids.1) {
        Some((data.rows@.index_of(ids.0), data.cols@.index_of(ids.1)))
    } else {
        None
    }
}

/// The error reported when a normal cell does not resolve.
pub open spec fn spec_norm_cell_err(data: Data, sheet: SheetId, c: NormalCellId) -> NavError {
    let ids = effective_ids(c);
    if !data.rows@.contains(ids.0) {
        NavError::CannotFetchRowIdx(sheet, ids.0)
    } else {
        NavError::CannotFetchColIdx(sheet, ids.1)
    }
}

/// Where a block cell currently sits: its block's master position plus its
/// inner offsets.
pub open spec fn spec_block_cell_idx(data: Data, b: BlockCellId) -> Option<(int, int)> {
    if alist_has(data.blocks@, b.block_id) {
        let bp = alist_get(data.blocks@, b.block_id);
        match spec_norm_cell_idx(data, bp.master) {
            Some(m) => match bp.spec_inner_idx(b.row, b.col) {
                Some(inner) => Some((m.0 + inner.0, m.1 + inner.1)),
                None => None,
            },
            None => None,
        }
    } else {
        None
    }
}

/// The error reported when a block cell does not resolve: the block itself,
/// then its master, then the inner ids, in the order the lookup checks them.
pub open spec fn spec_block_cell_err(data: Data, sheet: SheetId, b: BlockCellId) -> NavError {
    if !alist_has(data.blocks@, b.block_id) {
        NavError::CannotGetBlockById(sheet, b.block_id)
    } else if spec_norm_cell_idx(data, alist_get(data.blocks@, b.block_id).master) is None {
        spec_norm_cell_err(data, sheet, alist_get(data.blocks@, b.block_id).master)
    } else {
        NavError::CannotFindIdxInBlock(sheet, b.block_id, b.row, b.col)
    }
}

/// The error reported when a cell of either variant does not resolve.
pub open spec fn spec_cell_idx_err(data: Data, sheet: SheetId, id: CellId) -> NavError {
    match id {
        CellId::NormalCell(c) => spec_norm_cell_err(data, sheet, c),
        CellId::BlockCell(b) => spec_block_cell_err(data, sheet, b),
    }
}

/// Where a cell currently sits.
pub open spec fn spec_cell_idx(data: Data, id: CellId) -> Option<(int, int)> {
    match id {
        CellId::NormalCell(c) => spec_norm_cell_idx(data, c),
        CellId::BlockCell(b) => spec_block_cell_idx(data, b),
    }
}

/// Scanning the first `n` blocks for one covering the position.  The outer
/// `None` reports an unresolvable master; otherwise the inner option holds
/// the hit of the latest covering block, since a later block wins.
pub open spec fn spec_block_scan(data: Data, row: int, col: int, n: int) -> Option<
    Option<BlockCellId>,
>
    decreases n,
{
    if n <= 0 {
        Some(None)
    } else {
        match spec_block_scan(data, row, col, n - 1) {
            None => None,
            Some(prev) => {
                let bid = data.blocks@[n - 1].0;
                let bp = data.blocks@[n - 1].1;
                match spec_norm_cell_idx(data, bp.master) {
                    None => None,
                    Some(m) => match bp.spec_inner_id(row - m.0, col - m.1) {
                        Some(inner) => Some(
                            Some(BlockCellId { block_id: bid, row: inner.0, col: inner.1 }),
                        ),
                        None => Some(prev),
                    },
                }
            },
        }
    }
}

/// The cell identity at a position: the latest covering block's inner cell,
/// else the normal cell of the row and column ids there; `None` when some
/// block's master does not resolve or the position is off the grid.
pub open spec fn spec_cell_at(data: Data, row: int, col: int) -> Option<CellId> {
    match spec_block_scan(data, row, col, data.blocks@.len() as int) {
        None => None,
        Some(Some(b)) => Some(CellId::BlockCell(b)),
        Some(None) => {
            if 0 <= row < data.rows@.len() && 0 <= col < data.cols@.len() {
                Some(
                    CellId::NormalCell(
                        NormalCellId {
                            row: data.rows@[row],
                            col: data.cols@[col],
                            follow_row: None,
                            follow_col: None,
                        },
                    ),
                )
            } else {
                None
            }
        },
    }
}

/// The memoization of both directions of the translation.  Entries are only
/// ever appended after being computed from the data, so every entry agrees
/// with what the data says.
#[derive(Debug, Clone, PartialEq, Eq)]
pub struct Cache {
    pub row_id: Vec<(usize, RowId)>,
    pub row_index: Vec<(RowId, usize)>,
    pub col_id: Vec<(usize, ColId)>,
    pub col_index: Vec<(ColId, usize)>,
    pub cell_id: Vec<((usize, usize), CellId)>,
    pub cell_idx: Vec<(CellId, (usize, usize))>,
}

impl Cache {
    /// Every cache entry agrees with the data.
    pub open spec fn wf(self, data: Data) -> bool {
        &&& forall|e: int|
            0 <= e < self.row_id@.len() ==> {
                let p = #[trigger] self.row_id@[e];
                p.0 < data.rows@.len() && data.rows@[p.0 as int] == p.1
            }
        &&& forall|e: int|
            0 <= e < self.row_index@.len() ==> {
                let p = #[trigger] self.row_index@[e];
                p.1 < data.rows@.len() && data.rows@[p.1 as int] == p.0
            }
        &&& forall|e: int|
            0 <= e < self.col_id@.len() ==> {
                let p = #[trigger] self.col_id@[e];
                p.0 < data.cols@.len() && data.cols@[p.0 as int] == p.1
            }
        &&& forall|e: int|
            0 <= e < self.col_index@.len() ==> {
                let p = #[trigger] self.col_index@[e];
                p.1 < data.cols@.len() && data.cols@[p.1 as int] == p.0
            }
        &&& forall|e: int|
            0 <= e < self.cell_id@.len() ==> {
                let p = #[trigger] self.cell_id@[e];
                spec_cell_at(data, p.0.0 as int, p.0.1 as int) == Some(p.1)
            }
        &&& forall|e: int|
            0 <= e < self.cell_idx@.len() ==> {
                let p = #[trigger] self.cell_idx@[e];
                spec_cell_idx(data, p.0) == Some((p.1.0 as int, p.1.1 as int))
            }
    }

    pub fn new() -> (r: Self)
        ensures
            forall|data: Data| r.wf(data),
            r.row_id@.len() == 0,
            r.row_index@.len() == 0,
            r.col_id@.len() == 0,
            r.col_index@.len() == 0,
            r.cell_id@.len() == 0,
            r.cell_idx@.len() == 0,
    {
        Cache {
            row_id: Vec::new(),
            row_index: Vec::new(),
            col_id: Vec::new(),
            col_index: Vec::new(),
            cell_id: Vec::new(),
            cell_idx: Vec::new(),
        }
    }
}

/// A cached entry holding the wanted key, if the scan finds one.
fn cache_lookup_pos_id(v: &Vec<(usize, u32)>, k: usize) -> (r: Option<u32>)
    ensures
        match r {
            Some(x) => exists|e: int| 0 <= e < v@.len() && v@[e] == (k, x),
            None => true,
        },
{
    let n = v.len();
    let mut i: usize = 0;
    while i < n
        invariant
            n == v@.len(),
            i <= n,
        decreases n - i,
    {
        if v[i].0 == k {
            let x = v[i].1;
            proof {
                assert(v@[i as int] == (k, x));
            }
            return Some(x);
        }
        i = i + 1;
    }
    None
}

/// A cached entry holding the wanted key, if the scan finds one.
fn cache_lookup_id_pos(v: &Vec<(u32, usize)>, k: u32) -> (r: Option<usize>)
    ensures
        match r {
            Some(x) => exists|e: int| 0 <= e < v@.len() && v@[e] == (k, x),
            None => true,
        },
{
    let n = v.len();
    let mut i: usize = 0;
    while i < n
        invariant
            n == v@.len(),
            i <= n,
        decreases n - i,
    {
        if v[i].0 == k {
            let x = v[i].1;
            proof {
                assert(v@[i as int] == (k, x));
            }
            return Some(x);
        }
        i = i + 1;
    }
    None
}

/// A cached entry holding the wanted position, if the scan finds one.
fn cache_lookup_cell_id(v: &Vec<((usize, usize), CellId)>, rk: usize, ck: usize) -> (r: Option<
    CellId,
>)
    ensures
        match r {
            Some(x) => exists|e: int| 0 <= e < v@.len() && v@[e] == ((rk, ck), x),
            None => true,
        },
{
    let n = v.len();
    let mut i: usize = 0;
    while i < n
        invariant
            n == v@.len(),
            i <= n,
        decreases n - i,
    {
        if v[i].0.0 == rk && v[i].0.1 == ck {
            let x = v[i].1;
            proof {
                assert(v@[i as int] == ((rk, ck), x));
            }
            return Some(x);
        }
        i = i + 1;
    }
    None
}

/// A cached entry holding the wanted cell, if the scan finds one.
fn cache_lookup_cell_idx(v: &Vec<(CellId, (usize, usize))>, k: &CellId) -> (r: Option<
    (usize, usize),
>)
    ensures
        match r {
            Some(x) => exists|e: int| 0 <= e < v@.len() && v@[e] == (*k, x),
            None => true,
        },
{
    let n = v.len();
    let mut i: usize = 0;
    while i < n
        invariant
            n == v@.len(),
            i <= n,
        decreases n - i,
    {
        if v[i].0 == *k {
            let x = v[i].1;
            proof {
                assert(v@[i as int] == (*k, x));
            }
            return Some(x);
        }
        i = i + 1;
    }
    None
}

/// Once the scan of a block prefix fails on an unresolvable master, every
/// longer scan fails too.
pub proof fn lemma_scan_none_persists(data: Data, row: int, col: int, m: int, n: int)
    requires
        0 <= m <= n,
        spec_block_scan(data, row, col, m) is None,
    ensures
        spec_block_scan(data, row, col, n) is None,
    decreases n - m,
{
    if n > m {
        lemma_scan_none_persists(data, row, col, m, n - 1);
    }
}

/// The block at index `k` covers the position and yields the hit `b`.
pub open spec fn scan_hit_at(data: Data, row: int, col: int, k: int, b: BlockCellId) -> bool {
    &&& 0 <= k < data.blocks@.len()
    &&& data.blocks@[k].0 == b.block_id
    &&& match spec_norm_cell_idx(data, data.blocks@[k].1.master) {
        Some(m) => data.blocks@[k].1.spec_inner_id(row - m.0, col - m.1) == Some((b.row, b.col)),
        None => false,
    }
}

/// A successful scan hit comes from an actual covering block.
pub proof fn lemma_scan_hit_origin(data: Data, row: int, col: int, n: int, b: BlockCellId)
    requires
        0 <= n <= data.blocks@.len(),
        spec_block_scan(data, row, col, n) == Some(Some(b)),
    ensures
        exists|k: int| #[trigger] scan_hit_at(data, row, col, k, b) && k < n,
    decreases n,
{
    let prev = spec_block_scan(data, row, col, n - 1);
    if spec_block_scan(data, row, col, n - 1) == Some(Some(b)) && spec_block_scan(
        data,
        row,
        col,
        n,
    ) == spec_block_scan(data, row, col, n - 1) {
        lemma_scan_hit_origin(data, row, col, n - 1, b);
        let k = choose|k: int| #[trigger] scan_hit_at(data, row, col, k, b) && k < n - 1;
        assert(scan_hit_at(data, row, col, k, b) && k < n);
    } else {
        match spec_norm_cell_idx(data, data.blocks@[n - 1].1.master) {
            Some(m) => {
                match data.blocks@[n - 1].1.spec_inner_id(row - m.0, col - m.1) {
                    Some(inner) => {
                        assert(scan_hit_at(data, row, col, n - 1, b));
                    },
                    None => {
                        lemma_scan_hit_origin(data, row, col, n - 1, b);
                        let k = choose|k: int|
                            #[trigger] scan_hit_at(data, row, col, k, b) && k < n - 1;
                        assert(scan_hit_at(data, row, col, k, b) && k < n);
                    },
                }
            },
            None => {
                assert(false);
            },
        }
    }
}

/// In a duplicate-free sequence, the position of any element's value is that
/// very position.
pub proof fn lemma_index_of_distinct(s: Seq<u32>, i: int)
    requires
        seq_distinct(s),
        0 <= i < s.len(),
    ensures
        s.contains(s[i]),
        s.index_of(s[i]) == i,
{
    assert(s.contains(s[i]));
    let k = s.index_of(s[i]);
    assert(s[k] == s[i]);
    assert(k == i);
}

/// Law: the row id found at a display position resolves back to that very
/// position, and likewise for columns.
pub proof fn lemma_row_col_index_roundtrip(data: Data, row: int, col: int)
    requires
        data.wf(),
        0 <= row < data.rows@.len(),
        0 <= col < data.cols@.len(),
    ensures
        data.rows@.contains(data.rows@[row]),
        data.rows@.index_of(data.rows@[row]) == row,
        data.cols@.contains(data.cols@[col]),
        data.cols@.index_of(data.cols@[col]) == col,
{
    lemma_index_of_distinct(data.rows@, row);
    lemma_index_of_distinct(data.cols@, col);
}

/// Law: the cell identity found at a position resolves back to that very
/// position, whether it is a block cell or a normal cell.
pub proof fn lemma_cell_index_roundtrip(data: Data, row: int, col: int)
    requires
        data.wf(),
        0 <= row < data.rows@.len(),
        0 <= col < data.cols@.len(),
        spec_cell_at(data, row, col) is Some,
    ensures
        spec_cell_idx(data, spec_cell_at(data, row, col).unwrap()) == Some((row, col)),
{
    let n = data.blocks@.len() as int;
    match spec_block_scan(data, row, col, n) {
        None => {
            assert(false);
        },
        Some(None) => {
            let id = NormalCellId {
                row: data.rows@[row],
                col: data.cols@[col],
                follow_row: None,
                follow_col: None,
            };
            assert(effective_ids(id) == (data.rows@[row], data.cols@[col]));
            lemma_row_col_index_roundtrip(data, row, col);
        },
        Some(Some(b)) => {
            lemma_scan_hit_origin(data, row, col, n, b);
            let k = choose|k: int| #[trigger] scan_hit_at(data, row, col, k, b) && k < n;
            let bid = data.blocks@[k].0;
            let bp = data.blocks@[k].1;
            assert(alist_has(data.blocks@, b.block_id));
            assert(alist_get(data.blocks@, b.block_id) == bp) by {
                let j = choose|j: int|
                    0 <= j < data.blocks@.len() && data.blocks@[j].0 == b.block_id;
                assert(j == k);
            }
            let m = spec_norm_cell_idx(data, bp.master).unwrap();
            assert(bp.spec_inner_id(row - m.0, col - m.1) == Some((b.row, b.col)));
            assert(bp.rows@[row - m.0] == b.row);
            assert(bp.cols@[col - m.1] == b.col);
            lemma_index_of_distinct(bp.rows@, row - m.0);
            lemma_index_of_distinct(bp.cols@, col - m.1);
            assert(bp.spec_inner_idx(b.row, b.col) == Some((row - m.0, col - m.1)));
        },
    }
}

/// Positional lookups for one sheet, reading the sheet's data and writing
/// through the cache.
pub struct Fetcher<'a> {
    pub sheet_id: SheetId,
    pub data: &'a Data,
}

impl<'a> Fetcher<'a> {
    pub fn from(data: &'a Data, sheet_id: SheetId) -> (r: Self)
        ensures
            r.data == data,
            r.sheet_id == sheet_id,
    {
        Fetcher { data, sheet_id }
    }

    /// The row id at a display position.
    pub fn get_row_id(&self, cache: &mut Cache, row: usize) -> (r: RowId)
        requires
            old(cache).wf(*self.data),
            row < self.data.rows@.len(),
        ensures
            final(cache).wf(*self.data),
            r == self.data.rows@[row as int],
    {
        match cache_lookup_pos_id(&cache.row_id, row) {
            Some(x) => x,
            None => {
                let result = self.data.rows[row];
                cache.row_id.push((row, result));
                cache.row_index.push((result, row));
                result
            },
        }
    }

    /// The display position of a row id, or a typed failure when the id is
    /// not on this sheet.
    pub fn get_row_idx(&self, cache: &mut Cache, row: RowId) -> (r: Result<usize, NavError>)
        requires
            old(cache).wf(*self.data),
            self.data.wf(),
        ensures
            final(cache).wf(*self.data),
            match r {
                Ok(i) => self.data.rows@.contains(row) && i == self.data.rows@.index_of(row)
                    && i < self.data.rows@.len(),
                Err(e) => !self.data.rows@.contains(row) && e == NavError::CannotFetchRowIdx(
                    self.sheet_id,
                    row,
                ),
            },
    {
        match cache_lookup_id_pos(&cache.row_index, row) {
            Some(i) => {
                proof {
                    let e = choose|e: int|
                        0 <= e < cache.row_index@.len() && cache.row_index@[e] == (row, i);
                    assert(self.data.rows@[i as int] == row);
                    assert(self.data.rows@.contains(row));
                    let k = self.data.rows@.index_of(row);
                    assert(self.data.rows@[k] == row);
                    assert(k == i);
                }
                Ok(i)
            },
            None => {
                match find_pos(&self.data.rows, row) {
                    Some(i) => {
                        cache.row_index.push((row, i));
                        cache.row_id.push((i, row));
                        Ok(i)
                    },
                    None => Err(NavError::CannotFetchRowIdx(self.sheet_id, row)),
                }
            },
        }
    }

    /// The column id at a display position.
    pub fn get_col_id(&self, cache: &mut Cache, col: usize) -> (r: ColId)
        requires
            old(cache).wf(*self.data),
            col < self.data.cols@.len(),
        ensures
            final(cache).wf(*self.data),
            r == self.data.cols@[col as int],
    {
        match cache_lookup_pos_id(&cache.col_id, col) {
            Some(x) => x,
            None => {
                let result = self.data.cols[col];
                cache.col_id.push((col, result));
                cache.col_index.push((result, col));
                result
            },
        }
    }

    /// The display position of a column id, or a typed failure when the id
    /// is not on this sheet.
    pub fn get_col_idx(&self, cache: &mut Cache, col: ColId) -> (r: Result<usize, NavError>)
        requires
            old(cache).wf(*self.data),
            self.data.wf(),
        ensures
            final(cache).wf(*self.data),
            match r {
                Ok(i) => self.data.cols@.contains(col) && i == self.data.cols@.index_of(col)
                    && i < self.data.cols@.len(),
                Err(e) => !self.data.cols@.contains(col) && e == NavError::CannotFetchColIdx(
                    self.sheet_id,
                    col,
                ),
            },
    {
        match cache_lookup_id_pos(&cache.col_index, col) {
            Some(i) => {
                proof {
                    let e = choose|e: int|
                        0 <= e < cache.col_index@.len() && cache.col_index@[e] == (col, i);
                    assert(self.data.cols@[i as int] == col);
                    assert(self.data.cols@.contains(col));
                    let k = self.data.cols@.index_of(col);
                    assert(self.data.cols@[k] == col);
                    assert(k == i);
                }
                Ok(i)
            },
            None => {
                match find_pos(&self.data.cols, col) {
                    Some(i) => {
                        cache.col_index.push((col, i));
                        cache.col_id.push((i, col));
                        Ok(i)
                    },
                    None => Err(NavError::CannotFetchColIdx(self.sheet_id, col)),
                }
            },
        }
    }

    /// The plain normal cell identity at a position.
    pub fn get_norm_cell_id(&self, cache: &mut Cache, row: usize, col: usize) -> (r: NormalCellId)
        requires
            old(cache).wf(*self.data),
            row < self.data.rows@.len(),
            col < self.data.cols@.len(),
        ensures
            final(cache).wf(*self.data),
            r == (NormalCellId {
                row: self.data.rows@[row as int],
                col: self.data.cols@[col as int],
                follow_row: None,
                follow_col: None,
            }),
    {
        let row_id = self.get_row_id(cache, row);
        let col_id = self.get_col_id(cache, col);
        NormalCellId { row: row_id, col: col_id, follow_row: None, follow_col: None }
    }

    /// Where a normal cell currently sits, resolving follow pins through the
    /// followed id.
    pub fn get_norm_cell_idx(&self, cache: &mut Cache, cell_id: &NormalCellId) -> (r: Result<
        (usize, usize),
        NavError,
    >)
        requires
            old(cache).wf(*self.data),
            self.data.wf(),
        ensures
            final(cache).wf(*self.data),
            match r {
                Ok(p) => spec_norm_cell_idx(*self.data, *cell_id) == Some(
                    (p.0 as int, p.1 as int),
                ) && p.0 < self.data.rows@.len() && p.1 < self.data.cols@.len(),
                Err(e) => spec_norm_cell_idx(*self.data, *cell_id) is None && e
                    == spec_norm_cell_err(*self.data, self.sheet_id, *cell_id),
            },
    {
        let (row_id, col_id) = {
            if let Some(fr) = cell_id.follow_row {
                (fr, cell_id.col)
            } else if let Some(fc) = cell_id.follow_col {
                (cell_id.row, fc)
            } else {
                (cell_id.row, cell_id.col)
            }
        };
        let row_idx = match self.get_row_idx(cache, row_id) {
            Ok(i) => i,
            Err(e) => {
                return Err(e);
            },
        };
        match self.get_col_idx(cache, col_id) {
            Ok(col_idx) => Ok((row_idx, col_idx)),
            Err(e) => Err(e),
        }
    }

    /// Where a block cell currently sits: its block's master position plus
    /// its inner offsets, each failure reported as the typed error naming
    /// what was missing.
    pub fn get_block_cell_idx(&self, cache: &mut Cache, block_cell_id: &BlockCellId) -> (r: Result<
        (usize, usize),
        NavError,
    >)
        requires
            old(cache).wf(*self.data),
            self.data.wf(),
        ensures
            final(cache).wf(*self.data),
            match r {
                Ok(p) => spec_block_cell_idx(*self.data, *block_cell_id) == Some(
                    (p.0 as int, p.1 as int),
                ),
                Err(e) => spec_block_cell_idx(*self.data, *block_cell_id) is None && e
                    == spec_block_cell_err(*self.data, self.sheet_id, *block_cell_id),
            },
    {
        let bid = block_cell_id.block_id;
        let bp = match self.find_block(bid) {
            Some(bp) => bp,
            None => {
                return Err(NavError::CannotGetBlockById(self.sheet_id, bid));
            },
        };
        let m = match self.get_norm_cell_idx(cache, &bp.master) {
            Ok(m) => m,
            Err(e) => {
                return Err(e);
            },
        };
        match bp.get_inner_idx(block_cell_id.row, block_cell_id.col) {
            Some(inner) => Ok((inner.0 + m.0, inner.1 + m.1)),
            None => Err(
                NavError::CannotFindIdxInBlock(
                    self.sheet_id,
                    bid,
                    block_cell_id.row,
                    block_cell_id.col,
                ),
            ),
        }
    }

    /// The block placement stored under the id, if any.
    pub fn find_block(&self, bid: BlockId) -> (r: Option<&'a BlockPlace>)
        requires
            self.data.wf(),
        ensures
            match r {
                Some(bp) => alist_has(self.data.blocks@, bid) && *bp == alist_get(
                    self.data.blocks@,
                    bid,
                ) && bp.wf(),
                None => !alist_has(self.data.blocks@, bid),
            },
    {
        let n = self.data.blocks.len();
        let mut i: usize = 0;
        while i < n
            invariant
                n == self.data.blocks@.len(),
                i <= n,
                self.data.wf(),
                forall|j: int| 0 <= j < i ==> self.data.blocks@[j].0 != bid,
            decreases n - i,
        {
            if self.data.blocks[i].0 == bid {
                proof {
                    assert(alist_has(self.data.blocks@, bid));
                    let j = choose|j: int|
                        0 <= j < self.data.blocks@.len() && self.data.blocks@[j].0 == bid;
                    assert(j == i);
                }
                return Some(&self.data.blocks[i].1);
            }
            i = i + 1;
        }
        None
    }

    /// Where a cell currently sits, whichever variant it is.
    pub fn get_cell_idx(&self, cache: &mut Cache, cell_id: &CellId) -> (r: Result<
        (usize, usize),
        NavError,
    >)
        requires
            old(cache).wf(*self.data),
            self.data.wf(),
        ensures
            final(cache).wf(*self.data),
            match r {
                Ok(p) => spec_cell_idx(*self.data, *cell_id) == Some((p.0 as int, p.1 as int)),
                Err(e) => spec_cell_idx(*self.data, *cell_id) is None && e == spec_cell_idx_err(
                    *self.data,
                    self.sheet_id,
                    *cell_id,
                ),
            },
    {
        match cache_lookup_cell_idx(&cache.cell_idx, cell_id) {
            Some(p) => {
                proof {
                    let e = choose|e: int|
                        0 <= e < cache.cell_idx@.len() && cache.cell_idx@[e] == (*cell_id, p);
                }
                return Ok(p);
            },
            None => {},
        }
        let res = match cell_id {
            CellId::NormalCell(c) => self.get_norm_cell_idx(cache, c),
            CellId::BlockCell(b) => self.get_block_cell_idx(cache, b),
        };
        match res {
            Ok(p) => {
                cache.cell_idx.push((*cell_id, p));
                Ok(p)
            },
            Err(e) => Err(e),
        }
    }

    /// The cell identity at a position: the latest covering block wins, and
    /// a position outside every block is the normal cell there.
    pub fn get_cell_id(&self, cache: &mut Cache, row: usize, col: usize) -> (r: Result<
        CellId,
        NavError,
    >)
        requires
            old(cache).wf(*self.data),
            self.data.wf(),
            row < self.data.rows@.len(),
            col < self.data.cols@.len(),
        ensures
            final(cache).wf(*self.data),
            match r {
                Ok(cid) => spec_cell_at(*self.data, row as int, col as int) == Some(cid),
                Err(e) => spec_cell_at(*self.data, row as int, col as int) is None,
            },
    {
        match cache_lookup_cell_id(&cache.cell_id, row, col) {
            Some(cid) => {
                proof {
                    let e = choose|e: int|
                        0 <= e < cache.cell_id@.len() && cache.cell_id@[e] == ((row, col), cid);
                }
                return Ok(cid);
            },
            None => {},
        }
        let mut res: Option<BlockCellId> = None;
        let nblocks = self.data.blocks.len();
        let mut i: usize = 0;
        while i < nblocks
            invariant
                nblocks == self.data.blocks@.len(),
                i <= nblocks,
                self.data.wf(),
                row < self.data.rows@.len(),
                col < self.data.cols@.len(),
                cache.wf(*self.data),
                spec_block_scan(*self.data, row as int, col as int, i as int) == Some(res),
            decreases nblocks - i,
        {
            let bid = self.data.blocks[i].0;
            let bp = &self.data.blocks[i].1;
            match self.get_norm_cell_idx(cache, &bp.master) {
                Ok(m) => {
                    if row >= m.0 && col >= m.1 {
                        match bp.get_inner_id(row - m.0, col - m.1) {
                            Some(inner) => {
                                res = Some(
                                    BlockCellId { block_id: bid, row: inner.0, col: inner.1 },
                                );
                            },
                            None => {},
                        }
                    }
                },
                Err(e) => {
                    proof {
                        assert(spec_block_scan(
                            *self.data,
                            row as int,
                            col as int,
                            i + 1,
                        ) is None);
                        lemma_scan_none_persists(
                            *self.data,
                            row as int,
                            col as int,
                            i + 1,
                            nblocks as int,
                        );
                    }
                    return Err(e);
                },
            }
            i = i + 1;
        }
        let cid = match res {
            Some(b) => CellId::BlockCell(b),
            None => CellId::NormalCell(self.get_norm_cell_id(cache, row, col)),
        };
        cache.cell_id.push(((row, col), cid));
        Ok(cid)
    }
}

} // verus!
