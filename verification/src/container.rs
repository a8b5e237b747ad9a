//! Per-sheet storage of cell values, row metadata and column metadata.
//!
//! An absent cell is semantically blank with the default style.  Updates
//! produce a new container value; the top-level map over sheets is a
//! persistent trie so that snapshots share structure.

use crate::base::{CellId, ColId, RowId, SheetId, StyleId};
use crate::cell_value::CellValue;
use crate::persist;
use vstd::prelude::*;

verus! {

#[derive(Debug, Clone, PartialEq, Eq)]
pub struct Cell {
    pub value: CellValue,
    pub style: StyleId,
}

#[derive(Debug, Clone, Copy, PartialEq, Eq, Structural)]
pub struct RowInfo {
    pub style: StyleId,
    pub height: u32,
}

#[derive(Debug, Clone, Copy, PartialEq, Eq, Structural)]
pub struct ColInfo {
    pub style: StyleId,
    pub width: u32,
}

/// Whether an association list binds the key.
pub open spec fn alist_has<K, V>(s: Seq<(K, V)>, k: K) -> bool {
    exists|i: int| 0 <= i < s.len() && s[i].0 == k
}

/// The value an association list binds to the key (unique when keys are
/// distinct).
pub open spec fn alist_get<K, V>(s: Seq<(K, V)>, k: K) -> V {
    s[choose|i: int| 0 <= i < s.len() && s[i].0 == k].1
}

/// All keys of the association list are distinct.
pub open spec fn alist_distinct<K, V>(s: Seq<(K, V)>) -> bool {
    forall|i: int, j: int| 0 <= i < j < s.len() ==> s[i].0 != s[j].0
}

/// Two association lists whose entries carry the same keys positionwise bind
/// the same key sets.
pub proof fn lemma_alist_same_keys<K, V>(s: Seq<(K, V)>, o: Seq<(K, V)>)
    requires
        s.len() == o.len(),
        forall|j: int| 0 <= j < s.len() ==> (#[trigger] s[j]).0 == o[j].0,
    ensures
        forall|k: K| #[trigger] alist_has(s, k) == alist_has(o, k),
        alist_distinct(o) ==> alist_distinct(s),
{
    if alist_distinct(o) {
        assert forall|a: int, b: int| 0 <= a < b < s.len() implies s[a].0 != s[b].0 by {
            assert(s[a].0 == o[a].0);
            assert(s[b].0 == o[b].0);
        }
    }
    assert forall|k: K| #[trigger] alist_has(s, k) == alist_has(o, k) by {
        if alist_has(s, k) {
            let j = choose|j: int| 0 <= j < s.len() && s[j].0 == k;
            assert(o[j].0 == k);
        }
        if alist_has(o, k) {
            let j = choose|j: int| 0 <= j < o.len() && o[j].0 == k;
            assert(s[j].0 == k);
        }
    }
}

/// Appending an element adds exactly it to the members.
pub proof fn lemma_push_contains<T>(s: Seq<T>, v: T)
    ensures
        s.push(v).contains(v),
        forall|x: T| x != v ==> #[trigger] s.push(v).contains(x) == s.contains(x),
{
    assert(s.push(v)[s.len() as int] == v);
    assert forall|x: T| x != v implies #[trigger] s.push(v).contains(x) == s.contains(x) by {
        if s.push(v).contains(x) {
            let j = choose|j: int| 0 <= j < s.push(v).len() && s.push(v)[j] == x;
            assert(s[j] == x);
        }
        if s.contains(x) {
            let j = choose|j: int| 0 <= j < s.len() && s[j] == x;
            assert(s.push(v)[j] == x);
        }
    }
}

/// Appending a fresh key binds it and leaves every other binding alone.
pub proof fn lemma_alist_push<K, V>(o: Seq<(K, V)>, k: K, v: V)
    requires
        alist_distinct(o),
        !alist_has(o, k),
    ensures
        alist_distinct(o.push((k, v))),
        alist_has(o.push((k, v)), k),
        alist_get(o.push((k, v)), k) == v,
        forall|k2: K| k2 != k ==> #[trigger] alist_has(o.push((k, v)), k2) == alist_has(o, k2),
        forall|k2: K|
            k2 != k && alist_has(o, k2) ==> #[trigger] alist_get(o.push((k, v)), k2) == alist_get(
                o,
                k2,
            ),
{
    let s = o.push((k, v));
    assert(s[s.len() - 1].0 == k);
    assert(forall|j: int| 0 <= j < o.len() ==> s[j] == o[j]);
    assert forall|a: int, b: int| 0 <= a < b < s.len() implies s[a].0 != s[b].0 by {
        if b == s.len() - 1 {
            assert(o[a].0 != k);
        } else {
            assert(s[a] == o[a] && s[b] == o[b]);
        }
    }
    assert(alist_has(s, k));
    assert(alist_get(s, k) == v) by {
        let j = choose|j: int| 0 <= j < s.len() && s[j].0 == k;
        assert(forall|j2: int| 0 <= j2 < o.len() ==> o[j2].0 != k);
        assert(j == s.len() - 1);
    }
    assert forall|k2: K| k2 != k implies #[trigger] alist_has(s, k2) == alist_has(o, k2) by {
        if alist_has(s, k2) {
            let j = choose|j: int| 0 <= j < s.len() && s[j].0 == k2;
            assert(j < s.len() - 1);
            assert(o[j].0 == k2);
        }
        if alist_has(o, k2) {
            let j = choose|j: int| 0 <= j < o.len() && o[j].0 == k2;
            assert(s[j].0 == k2);
        }
    }
    assert forall|k2: K| k2 != k && alist_has(o, k2) implies #[trigger] alist_get(s, k2)
        == alist_get(o, k2) by {
        assert(alist_has(s, k2));
        let j1 = choose|j: int| 0 <= j < s.len() && s[j].0 == k2;
        let j2 = choose|j: int| 0 <= j < o.len() && o[j].0 == k2;
        assert(j1 < s.len() - 1);
        assert(o[j1].0 == k2);
        assert(j1 == j2);
        assert(s[j1] == o[j1]);
    }
}

/// Replacing the value at one position rebinds that key and leaves every
/// other binding alone.
pub proof fn lemma_alist_update<K, V>(o: Seq<(K, V)>, i: int, v: V)
    requires
        alist_distinct(o),
        0 <= i < o.len(),
    ensures
        alist_distinct(o.update(i, (o[i].0, v))),
        alist_has(o.update(i, (o[i].0, v)), o[i].0),
        alist_get(o.update(i, (o[i].0, v)), o[i].0) == v,
        forall|k2: K| #[trigger] alist_has(o.update(i, (o[i].0, v)), k2) == alist_has(o, k2),
        forall|k2: K|
            k2 != o[i].0 && alist_has(o, k2) ==> #[trigger] alist_get(o.update(i, (o[i].0, v)), k2)
                == alist_get(o, k2),
{
    let s = o.update(i, (o[i].0, v));
    let k = o[i].0;
    assert forall|j: int| 0 <= j < s.len() implies (#[trigger] s[j]).0 == o[j].0 by {
        if j != i {
            assert(s[j] == o[j]);
        }
    }
    lemma_alist_same_keys(s, o);
    assert(s[i].0 == k);
    assert(alist_has(s, k));
    assert(alist_get(s, k) == v) by {
        let j = choose|j: int| 0 <= j < s.len() && s[j].0 == k;
        assert(o[j].0 == k);
        assert(j == i);
    }
    assert forall|k2: K| k2 != k && alist_has(o, k2) implies #[trigger] alist_get(s, k2)
        == alist_get(o, k2) by {
        assert(alist_has(s, k2));
        let j1 = choose|j: int| 0 <= j < s.len() && s[j].0 == k2;
        let j2 = choose|j: int| 0 <= j < o.len() && o[j].0 == k2;
        assert(o[j1].0 == k2);
        assert(j1 == j2);
        assert(j1 != i);
        assert(s[j1] == o[j1]);
    }
}

/// The contents of one sheet.
#[derive(Debug, Clone, PartialEq, Eq)]
pub struct SheetDataContainer {
    pub cells: Vec<(CellId, Cell)>,
    pub row_info: Vec<(RowId, RowInfo)>,
    pub col_info: Vec<(ColId, ColInfo)>,
}

impl SheetDataContainer {
    pub open spec fn wf(self) -> bool {
        &&& alist_distinct(self.cells@)
        &&& alist_distinct(self.row_info@)
        &&& alist_distinct(self.col_info@)
    }

    pub fn new() -> (r: Self)
        ensures
            r.wf(),
            r.cells@.len() == 0,
            r.row_info@.len() == 0,
            r.col_info@.len() == 0,
    {
        SheetDataContainer { cells: Vec::new(), row_info: Vec::new(), col_info: Vec::new() }
    }

    pub fn get_cell<'a>(&'a self, cell_id: &CellId) -> (r: Option<&'a Cell>)
        requires
            self.wf(),
        ensures
            match r {
                Some(c) => alist_has(self.cells@, *cell_id) && *c == alist_get(
                    self.cells@,
                    *cell_id,
                ),
                None => !alist_has(self.cells@, *cell_id),
            },
    {
        let n = self.cells.len();
        let mut i: usize = 0;
        while i < n
            invariant
                n == self.cells@.len(),
                i <= n,
                self.wf(),
                forall|j: int| 0 <= j < i ==> self.cells@[j].0 != *cell_id,
            decreases n - i,
        {
            if self.cells[i].0 == *cell_id {
                return Some(&self.cells[i].1);
            }
            i = i + 1;
        }
        None
    }

    pub fn set_cell(&mut self, cell_id: CellId, cell: Cell)
        requires
            old(self).wf(),
        ensures
            final(self).wf(),
            alist_has(final(self).cells@, cell_id),
            alist_get(final(self).cells@, cell_id) == cell,
            forall|k: CellId|
                k != cell_id ==> (#[trigger] alist_has(final(self).cells@, k) == alist_has(
                    old(self).cells@,
                    k,
                ) && (alist_has(old(self).cells@, k) ==> alist_get(final(self).cells@, k)
                    == alist_get(old(self).cells@, k))),
            final(self).row_info == old(self).row_info,
            final(self).col_info == old(self).col_info,
    {
        let n = self.cells.len();
        let mut i: usize = 0;
        while i < n
            invariant
                n == self.cells@.len(),
                i <= n,
                self == old(self),
                old(self).wf(),
                forall|j: int| 0 <= j < i ==> self.cells@[j].0 != cell_id,
            decreases n - i,
        {
            if self.cells[i].0 == cell_id {
                let old_pair = &self.cells[i];
                let key = old_pair.0;
                self.cells.set(i, (key, cell));
                proof {
                    let s = self.cells@;
                    let o = old(self).cells@;
                    assert forall|j: int| 0 <= j < s.len() implies (#[trigger] s[j]).0
                        == o[j].0 by {
                        if j != i {
                            assert(s[j] == o[j]);
                        }
                    }
                    lemma_alist_same_keys(s, o);
                    assert(s[i as int].0 == cell_id);
                    assert(alist_has(s, cell_id));
                    assert(alist_get(s, cell_id) == cell) by {
                        let j = choose|j: int| 0 <= j < s.len() && s[j].0 == cell_id;
                        assert(o[j].0 == cell_id);
                        assert(o[i as int].0 == cell_id);
                        assert(j == i);
                        assert(s[j].1 == cell);
                    }
                    assert forall|k: CellId|
                        k != cell_id && alist_has(o, k) implies #[trigger] alist_get(s, k)
                        == alist_get(o, k) by {
                        assert(alist_has(s, k));
                        let j1 = choose|j: int| 0 <= j < s.len() && s[j].0 == k;
                        let j2 = choose|j: int| 0 <= j < o.len() && o[j].0 == k;
                        assert(o[j1].0 == k);
                        assert(j1 == j2);
                        assert(o[i as int].0 == cell_id);
                        assert(j1 != i);
                        assert(s[j1] == o[j1]);
                    }
                }
                return ;
            }
            i = i + 1;
        }
        self.cells.push((cell_id, cell));
        proof {
            let s = self.cells@;
            let o = old(self).cells@;
            assert(s[s.len() - 1].0 == cell_id);
            assert(forall|j: int| 0 <= j < o.len() ==> s[j] == o[j]);
            assert forall|a: int, b: int| 0 <= a < b < s.len() implies s[a].0 != s[b].0 by {
                if b == s.len() - 1 {
                    assert(o[a].0 != cell_id);
                } else {
                    assert(s[a].0 == o[a].0 && s[b].0 == o[b].0);
                }
            }
            assert forall|k: CellId| k != cell_id implies #[trigger] alist_has(s, k) == alist_has(
                o,
                k,
            ) by {
                if alist_has(s, k) {
                    let j = choose|j: int| 0 <= j < s.len() && s[j].0 == k;
                    assert(j < s.len() - 1);
                    assert(o[j].0 == k);
                }
                if alist_has(o, k) {
                    let j = choose|j: int| 0 <= j < o.len() && o[j].0 == k;
                    assert(s[j].0 == k);
                }
            }
            assert(alist_get(s, cell_id) == cell) by {
                let j = choose|j: int| 0 <= j < s.len() && s[j].0 == cell_id;
                assert(forall|j2: int| 0 <= j2 < o.len() ==> o[j2].0 != cell_id);
                assert(j == s.len() - 1);
            }
            assert forall|k: CellId| k != cell_id && alist_has(o, k) implies #[trigger] alist_get(
                s,
                k,
            ) == alist_get(o, k) by {
                let j1 = choose|j: int| 0 <= j < s.len() && s[j].0 == k;
                let j2 = choose|j: int| 0 <= j < o.len() && o[j].0 == k;
                assert(j1 < s.len() - 1);
                assert(o[j1].0 == k);
                assert(j1 == j2);
                assert(s[j1] == o[j1]);
            }
        }
    }

    pub fn get_row_info<'a>(&'a self, row_id: RowId) -> (r: Option<&'a RowInfo>)
        requires
            self.wf(),
        ensures
            match r {
                Some(c) => alist_has(self.row_info@, row_id) && *c == alist_get(
                    self.row_info@,
                    row_id,
                ),
                None => !alist_has(self.row_info@, row_id),
            },
    {
        let n = self.row_info.len();
        let mut i: usize = 0;
        while i < n
            invariant
                n == self.row_info@.len(),
                i <= n,
                self.wf(),
                forall|j: int| 0 <= j < i ==> self.row_info@[j].0 != row_id,
            decreases n - i,
        {
            if self.row_info[i].0 == row_id {
                return Some(&self.row_info[i].1);
            }
            i = i + 1;
        }
        None
    }

    pub fn get_col_info<'a>(&'a self, col_id: ColId) -> (r: Option<&'a ColInfo>)
        requires
            self.wf(),
        ensures
            match r {
                Some(c) => alist_has(self.col_info@, col_id) && *c == alist_get(
                    self.col_info@,
                    col_id,
                ),
                None => !alist_has(self.col_info@, col_id),
            },
    {
        let n = self.col_info.len();
        let mut i: usize = 0;
        while i < n
            invariant
                n == self.col_info@.len(),
                i <= n,
                self.wf(),
                forall|j: int| 0 <= j < i ==> self.col_info@[j].0 != col_id,
            decreases n - i,
        {
            if self.col_info[i].0 == col_id {
                return Some(&self.col_info[i].1);
            }
            i = i + 1;
        }
        None
    }
}

/// Storage for every sheet, keyed by sheet identity in a persistent map.
pub struct DataContainer {
    pub data: im::HashMap<u32, SheetDataContainer>,
}

impl DataContainer {
    pub open spec fn contents(self) -> Map<u32, SheetDataContainer> {
        persist::sheet_map_contents(self.data)
    }

    /// Every stored sheet container is well formed.
    pub open spec fn wf(self) -> bool {
        forall|s: u32| self.contents().contains_key(s) ==> (#[trigger] self.contents()[s]).wf()
    }

    pub fn new() -> (r: Self)
        ensures
            r.wf(),
            r.contents() == Map::<u32, SheetDataContainer>::empty(),
    {
        DataContainer { data: persist::sheet_map_new() }
    }

    pub fn clone_container(&self) -> (r: Self)
        ensures
            r.contents() == self.contents(),
    {
        DataContainer { data: persist::sheet_map_clone(&self.data) }
    }

    pub fn get_sheet<'a>(&'a self, sheet: SheetId) -> (r: Option<&'a SheetDataContainer>)
        ensures
            match r {
                Some(c) => self.contents().contains_key(sheet) && *c == self.contents()[sheet],
                None => !self.contents().contains_key(sheet),
            },
    {
        persist::sheet_map_get(&self.data, sheet)
    }

    pub fn set_sheet(&mut self, sheet: SheetId, data: SheetDataContainer)
        requires
            old(self).wf(),
            data.wf(),
        ensures
            final(self).wf(),
            final(self).contents() == old(self).contents().insert(sheet, data),
    {
        persist::sheet_map_insert(&mut self.data, sheet, data);
    }

    pub fn get_cell<'a>(&'a self, sheet: SheetId, cell_id: &CellId) -> (r: Option<&'a Cell>)
        requires
            self.wf(),
        ensures
            match r {
                Some(c) => self.contents().contains_key(sheet) && alist_has(
                    self.contents()[sheet].cells@,
                    *cell_id,
                ) && *c == alist_get(self.contents()[sheet].cells@, *cell_id),
                None => !self.contents().contains_key(sheet) || !alist_has(
                    self.contents()[sheet].cells@,
                    *cell_id,
                ),
            },
    {
        match self.get_sheet(sheet) {
            Some(sc) => sc.get_cell(cell_id),
            None => None,
        }
    }
}

} // verus!
