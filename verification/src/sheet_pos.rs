//! The display order of sheets, and which of them are hidden.  This is the
//! only component that knows where a sheet stands in the tab strip.

use crate::base::SheetId;
use crate::navigator::seq_distinct;
use vstd::prelude::*;

verus! {

#[derive(Debug, Clone, PartialEq, Eq)]
pub struct SheetPosManager {
    pub pos: Vec<SheetId>,
    pub hidden: Vec<SheetId>,
}

impl SheetPosManager {
    pub open spec fn wf(self) -> bool {
        seq_distinct(self.pos@)
    }

    pub fn new() -> (r: Self)
        ensures
            r.wf(),
            r.pos@.len() == 0,
            r.hidden@.len() == 0,
    {
        SheetPosManager { pos: Vec::new(), hidden: Vec::new() }
    }

    /// Appends a sheet at the end of the display order; nothing happens when
    /// it is already placed.
    pub fn append(&mut self, sheet: SheetId)
        requires
            old(self).wf(),
        ensures
            final(self).wf(),
            final(self).pos@.contains(sheet),
            old(self).pos@.contains(sheet) ==> final(self).pos@ == old(self).pos@,
            !old(self).pos@.contains(sheet) ==> final(self).pos@ == old(self).pos@.push(sheet),
            final(self).hidden@ == old(self).hidden@,
    {
        let n = self.pos.len();
        let mut i: usize = 0;
        while i < n
            invariant
                n == self.pos@.len(),
                i <= n,
                self == old(self),
                old(self).wf(),
                forall|j: int| 0 <= j < i ==> self.pos@[j] != sheet,
            decreases n - i,
        {
            if self.pos[i] == sheet {
                proof {
                    assert(self.pos@[i as int] == sheet);
                }
                return ;
            }
            i = i + 1;
        }
        self.pos.push(sheet);
        proof {
            assert(self.pos@[self.pos@.len() - 1] == sheet);
            assert forall|a: int, b: int| 0 <= a < b < self.pos@.len() implies self.pos@[a]
                != self.pos@[b] by {
                if b < self.pos@.len() - 1 {
                    assert(self.pos@[a] == old(self).pos@[a]);
                    assert(self.pos@[b] == old(self).pos@[b]);
                } else {
                    assert(self.pos@[a] == old(self).pos@[a]);
                }
            }
        }
    }

    /// The display position of the sheet, if it is placed.
    pub fn get_sheet_idx(&self, sheet: &SheetId) -> (r: Option<usize>)
        requires
            self.wf(),
        ensures
            match r {
                Some(i) => self.pos@.contains(*sheet) && i == self.pos@.index_of(*sheet),
                None => !self.pos@.contains(*sheet),
            },
    {
        crate::navigator::find_pos(&self.pos, *sheet)
    }

    /// The sheet at the display position, if any.
    pub fn get_sheet_id(&self, idx: usize) -> (r: Option<SheetId>)
        ensures
            r == (if idx < self.pos@.len() {
                Some(self.pos@[idx as int])
            } else {
                Option::<SheetId>::None
            }),
    {
        if idx < self.pos.len() {
            Some(self.pos[idx])
        } else {
            None
        }
    }

    /// Whether the sheet is hidden from the tab strip.
    pub fn is_hidden(&self, sheet: &SheetId) -> (r: bool)
        ensures
            r == self.hidden@.contains(*sheet),
    {
        let n = self.hidden.len();
        let mut i: usize = 0;
        while i < n
            invariant
                n == self.hidden@.len(),
                i <= n,
                forall|j: int| 0 <= j < i ==> self.hidden@[j] != *sheet,
            decreases n - i,
        {
            if self.hidden[i] == *sheet {
                return true;
            }
            i = i + 1;
        }
        false
    }

    /// Hides or shows the sheet.
    pub fn set_hidden(&mut self, sheet: SheetId, hidden: bool)
        requires
            old(self).wf(),
        ensures
            final(self).wf(),
            final(self).pos@ == old(self).pos@,
            final(self).hidden@.contains(sheet) == hidden,
            forall|s: SheetId|
                s != sheet ==> #[trigger] final(self).hidden@.contains(s) == old(
                    self,
                ).hidden@.contains(s),
    {
        let mut fresh: Vec<SheetId> = Vec::new();
        let n = self.hidden.len();
        let mut i: usize = 0;
        while i < n
            invariant
                n == self.hidden@.len(),
                i <= n,
                self == old(self),
                forall|s: SheetId|
                    #[trigger] fresh@.contains(s) <==> ((exists|j: int|
                        0 <= j < i && self.hidden@[j] == s) && s != sheet),
            decreases n - i,
        {
            let v = self.hidden[i];
            if v != sheet {
                let ghost pre = fresh@;
                fresh.push(v);
                proof {
                    crate::container::lemma_push_contains(pre, v);
                    assert forall|s: SheetId| #[trigger] fresh@.contains(s) implies ((exists|
                        j: int,
                    | 0 <= j < i + 1 && self.hidden@[j] == s) && s != sheet) by {
                        if s == v {
                            assert(self.hidden@[i as int] == s);
                        }
                    }
                    assert forall|s: SheetId|
                        (exists|j: int| 0 <= j < i + 1 && self.hidden@[j] == s) && s
                            != sheet implies #[trigger] fresh@.contains(s) by {
                        let j = choose|j: int| 0 <= j < i + 1 && self.hidden@[j] == s;
                        if j < i {
                            assert(pre.contains(s));
                        }
                    }
                }
            } else {
                proof {
                    assert forall|s: SheetId|
                        (exists|j: int| 0 <= j < i + 1 && self.hidden@[j] == s) && s
                            != sheet implies #[trigger] fresh@.contains(s) by {
                        let j = choose|j: int| 0 <= j < i + 1 && self.hidden@[j] == s;
                        assert(j < i);
                    }
                }
            }
            i = i + 1;
        }
        if hidden {
            let ghost pre = fresh@;
            fresh.push(sheet);
            proof {
                crate::container::lemma_push_contains(pre, sheet);
            }
        }
        self.hidden = fresh;
    }
}

} // verus!
