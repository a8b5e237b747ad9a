//! The identity layer: a bijection between names and dense integer ids.
//!
//! Ids are allocated on first reference, starting from a fixed base, and are
//! never recycled within a session.  Asking for the same name twice hands
//! back the same id, and the inverse lookup recovers the name.

use crate::base::{ExtBookId, FuncId, NameId};
use crate::persist;
use vstd::prelude::*;

verus! {

/// The id a lookup hands back on this state: the existing binding, or the
/// next free id.
pub open spec fn id_of(contents: Map<Seq<char>, u32>, next: u32, name: Seq<char>) -> u32 {
    if contents.contains_key(name) {
        contents[name]
    } else {
        next
    }
}

/// The bindings after a lookup: unchanged when the name was known, extended
/// by the fresh id otherwise.
pub open spec fn contents_after(
    contents: Map<Seq<char>, u32>,
    next: u32,
    name: Seq<char>,
) -> Map<Seq<char>, u32> {
    if contents.contains_key(name) {
        contents
    } else {
        contents.insert(name, next)
    }
}

/// The allocation frontier after a lookup.
pub open spec fn next_after(contents: Map<Seq<char>, u32>, next: u32, name: Seq<char>) -> u32 {
    if contents.contains_key(name) {
        next
    } else {
        (next + 1) as u32
    }
}

/// Some name is bound to the id.
pub open spec fn covers(contents: Map<Seq<char>, u32>, id: u32) -> bool {
    exists|k: Seq<char>| contents.contains_key(k) && #[trigger] contents[k] == id
}

/// No two names share an id.
pub open spec fn injective(contents: Map<Seq<char>, u32>) -> bool {
    forall|a: Seq<char>, b: Seq<char>|
        contents.contains_key(a) && contents.contains_key(b) && a != b ==> contents[a]
            != contents[b]
}

pub struct IdManager {
    pub next_available: u32,
    pub ids: im::HashMap<String, u32>,
    pub start: Ghost<u32>,
}

pub type SheetIdManager = IdManager;

pub type BookIdManager = IdManager;

pub type TextIdManager = IdManager;

pub type FuncIdManager = IdManager;

pub type AuthorIdManager = IdManager;

impl IdManager {
    pub open spec fn contents(self) -> Map<Seq<char>, u32> {
        persist::str_map_contents(self.ids)
    }

    /// The id domain is a contiguous run from the base: every binding lies
    /// under the frontier, every id under the frontier is bound, and no two
    /// names share an id.
    pub open spec fn wf(self) -> bool {
        &&& self.start@ <= self.next_available
        &&& forall|k: Seq<char>|
            self.contents().contains_key(k) ==> self.start@ <= #[trigger] self.contents()[k]
                < self.next_available
        &&& forall|id: u32|
            self.start@ <= id < self.next_available ==> #[trigger] covers(self.contents(), id)
        &&& injective(self.contents())
    }

    pub fn new(start: u32) -> (r: Self)
        ensures
            r.wf(),
            r.next_available == start,
            r.start@ == start,
            r.contents() == Map::<Seq<char>, u32>::empty(),
    {
        IdManager { next_available: start, ids: persist::str_map_new(), start: Ghost(start) }
    }

    pub fn clone_manager(&self) -> (r: Self)
        ensures
            r.contents() == self.contents(),
            r.next_available == self.next_available,
            r.start@ == self.start@,
            self.wf() ==> r.wf(),
    {
        IdManager {
            next_available: self.next_available,
            ids: persist::str_map_clone(&self.ids),
            start: Ghost(self.start@),
        }
    }

    /// Non-mutating lookup: the id bound to the name, if any.
    pub fn has(&self, name: &str) -> (r: Option<u32>)
        ensures
            r == (if self.contents().contains_key(name@) {
                Some(self.contents()[name@])
            } else {
                Option::<u32>::None
            }),
    {
        persist::str_map_get(&self.ids, name)
    }

    /// Registers the name, allocating the next free id unless the name is
    /// already bound; registering twice is idempotent.
    pub fn registry(&mut self, name: String) -> (r: u32)
        requires
            old(self).wf(),
            old(self).next_available < u32::MAX,
        ensures
            final(self).wf(),
            r == id_of(old(self).contents(), old(self).next_available, name@),
            final(self).contents() == contents_after(
                old(self).contents(),
                old(self).next_available,
                name@,
            ),
            final(self).next_available == next_after(
                old(self).contents(),
                old(self).next_available,
                name@,
            ),
            final(self).start@ == old(self).start@,
    {
        match persist::str_map_get(&self.ids, name.as_str()) {
            Some(id) => id,
            None => {
                let r = self.next_available;
                persist::str_map_insert(&mut self.ids, name, r);
                self.next_available = self.next_available + 1;
                proof {
                    assert forall|id: u32|
                        self.start@ <= id < self.next_available implies #[trigger] covers(
                        self.contents(),
                        id,
                    ) by {
                        if id == r {
                            assert(self.contents().contains_key(name@));
                            assert(self.contents()[name@] == id);
                        } else {
                            assert(covers(old(self).contents(), id));
                            let k = choose|k: Seq<char>|
                                old(self).contents().contains_key(k) && #[trigger] old(
                                    self,
                                ).contents()[k] == id;
                            assert(self.contents().contains_key(k) && self.contents()[k] == id);
                        }
                    }
                }
                r
            },
        }
    }

    /// Transfers the binding from the old name to the new one without
    /// changing the id.  Nothing happens when the old name is unknown.
    pub fn rename(&mut self, old_name: &str, new_name: String)
        requires
            old(self).wf(),
        ensures
            final(self).next_available == old(self).next_available,
            final(self).start@ == old(self).start@,
            old(self).contents().contains_key(old_name@) && old_name@ != new_name@ ==> {
                &&& final(self).contents() == old(self).contents().remove(old_name@).insert(
                    new_name@,
                    old(self).contents()[old_name@],
                )
                &&& (!old(self).contents().contains_key(new_name@) ==> final(self).wf())
            },
            (!old(self).contents().contains_key(old_name@) || old_name@ == new_name@)
                ==> (final(self).contents() == old(self).contents() && final(self).wf()),
    {
        let result = persist::str_map_get(&self.ids, old_name);
        match result {
            None => {},
            Some(id) => {
                let is_same = {
                    let new_ref: &str = new_name.as_str();
                    str_eq(old_name, new_ref)
                };
                if is_same {
                    proof {
                        assert(self.contents() =~= old(self).contents());
                    }
                } else {
                    persist::str_map_remove(&mut self.ids, old_name);
                    persist::str_map_insert(&mut self.ids, new_name, id);
                    proof {
                        if !old(self).contents().contains_key(new_name@) {
                            let c = self.contents();
                            assert forall|id2: u32|
                                self.start@ <= id2 < self.next_available implies #[trigger] covers(
                                c,
                                id2,
                            ) by {
                                assert(covers(old(self).contents(), id2));
                                let k = choose|k: Seq<char>|
                                    old(self).contents().contains_key(k) && #[trigger] old(
                                        self,
                                    ).contents()[k] == id2;
                                if k == old_name@ {
                                    assert(c.contains_key(new_name@) && c[new_name@] == id2);
                                } else {
                                    assert(c.contains_key(k) && c[k] == id2);
                                }
                            }
                        }
                    }
                }
            },
        }
    }

    /// The id for the name, allocating one on first reference.
    pub fn get_id(&mut self, name: &str) -> (r: u32)
        requires
            old(self).wf(),
            old(self).next_available < u32::MAX,
        ensures
            final(self).wf(),
            r == id_of(old(self).contents(), old(self).next_available, name@),
            final(self).contents() == contents_after(
                old(self).contents(),
                old(self).next_available,
                name@,
            ),
            final(self).next_available == next_after(
                old(self).contents(),
                old(self).next_available,
                name@,
            ),
            final(self).start@ == old(self).start@,
    {
        match persist::str_map_get(&self.ids, name) {
            Some(r) => r,
            None => self.registry(name.to_owned()),
        }
    }

    /// Inverse lookup: the name bound to the id.  With a well-formed manager
    /// the binding is unique, so the result is the one registered name.
    pub fn get_string(&self, id: &u32) -> (r: Option<String>)
        ensures
            match r {
                Some(name) => self.contents().contains_key(name@) && self.contents()[name@] == *id,
                None => forall|k: Seq<char>|
                    self.contents().contains_key(k) ==> self.contents()[k] != *id,
            },
    {
        persist::str_map_find_by_value(&self.ids, *id)
    }
}

/// Equality of two string slices, by their character sequences.
pub fn str_eq(a: &str, b: &str) -> (r: bool)
    ensures
        r == (a@ == b@),
{
    let a_owned = a.to_owned();
    let b_owned = b.to_owned();
    a_owned == b_owned
}

impl IdManager {
    /// The id for a formula function name.  Function ids are case
    /// insensitive: the binding is keyed by the upper-cased spelling.
    pub fn get_func_id(&mut self, name: &str) -> (r: FuncId)
        requires
            old(self).wf(),
            old(self).next_available < u32::MAX,
        ensures
            final(self).wf(),
            r == id_of(old(self).contents(), old(self).next_available, upper_of(name@)),
            final(self).contents() == contents_after(
                old(self).contents(),
                old(self).next_available,
                upper_of(name@),
            ),
            final(self).next_available == next_after(
                old(self).contents(),
                old(self).next_available,
                upper_of(name@),
            ),
            final(self).start@ == old(self).start@,
    {
        let s = to_uppercase_string(name);
        self.get_id(s.as_str())
    }
}

/// The upper-cased spelling of a character sequence; the result depends on
/// the characters alone.
pub uninterp spec fn upper_of(s: Seq<char>) -> Seq<char>;

/// Relies on `str::to_uppercase`: the Unicode upper-cased spelling, a
/// function of the characters alone.
#[verifier::external_body]
pub fn to_uppercase_string(s: &str) -> (r: String)
    ensures
        r@ == upper_of(s@),
{
    s.to_uppercase()
}

/// Defined names are keyed by the external book they live in, so that
/// equally-named defined names in different books get distinct ids; book id
/// zero is this workbook.
pub struct NameIdManager {
    pub next_available: u32,
    pub ids: Vec<((ExtBookId, String), NameId)>,
    pub start: Ghost<u32>,
}

impl NameIdManager {
    /// The bindings, keyed by book id and name characters.
    pub open spec fn contents(self) -> Map<(ExtBookId, Seq<char>), u32> {
        Map::new(
            |k: (ExtBookId, Seq<char>)|
                exists|i: int|
                    0 <= i < self.ids@.len() && (#[trigger] self.ids@[i]).0.0 == k.0
                        && self.ids@[i].0.1@ == k.1,
            |k: (ExtBookId, Seq<char>)|
                {
                    let i = choose|i: int|
                        0 <= i < self.ids@.len() && (#[trigger] self.ids@[i]).0.0 == k.0
                            && self.ids@[i].0.1@ == k.1;
                    self.ids@[i].1
                },
        )
    }

    pub open spec fn wf(self) -> bool {
        &&& self.start@ <= self.next_available
        &&& forall|i: int, j: int|
            0 <= i < j < self.ids@.len() ==> !((#[trigger] self.ids@[i]).0.0
                == (#[trigger] self.ids@[j]).0.0 && self.ids@[i].0.1@ == self.ids@[j].0.1@)
        &&& forall|i: int|
            0 <= i < self.ids@.len() ==> self.start@ <= (#[trigger] self.ids@[i]).1
                < self.next_available
    }

    pub fn new(start: u32) -> (r: Self)
        ensures
            r.wf(),
            r.next_available == start,
            r.ids@.len() == 0,
    {
        NameIdManager { next_available: start, ids: Vec::new(), start: Ghost(start) }
    }

    /// The id for the (book, name) pair, allocating one on first reference.
    pub fn get_id(&mut self, key: &(ExtBookId, String)) -> (r: NameId)
        requires
            old(self).wf(),
            old(self).next_available < u32::MAX,
        ensures
            final(self).wf(),
            old(self).contents().contains_key((key.0, key.1@)) ==> ({
                let o = *old(self);
                let f = *final(self);
                r == o.contents()[(key.0, key.1@)] && f.ids@ == o.ids@ && f.next_available
                    == o.next_available
            }),
            !old(self).contents().contains_key((key.0, key.1@)) ==> ({
                let o = *old(self);
                let f = *final(self);
                &&& r == o.next_available
                &&& f.contents().contains_key((key.0, key.1@))
                &&& f.contents()[(key.0, key.1@)] == r
                &&& f.ids@.len() == o.ids@.len() + 1
                &&& f.ids@.subrange(0, o.ids@.len() as int) == o.ids@
                &&& f.ids@.last().0.0 == key.0
                &&& f.ids@.last().0.1@ == key.1@
                &&& f.ids@.last().1 == r
                &&& f.next_available == o.next_available + 1
            }),
    {
        let n = self.ids.len();
        let mut i: usize = 0;
        while i < n
            invariant
                n == self.ids@.len(),
                i <= n,
                old(self).wf(),
                self == old(self),
                forall|j: int|
                    0 <= j < i ==> !((#[trigger] self.ids@[j]).0.0 == key.0 && self.ids@[j].0.1@
                        == key.1@),
            decreases n - i,
        {
            let entry_book = self.ids[i].0.0;
            if entry_book == key.0 {
                let same = {
                    let a: &str = self.ids[i].0.1.as_str();
                    let b: &str = key.1.as_str();
                    str_eq(a, b)
                };
                if same {
                    proof {
                        assert(self.contents().contains_key((key.0, key.1@)));
                        let w = choose|w: int|
                            0 <= w < self.ids@.len() && (#[trigger] self.ids@[w]).0.0 == key.0
                                && self.ids@[w].0.1@ == key.1@;
                        assert(w == i);
                    }
                    return self.ids[i].1;
                }
            }
            i = i + 1;
        }
        let r = self.next_available;
        let book = key.0;
        let name_copy = clone_string(&key.1);
        self.ids.push(((book, name_copy), r));
        self.next_available = self.next_available + 1;
        proof {
            assert(self.ids@.subrange(0, old(self).ids@.len() as int) =~= old(self).ids@);
            assert(!old(self).contents().contains_key((key.0, key.1@)));
            assert(self.ids@[self.ids@.len() - 1].0.0 == key.0);
            assert(self.ids@[self.ids@.len() - 1].0.1@ == key.1@);
            assert(self.contents().contains_key((key.0, key.1@)));
            let w = choose|w: int|
                0 <= w < self.ids@.len() && (#[trigger] self.ids@[w]).0.0 == key.0
                    && self.ids@[w].0.1@ == key.1@;
            assert(w == self.ids@.len() - 1);
        }
        r
    }
}

/// A copy of a string with the same characters.
pub fn clone_string(s: &String) -> (r: String)
    ensures
        r@ == s@,
{
    s.as_str().to_owned()
}

/// Law: asking for a name and asking again hands back the same id, whatever
/// state the manager was in.
pub proof fn lemma_get_id_stable(c: Map<Seq<char>, u32>, n: u32, s: Seq<char>)
    ensures
        id_of(contents_after(c, n, s), next_after(c, n, s), s) == id_of(c, n, s),
{
    if !c.contains_key(s) {
        assert(contents_after(c, n, s).contains_key(s));
    }
}

/// Law: after asking for a name, the inverse lookup of the returned id can
/// only name that very string — the id is bound to it and, by injectivity,
/// to nothing else.
pub proof fn lemma_get_string_after_get_id(c: Map<Seq<char>, u32>, n: u32, s: Seq<char>)
    requires
        injective(c),
        forall|k: Seq<char>| c.contains_key(k) ==> #[trigger] c[k] < n,
    ensures
        contents_after(c, n, s).contains_key(s),
        contents_after(c, n, s)[s] == id_of(c, n, s),
        forall|k: Seq<char>|
            contents_after(c, n, s).contains_key(k) && #[trigger] contents_after(c, n, s)[k]
                == id_of(c, n, s) ==> k == s,
{
    let c2 = contents_after(c, n, s);
    let id = id_of(c, n, s);
    assert forall|k: Seq<char>| c2.contains_key(k) && #[trigger] c2[k] == id implies k == s by {
        if k != s {
            if c.contains_key(s) {
                assert(c.contains_key(k) && c[k] == c[s]);
            } else {
                assert(c.contains_key(k) && c[k] == n);
            }
        }
    }
}

} // verus!
