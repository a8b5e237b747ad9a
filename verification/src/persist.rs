//! Persistent maps backing the identity managers and the data container.
//!
//! The engine keeps its bulk storage in hash-array-mapped tries from the
//! `im` crate, so that cloning a workbook snapshot shares structure with the
//! previous version instead of copying it.  The maps are opaque to the
//! verifier; each operation the engine relies on is a small trusted wrapper
//! whose contract speaks about the abstract contents of the map.

use crate::container::SheetDataContainer;
use vstd::prelude::*;

verus! {

#[verifier::external_type_specification]
#[verifier::external_body]
#[verifier::reject_recursive_types(K)]
#[verifier::reject_recursive_types(V)]
#[verifier::reject_recursive_types(S)]
pub struct ExImHashMap<K, V, S>(im::HashMap<K, V, S>);

/// What a `im::HashMap<String, u32>` holds, keyed by the character sequences
/// of its keys.
pub uninterp spec fn str_map_contents(m: im::HashMap<String, u32>) -> Map<Seq<char>, u32>;

/// What a `im::HashMap<u32, SheetDataContainer>` holds.
pub uninterp spec fn sheet_map_contents(
    m: im::HashMap<u32, SheetDataContainer>,
) -> Map<u32, SheetDataContainer>;

/// Relies on `im::HashMap::new`: the fresh map is empty.
#[verifier::external_body]
pub fn str_map_new() -> (r: im::HashMap<String, u32>)
    ensures
        str_map_contents(r) =~= Map::empty(),
{
    im::HashMap::new()
}

/// Relies on `im::HashMap::insert`: the entry is added or replaced, and the
/// previous value for the key, if any, is handed back.
#[verifier::external_body]
pub fn str_map_insert(m: &mut im::HashMap<String, u32>, k: String, v: u32) -> (r: Option<u32>)
    ensures
        str_map_contents(*final(m)) == str_map_contents(*old(m)).insert(k@, v),
        r == (if str_map_contents(*old(m)).contains_key(k@) {
            Some(str_map_contents(*old(m))[k@])
        } else {
            Option::<u32>::None
        }),
{
    m.insert(k, v)
}

/// Relies on `im::HashMap::get`: the value stored under the key, if any.
#[verifier::external_body]
pub fn str_map_get(m: &im::HashMap<String, u32>, k: &str) -> (r: Option<u32>)
    ensures
        r == (if str_map_contents(*m).contains_key(k@) {
            Some(str_map_contents(*m)[k@])
        } else {
            Option::<u32>::None
        }),
{
    m.get(k).copied()
}

/// Relies on `im::HashMap::remove`: the entry leaves the map and its value,
/// if one was there, is handed back.
#[verifier::external_body]
pub fn str_map_remove(m: &mut im::HashMap<String, u32>, k: &str) -> (r: Option<u32>)
    ensures
        str_map_contents(*final(m)) == str_map_contents(*old(m)).remove(k@),
        r == (if str_map_contents(*old(m)).contains_key(k@) {
            Some(str_map_contents(*old(m))[k@])
        } else {
            Option::<u32>::None
        }),
{
    m.remove(k)
}

/// Relies on `im::HashMap::iter` and `Iterator::find`: walks the entries and
/// hands back the key of some entry holding the wanted value.  The walk order
/// is seeded per process, so no single key is promised, only that the result
/// is an actual entry, and `None` only when no entry has the value.
#[verifier::external_body]
pub fn str_map_find_by_value(m: &im::HashMap<String, u32>, v: u32) -> (r: Option<String>)
    ensures
        match r {
            Some(k) => str_map_contents(*m).contains_key(k@) && str_map_contents(*m)[k@] == v,
            None => forall|k: Seq<char>|
                str_map_contents(*m).contains_key(k) ==> str_map_contents(*m)[k] != v,
        },
{
    m.iter().find(|kv| *kv.1 == v).map(|kv| kv.0.clone())
}

/// Relies on `im::HashMap::clone`: an O(1) structurally shared copy with the
/// same contents.
#[verifier::external_body]
pub fn str_map_clone(m: &im::HashMap<String, u32>) -> (r: im::HashMap<String, u32>)
    ensures
        str_map_contents(r) == str_map_contents(*m),
{
    m.clone()
}

/// Relies on `im::HashMap::new`: the fresh map is empty.
#[verifier::external_body]
pub fn sheet_map_new() -> (r: im::HashMap<u32, SheetDataContainer>)
    ensures
        sheet_map_contents(r) =~= Map::empty(),
{
    im::HashMap::new()
}

/// Relies on `im::HashMap::insert`: the entry is added or replaced.
#[verifier::external_body]
pub fn sheet_map_insert(
    m: &mut im::HashMap<u32, SheetDataContainer>,
    k: u32,
    v: SheetDataContainer,
)
    ensures
        sheet_map_contents(*final(m)) == sheet_map_contents(*old(m)).insert(k, v),
{
    m.insert(k, v);
}

/// Relies on `im::HashMap::get`: the value stored under the key, if any.
#[verifier::external_body]
pub fn sheet_map_get<'a>(
    m: &'a im::HashMap<u32, SheetDataContainer>,
    k: u32,
) -> (r: Option<&'a SheetDataContainer>)
    ensures
        match r {
            Some(v) => sheet_map_contents(*m).contains_key(k) && *v == sheet_map_contents(*m)[k],
            None => !sheet_map_contents(*m).contains_key(k),
        },
{
    m.get(&k)
}

/// Relies on `im::HashMap::clone`: an O(1) structurally shared copy with the
/// same contents.
#[verifier::external_body]
pub fn sheet_map_clone(
    m: &im::HashMap<u32, SheetDataContainer>,
) -> (r: im::HashMap<u32, SheetDataContainer>)
    ensures
        sheet_map_contents(r) == sheet_map_contents(*m),
{
    m.clone()
}

} // verus!
