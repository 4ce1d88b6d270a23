//! The result set: the candidate universe of one search generation, held as
//! an ordered id-to-item map from the `indexmap` crate.
//!
//! The map itself is outside code; the library sees it through `entries`, the
//! sequence of `(id, name, uri)` triples in insertion order, and a handful of
//! trusted wrappers whose contracts state what the crate's documentation
//! promises about each call.

use vstd::prelude::*;
use indexmap::IndexMap;
use crate::items::LaunchItem;
use crate::matching::Cand;

verus! {

/// `indexmap::IndexMap`, declared so that result sets can appear in
/// signatures and fields. Opaque to the verifier; its contents are spoken of
/// through `entries`.
#[verifier::external_type_specification]
#[verifier::external_body]
#[verifier::reject_recursive_types(K)]
#[verifier::reject_recursive_types(V)]
#[verifier::reject_recursive_types(S)]
pub struct ExIndexMap<K, V, S>(IndexMap<K, V, S>);

/// What a result set holds: its `(id, name, uri)` triples, in insertion
/// order.
pub uninterp spec fn entries(m: IndexMap<String, LaunchItem>) -> Seq<Cand>;

/// No two entries share an id.
pub open spec fn distinct_ids(s: Seq<Cand>) -> bool {
    forall|i: int, j: int| 0 <= i < j < s.len() ==> (#[trigger] s[i]).0 != (#[trigger] s[j]).0
}

/// Relies on `IndexMap::new`: the new map is empty.
#[verifier::external_body]
pub(crate) fn result_set_new() -> (m: IndexMap<String, LaunchItem>)
    ensures
        entries(m) == Seq::<Cand>::empty(),
{
    IndexMap::new()
}

/// Relies on `IndexMap::insert`: a key not yet present goes last in order;
/// a present key keeps its place and only its value is updated.
#[verifier::external_body]
pub(crate) fn result_set_insert(m: &mut IndexMap<String, LaunchItem>, id: String, item: LaunchItem)
    ensures
        (forall|i: int|
            0 <= i < entries(*old(m)).len() ==> (#[trigger] entries(*old(m))[i]).0 != id@)
            ==> entries(*final(m)) == entries(*old(m)).push((id@, item.name@, item.uri@)),
        (exists|i: int| 0 <= i < entries(*old(m)).len() && (#[trigger] entries(*old(m))[i]).0
            == id@) ==> entries(*final(m)) == entries(*old(m)).map_values(
            |e: Cand|
                if e.0 == id@ {
                    (e.0, item.name@, item.uri@)
                } else {
                    e
                },
        ),
{
    m.insert(id, item);
}

/// Relies on `IndexMap::len`: the number of entries.
#[verifier::external_body]
pub(crate) fn result_set_len(m: &IndexMap<String, LaunchItem>) -> (n: usize)
    ensures
        n == entries(*m).len(),
{
    m.len()
}

/// Relies on `IndexMap::get`: the value stored for the key, if present.
#[verifier::external_body]
pub(crate) fn result_set_get<'a>(m: &'a IndexMap<String, LaunchItem>, id: &str) -> (r: Option<
    &'a LaunchItem,
>)
    ensures
        r matches Some(item) ==> exists|i: int|
            0 <= i < entries(*m).len() && #[trigger] entries(*m)[i] == (id@, item.name@, item.uri@),
        r is None ==> forall|i: int|
            0 <= i < entries(*m).len() ==> (#[trigger] entries(*m)[i]).0 != id@,
{
    m.get(id)
}

/// Relies on `IndexMap::get_index`: the pair at a position of the insertion
/// order.
#[verifier::external_body]
pub(crate) fn result_set_index<'a>(m: &'a IndexMap<String, LaunchItem>, i: usize) -> (r: Option<
    (&'a String, &'a LaunchItem),
>)
    ensures
        r matches Some(p) ==> i < entries(*m).len() && (p.0@, p.1.name@, p.1.uri@) == entries(
            *m,
        )[i as int],
        r is None ==> i >= entries(*m).len(),
{
    m.get_index(i)
}

} // verus!
