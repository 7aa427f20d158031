//! The ordered map in which routes are filed, as far as routing needs it.

use crate::geometry::Location;
use indexmap::IndexMap;
use vstd::prelude::*;

verus! {

/// `indexmap::IndexMap`, a hash map that keeps its entries in the order in
/// which their keys were first inserted. Nothing is known of its inside:
/// what it holds is `route_entries`.
#[verifier::external_type_specification]
#[verifier::external_body]
#[verifier::reject_recursive_types(K)]
#[verifier::reject_recursive_types(V)]
#[verifier::reject_recursive_types(S)]
pub struct ExIndexMap<K, V, S>(indexmap::IndexMap<K, V, S>);

/// What a map of routes holds: its keys, each with the path filed under it,
/// in the map's own order, which is the order of `IndexMap::get_index` and
/// of the map's iterators.
pub uninterp spec fn route_entries(routes: IndexMap<(usize, usize), Vec<Location>>) -> Seq<
    ((usize, usize), Seq<Location>),
>;

/// Some entry has the key `key`.
pub open spec fn has_key(entries: Seq<((usize, usize), Seq<Location>)>, key: (usize, usize)) -> bool {
    exists|i: int| 0 <= i < entries.len() && (#[trigger] entries[i]).0 == key
}

/// The place of an entry with the key `key`.
pub open spec fn key_index(entries: Seq<((usize, usize), Seq<Location>)>, key: (usize, usize)) -> int {
    choose|i: int| 0 <= i < entries.len() && (#[trigger] entries[i]).0 == key
}

/// The entries after `path` is filed under `key`: an entry with that key
/// keeps its place and gets the new path; without one, the new entry comes
/// last.
pub open spec fn filed(
    entries: Seq<((usize, usize), Seq<Location>)>,
    key: (usize, usize),
    path: Seq<Location>,
) -> Seq<((usize, usize), Seq<Location>)> {
    if has_key(entries, key) {
        entries.update(key_index(entries, key), (key, path))
    } else {
        entries.push((key, path))
    }
}

/// `IndexMap::new`: the map it makes holds nothing.
#[verifier::external_body]
pub(crate) fn routes_new() -> (routes: IndexMap<(usize, usize), Vec<Location>>)
    ensures
        route_entries(routes) == Seq::<((usize, usize), Seq<Location>)>::empty(),
{
    IndexMap::new()
}

/// `IndexMap::insert`: where the map holds the key, the entry keeps its place,
/// its path is replaced and the old path is handed back; where it does not,
/// the new entry comes last and nothing is handed back.
#[verifier::external_body]
pub(crate) fn routes_insert(
    routes: &mut IndexMap<(usize, usize), Vec<Location>>,
    key: (usize, usize),
    path: Vec<Location>,
) -> (previous: Option<Vec<Location>>)
    ensures
        route_entries(*final(routes)) == filed(route_entries(*old(routes)), key, path@),
        previous.is_some() == has_key(route_entries(*old(routes)), key),
        previous.is_some() ==> previous.unwrap()@ == route_entries(*old(routes))[key_index(
            route_entries(*old(routes)),
            key,
        )].1,
{
    routes.insert(key, path)
}

} // verus!
