//! Insertion-ordered maps and sets of ids, from the `indexmap` crate.
//!
//! Each collection is seen through the sequence of what it holds, in its own
//! order; the functions here state what `indexmap` does to that sequence.
use crate::member::Member;
use crate::order::id_le;
use indexmap::{IndexMap, IndexSet};
use vstd::prelude::*;
use vstd::relations::sorted_by;

verus! {

#[verifier::external_type_specification]
#[verifier::external_body]
#[verifier::reject_recursive_types(K)]
#[verifier::reject_recursive_types(V)]
#[verifier::reject_recursive_types(S)]
pub struct ExIndexMap<K, V, S>(IndexMap<K, V, S>);

#[verifier::external_type_specification]
#[verifier::external_body]
#[verifier::reject_recursive_types(T)]
#[verifier::reject_recursive_types(S)]
pub struct ExIndexSet<T, S>(IndexSet<T, S>);

/// The entries of a map from ids to ids, in the map's order.
pub uninterp spec fn entries_of(m: IndexMap<String, String>) -> Seq<(Seq<char>, Seq<char>)>;

/// The items of a set of ids, in the set's order.
pub uninterp spec fn items_of(s: IndexSet<String>) -> Seq<Seq<char>>;

/// The entries of a map from ids to absent members, in the map's order.
pub uninterp spec fn members_of(m: IndexMap<String, Member>) -> Seq<
    (Seq<char>, (Seq<char>, Seq<Seq<char>>, Seq<Seq<char>>)),
>;

/// The absent members held by a map, in the map's order.
pub open spec fn absent_members(m: IndexMap<String, Member>) -> Seq<
    (Seq<char>, Seq<Seq<char>>, Seq<Seq<char>>),
> {
    members_of(m).map_values(|e: (Seq<char>, (Seq<char>, Seq<Seq<char>>, Seq<Seq<char>>))| e.1)
}

/// Entry order by key alone.
pub open spec fn key_le(a: (Seq<char>, Seq<char>), b: (Seq<char>, Seq<char>)) -> bool {
    id_le(a.0, b.0)
}

/// Relies on `IndexMap::new`: a map with no entries.
#[verifier::external_body]
pub(crate) fn id_map_new() -> (r: IndexMap<String, String>)
    ensures
        entries_of(r) == Seq::<(Seq<char>, Seq<char>)>::empty(),
{
    IndexMap::new()
}

/// Relies on `IndexMap::insert`: an entry with the same key keeps its place and
/// takes the new value; a new key goes last.
#[verifier::external_body]
pub(crate) fn id_map_insert(m: &mut IndexMap<String, String>, key: String, value: String)
    ensures
        forall|i: int|
            0 <= i < entries_of(*old(m)).len() && #[trigger] entries_of(*old(m))[i].0 == key@
                ==> entries_of(*final(m)) == entries_of(*old(m)).update(i, (key@, value@)),
        (forall|i: int|
            0 <= i < entries_of(*old(m)).len() ==> #[trigger] entries_of(*old(m))[i].0 != key@)
            ==> entries_of(*final(m)) == entries_of(*old(m)).push((key@, value@)),
{
    m.insert(key, value);
}

/// Relies on `IndexMap::sort_keys`: the same entries, ordered by `String`'s
/// `Ord` on the keys (lexicographic by character).
#[verifier::external_body]
pub(crate) fn id_map_sort_keys(m: &mut IndexMap<String, String>)
    ensures
        entries_of(*final(m)).to_multiset() == entries_of(*old(m)).to_multiset(),
        sorted_by(entries_of(*final(m)), |a: (Seq<char>, Seq<char>), b: (Seq<char>, Seq<char>)| key_le(a, b)),
{
    m.sort_keys();
}

/// Relies on `IndexMap::len`.
#[verifier::external_body]
pub(crate) fn id_map_len(m: &IndexMap<String, String>) -> (r: usize)
    ensures
        r == entries_of(*m).len(),
{
    m.len()
}

/// Relies on `IndexMap::new`: a map with no entries.
#[verifier::external_body]
pub(crate) fn member_map_new() -> (r: IndexMap<String, Member>)
    ensures
        members_of(r).len() == 0,
{
    IndexMap::new()
}

/// Relies on `IndexMap::insert`: an entry with the same key keeps its place and
/// takes the new member; a new key goes last.
#[verifier::external_body]
pub(crate) fn member_map_insert(m: &mut IndexMap<String, Member>, key: String, value: Member)
    ensures
        forall|i: int|
            0 <= i < members_of(*old(m)).len() && #[trigger] members_of(*old(m))[i].0 == key@
                ==> members_of(*final(m)) == members_of(*old(m)).update(i, (key@, value@)),
        (forall|i: int|
            0 <= i < members_of(*old(m)).len() ==> #[trigger] members_of(*old(m))[i].0 != key@)
            ==> members_of(*final(m)) == members_of(*old(m)).push((key@, value@)),
{
    m.insert(key, value);
}

/// Relies on `IndexMap::get`: the member under a key, if the key is there.
#[verifier::external_body]
pub(crate) fn member_map_get<'a>(m: &'a IndexMap<String, Member>, key: &String) -> (r: Option<
    &'a Member,
>)
    ensures
        r matches Some(v) ==> exists|i: int|
            0 <= i < members_of(*m).len() && #[trigger] members_of(*m)[i] == (key@, v@),
        r is None ==> forall|i: int|
            0 <= i < members_of(*m).len() ==> #[trigger] members_of(*m)[i].0 != key@,
{
    m.get(key)
}

/// Relies on `IndexMap::len`.
#[verifier::external_body]
pub(crate) fn member_map_len(m: &IndexMap<String, Member>) -> (r: usize)
    ensures
        r == members_of(*m).len(),
{
    m.len()
}

/// Relies on `IndexSet::new`: a set with no items.
#[verifier::external_body]
pub(crate) fn id_set_new() -> (r: IndexSet<String>)
    ensures
        items_of(r) == Seq::<Seq<char>>::empty(),
{
    IndexSet::new()
}

/// Relies on `IndexSet::insert_full`: an item already held keeps its place and
/// its index comes back with `false`; a new one goes last and comes back with
/// its index and `true`.
#[verifier::external_body]
pub(crate) fn id_set_insert_full(s: &mut IndexSet<String>, item: String) -> (r: (usize, bool))
    ensures
        items_of(*old(s)).contains(item@) ==> {
            &&& !r.1
            &&& items_of(*final(s)) == items_of(*old(s))
            &&& r.0 < items_of(*old(s)).len()
            &&& items_of(*old(s))[r.0 as int] == item@
        },
        !items_of(*old(s)).contains(item@) ==> {
            &&& r.1
            &&& items_of(*final(s)) == items_of(*old(s)).push(item@)
            &&& r.0 == items_of(*old(s)).len()
        },
{
    s.insert_full(item)
}

/// Relies on `IndexSet::contains`.
#[verifier::external_body]
pub(crate) fn id_set_contains(s: &IndexSet<String>, item: &String) -> (r: bool)
    ensures
        r == items_of(*s).contains(item@),
{
    s.contains(item)
}

/// Relies on `IndexSet::len`.
#[verifier::external_body]
pub(crate) fn id_set_len(s: &IndexSet<String>) -> (r: usize)
    ensures
        r == items_of(*s).len(),
{
    s.len()
}

/// Relies on `IndexSet`'s `Index<usize>`: the item at a position.
#[verifier::external_body]
pub(crate) fn id_set_at(s: &IndexSet<String>, i: usize) -> (r: &String)
    requires
        i < items_of(*s).len(),
    ensures
        r@ == items_of(*s)[i as int],
{
    &s[i]
}

/// Relies on `IndexSet::swap_remove`: the item leaves and the last item takes
/// its place.
#[verifier::external_body]
pub(crate) fn id_set_swap_remove(s: &mut IndexSet<String>, item: &String) -> (r: bool)
    ensures
        r == items_of(*old(s)).contains(item@),
        !r ==> items_of(*final(s)) == items_of(*old(s)),
        r ==> exists|i: int|
            0 <= i < items_of(*old(s)).len() && #[trigger] items_of(*old(s))[i] == item@
                && items_of(*final(s)) == items_of(*old(s)).update(i, items_of(*old(s)).last()).drop_last(),
{
    s.swap_remove(item)
}

/// Relies on `IndexSet::sort`: the same items, ordered by `String`'s `Ord`
/// (lexicographic by character).
#[verifier::external_body]
pub(crate) fn id_set_sort(s: &mut IndexSet<String>)
    ensures
        items_of(*final(s)).to_multiset() == items_of(*old(s)).to_multiset(),
        sorted_by(items_of(*final(s)), |a: Seq<char>, b: Seq<char>| id_le(a, b)),
{
    s.sort();
}

} // verus!
