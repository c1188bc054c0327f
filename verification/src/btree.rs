//! Trusted interface to the ordered maps of the `btree_slab` crate.
//!
//! Both indices of the free map are `btree_slab` B-tree maps. Verus does not
//! read that crate: each function here is an `external_body` wrapper whose
//! contract states, over the named contents of the map (`size_entries`,
//! `bound_entries`), what the crate's source shows of the call.

use vstd::prelude::*;

verus! {

/// The B-tree map of the `btree_slab` crate, declared so that it can stand
/// in fields and signatures. Verus sees nothing of its inside; the
/// `*_entries` names below hand its contents to the contracts.
#[verifier::external_type_specification]
#[verifier::external_body]
#[verifier::reject_recursive_types(K)]
#[verifier::reject_recursive_types(V)]
#[verifier::reject_recursive_types(C)]
pub struct ExBTreeMap<K, V, C>(btree_slab::generic::BTreeMap<K, V, C>);

/// A node of the `btree_slab` B-tree; it only occurs as a type argument of
/// the node container.
#[verifier::external_type_specification]
#[verifier::external_body]
#[verifier::reject_recursive_types(K)]
#[verifier::reject_recursive_types(V)]
pub struct ExNode<K, V>(btree_slab::generic::Node<K, V>);

/// The node container of the `slab` crate that `btree_slab::BTreeMap`
/// allocates its nodes in.
#[verifier::external_type_specification]
#[verifier::external_body]
#[verifier::reject_recursive_types(T)]
pub struct ExSlab<T>(slab::Slab<T>);

/// The entries of a size-keyed map: each bucket key with the offsets it holds.
pub uninterp spec fn size_entries(m: btree_slab::BTreeMap<u64, Vec<u64>>) -> Map<u64, Seq<u64>>;

/// The entries of a boundary map: each address with its record.
pub uninterp spec fn bound_entries(m: btree_slab::BTreeMap<u64, (u64, bool)>) -> Map<u64, (u64, bool)>;

/// Relies on `BTreeMap::new`: the new map is empty.
#[verifier::external_body]
pub(crate) fn size_map_new() -> (m: btree_slab::BTreeMap<u64, Vec<u64>>)
    ensures
        forall|x: u64| #![auto] !size_entries(m).contains_key(x),
{
    btree_slab::BTreeMap::new()
}

/// Relies on `BTreeMap::get`: the value at the key, if the key is present.
#[verifier::external_body]
pub(crate) fn size_map_get(m: &btree_slab::BTreeMap<u64, Vec<u64>>, k: u64) -> (r: Option<Vec<u64>>)
    ensures
        r matches Some(v) ==> size_entries(*m).contains_key(k) && v@ == size_entries(*m)[k],
        r is None ==> !size_entries(*m).contains_key(k),
{
    m.get(&k).cloned()
}

/// Relies on `BTreeMap::insert`: maps the key to the value, keeping every
/// other entry.
#[verifier::external_body]
pub(crate) fn size_map_insert(m: &mut btree_slab::BTreeMap<u64, Vec<u64>>, k: u64, v: Vec<u64>)
    ensures
        size_entries(*final(m)) == size_entries(*old(m)).insert(k, v@),
{
    m.insert(k, v);
}

/// Relies on `BTreeMap::remove`: takes the entry at the key out, keeping
/// every other entry.
#[verifier::external_body]
pub(crate) fn size_map_remove(m: &mut btree_slab::BTreeMap<u64, Vec<u64>>, k: u64)
    ensures
        size_entries(*final(m)) == size_entries(*old(m)).remove(k),
{
    m.remove(&k);
}

/// Relies on `BTreeMap::new`: the new map is empty.
#[verifier::external_body]
pub(crate) fn bound_map_new() -> (m: btree_slab::BTreeMap<u64, (u64, bool)>)
    ensures
        forall|x: u64| #![auto] !bound_entries(m).contains_key(x),
{
    btree_slab::BTreeMap::new()
}

/// Relies on `BTreeMap::get`: the record at the address, if one is present.
#[verifier::external_body]
pub(crate) fn bound_map_get(
    m: &btree_slab::BTreeMap<u64, (u64, bool)>,
    k: u64,
) -> (r: Option<(u64, bool)>)
    ensures
        r matches Some(v) ==> bound_entries(*m).contains_key(k) && v == bound_entries(*m)[k],
        r is None ==> !bound_entries(*m).contains_key(k),
{
    m.get(&k).copied()
}

/// Relies on `BTreeMap::insert`: maps the address to the record, keeping
/// every other entry.
#[verifier::external_body]
pub(crate) fn bound_map_insert(m: &mut btree_slab::BTreeMap<u64, (u64, bool)>, k: u64, v: (u64, bool))
    ensures
        bound_entries(*final(m)) == bound_entries(*old(m)).insert(k, v),
{
    m.insert(k, v);
}

/// Relies on `BTreeMap::remove`: takes the entry at the address out, keeping
/// every other entry.
#[verifier::external_body]
pub(crate) fn bound_map_remove(m: &mut btree_slab::BTreeMap<u64, (u64, bool)>, k: u64)
    ensures
        bound_entries(*final(m)) == bound_entries(*old(m)).remove(k),
{
    m.remove(&k);
}

} // verus!
