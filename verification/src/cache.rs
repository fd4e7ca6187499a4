//! The render cache: a concurrent associative store from node fingerprints
//! to previously rendered markup, with the entry timestamp that TTL
//! expiration is judged against.
//!
//! The store itself is `dashmap`'s concurrent map; reads never observe a
//! partially written entry and an insert for a given fingerprint is the unit
//! of atomicity. The contracts below speak of its contents through
//! `cache_entries`.

use vstd::prelude::*;

use crate::node::{node_view, NodeV, VNode};

verus! {

/// One cached render: the node it was computed from, its markup, and when
/// it was stored.
#[derive(Clone)]
pub struct CacheSlot {
    pub node: VNode,
    pub markup: String,
    pub created_at: u64,
}

/// Mathematical model of a `CacheSlot`.
pub struct CacheSlotV {
    pub node: NodeV,
    pub markup: Seq<char>,
    pub created_at: u64,
}

impl View for CacheSlot {
    type V = CacheSlotV;

    open spec fn view(&self) -> CacheSlotV {
        CacheSlotV {
            node: node_view(self.node),
            markup: self.markup@,
            created_at: self.created_at,
        }
    }
}

#[verifier::external_type_specification]
#[verifier::external_body]
#[verifier::reject_recursive_types(K)]
#[verifier::reject_recursive_types(V)]
#[verifier::reject_recursive_types(S)]
pub struct ExDashMap<K, V, S>(dashmap::DashMap<K, V, S>);

/// The store type: a concurrent map from fingerprint to cached render.
pub type CacheMap = dashmap::DashMap<u64, CacheSlot>;

/// What the store holds: a map from fingerprint to cached render.
pub uninterp spec fn cache_entries(m: CacheMap) -> Map<u64, CacheSlotV>;

/// Relies on dashmap::DashMap::new: creates an empty map.
#[verifier::external_body]
pub fn cache_map_new() -> (r: CacheMap)
    ensures
        forall|k: u64| !cache_entries(r).contains_key(k),
{
    dashmap::DashMap::new()
}

/// Relies on dashmap::DashMap::insert: binds the key to the value,
/// replacing any previous binding of that key.
#[verifier::external_body]
pub fn cache_map_insert(m: &mut CacheMap, k: u64, v: CacheSlot)
    ensures
        cache_entries(*final(m)) == cache_entries(*old(m)).insert(k, v@),
{
    m.insert(k, v);
}

/// Relies on dashmap::DashMap::get: returns the value bound to the key when
/// one exists, and nothing otherwise.
#[verifier::external_body]
pub fn cache_map_get(m: &CacheMap, k: u64) -> (r: Option<CacheSlot>)
    ensures
        match r {
            Some(v) => cache_entries(*m).contains_key(k) && v@ == cache_entries(*m)[k],
            None => !cache_entries(*m).contains_key(k),
        },
{
    m.get(&k).map(|e| e.value().clone())
}

} // verus!
