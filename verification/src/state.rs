//! The data the handlers share: the dataset items and the read-through
//! cache of CRUD responses.
use vstd::prelude::*;

use std::collections::hash_map::RandomState;

use dashmap::DashMap;

verus! {

/// One item of the dataset served by `/json/:count`.
#[derive(Debug, Clone)]
pub struct Item {
    pub id: u32,
    pub name: String,
    pub category: String,
    pub price: u32,
    pub quantity: u32,
    pub active: bool,
    pub tags: Vec<String>,
    pub rating: Rating,
}

/// An item's rating.
#[derive(Debug, Clone, Copy)]
pub struct Rating {
    pub score: u32,
    pub count: u32,
}

// ── the CRUD read cache ─────────────────────────────────────────────────────

/// A cached response body and the instant (in nanoseconds on the server's
/// monotonic clock) until which it may be served.
pub struct CacheEntry {
    pub body: Vec<u8>,
    pub expires: u64,
}

/// How long a cached CRUD read stays fresh: 200 ms.
pub const CRUD_CACHE_TTL: u64 = 200000000;

#[verifier::external_type_specification]
#[verifier::external_body]
#[verifier::reject_recursive_types(K)]
#[verifier::reject_recursive_types(V)]
#[verifier::reject_recursive_types(S)]
pub struct ExDashMap<K, V, S>(DashMap<K, V, S>);

/// The map under the CRUD cache.
pub type CacheMap = DashMap<i32, CacheEntry, RandomState>;

/// What a cache map holds: for each id, the cached body and its expiry.
pub uninterp spec fn cache_contents(m: CacheMap) -> Map<
    i32,
    (Seq<u8>, u64),
>;

/// Nothing cached.
pub open spec fn empty_cache() -> Map<i32, (Seq<u8>, u64)> {
    Map::empty()
}

/// `DashMap::new`: an empty map.
#[verifier::external_body]
fn cache_map_new() -> (m: CacheMap)
    ensures
        cache_contents(m) == empty_cache(),
{
    DashMap::new()
}

/// `DashMap::get`, with the entry found copied out of the map.
#[verifier::external_body]
fn cache_map_get(m: &CacheMap, id: i32) -> (r: Option<CacheEntry>)
    ensures
        match r {
            Some(e) => cache_contents(*m).contains_key(id) && cache_contents(*m)[id] == (
                e.body@,
                e.expires,
            ),
            None => !cache_contents(*m).contains_key(id),
        },
{
    m.get(&id).map(|e| CacheEntry { body: e.body.clone(), expires: e.expires })
}

/// `DashMap::insert`: `id` now maps to `entry`, replacing what was there.
#[verifier::external_body]
fn cache_map_insert(m: &mut CacheMap, id: i32, entry: CacheEntry)
    ensures
        cache_contents(*final(m)) == cache_contents(*old(m)).insert(id, (entry.body@, entry.expires)),
{
    m.insert(id, entry);
}

/// `DashMap::remove`: `id` no longer maps to anything.
#[verifier::external_body]
fn cache_map_remove(m: &mut CacheMap, id: i32)
    ensures
        cache_contents(*final(m)) == cache_contents(*old(m)).remove(id),
{
    m.remove(&id);
}

/// The body cached for `id` in `v`, if it is still fresh at `now`.
pub open spec fn cache_hit(v: Map<i32, (Seq<u8>, u64)>, id: i32, now: u64) -> Option<Seq<u8>> {
    if v.contains_key(id) && v[id].1 > now {
        Some(v[id].0)
    } else {
        None
    }
}

/// The read-through cache of serialized CRUD items, keyed by item id.
pub struct CrudCache {
    entries: CacheMap,
}

impl CrudCache {
    /// For each cached id, its body and expiry.
    pub closed spec fn view(&self) -> Map<i32, (Seq<u8>, u64)> {
        cache_contents(self.entries)
    }

    /// An empty cache.
    pub fn new() -> (c: CrudCache)
        ensures
            c.view() == empty_cache(),
    {
        CrudCache { entries: cache_map_new() }
    }

    /// The cached body for `id` if it is still fresh at `now`, that is, if
    /// it expires strictly after `now`.
    pub fn lookup(&self, id: i32, now: u64) -> (r: Option<Vec<u8>>)
        ensures
            match r {
                Some(body) => cache_hit(self.view(), id, now) == Some(body@),
                None => cache_hit(self.view(), id, now) is None,
            },
    {
        match cache_map_get(&self.entries, id) {
            Some(e) => {
                if e.expires > now {
                    Some(e.body)
                } else {
                    None
                }
            },
            None => None,
        }
    }

    /// Caches `body` for `id`, fresh until `CRUD_CACHE_TTL` after `now`.
    pub fn store(&mut self, id: i32, body: Vec<u8>, now: u64)
        requires
            now <= u64::MAX - CRUD_CACHE_TTL,
        ensures
            final(self).view() == old(self).view().insert(id, (body@, (now + CRUD_CACHE_TTL) as u64)),
    {
        let entry = CacheEntry { body, expires: now + CRUD_CACHE_TTL };
        cache_map_insert(&mut self.entries, id, entry);
    }

    /// Drops whatever is cached for `id`.
    pub fn invalidate(&mut self, id: i32)
        ensures
            final(self).view() == old(self).view().remove(id),
    {
        cache_map_remove(&mut self.entries, id);
    }
}

/// A body just stored is served until its time to live has passed, and not
/// after.
pub proof fn law_cache_read_after_store(
    v: Map<i32, (Seq<u8>, u64)>,
    id: i32,
    body: Seq<u8>,
    now: u64,
    later: u64,
)
    requires
        now <= u64::MAX - CRUD_CACHE_TTL,
        now <= later,
    ensures
        later < now + CRUD_CACHE_TTL ==> cache_hit(
            v.insert(id, (body, (now + CRUD_CACHE_TTL) as u64)),
            id,
            later,
        ) == Some(body),
        later >= now + CRUD_CACHE_TTL ==> cache_hit(
            v.insert(id, (body, (now + CRUD_CACHE_TTL) as u64)),
            id,
            later,
        ) is None,
{
}

/// After an id is invalidated nothing is served for it.
pub proof fn law_cache_invalidate_misses(v: Map<i32, (Seq<u8>, u64)>, id: i32, now: u64)
    ensures
        cache_hit(v.remove(id), id, now) is None,
{
}

/// Storing or invalidating one id leaves what is served for the others.
pub proof fn law_cache_other_ids_unchanged(
    v: Map<i32, (Seq<u8>, u64)>,
    id: i32,
    other: i32,
    entry: (Seq<u8>, u64),
    now: u64,
)
    requires
        id != other,
    ensures
        cache_hit(v.insert(id, entry), other, now) == cache_hit(v, other, now),
        cache_hit(v.remove(id), other, now) == cache_hit(v, other, now),
{
}

} // verus!
