//! The single-slot catalog cache. One serialized blob lives under one
//! fixed key; it is fresh for 24 hours from the time of the last full
//! write, and a read of an expired entry evicts it and reports a miss.
//!
//! The slot itself is a plain value here; the surrounding application
//! moves it to and from its backing store.

use vstd::prelude::*;
use crate::models::CatalogTrack;
use crate::models::StoredTracks;
use crate::models::StoredView;
use crate::models::duplicate_tracks;
use crate::models::tracks_view;

verus! {

/// Milliseconds in the 24-hour window during which a cached catalog is
/// fresh.
pub const CACHE_DURATION_MS: u64 = 86400000;

/// A catalog written at `timestamp` may still be served at `now`.
pub open spec fn cache_fresh(timestamp: int, now: int) -> bool {
    now <= timestamp + CACHE_DURATION_MS
}

/// Whether a cache written at `timestamp` is still fresh at `now`.
pub fn is_cache_fresh(timestamp: u64, now: u64) -> (r: bool)
    ensures
        r == cache_fresh(timestamp as int, now as int),
{
    timestamp >= now || now - timestamp <= CACHE_DURATION_MS
}

/// The one cache slot the catalog is persisted in.
pub struct TrackStore {
    pub slot: Option<StoredTracks>,
}

impl TrackStore {
    /// The cached catalog, if any, respects the catalog invariant: it
    /// never claims more tracks than the collection's total.
    pub open spec fn wf(&self) -> bool {
        match self.slot {
            Some(c) => c@.tracks.len() <= c@.total,
            None => true,
        }
    }

    /// A store with nothing cached.
    pub fn empty() -> (r: TrackStore)
        ensures
            r.slot is None,
            r.wf(),
    {
        TrackStore { slot: None }
    }
}

/// Persists the complete known track list together with the collection
/// total, stamped with the time of the write. The previous slot content,
/// if any, is replaced.
pub fn save_tracks(store: &mut TrackStore, tracks: &Vec<CatalogTrack>, total: i32, now_ms: u64)
    requires
        tracks@.len() <= total,
    ensures
        final(store).wf(),
        final(store).slot matches Some(s) && s@ == (StoredView {
            tracks: tracks_view(tracks@),
            total: total as int,
            timestamp: now_ms as int,
        }),
{
    store.slot = Some(
        StoredTracks { tracks: duplicate_tracks(tracks), total, timestamp: now_ms },
    );
}

/// Reads the cached catalog. A fresh entry is returned and left in
/// place; an expired entry is evicted and reported as a miss.
pub fn load_tracks(store: &mut TrackStore, now_ms: u64) -> (r: Option<StoredTracks>)
    ensures
        old(store).slot is None ==> r is None && *final(store) == *old(store),
        old(store).slot is Some && cache_fresh(old(store).slot.unwrap()@.timestamp, now_ms as int)
            ==> {
            &&& r is Some
            &&& r.unwrap()@ == old(store).slot.unwrap()@
            &&& *final(store) == *old(store)
        },
        old(store).slot is Some && !cache_fresh(old(store).slot.unwrap()@.timestamp, now_ms as int)
            ==> {
            &&& r is None
            &&& final(store).slot is None
        },
{
    let expired = match &store.slot {
        Some(c) => !is_cache_fresh(c.timestamp, now_ms),
        None => false,
    };
    if expired {
        store.slot = None;
        return None;
    }
    match &store.slot {
        Some(c) => Some(
            StoredTracks {
                tracks: duplicate_tracks(&c.tracks),
                total: c.total,
                timestamp: c.timestamp,
            },
        ),
        None => None,
    }
}

} // verus!
