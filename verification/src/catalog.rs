//! The track catalog loader: an incrementally growable, cache-backed,
//! ordered list of the user's saved tracks.
//!
//! Network transfers are suspension points and live outside this module.
//! The loader's decisions are plain functions: [`fetch_saved_tracks`] and
//! [`load_more_tracks`] serve from the cache where they can and otherwise
//! return a [`BatchPlan`] naming the page requests to issue; the caller
//! performs each request in order and feeds the outcome back through
//! [`apply_page_response`] or [`apply_page_failure`].

use vstd::prelude::*;
use vstd::math::min;
use crate::app_state::AppState;
use crate::models::CatalogTrack;
use crate::models::SavedTracksResponse;
use crate::models::StoredView;
use crate::models::TrackView;
use crate::models::duplicate_track;
use crate::models::page_views;
use crate::models::tracks_view;
use crate::storage::TrackStore;
use crate::storage::cache_fresh;
use crate::storage::load_tracks;
use crate::storage::save_tracks;

verus! {

/// The remote API serves at most this many tracks per page.
pub const API_PAGE_LIMIT: i32 = 50;

/// Why a page request failed.
#[derive(Clone, Copy, PartialEq, Eq, Structural, Debug)]
pub enum PageFailure {
    /// The request could not be sent or received.
    Transport,
    /// The credential was rejected; the session is over.
    Unauthorized,
    /// The page payload could not be understood.
    Malformed,
}

/// One page request the caller is asked to issue.
pub struct PageRequest {
    pub offset: usize,
    pub limit: i32,
}

/// The ordered page requests that cover one load operation, issued
/// strictly one after another.
pub struct BatchPlan {
    pub is_initial: bool,
    pub requests: Vec<PageRequest>,
}

/// How many tracks one load operation wants: the configured page size,
/// or everything still missing when the page size is at its maximum and
/// the total is known.
pub open spec fn desired_count(state: AppState) -> int {
    if state.tracks_per_load >= 1000 {
        match state.total_tracks {
            Some(t) => t - state.loaded_tracks_count,
            None => 1000,
        }
    } else {
        state.tracks_per_load as int
    }
}

/// The page requests that cover `desired` tracks from `start`: maximal
/// pages of 50, the last one trimmed.
pub open spec fn plan_requests_ok(reqs: Seq<PageRequest>, start: int, desired: int) -> bool {
    &&& reqs.len() == (desired + 49) / 50
    &&& forall|k: int|
        0 <= k < reqs.len() ==> (#[trigger] reqs[k]).offset == start + 50 * k && reqs[k].limit
            == min(50, desired - 50 * k)
}

/// Lays out the page requests for one load operation.
fn build_plan(start: usize, desired: i32, is_initial: bool) -> (p: BatchPlan)
    requires
        0 <= desired,
        start + desired <= usize::MAX,
    ensures
        p.is_initial == is_initial,
        plan_requests_ok(p.requests@, start as int, desired as int),
{
    let mut requests: Vec<PageRequest> = Vec::new();
    let mut remaining: i32 = desired;
    let mut k: usize = 0;
    while remaining > 0
        invariant
            0 <= remaining,
            remaining as int == if desired - 50 * k >= 0 {
                desired - 50 * k
            } else {
                0
            },
            requests@.len() == k,
            k <= (desired + 49) / 50,
            start + desired <= usize::MAX,
            forall|j: int|
                0 <= j < k ==> (#[trigger] requests@[j]).offset == start + 50 * j
                    && requests@[j].limit == min(50, desired - 50 * j),
        decreases remaining,
    {
        let limit: i32 = if remaining < API_PAGE_LIMIT {
            remaining
        } else {
            API_PAGE_LIMIT
        };
        assert(50 * k < desired);
        requests.push(PageRequest { offset: start + k * 50, limit });
        remaining = remaining - limit;
        k = k + 1;
    }
    proof {
        assert(k == (desired + 49) / 50);
    }
    BatchPlan { is_initial, requests }
}

/// The slice of a cached catalog that an initial fetch puts on screen:
/// its first `per_load` tracks, or all of them if there are fewer.
pub open spec fn initial_slice(c: StoredView, per_load: int) -> Seq<TrackView> {
    c.tracks.take(min(per_load, c.tracks.len() as int))
}

/// Whether the store holds a catalog that is fresh at `now`.
pub open spec fn store_hit(store: TrackStore, now: int) -> bool {
    store.slot is Some && cache_fresh(store.slot.unwrap()@.timestamp, now)
}

/// Begins a session's track fetch. The state is marked loading and its
/// visible list reset. A fresh cached catalog supplies the first page
/// worth of tracks without any network traffic and is re-persisted
/// verbatim (re-stamped); otherwise the call falls back to
/// [`load_more_tracks`] and usually hands back the page requests to
/// issue.
pub fn fetch_saved_tracks(state: &mut AppState, store: &mut TrackStore, now_ms: u64) -> (plan:
    Option<BatchPlan>)
    requires
        old(state).wf(),
        old(store).wf(),
    ensures
        final(state).wf(),
        final(store).wf(),
        final(state).show_tracks,
        *final(state) == (AppState {
            saved_tracks: final(state).saved_tracks,
            loaded_tracks_count: final(state).loaded_tracks_count,
            total_tracks: final(state).total_tracks,
            is_loading: final(state).is_loading,
            show_tracks: true,
            ..*old(state)
        }),
        store_hit(*old(store), now_ms as int) ==> {
            let c = old(store).slot.unwrap()@;
            &&& plan is None
            &&& tracks_view(final(state).saved_tracks@) == initial_slice(
                c,
                old(state).tracks_per_load as int,
            )
            &&& final(state).loaded_tracks_count as int == initial_slice(
                c,
                old(state).tracks_per_load as int,
            ).len()
            &&& final(state).total_tracks is Some
            &&& final(state).total_tracks.unwrap() as int == c.total
            &&& !final(state).is_loading
            &&& final(store).slot is Some
            &&& final(store).slot.unwrap()@ == (StoredView { timestamp: now_ms as int, ..c })
        },
        !store_hit(*old(store), now_ms as int) ==> {
            &&& final(store).slot is None
            &&& final(state).saved_tracks@.len() == 0
            &&& final(state).loaded_tracks_count == 0
            &&& final(state).total_tracks == old(state).total_tracks
            // Requests are owed unless the collection is known empty.
            &&& (plan is Some <==> old(state).total_tracks != Some(0i32))
            &&& plan is Some ==> {
                let p = plan.unwrap();
                &&& p.is_initial
                &&& plan_requests_ok(p.requests@, 0, desired_count(*final(state)))
                &&& final(state).is_loading
            }
            &&& plan is None ==> !final(state).is_loading
        },
{
    state.is_loading = true;
    state.show_tracks = true;
    state.loaded_tracks_count = 0;
    state.saved_tracks = Vec::new();
    match load_tracks(store, now_ms) {
        Some(stored) => {
            state.total_tracks = Some(stored.total);
            let k: usize = if (state.tracks_per_load as usize) < stored.tracks.len() {
                state.tracks_per_load as usize
            } else {
                stored.tracks.len()
            };
            let mut slice: Vec<CatalogTrack> = Vec::new();
            let mut i: usize = 0;
            while i < k
                invariant
                    i <= k <= stored.tracks@.len(),
                    tracks_view(slice@) =~= tracks_view(stored.tracks@).take(i as int),
                decreases k - i,
            {
                let t = duplicate_track(&stored.tracks[i]);
                let ghost slice_old = slice@;
                slice.push(t);
                proof {
                    assert(tracks_view(slice@) =~= tracks_view(slice_old).push(t@));
                    assert(tracks_view(stored.tracks@).take(i + 1) =~= tracks_view(
                        stored.tracks@,
                    ).take(i as int).push(stored.tracks@[i as int]@));
                }
                i = i + 1;
            }
            state.saved_tracks = slice;
            state.loaded_tracks_count = k as i32;
            state.is_loading = false;
            save_tracks(store, &stored.tracks, stored.total, now_ms);
            None
        },
        None => {
            let plan = load_more_tracks(state, store, now_ms, true);
            if plan.is_none() {
                state.is_loading = false;
            }
            plan
        },
    }
}

/// Loads the next batch of tracks. When all known tracks are already
/// loaded, nothing happens and no requests are made. When a fresh cache
/// still holds unconsumed tracks, the next slice is served from it (and
/// the cache re-persisted verbatim, re-stamped); otherwise the returned
/// plan names the page requests the caller must issue.
pub fn load_more_tracks(
    state: &mut AppState,
    store: &mut TrackStore,
    now_ms: u64,
    is_initial: bool,
) -> (plan: Option<BatchPlan>)
    requires
        old(state).wf(),
        old(store).wf(),
    ensures
        final(state).wf(),
        final(store).wf(),
        // Boundary: with every known track loaded there is nothing to do.
        old(state).total_tracks is Some && old(state).loaded_tracks_count
            >= old(state).total_tracks.unwrap() ==> {
            &&& plan is None
            &&& *final(state) == *old(state)
            &&& *final(store) == *old(store)
        },
        !(old(state).total_tracks is Some && old(state).loaded_tracks_count
            >= old(state).total_tracks.unwrap()) ==> *final(state) == (AppState {
            saved_tracks: final(state).saved_tracks,
            loaded_tracks_count: final(state).loaded_tracks_count,
            is_loading: final(state).is_loading,
            ..*old(state)
        }),
        !(old(state).total_tracks is Some && old(state).loaded_tracks_count
            >= old(state).total_tracks.unwrap()) && store_hit(*old(store), now_ms as int) && old(
            store,
        ).slot.unwrap()@.tracks.len() > old(state).loaded_tracks_count ==> {
            let c = old(store).slot.unwrap()@;
            let start = old(state).loaded_tracks_count as int;
            let end = min(start + desired_count(*old(state)), c.tracks.len() as int);
            &&& plan is None
            &&& tracks_view(final(state).saved_tracks@) == tracks_view(
                old(state).saved_tracks@,
            ) + c.tracks.subrange(start, end)
            &&& final(state).loaded_tracks_count == end
            &&& !final(state).is_loading
            &&& final(store).slot is Some
            &&& final(store).slot.unwrap()@ == (StoredView { timestamp: now_ms as int, ..c })
        },
        !(old(state).total_tracks is Some && old(state).loaded_tracks_count
            >= old(state).total_tracks.unwrap()) && !(store_hit(*old(store), now_ms as int) && old(
            store,
        ).slot.unwrap()@.tracks.len() > old(state).loaded_tracks_count) ==> {
            &&& plan is Some
            &&& plan.unwrap().is_initial == is_initial
            &&& plan_requests_ok(
                plan.unwrap().requests@,
                old(state).loaded_tracks_count as int,
                desired_count(*old(state)),
            )
            &&& final(state).saved_tracks@ == old(state).saved_tracks@
            &&& final(state).loaded_tracks_count == old(state).loaded_tracks_count
            &&& final(state).is_loading == old(state).is_loading
            &&& final(store).slot == if store_hit(*old(store), now_ms as int) {
                old(store).slot
            } else {
                Option::<crate::models::StoredTracks>::None
            }
        },
{
    // Boundary check: everything the collection holds is already loaded.
    if let Some(total) = state.total_tracks {
        if state.loaded_tracks_count >= total {
            return None;
        }
    }
    let desired: i32 = if state.tracks_per_load >= 1000 {
        match state.total_tracks {
            Some(total) => total - state.loaded_tracks_count,
            None => 1000,
        }
    } else {
        state.tracks_per_load
    };
    match load_tracks(store, now_ms) {
        Some(stored) => {
            let offset: usize = state.loaded_tracks_count as usize;
            if stored.tracks.len() > offset {
                // Serve the next slice from the cache, in index order.
                let end: usize = if offset + (desired as usize) < stored.tracks.len() {
                    offset + (desired as usize)
                } else {
                    stored.tracks.len()
                };
                let ghost saved_old = state.saved_tracks@;
                let mut batch: Vec<CatalogTrack> = Vec::new();
                let mut i: usize = offset;
                while i < end
                    invariant
                        offset <= i <= end <= stored.tracks@.len(),
                        tracks_view(batch@) =~= tracks_view(stored.tracks@).subrange(
                            offset as int,
                            i as int,
                        ),
                    decreases end - i,
                {
                    let t = duplicate_track(&stored.tracks[i]);
                    let ghost cur = batch@;
                    batch.push(t);
                    proof {
                        assert(tracks_view(batch@) =~= tracks_view(cur).push(t@));
                        assert(tracks_view(stored.tracks@).subrange(offset as int, i + 1)
                            =~= tracks_view(stored.tracks@).subrange(offset as int, i as int).push(
                            stored.tracks@[i as int]@,
                        ));
                    }
                    i = i + 1;
                }
                state.saved_tracks.append(&mut batch);
                proof {
                    assert(tracks_view(state.saved_tracks@) =~= tracks_view(saved_old)
                        + tracks_view(stored.tracks@).subrange(offset as int, end as int));
                }
                save_tracks(store, &stored.tracks, stored.total, now_ms);
                state.loaded_tracks_count = end as i32;
                state.is_loading = false;
                None
            } else {
                // The cache is exhausted; fall through to the network.
                Some(build_plan(offset, desired, is_initial))
            }
        },
        None => {
            let offset: usize = state.loaded_tracks_count as usize;
            Some(build_plan(offset, desired, is_initial))
        },
    }
}

/// Commits one successful page response: its tracks are appended in page
/// order, the collection total adopted, and the loaded count advanced.
/// When the last known track arrives, the complete list is persisted and
/// the loading flag cleared; otherwise the flag is cleared after an
/// initial load or the batch's final page, as the in-between pages of a
/// larger batch keep it untouched.
pub fn apply_page_response(
    state: &mut AppState,
    store: &mut TrackStore,
    page: &SavedTracksResponse,
    is_initial: bool,
    batch_index: usize,
    batch_count: usize,
    now_ms: u64,
)
    requires
        old(state).wf(),
        old(store).wf(),
        batch_index < batch_count,
        0 <= page.total,
        // The remote page contract: a page never reaches past the
        // collection's total.
        old(state).loaded_tracks_count + page.items@.len() <= page.total,
    ensures
        final(state).wf(),
        final(store).wf(),
        *final(state) == (AppState {
            saved_tracks: final(state).saved_tracks,
            loaded_tracks_count: final(state).loaded_tracks_count,
            total_tracks: final(state).total_tracks,
            is_loading: final(state).is_loading,
            ..*old(state)
        }),
        tracks_view(final(state).saved_tracks@) == tracks_view(old(state).saved_tracks@)
            + page_views(page.items@),
        final(state).loaded_tracks_count == old(state).loaded_tracks_count + page.items@.len(),
        final(state).total_tracks == Some(page.total),
        old(state).loaded_tracks_count + page.items@.len() >= page.total ==> {
            &&& final(store).slot is Some
            &&& final(store).slot.unwrap()@ == (StoredView {
                tracks: tracks_view(final(state).saved_tracks@),
                total: page.total as int,
                timestamp: now_ms as int,
            })
            &&& !final(state).is_loading
        },
        old(state).loaded_tracks_count + page.items@.len() < page.total ==> {
            &&& *final(store) == *old(store)
            &&& final(state).is_loading == (if is_initial || batch_index + 1 == batch_count {
                false
            } else {
                old(state).is_loading
            })
        },
{
    let mut batch = crate::models::tracks_from_page(page);
    let n: usize = batch.len();
    let ghost saved_old = state.saved_tracks@;
    state.saved_tracks.append(&mut batch);
    proof {
        assert(tracks_view(state.saved_tracks@) =~= tracks_view(saved_old) + page_views(
            page.items@,
        ));
    }
    state.total_tracks = Some(page.total);
    state.loaded_tracks_count = state.loaded_tracks_count + (n as i32);
    if state.loaded_tracks_count >= page.total {
        save_tracks(store, &state.saved_tracks, page.total, now_ms);
        state.is_loading = false;
    } else if is_initial || batch_index + 1 == batch_count {
        state.is_loading = false;
    }
}

/// Records a failed page request. The current load stops and the loading
/// flag clears; an authorization failure additionally ends the session,
/// returning the state to its unauthenticated shape, and tells the
/// caller to discard the stored credential.
pub fn apply_page_failure(state: &mut AppState, failure: PageFailure) -> (logout: bool)
    requires
        old(state).wf(),
    ensures
        final(state).wf(),
        logout == (failure == PageFailure::Unauthorized),
        failure == PageFailure::Unauthorized ==> {
            &&& *final(state) == (AppState {
                username: None,
                user_id: None,
                saved_tracks: final(state).saved_tracks,
                loaded_tracks_count: 0,
                total_tracks: None,
                is_loading: false,
                show_tracks: false,
                ..*old(state)
            })
            &&& final(state).saved_tracks@.len() == 0
        },
        failure != PageFailure::Unauthorized ==> *final(state) == (AppState {
            is_loading: false,
            ..*old(state)
        }),
{
    match failure {
        PageFailure::Unauthorized => {
            crate::app_state::reset_session(state);
            true
        },
        PageFailure::Transport | PageFailure::Malformed => {
            state.is_loading = false;
            false
        },
    }
}

/// What an HTTP status code means to this client.
#[derive(Clone, Copy, PartialEq, Eq, Structural, Debug)]
pub enum ResponseKind {
    /// A 2xx status with a body worth reading.
    Success,
    /// 204: the request succeeded and there is nothing to read.
    NoContent,
    /// 401: the credential was rejected.
    Unauthorized,
    /// Every other status.
    Failure,
}

/// The meaning of an HTTP status code: 401 ends the session, 204 carries
/// no body, any other 2xx is a success, and the rest are failures.
pub open spec fn status_kind(status: u16) -> ResponseKind {
    if status == 401 {
        ResponseKind::Unauthorized
    } else if status == 204 {
        ResponseKind::NoContent
    } else if 200 <= status < 300 {
        ResponseKind::Success
    } else {
        ResponseKind::Failure
    }
}

/// Sorts an HTTP status code into the cases the loader distinguishes.
pub fn classify_status(status: u16) -> (k: ResponseKind)
    ensures
        k == status_kind(status),
{
    if status == 401 {
        ResponseKind::Unauthorized
    } else if status == 204 {
        ResponseKind::NoContent
    } else if 200 <= status && status < 300 {
        ResponseKind::Success
    } else {
        ResponseKind::Failure
    }
}

/// Fetching the initial slice is idempotent. A successful cache-backed
/// [`fetch_saved_tracks`] re-persists the cached list verbatim,
/// re-stamped at the time of the call; this lemma states that the
/// re-stamped cache is still fresh at any later moment within the window
/// and yields the very same visible slice, loaded count and total, so a
/// second call observes exactly what the first one did.
pub proof fn lemma_fetch_initial_idempotent(c: StoredView, per_load: int, now1: int, now2: int)
    requires
        cache_fresh(c.timestamp, now1),
        cache_fresh(now1, now2),
    ensures
        cache_fresh((StoredView { timestamp: now1, ..c }).timestamp, now2),
        initial_slice(StoredView { timestamp: now1, ..c }, per_load) == initial_slice(c, per_load),
        (StoredView { timestamp: now1, ..c }).total == c.total,
{
}

/// One step of the ordering invariant. Every way of growing the list
/// appends the next contiguous slice of the network's natural order — a
/// page at `offset == loaded_count`, or the cache's `[loaded, end)`
/// range — so a list that is a prefix of the natural order stays one,
/// and once every track is in, the list equals the natural order
/// exactly. [`lemma_ordering_general`] carries this over whole
/// sessions.
pub proof fn lemma_ordering_invariant(natural: Seq<TrackView>, loaded: Seq<TrackView>, hi: int)
    requires
        loaded.len() <= hi <= natural.len(),
        loaded == natural.take(loaded.len() as int),
    ensures
        loaded + natural.subrange(loaded.len() as int, hi) == natural.take(hi),
        hi == natural.len() ==> loaded + natural.subrange(loaded.len() as int, hi) == natural,
{
    assert(loaded + natural.subrange(loaded.len() as int, hi) =~= natural.take(hi));
    if hi == natural.len() {
        assert(natural.take(hi) =~= natural);
    }
}

/// One growth of the in-memory list, in the shape every loader step
/// has: the next contiguous slice of the natural order is appended.
/// The ensures of [`load_more_tracks`] (cache path) and
/// [`apply_page_response`] (network path, called at
/// `offset == loaded_count`) guarantee exactly this of every step that
/// changes the list.
pub open spec fn appends_next_slice(
    before: Seq<TrackView>,
    after: Seq<TrackView>,
    natural: Seq<TrackView>,
) -> bool {
    exists|end: int|
        before.len() <= end <= natural.len() && after == before + natural.subrange(
            before.len() as int,
            end,
        )
}

/// The ordering invariant over a whole session. For any sequence of
/// list states that starts empty and grows only by
/// [`appends_next_slice`] steps, every state is a prefix of the
/// network's natural page order, and a state that holds all `total`
/// tracks equals that order exactly — however cache hits and network
/// pages were interleaved.
pub proof fn lemma_ordering_general(natural: Seq<TrackView>, trace: Seq<Seq<TrackView>>)
    requires
        trace.len() > 0,
        trace[0].len() == 0,
        forall|k: int|
            0 <= k < trace.len() - 1 ==> appends_next_slice(
                #[trigger] trace[k],
                trace[k + 1],
                natural,
            ),
    ensures
        forall|k: int|
            0 <= k < trace.len() ==> (#[trigger] trace[k]) == natural.take(
                trace[k].len() as int,
            ),
        trace[trace.len() - 1].len() == natural.len() ==> trace[trace.len() - 1] == natural,
    decreases trace.len(),
{
    if trace.len() == 1 {
        assert(trace[0] =~= natural.take(0));
    } else {
        let front = trace.drop_last();
        assert(front[0].len() == 0);
        assert forall|k: int| 0 <= k < front.len() - 1 implies appends_next_slice(
            #[trigger] front[k],
            front[k + 1],
            natural,
        ) by {
            assert(front[k] == trace[k] && front[k + 1] == trace[k + 1]);
        }
        lemma_ordering_general(natural, front);
        let m = trace.len() - 2;
        assert(trace[m] == front[m]);
        assert(trace[m] == natural.take(trace[m].len() as int));
        assert(appends_next_slice(trace[m], trace[m + 1], natural));
        let end = choose|end: int|
            trace[m].len() <= end <= natural.len() && trace[m + 1] == trace[m] + natural.subrange(
                trace[m].len() as int,
                end,
            );
        lemma_ordering_invariant(natural, trace[m], end);
        assert(trace[m + 1] == natural.take(end));
        assert(trace[m + 1].len() == end);
        assert forall|k: int| 0 <= k < trace.len() implies (#[trigger] trace[k]) == natural.take(
            trace[k].len() as int,
        ) by {
            if k < trace.len() - 1 {
                assert(trace[k] == front[k]);
            }
        }
        if trace[trace.len() - 1].len() == natural.len() {
            assert(natural.take(natural.len() as int) =~= natural);
        }
    }
}

} // verus!
