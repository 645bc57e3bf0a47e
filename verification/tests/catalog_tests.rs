use rustify::app_state::AppState;
use rustify::app_state::apply_stored_hue_shift;
use rustify::app_state::apply_stored_page_size;
use rustify::app_state::apply_user_profile;
use rustify::app_state::get_user_id_from_state;
use rustify::app_state::reset_session;
use rustify::app_state::set_user_id;
use rustify::app_state::set_username;
use rustify::catalog::BatchPlan;
use rustify::catalog::PageFailure;
use rustify::catalog::ResponseKind;
use rustify::catalog::apply_page_failure;
use rustify::catalog::apply_page_response;
use rustify::catalog::classify_status;
use rustify::catalog::fetch_saved_tracks;
use rustify::catalog::load_more_tracks;
use rustify::models::Album;
use rustify::models::Artist;
use rustify::models::CatalogTrack;
use rustify::models::Device;
use rustify::models::DevicesResponse;
use rustify::models::UserProfile;
use rustify::models::has_active_devices;
use rustify::models::Image;
use rustify::models::SavedTrack;
use rustify::models::SavedTracksResponse;
use rustify::models::Track;
use rustify::models::artists_display;
use rustify::models::smallest_image_url;
use rustify::models::track_of_item;
use rustify::storage::CACHE_DURATION_MS;
use rustify::storage::TrackStore;
use rustify::storage::load_tracks;
use rustify::storage::save_tracks;

fn track(n: u32) -> CatalogTrack {
    CatalogTrack {
        title: format!("title{}", n),
        artist_display: format!("artist{}", n),
        art_url: format!("http://art/{}", n),
        play_uri: format!("spotify:track:{}", n),
    }
}

fn tracks(n: u32) -> Vec<CatalogTrack> {
    (0..n).map(track).collect()
}

fn titles(ts: &[CatalogTrack]) -> Vec<String> {
    ts.iter().map(|t| t.title.clone()).collect()
}

fn state_with_page_size(per_load: i32) -> AppState {
    let mut state = AppState::default();
    apply_stored_page_size(&mut state, Some(per_load));
    state
}

fn item(name: &str, artist_names: &[&str], image_widths: &[Option<i32>]) -> SavedTrack {
    SavedTrack {
        track: Track {
            name: name.to_string(),
            artists: artist_names
                .iter()
                .map(|a| Artist { name: a.to_string() })
                .collect(),
            album: Album {
                images: image_widths
                    .iter()
                    .enumerate()
                    .map(|(i, w)| Image {
                        url: format!("http://img/{}", i),
                        width: *w,
                        height: *w,
                    })
                    .collect(),
            },
            duration_ms: 1000,
            uri: format!("spotify:track:{}", name),
        },
    }
}

#[test]
fn artists_display_joins_names_with_comma() {
    let artists = vec![
        Artist { name: "Alpha".to_string() },
        Artist { name: "Beta".to_string() },
        Artist { name: "Gamma".to_string() },
    ];
    assert_eq!(artists_display(&artists), "Alpha, Beta, Gamma");
    let one = vec![Artist { name: "Solo".to_string() }];
    assert_eq!(artists_display(&one), "Solo");
    let none: Vec<Artist> = Vec::new();
    assert_eq!(artists_display(&none), "");
}

#[test]
fn smallest_image_url_picks_minimum_width() {
    let images = vec![
        Image { url: "a".to_string(), width: Some(300), height: Some(300) },
        Image { url: "b".to_string(), width: Some(64), height: Some(64) },
        Image { url: "c".to_string(), width: None, height: None },
    ];
    assert_eq!(smallest_image_url(&images), "b");
}

#[test]
fn smallest_image_url_tie_keeps_first() {
    let images = vec![
        Image { url: "first".to_string(), width: Some(64), height: Some(64) },
        Image { url: "second".to_string(), width: Some(64), height: Some(64) },
    ];
    assert_eq!(smallest_image_url(&images), "first");
}

#[test]
fn smallest_image_url_defaults_to_empty() {
    let images: Vec<Image> = Vec::new();
    assert_eq!(smallest_image_url(&images), "");
}

#[test]
fn track_of_item_builds_display_fields() {
    let it = item("Song", &["A", "B"], &[Some(640), Some(64)]);
    let t = track_of_item(&it);
    assert_eq!(t.title, "Song");
    assert_eq!(t.artist_display, "A, B");
    assert_eq!(t.art_url, "http://img/1");
    assert_eq!(t.play_uri, "spotify:track:Song");
}

#[test]
fn cache_fresh_at_exact_window_edge() {
    let mut store = TrackStore::empty();
    save_tracks(&mut store, &tracks(3), 3, 1000);
    // Exactly 24 hours later the entry is still served.
    let r = load_tracks(&mut store, 1000 + CACHE_DURATION_MS);
    assert!(r.is_some());
    assert!(store.slot.is_some());
}

#[test]
fn cache_expired_one_ms_past_window_is_evicted() {
    let mut store = TrackStore::empty();
    save_tracks(&mut store, &tracks(3), 3, 1000);
    // One millisecond past the window: a miss, and the slot is evicted.
    let r = load_tracks(&mut store, 1000 + CACHE_DURATION_MS + 1);
    assert!(r.is_none());
    assert!(store.slot.is_none());
}

#[test]
fn load_tracks_returns_stored_content() {
    let mut store = TrackStore::empty();
    save_tracks(&mut store, &tracks(4), 9, 500);
    let r = load_tracks(&mut store, 600).expect("fresh cache");
    assert_eq!(r.total, 9);
    assert_eq!(r.timestamp, 500);
    assert_eq!(titles(&r.tracks), titles(&tracks(4)));
}

#[test]
fn fetch_initial_serves_first_page_from_cache() {
    let mut state = state_with_page_size(10);
    let mut store = TrackStore::empty();
    save_tracks(&mut store, &tracks(15), 15, 1000);
    let plan = fetch_saved_tracks(&mut state, &mut store, 2000);
    assert!(plan.is_none());
    assert_eq!(state.loaded_tracks_count, 10);
    assert_eq!(state.total_tracks, Some(15));
    assert!(!state.is_loading);
    assert!(state.show_tracks);
    assert_eq!(titles(&state.saved_tracks), titles(&tracks(15)[..10]));
    // The full cached list was re-persisted verbatim, re-stamped.
    let slot = store.slot.as_ref().expect("cache kept");
    assert_eq!(slot.tracks.len(), 15);
    assert_eq!(slot.timestamp, 2000);
}

#[test]
fn fetch_initial_twice_with_cache_is_idempotent() {
    let mut state = state_with_page_size(10);
    let mut store = TrackStore::empty();
    save_tracks(&mut store, &tracks(15), 15, 1000);
    assert!(fetch_saved_tracks(&mut state, &mut store, 2000).is_none());
    let first = (
        state.loaded_tracks_count,
        state.total_tracks,
        titles(&state.saved_tracks),
    );
    assert!(fetch_saved_tracks(&mut state, &mut store, 3000).is_none());
    let second = (
        state.loaded_tracks_count,
        state.total_tracks,
        titles(&state.saved_tracks),
    );
    assert_eq!(first, second);
}

#[test]
fn load_more_at_total_is_a_no_op() {
    let mut state = state_with_page_size(10);
    let mut store = TrackStore::empty();
    save_tracks(&mut store, &tracks(8), 8, 1000);
    assert!(fetch_saved_tracks(&mut state, &mut store, 1000).is_none());
    assert_eq!(state.loaded_tracks_count, 8);
    let before_titles = titles(&state.saved_tracks);
    let before_slot_stamp = store.slot.as_ref().unwrap().timestamp;
    // Everything is loaded: no network request, no state change.
    let plan = load_more_tracks(&mut state, &mut store, 5000, false);
    assert!(plan.is_none());
    assert_eq!(state.loaded_tracks_count, 8);
    assert_eq!(titles(&state.saved_tracks), before_titles);
    assert_eq!(store.slot.as_ref().unwrap().timestamp, before_slot_stamp);
}

#[test]
fn load_more_slices_cache_in_index_order() {
    let mut state = state_with_page_size(10);
    let mut store = TrackStore::empty();
    save_tracks(&mut store, &tracks(25), 25, 1000);
    assert!(fetch_saved_tracks(&mut state, &mut store, 1000).is_none());
    assert_eq!(state.loaded_tracks_count, 10);
    assert!(load_more_tracks(&mut state, &mut store, 1100, false).is_none());
    assert_eq!(state.loaded_tracks_count, 20);
    assert!(load_more_tracks(&mut state, &mut store, 1200, false).is_none());
    assert_eq!(state.loaded_tracks_count, 25);
    // The in-memory list equals the cache's natural order exactly.
    assert_eq!(titles(&state.saved_tracks), titles(&tracks(25)));
}

#[test]
fn load_more_without_cache_plans_network_pages() {
    let mut state = state_with_page_size(120);
    let mut store = TrackStore::empty();
    let plan: BatchPlan = load_more_tracks(&mut state, &mut store, 1000, true).expect("plan");
    assert!(plan.is_initial);
    assert_eq!(plan.requests.len(), 3);
    let offsets: Vec<usize> = plan.requests.iter().map(|r| r.offset).collect();
    let limits: Vec<i32> = plan.requests.iter().map(|r| r.limit).collect();
    assert_eq!(offsets, vec![0, 50, 100]);
    assert_eq!(limits, vec![50, 50, 20]);
}

#[test]
fn load_more_max_page_size_requests_all_remaining() {
    let mut state = state_with_page_size(1000);
    state.total_tracks = Some(130);
    let mut store = TrackStore::empty();
    let plan = load_more_tracks(&mut state, &mut store, 1000, false).expect("plan");
    assert_eq!(plan.requests.len(), 3);
    assert_eq!(plan.requests[2].offset, 100);
    assert_eq!(plan.requests[2].limit, 30);
}

#[test]
fn apply_page_response_appends_in_page_order() {
    let mut state = state_with_page_size(10);
    state.is_loading = true;
    let mut store = TrackStore::empty();
    let page = SavedTracksResponse {
        items: vec![item("one", &["A"], &[]), item("two", &["B"], &[])],
        total: 4,
    };
    apply_page_response(&mut state, &mut store, &page, true, 0, 1, 1000);
    assert_eq!(state.loaded_tracks_count, 2);
    assert_eq!(state.total_tracks, Some(4));
    assert_eq!(titles(&state.saved_tracks), vec!["one", "two"]);
    // Not yet complete: nothing persisted, but the initial load clears
    // the flag.
    assert!(store.slot.is_none());
    assert!(!state.is_loading);
}

#[test]
fn apply_page_response_persists_on_completion() {
    let mut state = state_with_page_size(10);
    state.is_loading = true;
    let mut store = TrackStore::empty();
    let page = SavedTracksResponse {
        items: vec![item("one", &["A"], &[]), item("two", &["B"], &[])],
        total: 2,
    };
    apply_page_response(&mut state, &mut store, &page, false, 0, 1, 1234);
    assert_eq!(state.loaded_tracks_count, 2);
    assert!(!state.is_loading);
    let slot = store.slot.as_ref().expect("persisted");
    assert_eq!(slot.total, 2);
    assert_eq!(slot.timestamp, 1234);
    assert_eq!(slot.tracks.len(), 2);
    assert_eq!(slot.tracks[0].title, "one");
}

#[test]
fn apply_page_failure_unauthorized_logs_out() {
    let mut state = state_with_page_size(10);
    set_username(&mut state, "user".to_string());
    set_user_id(&mut state, "id".to_string());
    state.is_loading = true;
    let logout = apply_page_failure(&mut state, PageFailure::Unauthorized);
    assert!(logout);
    assert!(state.username.is_none());
    assert!(state.user_id.is_none());
    assert_eq!(state.loaded_tracks_count, 0);
    assert!(state.saved_tracks.is_empty());
    assert!(!state.is_loading);
    assert!(!state.show_tracks);
}

#[test]
fn apply_page_failure_transport_only_clears_loading() {
    let mut state = state_with_page_size(10);
    set_username(&mut state, "user".to_string());
    state.saved_tracks = tracks(3);
    state.loaded_tracks_count = 3;
    state.is_loading = true;
    let logout = apply_page_failure(&mut state, PageFailure::Transport);
    assert!(!logout);
    assert_eq!(state.username.as_deref(), Some("user"));
    assert_eq!(state.loaded_tracks_count, 3);
    assert!(!state.is_loading);
    let logout2 = apply_page_failure(&mut state, PageFailure::Malformed);
    assert!(!logout2);
    assert_eq!(state.loaded_tracks_count, 3);
}

#[test]
fn classify_status_maps_codes() {
    assert_eq!(classify_status(401), ResponseKind::Unauthorized);
    assert_eq!(classify_status(204), ResponseKind::NoContent);
    assert_eq!(classify_status(200), ResponseKind::Success);
    assert_eq!(classify_status(299), ResponseKind::Success);
    assert_eq!(classify_status(300), ResponseKind::Failure);
    assert_eq!(classify_status(404), ResponseKind::Failure);
    assert_eq!(classify_status(500), ResponseKind::Failure);
}

#[test]
fn session_accessors_round_trip() {
    let mut state = AppState::default();
    assert!(get_user_id_from_state(&state).is_none());
    set_username(&mut state, "Somebody".to_string());
    set_user_id(&mut state, "uid42".to_string());
    assert_eq!(state.username.as_deref(), Some("Somebody"));
    assert_eq!(get_user_id_from_state(&state).as_deref(), Some("uid42"));
    reset_session(&mut state);
    assert!(state.username.is_none());
    assert!(get_user_id_from_state(&state).is_none());
}

#[test]
fn fetch_initial_with_expired_cache_plans_network_pages() {
    let mut state = state_with_page_size(10);
    let mut store = TrackStore::empty();
    save_tracks(&mut store, &tracks(15), 15, 1000);
    let now = 1000 + CACHE_DURATION_MS + 1;
    let plan = fetch_saved_tracks(&mut state, &mut store, now).expect("network plan");
    // The stale entry was evicted and the loader fell back to page
    // requests from offset 0.
    assert!(store.slot.is_none());
    assert!(plan.is_initial);
    assert_eq!(plan.requests[0].offset, 0);
    assert!(state.is_loading);
    assert_eq!(state.loaded_tracks_count, 0);
}

#[test]
fn network_pages_commit_in_offset_order_and_fill_the_cache() {
    let mut state = state_with_page_size(1000);
    let mut store = TrackStore::empty();
    // No cache: the initial fetch plans network pages from offset 0.
    let plan = fetch_saved_tracks(&mut state, &mut store, 1000).expect("network plan");
    assert!(plan.is_initial);
    assert_eq!(plan.requests[0].offset, 0);
    let batch_count = plan.requests.len();
    let page1 = SavedTracksResponse {
        items: vec![item("t0", &["A"], &[]), item("t1", &["A"], &[])],
        total: 4,
    };
    let page2 = SavedTracksResponse {
        items: vec![item("t2", &["A"], &[]), item("t3", &["A"], &[])],
        total: 4,
    };
    apply_page_response(&mut state, &mut store, &page1, true, 0, batch_count, 1000);
    assert_eq!(state.loaded_tracks_count, 2);
    apply_page_response(&mut state, &mut store, &page2, true, 1, batch_count, 1000);
    assert_eq!(state.loaded_tracks_count, 4);
    assert!(!state.is_loading);
    assert_eq!(titles(&state.saved_tracks), vec!["t0", "t1", "t2", "t3"]);
    // The complete list was persisted; a fresh session reads the same
    // order back from the cache alone.
    let mut state2 = state_with_page_size(1000);
    assert!(fetch_saved_tracks(&mut state2, &mut store, 2000).is_none());
    assert_eq!(titles(&state2.saved_tracks), vec!["t0", "t1", "t2", "t3"]);
    assert_eq!(state2.total_tracks, Some(4));
}

#[test]
fn user_profile_sets_username_when_present() {
    let mut state = AppState::default();
    apply_user_profile(&mut state, UserProfile { display_name: None });
    assert!(state.username.is_none());
    apply_user_profile(
        &mut state,
        UserProfile { display_name: Some("Listener".to_string()) },
    );
    assert_eq!(state.username.as_deref(), Some("Listener"));
    apply_user_profile(&mut state, UserProfile { display_name: None });
    assert_eq!(state.username.as_deref(), Some("Listener"));
}

#[test]
fn active_devices_are_detected() {
    let dev = |active: bool| Device {
        id: "d".to_string(),
        name: "n".to_string(),
        is_active: active,
    };
    assert!(!has_active_devices(&DevicesResponse { devices: vec![] }));
    assert!(!has_active_devices(&DevicesResponse { devices: vec![dev(false), dev(false)] }));
    assert!(has_active_devices(&DevicesResponse { devices: vec![dev(false), dev(true)] }));
}

#[test]
fn stored_hue_shift_falls_back_to_blue() {
    let mut state = AppState::default();
    assert_eq!(state.hue_shift, 0);
    apply_stored_hue_shift(&mut state, Some(120));
    assert_eq!(state.hue_shift, 120);
    apply_stored_hue_shift(&mut state, None);
    assert_eq!(state.hue_shift, 240);
}

#[test]
fn stored_page_size_falls_back_to_default() {
    let mut state = AppState::default();
    apply_stored_page_size(&mut state, Some(500));
    assert_eq!(state.tracks_per_load, 500);
    apply_stored_page_size(&mut state, Some(5));
    assert_eq!(state.tracks_per_load, 50);
    apply_stored_page_size(&mut state, Some(2000));
    assert_eq!(state.tracks_per_load, 50);
    apply_stored_page_size(&mut state, None);
    assert_eq!(state.tracks_per_load, 50);
}
