//! Shared application state: the loaded track list, the loading flags the
//! UI reads, and the user's display preferences. The state is passed
//! explicitly to the loader and the composer so callers can hold isolated
//! instances.

use vstd::prelude::*;
use crate::models::CatalogTrack;

verus! {

/// How a track listing is rendered.
#[derive(Clone, Copy, PartialEq, Eq, Structural)]
pub enum ViewMode {
    List,
    Grid,
}

/// Direction of the collage's color gradient.
#[derive(Clone, Copy, PartialEq, Eq, Structural)]
pub enum GradientDirection {
    Diagonal,
    Horizontal,
    Vertical,
}

/// Corner (or side) the collage's gradient starts from.
#[derive(Clone, Copy, PartialEq, Eq, Structural)]
pub enum StartingCorner {
    TopLeft,
    TopRight,
    BottomLeft,
    BottomRight,
}

/// Which kind of listing a list view shows.
#[derive(Clone, Copy, PartialEq, Eq, Structural)]
pub enum ListViewMode {
    Tracks,
    Playlists,
}

/// The page size a fresh state starts with.
pub const DEFAULT_TRACKS_PER_LOAD: i32 = 50;

/// Smallest configurable page size.
pub const MIN_TRACKS_PER_LOAD: i32 = 10;

/// Largest configurable page size; at this value a load fetches all
/// remaining tracks in one logical batch.
pub const MAX_TRACKS_PER_LOAD: i32 = 1000;

/// The state shared between the UI and the track catalog loader.
pub struct AppState {
    pub username: Option<String>,
    pub user_id: Option<String>,
    pub saved_tracks: Vec<CatalogTrack>,
    pub tracks_per_load: i32,
    pub loaded_tracks_count: i32,
    pub total_tracks: Option<i32>,
    pub is_loading: bool,
    pub show_tracks: bool,
    pub view_mode: ViewMode,
    pub search_text: String,
    pub collage_width: u32,
    pub collage_height: u32,
    pub hue_shift: u32,
    pub gradient_direction: GradientDirection,
    pub starting_corner: StartingCorner,
}

impl AppState {
    /// Well-formedness: the loaded count mirrors the in-memory list, the
    /// page size stays in its configurable range, and a known total is
    /// non-negative.
    pub open spec fn wf(&self) -> bool {
        &&& 0 <= self.loaded_tracks_count
        &&& self.loaded_tracks_count as int == self.saved_tracks@.len()
        &&& MIN_TRACKS_PER_LOAD <= self.tracks_per_load <= MAX_TRACKS_PER_LOAD
        &&& match self.total_tracks {
            Some(t) => 0 <= t,
            None => true,
        }
    }
}

impl Default for AppState {
    /// A fresh, logged-out state with default preferences.
    fn default() -> (s: Self)
        ensures
            s.wf(),
            s.username is None,
            s.user_id is None,
            s.saved_tracks@.len() == 0,
            s.tracks_per_load == DEFAULT_TRACKS_PER_LOAD,
            s.loaded_tracks_count == 0,
            s.total_tracks is None,
            !s.is_loading,
            !s.show_tracks,
            s.view_mode == ViewMode::List,
            s.search_text@.len() == 0,
            s.collage_width == 1920,
            s.collage_height == 1080,
            s.hue_shift == 0,
            s.gradient_direction == GradientDirection::Diagonal,
            s.starting_corner == StartingCorner::TopLeft,
    {
        AppState {
            username: None,
            user_id: None,
            saved_tracks: Vec::new(),
            tracks_per_load: DEFAULT_TRACKS_PER_LOAD,
            loaded_tracks_count: 0,
            total_tracks: None,
            is_loading: false,
            show_tracks: false,
            view_mode: ViewMode::List,
            search_text: String::new(),
            collage_width: 1920,
            collage_height: 1080,
            hue_shift: 0,
            gradient_direction: GradientDirection::Diagonal,
            starting_corner: StartingCorner::TopLeft,
        }
    }
}

/// Records the logged-in user's display name.
pub fn set_username(state: &mut AppState, name: String)
    ensures
        *final(state) == (AppState { username: Some(name), ..*old(state) }),
{
    state.username = Some(name);
}

/// Records the logged-in user's account id.
pub fn set_user_id(state: &mut AppState, id: String)
    ensures
        *final(state) == (AppState { user_id: Some(id), ..*old(state) }),
{
    state.user_id = Some(id);
}

/// Reads the logged-in user's account id, if one is known.
pub fn get_user_id_from_state(state: &AppState) -> (r: Option<String>)
    ensures
        r == state.user_id,
{
    match &state.user_id {
        Some(id) => Some(id.clone()),
        None => None,
    }
}

/// Applies the stored page-size preference: a value inside the
/// configurable range is adopted, anything else falls back to the
/// default.
pub fn apply_stored_page_size(state: &mut AppState, stored: Option<i32>)
    ensures
        *final(state) == (AppState {
            tracks_per_load: final(state).tracks_per_load,
            ..*old(state)
        }),
        final(state).tracks_per_load == (match stored {
            Some(v) => if MIN_TRACKS_PER_LOAD <= v <= MAX_TRACKS_PER_LOAD {
                v
            } else {
                DEFAULT_TRACKS_PER_LOAD
            },
            None => DEFAULT_TRACKS_PER_LOAD,
        }),
{
    state.tracks_per_load = match stored {
        Some(v) => if MIN_TRACKS_PER_LOAD <= v && v <= MAX_TRACKS_PER_LOAD {
            v
        } else {
            DEFAULT_TRACKS_PER_LOAD
        },
        None => DEFAULT_TRACKS_PER_LOAD,
    };
}

/// The hue shift a collage starts from when no preference is stored:
/// 240 degrees, the blue end of the gradient.
pub const DEFAULT_HUE_SHIFT: u32 = 240;

/// Applies the stored hue-shift preference: a stored value is adopted
/// as it is (the shift is taken modulo 360 degrees where it is used),
/// anything unreadable falls back to the default of 240 degrees.
pub fn apply_stored_hue_shift(state: &mut AppState, stored: Option<u32>)
    ensures
        *final(state) == (AppState { hue_shift: final(state).hue_shift, ..*old(state) }),
        final(state).hue_shift == (match stored {
            Some(v) => v,
            None => DEFAULT_HUE_SHIFT,
        }),
{
    state.hue_shift = match stored {
        Some(v) => v,
        None => DEFAULT_HUE_SHIFT,
    };
}

/// Adopts a fetched user profile: a present display name becomes the
/// signed-in username; a profile without one changes nothing.
pub fn apply_user_profile(state: &mut AppState, profile: crate::models::UserProfile)
    ensures
        *final(state) == (AppState { username: final(state).username, ..*old(state) }),
        final(state).username == (match profile.display_name {
            Some(name) => Some(name),
            None => old(state).username,
        }),
{
    match profile.display_name {
        Some(name) => state.username = Some(name),
        None => (),
    }
}

/// Returns the state to its unauthenticated shape: no user, no tracks,
/// nothing loading. Preferences are kept.
pub fn reset_session(state: &mut AppState)
    requires
        old(state).wf(),
    ensures
        *final(state) == (AppState {
            username: None,
            user_id: None,
            saved_tracks: final(state).saved_tracks,
            loaded_tracks_count: 0,
            total_tracks: None,
            is_loading: false,
            show_tracks: false,
            ..*old(state)
        }),
        final(state).saved_tracks@.len() == 0,
        final(state).wf(),
{
    state.username = None;
    state.user_id = None;
    state.saved_tracks = Vec::new();
    state.loaded_tracks_count = 0;
    state.total_tracks = None;
    state.is_loading = false;
    state.show_tracks = false;
}

/// The egui application shell; all of its state lives in [`AppState`].
pub struct SpotifyApp {
    pub show_player: bool,
}

impl Default for SpotifyApp {
    fn default() -> (s: Self)
        ensures
            !s.show_player,
    {
        SpotifyApp { show_player: false }
    }
}

} // verus!
