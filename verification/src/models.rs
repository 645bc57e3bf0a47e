//! Data model of the track catalog: the records returned by the remote
//! tracks API, the shape a track takes inside this client, and the blob
//! that the catalog cache persists.

use vstd::prelude::*;
use vstd::string::StringExecFns;

verus! {

/// One album-art image offered by the remote API, with its optional
/// dimensions in pixels.
pub struct Image {
    pub url: String,
    pub width: Option<i32>,
    pub height: Option<i32>,
}

/// An artist credited on a track.
pub struct Artist {
    pub name: String,
}

/// The album a track belongs to; only its artwork is used here.
pub struct Album {
    pub images: Vec<Image>,
}

/// A track record as the remote API returns it.
pub struct Track {
    pub name: String,
    pub artists: Vec<Artist>,
    pub album: Album,
    pub duration_ms: i32,
    pub uri: String,
}

/// One entry of a saved-tracks page.
pub struct SavedTrack {
    pub track: Track,
}

/// One page of the saved-tracks listing: its entries and the size of the
/// user's entire collection.
pub struct SavedTracksResponse {
    pub items: Vec<SavedTrack>,
    pub total: i32,
}

/// The user's profile, as far as this client reads it.
pub struct UserProfile {
    pub display_name: Option<String>,
}

/// The current playback state of the player.
pub struct CurrentPlaybackResponse {
    pub item: Option<Track>,
    pub is_playing: bool,
    pub progress_ms: i32,
}

/// The player's shuffle state.
pub struct PlayerStateResponse {
    pub shuffle_state: bool,
}

/// A playback device known to the remote service.
pub struct Device {
    pub id: String,
    pub name: String,
    pub is_active: bool,
}

/// The list of playback devices.
pub struct DevicesResponse {
    pub devices: Vec<Device>,
}

/// Whether any known playback device is currently active.
pub fn has_active_devices(devices: &DevicesResponse) -> (r: bool)
    ensures
        r == exists|i: int|
            0 <= i < devices.devices@.len() && (#[trigger] devices.devices@[i]).is_active,
{
    let mut i: usize = 0;
    while i < devices.devices.len()
        invariant
            i <= devices.devices@.len(),
            forall|j: int| 0 <= j < i ==> !(#[trigger] devices.devices@[j]).is_active,
        decreases devices.devices@.len() - i,
    {
        if devices.devices[i].is_active {
            return true;
        }
        i = i + 1;
    }
    false
}

/// A track in the shape this client keeps it: display fields only,
/// derived from a [`SavedTrack`] once and immutable afterwards.
pub struct CatalogTrack {
    pub title: String,
    pub artist_display: String,
    pub art_url: String,
    pub play_uri: String,
}

/// Mathematical value of a [`CatalogTrack`]: its four fields as
/// character sequences.
pub struct TrackView {
    pub title: Seq<char>,
    pub artist_display: Seq<char>,
    pub art_url: Seq<char>,
    pub play_uri: Seq<char>,
}

impl View for CatalogTrack {
    type V = TrackView;

    open spec fn view(&self) -> TrackView {
        TrackView {
            title: self.title@,
            artist_display: self.artist_display@,
            art_url: self.art_url@,
            play_uri: self.play_uri@,
        }
    }
}

/// The views of a sequence of catalog tracks.
pub open spec fn tracks_view(s: Seq<CatalogTrack>) -> Seq<TrackView> {
    s.map_values(|t: CatalogTrack| t@)
}

/// The cached catalog as persisted: the complete known track list, the
/// collection's total size, and the time of the write.
pub struct StoredTracks {
    pub tracks: Vec<CatalogTrack>,
    pub total: i32,
    pub timestamp: u64,
}

/// Mathematical value of a [`StoredTracks`] blob.
pub struct StoredView {
    pub tracks: Seq<TrackView>,
    pub total: int,
    pub timestamp: int,
}

impl View for StoredTracks {
    type V = StoredView;

    open spec fn view(&self) -> StoredView {
        StoredView {
            tracks: tracks_view(self.tracks@),
            total: self.total as int,
            timestamp: self.timestamp as int,
        }
    }
}

/// The separator written between artist names.
pub open spec fn name_separator() -> Seq<char> {
    seq![',', ' ']
}

/// The names of a list of artists, joined by `", "`.
pub open spec fn join_names(names: Seq<Seq<char>>) -> Seq<char>
    decreases names.len(),
{
    if names.len() == 0 {
        Seq::empty()
    } else if names.len() == 1 {
        names[0]
    } else {
        names[0] + name_separator() + join_names(names.drop_first())
    }
}

/// The name sequences of a sequence of artists.
pub open spec fn artist_names(s: Seq<Artist>) -> Seq<Seq<char>> {
    s.map_values(|a: Artist| a.name@)
}

/// Joining one more name appends a separator and the name, unless the
/// list was empty.
proof fn lemma_join_push(names: Seq<Seq<char>>, x: Seq<char>)
    ensures
        join_names(names.push(x)) == if names.len() == 0 {
            x
        } else {
            join_names(names) + name_separator() + x
        },
    decreases names.len(),
{
    if names.len() == 0 {
        assert(names.push(x).len() == 1);
        assert(names.push(x)[0] == x);
    } else if names.len() == 1 {
        assert(names.push(x).drop_first() =~= seq![x]);
        assert(join_names(seq![x]) == x);
        assert(names.push(x)[0] == names[0]);
        assert(join_names(names.push(x)) == names[0] + name_separator() + x);
    } else {
        assert(names.push(x).drop_first() =~= names.drop_first().push(x));
        lemma_join_push(names.drop_first(), x);
        assert(names[0] + name_separator() + (join_names(names.drop_first()) + name_separator()
            + x) =~= (names[0] + name_separator() + join_names(names.drop_first()))
            + name_separator() + x);
    }
}

/// Builds the display string for a track's artists: their names joined
/// by `", "`, in order.
pub fn artists_display(artists: &Vec<Artist>) -> (r: String)
    ensures
        r@ == join_names(artist_names(artists@)),
{
    let ghost names = artist_names(artists@);
    let mut r = String::new();
    let mut i: usize = 0;
    proof {
        assert(names.take(0) =~= Seq::<Seq<char>>::empty());
    }
    while i < artists.len()
        invariant
            i <= artists.len(),
            names == artist_names(artists@),
            names.len() == artists@.len(),
            r@ == join_names(names.take(i as int)),
        decreases artists.len() - i,
    {
        if i > 0 {
            r.append(", ");
            proof {
                reveal_strlit(", ");
                assert(", "@ =~= name_separator());
            }
        }
        r.append(artists[i].name.as_str());
        proof {
            assert(names.take(i + 1).drop_last() =~= names.take(i as int));
            assert(names.take(i + 1) == names.take(i as int).push(names[i as int]));
            lemma_join_push(names.take(i as int), names[i as int]);
        }
        i = i + 1;
    }
    proof {
        assert(names.take(artists@.len() as int) =~= names);
    }
    r
}

/// The sort key the smallest-thumbnail choice uses: an image's width,
/// with unknown widths ranked last.
pub open spec fn image_key(img: Image) -> int {
    match img.width {
        Some(w) => w as int,
        None => i32::MAX as int,
    }
}

/// Index of the first image of minimal key among `s`, scanning from
/// `i` with `b` the best index seen so far.
pub open spec fn first_min_from(s: Seq<Image>, i: int, b: int) -> int
    decreases s.len() - i,
{
    if i < 0 || i >= s.len() {
        b
    } else if image_key(s[i]) < image_key(s[b]) {
        first_min_from(s, i + 1, i)
    } else {
        first_min_from(s, i + 1, b)
    }
}

/// Index of the first image of minimal width.
pub open spec fn first_min_idx(s: Seq<Image>) -> int {
    first_min_from(s, 1, 0)
}

/// The chosen album-art URL: that of the narrowest image, or empty when
/// the album carries no images.
pub open spec fn smallest_url(imgs: Seq<Image>) -> Seq<char> {
    if imgs.len() == 0 {
        Seq::empty()
    } else {
        imgs[first_min_idx(imgs)].url@
    }
}

/// Picks the URL of the image with minimal width, defaulting to the
/// empty string when there are no images; ties keep the earliest image.
pub fn smallest_image_url(images: &Vec<Image>) -> (r: String)
    ensures
        r@ == smallest_url(images@),
{
    if images.len() == 0 {
        let r = String::new();
        proof {
            assert(r@ =~= smallest_url(images@));
        }
        return r;
    }
    let ghost s = images@;
    let mut best: usize = 0;
    let mut i: usize = 1;
    while i < images.len()
        invariant
            1 <= i <= s.len(),
            0 <= best < i,
            s == images@,
            first_min_from(s, i as int, best as int) == first_min_idx(s),
        decreases images.len() - i,
    {
        let key_i = match images[i].width {
            Some(w) => w,
            None => i32::MAX,
        };
        let key_b = match images[best].width {
            Some(w) => w,
            None => i32::MAX,
        };
        if key_i < key_b {
            best = i;
        }
        i = i + 1;
    }
    images[best].url.clone()
}

/// Derives the client-side shape of one saved track: title, the artist
/// names joined by `", "`, the smallest album image's URL, and the play
/// URI.
pub open spec fn item_view(it: SavedTrack) -> TrackView {
    TrackView {
        title: it.track.name@,
        artist_display: join_names(artist_names(it.track.artists@)),
        art_url: smallest_url(it.track.album.images@),
        play_uri: it.track.uri@,
    }
}

/// The catalog tracks one page contributes, in page order.
pub open spec fn page_views(items: Seq<SavedTrack>) -> Seq<TrackView> {
    items.map_values(|it: SavedTrack| item_view(it))
}

/// Builds the catalog record of one saved track.
pub fn track_of_item(item: &SavedTrack) -> (t: CatalogTrack)
    ensures
        t@ == item_view(*item),
{
    CatalogTrack {
        title: item.track.name.clone(),
        artist_display: artists_display(&item.track.artists),
        art_url: smallest_image_url(&item.track.album.images),
        play_uri: item.track.uri.clone(),
    }
}

/// Transforms a whole page into catalog tracks, keeping the page's
/// order.
pub fn tracks_from_page(page: &SavedTracksResponse) -> (ts: Vec<CatalogTrack>)
    ensures
        tracks_view(ts@) == page_views(page.items@),
{
    let mut ts: Vec<CatalogTrack> = Vec::new();
    let mut i: usize = 0;
    while i < page.items.len()
        invariant
            i <= page.items@.len(),
            tracks_view(ts@) =~= page_views(page.items@.take(i as int)),
        decreases page.items.len() - i,
    {
        let t = track_of_item(&page.items[i]);
        let ghost ts_old = ts@;
        ts.push(t);
        proof {
            assert(tracks_view(ts@) =~= tracks_view(ts_old).push(t@));
            assert(page_views(page.items@.take(i + 1)) =~= page_views(
                page.items@.take(i as int),
            ).push(item_view(page.items@[i as int])));
        }
        i = i + 1;
    }
    proof {
        assert(page.items@.take(page.items@.len() as int) =~= page.items@);
    }
    ts
}

/// Copies one catalog track field by field.
pub fn duplicate_track(t: &CatalogTrack) -> (r: CatalogTrack)
    ensures
        r@ == t@,
{
    CatalogTrack {
        title: t.title.clone(),
        artist_display: t.artist_display.clone(),
        art_url: t.art_url.clone(),
        play_uri: t.play_uri.clone(),
    }
}

/// Copies a track list, preserving order and contents.
pub fn duplicate_tracks(v: &Vec<CatalogTrack>) -> (r: Vec<CatalogTrack>)
    ensures
        tracks_view(r@) == tracks_view(v@),
{
    let mut r: Vec<CatalogTrack> = Vec::new();
    let mut i: usize = 0;
    while i < v.len()
        invariant
            i <= v@.len(),
            tracks_view(r@) =~= tracks_view(v@.take(i as int)),
        decreases v.len() - i,
    {
        let t = duplicate_track(&v[i]);
        let ghost r_old = r@;
        r.push(t);
        proof {
            assert(tracks_view(r@) =~= tracks_view(r_old).push(t@));
            assert(tracks_view(v@.take(i + 1)) =~= tracks_view(v@.take(i as int)).push(
                v@[i as int]@,
            ));
        }
        i = i + 1;
    }
    proof {
        assert(v@.take(v@.len() as int) =~= v@);
    }
    r
}

} // verus!
