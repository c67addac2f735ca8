//! The data that grouping and selection work on, and their mathematical views.

use vstd::prelude::*;

verus! {

/// One track of a playlist, as far as grouping reads it.
#[derive(Debug, PartialEq, Eq)]
pub struct Track {
    /// The catalogue ID; absent for tracks the remote service cannot address.
    pub id: Option<String>,
    /// The ID of the album the track belongs to.
    pub album_id: Option<String>,
    /// The display name of that album.
    pub album_name: String,
    /// The playing time in milliseconds.
    pub duration_ms: u32,
}

/// What a [`Track`] stands for in contracts.
pub struct TrackView {
    pub id: Option<Seq<char>>,
    pub album_id: Option<Seq<char>>,
    pub album_name: Seq<char>,
    pub duration_ms: nat,
}

/// The text of an optional string.
pub open spec fn text_of(s: Option<String>) -> Option<Seq<char>> {
    match s {
        Some(s) => Some(s@),
        None => None,
    }
}

impl View for Track {
    type V = TrackView;

    open spec fn view(&self) -> TrackView {
        TrackView {
            id: text_of(self.id),
            album_id: text_of(self.album_id),
            album_name: self.album_name@,
            duration_ms: self.duration_ms as nat,
        }
    }
}

impl DeepView for Track {
    type V = TrackView;

    open spec fn deep_view(&self) -> TrackView {
        self@
    }
}

impl Clone for Track {
    fn clone(&self) -> (copy: Track)
        ensures
            copy@ == self@,
    {
        Track {
            id: clone_text(&self.id),
            album_id: clone_text(&self.album_id),
            album_name: self.album_name.clone(),
            duration_ms: self.duration_ms,
        }
    }
}

/// Copies an optional string.
fn clone_text(s: &Option<String>) -> (copy: Option<String>)
    ensures
        text_of(copy) == text_of(*s),
{
    match s {
        Some(s) => Some(s.clone()),
        None => None,
    }
}

/// A playlist of the user's library; its tracks are fetched separately.
#[derive(Clone, Debug, PartialEq, Eq)]
pub struct Playlist {
    /// The ID the remote service knows the playlist by.
    pub id: String,
    /// The display name.
    pub name: String,
}

/// What a [`Playlist`] stands for in contracts.
pub struct PlaylistView {
    pub id: Seq<char>,
    pub name: Seq<char>,
}

impl View for Playlist {
    type V = PlaylistView;

    open spec fn view(&self) -> PlaylistView {
        PlaylistView { id: self.id@, name: self.name@ }
    }
}

impl DeepView for Playlist {
    type V = PlaylistView;

    open spec fn deep_view(&self) -> PlaylistView {
        self@
    }
}

/// A run of tracks that is shuffled as one unit: an album, or a whole playlist
/// that plays like one.
#[derive(Clone, Debug, PartialEq, Eq)]
pub struct TrackGroup {
    /// A name for the group, usually the album's.
    pub name: String,
    /// The IDs of the member tracks, in playing order.
    pub track_ids: Vec<String>,
    /// The total playing time of the members in milliseconds.
    pub duration_ms: u128,
}

/// What a [`TrackGroup`] stands for in contracts.
pub struct TrackGroupView {
    pub name: Seq<char>,
    pub track_ids: Seq<Seq<char>>,
    pub duration_ms: nat,
}

impl View for TrackGroup {
    type V = TrackGroupView;

    open spec fn view(&self) -> TrackGroupView {
        TrackGroupView {
            name: self.name@,
            track_ids: self.track_ids.deep_view(),
            duration_ms: self.duration_ms as nat,
        }
    }
}

impl DeepView for TrackGroup {
    type V = TrackGroupView;

    open spec fn deep_view(&self) -> TrackGroupView {
        self@
    }
}

impl TrackGroup {
    /// A group has at least one member.
    pub open spec fn wf(&self) -> bool {
        self.track_ids@.len() > 0
    }
}

/// The total playing time of `tracks` in milliseconds.
pub open spec fn total_duration(tracks: Seq<TrackView>) -> nat
    decreases tracks.len(),
{
    if tracks.len() == 0 {
        0
    } else {
        total_duration(tracks.drop_last()) + tracks.last().duration_ms
    }
}

/// The IDs of `tracks`, in order. Meaningful where every track has one.
pub open spec fn ids_of(tracks: Seq<TrackView>) -> Seq<Seq<char>> {
    Seq::new(tracks.len(), |i: int| tracks[i].id.unwrap())
}

/// Every one of `tracks` has an ID.
pub open spec fn all_identified(tracks: Seq<TrackView>) -> bool {
    forall|i: int| 0 <= i < tracks.len() ==> (#[trigger] tracks[i]).id is Some
}

/// Every one of `tracks` names its album by ID.
pub open spec fn all_have_album(tracks: Seq<TrackView>) -> bool {
    forall|i: int| 0 <= i < tracks.len() ==> (#[trigger] tracks[i]).album_id is Some
}

/// Sums the playing time of `tracks`.
pub fn sum_durations(tracks: &[Track]) -> (total: u128)
    ensures
        total == total_duration(tracks.deep_view()),
{
    let mut total: u128 = 0;
    let mut i: usize = 0;
    while i < tracks.len()
        invariant
            i <= tracks.len(),
            total == total_duration(tracks.deep_view().take(i as int)),
            total <= i * u32::MAX,
        decreases tracks.len() - i,
    {
        assert(tracks.deep_view().take(i + 1).drop_last() =~= tracks.deep_view().take(i as int));
        assert(i * u32::MAX + u32::MAX <= usize::MAX * u32::MAX + u32::MAX) by (nonlinear_arith)
            requires
                i <= usize::MAX,
        ;
        total = total + tracks[i].duration_ms as u128;
        i = i + 1;
    }
    assert(tracks.deep_view().take(i as int) =~= tracks.deep_view());
    total
}

} // verus!
