//! The whole run: which playlists feed the shuffle, what playlist comes of
//! them, and where it is written.

use vstd::prelude::*;
use vstd::seq_lib::{to_multiset_build, to_multiset_contains, to_multiset_insert, to_multiset_len,
    to_multiset_remove};
use crate::assemble::{assemble, assembled, count_taken, lemma_taken_after, shuffle, taken,
    views_of};
use crate::client::{default_description, Client, CreatePlaylist, CreatePlaylistView};
use crate::group::{is_mix, partition_groups_with, playlist_groups};
use crate::model::{all_have_album, all_identified, sum_durations, total_duration, Playlist,
    PlaylistView, Track, TrackGroup, TrackGroupView, TrackView};
use crate::settings::{MissingIdPolicy, Settings};

verus! {

/// A playlist of the user's library together with its tracks.
#[derive(Clone, Debug, PartialEq, Eq)]
pub struct OwnedPlaylist {
    pub playlist: Playlist,
    /// The tracks, in playing order. They are not read where the playlist is
    /// no source of the shuffle, and may then be left empty.
    pub tracks: Vec<Track>,
}

/// What an [`OwnedPlaylist`] stands for in contracts.
pub struct OwnedPlaylistView {
    pub playlist: PlaylistView,
    pub tracks: Seq<TrackView>,
}

impl View for OwnedPlaylist {
    type V = OwnedPlaylistView;

    open spec fn view(&self) -> OwnedPlaylistView {
        OwnedPlaylistView { playlist: self.playlist@, tracks: self.tracks.deep_view() }
    }
}

impl DeepView for OwnedPlaylist {
    type V = OwnedPlaylistView;

    open spec fn deep_view(&self) -> OwnedPlaylistView {
        self@
    }
}

/// The name of the playlist that the shuffle is written to.
pub open spec fn shuffle_name() -> Seq<char> {
    "Shuffle"@
}

/// Whether a playlist of this name is kept out of the shuffle: the ones the
/// service curates, and the shuffle's own destination.
pub open spec fn banned(name: Seq<char>) -> bool {
    ||| name == "Discover Weekly"@
    ||| name == "Starred"@
    ||| name == "Liked from Radio"@
    ||| name == shuffle_name()
}

/// Whether a playlist of this name is kept out of the shuffle.
pub fn is_banned(name: &str) -> (is_banned: bool)
    ensures
        is_banned == banned(name@),
{
    let name = name.to_owned();
    name == "Discover Weekly".to_owned() || name == "Starred".to_owned() || name
        == "Liked from Radio".to_owned() || name == "Shuffle".to_owned()
}

/// Why a library cannot be grouped.
#[derive(Clone, Copy, Debug, PartialEq, Eq, Structural)]
pub enum DataError {
    /// A track of the playlist at this index of the library has no ID.
    MissingTrackId { playlist: usize },
    /// A track of the playlist at this index, which is split by album, does
    /// not name its album.
    MissingAlbumId { playlist: usize },
}

/// Those of `tracks` that have an ID, in order.
pub open spec fn with_ids(tracks: Seq<TrackView>) -> Seq<TrackView>
    decreases tracks.len(),
{
    if tracks.len() == 0 {
        Seq::empty()
    } else if tracks.last().id is Some {
        with_ids(tracks.drop_last()).push(tracks.last())
    } else {
        with_ids(tracks.drop_last())
    }
}

/// The tracks of a playlist that grouping works on: all of them, or under
/// [`MissingIdPolicy::Skip`] those that have an ID.
pub open spec fn usable(tracks: Seq<TrackView>, settings: Settings) -> Seq<TrackView> {
    match settings.missing_track_id {
        MissingIdPolicy::Abort => tracks,
        MissingIdPolicy::Skip => with_ids(tracks),
    }
}

/// What is wrong with the tracks of the playlist at index `playlist`, if
/// anything: a track without an ID, or, where the playlist is split by album,
/// a track that does not name its album.
pub open spec fn flaw(tracks: Seq<TrackView>, settings: Settings, playlist: usize) -> Option<DataError> {
    if !all_identified(tracks) {
        Some(DataError::MissingTrackId { playlist })
    } else if !is_mix(total_duration(tracks), settings) && !all_have_album(tracks) {
        Some(DataError::MissingAlbumId { playlist })
    } else {
        None
    }
}

/// The groups of a library: those of its playlists, one playlist after the
/// other, without the playlists that are banned. The first playlist with a
/// flaw makes it an error.
pub open spec fn library_groups(library: Seq<OwnedPlaylistView>, settings: Settings) -> Result<
    Seq<TrackGroupView>,
    DataError,
>
    decreases library.len(),
{
    if library.len() == 0 {
        Ok(Seq::empty())
    } else {
        match library_groups(library.drop_last(), settings) {
            Err(error) => Err(error),
            Ok(groups) => {
                let last = library.last();
                let tracks = usable(last.tracks, settings);
                if banned(last.playlist.name) {
                    Ok(groups)
                } else {
                    match flaw(tracks, settings, (library.len() - 1) as usize) {
                        Some(error) => Err(error),
                        None => Ok(groups + playlist_groups(last.playlist.name, tracks, settings)),
                    }
                }
            },
        }
    }
}

/// Whether every one of `tracks` has an ID.
pub fn have_ids(tracks: &[Track]) -> (all: bool)
    ensures
        all == all_identified(tracks.deep_view()),
{
    let mut i: usize = 0;
    while i < tracks.len()
        invariant
            i <= tracks.len(),
            forall|j: int| 0 <= j < i ==> (#[trigger] tracks.deep_view()[j]).id is Some,
        decreases tracks.len() - i,
    {
        if tracks[i].id.is_none() {
            assert(tracks.deep_view()[i as int].id is None);
            return false;
        }
        i = i + 1;
    }
    true
}

/// Whether every one of `tracks` names its album.
pub fn have_albums(tracks: &[Track]) -> (all: bool)
    ensures
        all == all_have_album(tracks.deep_view()),
{
    let mut i: usize = 0;
    while i < tracks.len()
        invariant
            i <= tracks.len(),
            forall|j: int| 0 <= j < i ==> (#[trigger] tracks.deep_view()[j]).album_id is Some,
        decreases tracks.len() - i,
    {
        if tracks[i].album_id.is_none() {
            assert(tracks.deep_view()[i as int].album_id is None);
            return false;
        }
        i = i + 1;
    }
    true
}

/// Copies those of `tracks` that have an ID.
pub fn keep_identified(tracks: &[Track]) -> (kept: Vec<Track>)
    ensures
        kept.deep_view() == with_ids(tracks.deep_view()),
{
    let ghost all = tracks.deep_view();
    let mut kept: Vec<Track> = Vec::new();
    let mut i: usize = 0;
    assert(kept.deep_view() =~= with_ids(all.take(0)));
    while i < tracks.len()
        invariant
            i <= tracks.len(),
            all == tracks.deep_view(),
            kept.deep_view() == with_ids(all.take(i as int)),
        decreases tracks.len() - i,
    {
        assert(all.take(i + 1).drop_last() =~= all.take(i as int));
        if tracks[i].id.is_some() {
            let ghost before = kept.deep_view();
            let copy = tracks[i].clone();
            kept.push(copy);
            assert(kept.deep_view() =~= before.push(all[i as int]));
        }
        i = i + 1;
    }
    assert(all.take(i as int) =~= all);
    kept
}

/// Groups the tracks of one playlist of the library, or says what is wrong
/// with them.
fn groups_of_playlist(name: &str, tracks: &[Track], settings: &Settings, playlist: usize) -> (result:
    Result<Vec<TrackGroup>, DataError>)
    ensures
        match flaw(tracks.deep_view(), *settings, playlist) {
            Some(error) => result == Err::<Vec<TrackGroup>, DataError>(error),
            None => result matches Ok(groups) && groups.deep_view() == playlist_groups(
                name@,
                tracks.deep_view(),
                *settings,
            ) && forall|i: int| 0 <= i < groups@.len() ==> (#[trigger] groups@[i]).wf(),
        },
{
    if !have_ids(tracks) {
        return Err(DataError::MissingTrackId { playlist });
    }
    let duration = sum_durations(tracks);
    let mix = duration > settings.mix_longer_than_ms && duration < settings.mix_shorter_than_ms;
    if !mix && !have_albums(tracks) {
        return Err(DataError::MissingAlbumId { playlist });
    }
    Ok(partition_groups_with(name, tracks, settings))
}

/// An error among the first playlists of a library is the error of the
/// library.
pub proof fn lemma_first_flaw_decides(library: Seq<OwnedPlaylistView>, settings: Settings, n: int)
    requires
        0 <= n <= library.len(),
        library_groups(library.take(n), settings) is Err,
    ensures
        library_groups(library, settings) == library_groups(library.take(n), settings),
    decreases library.len() - n,
{
    if n < library.len() {
        assert(library.take(n + 1).drop_last() =~= library.take(n));
        lemma_first_flaw_decides(library, settings, n + 1);
    } else {
        assert(library.take(n) =~= library);
    }
}

/// Gathers the groups of the whole library: every playlist that is not banned
/// is grouped, and the groups are laid end to end in the order of the
/// playlists. Fails at the first playlist with a track that cannot be
/// grouped.
pub fn load_groups(library: &Vec<OwnedPlaylist>, settings: &Settings) -> (result: Result<
    Vec<TrackGroup>,
    DataError,
>)
    ensures
        match library_groups(library.deep_view(), *settings) {
            Ok(all) => result matches Ok(groups) && groups.deep_view() == all && forall|i: int|
                0 <= i < groups@.len() ==> (#[trigger] groups@[i]).wf(),
            Err(error) => result == Err::<Vec<TrackGroup>, DataError>(error),
        },
{
    let ghost all = library.deep_view();
    let mut groups: Vec<TrackGroup> = Vec::new();
    let mut i: usize = 0;
    assert(groups.deep_view() =~= Seq::<TrackGroupView>::empty());
    assert(all.take(0) =~= Seq::<OwnedPlaylistView>::empty());
    while i < library.len()
        invariant
            i <= library.len(),
            all == library.deep_view(),
            library_groups(all.take(i as int), *settings) == Ok::<Seq<TrackGroupView>, DataError>(
                groups.deep_view(),
            ),
            forall|i: int| 0 <= i < groups@.len() ==> (#[trigger] groups@[i]).wf(),
        decreases library.len() - i,
    {
        let entry = &library[i];
        proof {
            assert(all.take(i + 1).drop_last() =~= all.take(i as int));
            assert(all.take(i + 1).last() == entry@);
        }
        if !is_banned(entry.playlist.name.as_str()) {
            let found = match settings.missing_track_id {
                MissingIdPolicy::Abort => groups_of_playlist(
                    entry.playlist.name.as_str(),
                    entry.tracks.as_slice(),
                    settings,
                    i,
                ),
                MissingIdPolicy::Skip => {
                    let kept = keep_identified(entry.tracks.as_slice());
                    groups_of_playlist(entry.playlist.name.as_str(), kept.as_slice(), settings, i)
                },
            };
            match found {
                Ok(mut found) => {
                    let ghost before = groups.deep_view();
                    let ghost added = found.deep_view();
                    groups.append(&mut found);
                    assert(groups.deep_view() =~= before + added);
                },
                Err(error) => {
                    proof {
                        lemma_first_flaw_decides(all, *settings, i + 1);
                    }
                    return Err(error);
                },
            }
        }
        i = i + 1;
    }
    assert(all.take(i as int) =~= all);
    Ok(groups)
}

/// Where the shuffle is written.
#[derive(Clone, Debug, PartialEq, Eq)]
pub enum Destination {
    /// The playlist with this ID, which exists already.
    Existing(String),
    /// A playlist that this request creates.
    Create(CreatePlaylist),
}

/// What a [`Destination`] stands for in contracts.
pub enum DestinationView {
    Existing(Seq<char>),
    Create(CreatePlaylistView),
}

impl View for Destination {
    type V = DestinationView;

    open spec fn view(&self) -> DestinationView {
        match *self {
            Destination::Existing(id) => DestinationView::Existing(id@),
            Destination::Create(request) => DestinationView::Create(request@),
        }
    }
}

/// The ID of the first playlist of the library that is called "Shuffle".
pub open spec fn shuffle_playlist(library: Seq<OwnedPlaylistView>) -> Option<Seq<char>>
    decreases library.len(),
{
    if library.len() == 0 {
        None
    } else if library[0].playlist.name == shuffle_name() {
        Some(library[0].playlist.id)
    } else {
        shuffle_playlist(library.drop_first())
    }
}

/// Where the shuffle of this library is written: to its playlist called
/// "Shuffle", or to a new one of that name.
pub open spec fn destination_of(user_id: Seq<char>, library: Seq<OwnedPlaylistView>) -> DestinationView {
    match shuffle_playlist(library) {
        Some(id) => DestinationView::Existing(id),
        None => DestinationView::Create(
            CreatePlaylistView {
                user_id,
                name: shuffle_name(),
                public: false,
                description: default_description(),
            },
        ),
    }
}

/// Finds the playlist that the shuffle is written to: the first playlist of
/// the library called "Shuffle" is used again; where there is none, the
/// request to create one is handed out.
pub fn get_or_create_shuffle_playlist_id(client: &Client, library: &Vec<OwnedPlaylist>) -> (destination:
    Destination)
    ensures
        destination@ == destination_of(client.user(), library.deep_view()),
{
    let ghost all = library.deep_view();
    let name = "Shuffle".to_owned();
    let mut i: usize = 0;
    assert(all.skip(0) =~= all);
    while i < library.len()
        invariant
            i <= library.len(),
            all == library.deep_view(),
            name@ == shuffle_name(),
            shuffle_playlist(all) == shuffle_playlist(all.skip(i as int)),
        decreases library.len() - i,
    {
        assert(all.skip(i as int).drop_first() =~= all.skip(i + 1));
        if library[i].playlist.name == name {
            return Destination::Existing(library[i].playlist.id.clone());
        }
        i = i + 1;
    }
    Destination::Create(client.create_playlist("Shuffle", None))
}

/// What a run comes to: where the shuffle goes and what it holds.
#[derive(Clone, Debug, PartialEq, Eq)]
pub struct ShufflePlan {
    pub destination: Destination,
    /// The groups that make up the shuffle, in playing order.
    pub groups: Vec<TrackGroup>,
    /// The IDs of their tracks, in playing order.
    pub track_ids: Vec<String>,
}

/// Whether `plan` is what the groups `gathered` give in the order `order`
/// for a goal of `goal_ms`: the groups taken, and their tracks.
pub open spec fn plan_follows(
    plan: ShufflePlan,
    order: Seq<TrackGroupView>,
    gathered: Seq<TrackGroupView>,
    goal_ms: nat,
) -> bool {
    &&& order.to_multiset() == gathered.to_multiset()
    &&& plan.groups.deep_view() == order.take(taken(order, goal_ms) as int)
    &&& plan.track_ids.deep_view() == assembled(order, goal_ms)
}

/// Mapping two lists that hold the same elements gives two lists that hold
/// the same elements.
pub proof fn lemma_same_elements_mapped<A, B>(a: Seq<A>, b: Seq<A>, f: spec_fn(A) -> B)
    requires
        a.to_multiset() == b.to_multiset(),
    ensures
        a.map_values(f).to_multiset() == b.map_values(f).to_multiset(),
    decreases a.len(),
{
    to_multiset_len(a);
    to_multiset_len(b);
    if a.len() == 0 {
        assert(a.map_values(f) =~= b.map_values(f));
    } else {
        let x = a.last();
        let shorter = a.drop_last();
        assert(a =~= shorter.push(x));
        to_multiset_build(shorter, x);
        to_multiset_contains(b, x);
        let j = choose|j: int| 0 <= j < b.len() && b[j] == x;
        let other = b.remove(j);
        to_multiset_remove(b, j);
        assert(other.to_multiset() =~= shorter.to_multiset());
        lemma_same_elements_mapped(shorter, other, f);
        assert(a.map_values(f) =~= shorter.map_values(f).push(f(x)));
        to_multiset_build(shorter.map_values(f), f(x));
        assert(b.map_values(f) =~= other.map_values(f).insert(j, f(x)));
        to_multiset_insert(other.map_values(f), j, f(x));
    }
}

/// Plans the run with the thresholds of `settings`.
pub fn shuffle_library_with(client: &Client, library: &Vec<OwnedPlaylist>, settings: &Settings) -> (result:
    Result<ShufflePlan, DataError>)
    ensures
        match library_groups(library.deep_view(), *settings) {
            Err(error) => result == Err::<ShufflePlan, DataError>(error),
            Ok(groups) => result matches Ok(plan) && plan.destination@ == destination_of(
                client.user(),
                library.deep_view(),
            ) && exists|order: Seq<TrackGroupView>|
                #[trigger] plan_follows(plan, order, groups, settings.goal_ms as nat),
        },
{
    let groups = match load_groups(library, settings) {
        Ok(groups) => groups,
        Err(error) => {
            return Err(error);
        },
    };
    let ghost gathered = groups@;
    let mut order = shuffle(groups);
    let ghost shuffled = order@;
    let track_ids = assemble(&order, settings.goal_ms);
    let count = count_taken(&order, settings.goal_ms);
    proof {
        assert(order.deep_view() =~= views_of(shuffled));
        lemma_taken_after(views_of(shuffled), 0, settings.goal_ms as nat);
    }
    order.truncate(count);
    let destination = get_or_create_shuffle_playlist_id(client, library);
    let plan = ShufflePlan { destination, groups: order, track_ids };
    proof {
        lemma_same_elements_mapped(shuffled, gathered, |group: TrackGroup| group@);
        assert(views_of(gathered) =~= library_groups(library.deep_view(), *settings)->Ok_0);
        assert(plan.groups.deep_view() =~= views_of(shuffled).take(count as int));
        assert(plan_follows(plan, views_of(shuffled), views_of(gathered), settings.goal_ms as nat));
    }
    Ok(plan)
}

/// Plans the shuffle of the whole library. The groups of all playlists that
/// are not banned are gathered, shuffled, and taken until 1200 hours of
/// playing time are passed; the result goes to the playlist called "Shuffle",
/// which is created where the library has none.
pub fn shuffle_library(client: &Client, library: &Vec<OwnedPlaylist>) -> (result: Result<
    ShufflePlan,
    DataError,
>)
    ensures
        match library_groups(library.deep_view(), Settings::standard()) {
            Err(error) => result == Err::<ShufflePlan, DataError>(error),
            Ok(groups) => result matches Ok(plan) && plan.destination@ == destination_of(
                client.user(),
                library.deep_view(),
            ) && exists|order: Seq<TrackGroupView>|
                #[trigger] plan_follows(plan, order, groups, Settings::standard().goal_ms as nat),
        },
{
    shuffle_library_with(client, library, &Settings::default())
}

/// A banned playlist is no source: whatever tracks it holds, the groups of
/// the library are the same.
pub proof fn lemma_banned_playlist_is_not_read(
    library: Seq<OwnedPlaylistView>,
    settings: Settings,
    i: int,
    tracks: Seq<TrackView>,
)
    requires
        0 <= i < library.len(),
        banned(library[i].playlist.name),
    ensures
        library_groups(
            library.update(i, OwnedPlaylistView { playlist: library[i].playlist, tracks }),
            settings,
        ) == library_groups(library, settings),
    decreases library.len(),
{
    let other = library.update(i, OwnedPlaylistView { playlist: library[i].playlist, tracks });
    if i == library.len() - 1 {
        assert(other.drop_last() =~= library.drop_last());
    } else {
        assert(other.drop_last() =~= library.drop_last().update(
            i,
            OwnedPlaylistView { playlist: library[i].playlist, tracks },
        ));
        lemma_banned_playlist_is_not_read(library.drop_last(), settings, i, tracks);
    }
}

/// A playlist called "Shuffle" never feeds the shuffle: whatever tracks it
/// holds, the groups of the library are the same.
pub proof fn lemma_shuffle_playlist_is_not_read(
    library: Seq<OwnedPlaylistView>,
    settings: Settings,
    i: int,
    tracks: Seq<TrackView>,
)
    requires
        0 <= i < library.len(),
        library[i].playlist.name == shuffle_name(),
    ensures
        library_groups(
            library.update(i, OwnedPlaylistView { playlist: library[i].playlist, tracks }),
            settings,
        ) == library_groups(library, settings),
{
    lemma_banned_playlist_is_not_read(library, settings, i, tracks);
}

/// The destination is the first playlist called "Shuffle", exactly: where
/// there is one, its ID is what is used again; where a playlist is to be
/// created, the library has none of that name.
pub proof fn lemma_first_shuffle_playlist_is_used(library: Seq<OwnedPlaylistView>)
    ensures
        match shuffle_playlist(library) {
            Some(id) => exists|i: int|
                0 <= i < library.len() && (#[trigger] library[i]).playlist.name == shuffle_name()
                    && library[i].playlist.id == id && forall|j: int|
                    0 <= j < i ==> (#[trigger] library[j]).playlist.name != shuffle_name(),
            None => forall|i: int|
                0 <= i < library.len() ==> (#[trigger] library[i]).playlist.name != shuffle_name(),
        },
    decreases library.len(),
{
    if library.len() == 0 {
    } else if library[0].playlist.name == shuffle_name() {
        assert(library[0].playlist.name == shuffle_name());
    } else {
        let rest = library.drop_first();
        lemma_first_shuffle_playlist_is_used(rest);
        match shuffle_playlist(rest) {
            Some(id) => {
                let i = choose|i: int|
                    0 <= i < rest.len() && (#[trigger] rest[i]).playlist.name == shuffle_name()
                        && rest[i].playlist.id == id && forall|j: int|
                        0 <= j < i ==> (#[trigger] rest[j]).playlist.name != shuffle_name();
                assert(library[i + 1] == rest[i]);
                assert forall|j: int| 0 <= j < i + 1 implies (#[trigger] library[j]).playlist.name
                    != shuffle_name() by {
                    if j > 0 {
                        assert(library[j] == rest[j - 1]);
                    }
                }
            },
            None => {
                assert forall|i: int| 0 <= i < library.len() implies (
                #[trigger] library[i]).playlist.name != shuffle_name() by {
                    if i > 0 {
                        assert(library[i] == rest[i - 1]);
                    }
                }
            },
        }
    }
}

} // verus!
