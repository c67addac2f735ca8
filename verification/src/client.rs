//! The requests that reading and writing the library take. The client says
//! what is to be asked of the remote service; sending it is the caller's part.

use vstd::prelude::*;
use crate::model::Playlist;
use crate::settings::BATCH_SIZE;

verus! {

/// The request for one page of the user's own playlists.
#[derive(Clone, Copy, Debug, PartialEq, Eq, Structural)]
pub struct ListPlaylists {
    /// The index of the first playlist wanted.
    pub offset: u32,
}

/// The request for one page of the tracks of a playlist.
#[derive(Clone, Debug, PartialEq, Eq)]
pub struct ListTracks {
    pub playlist_id: String,
    /// The index of the first track wanted.
    pub offset: u32,
}

/// The request that creates a playlist; the answer tells its ID.
#[derive(Clone, Debug, PartialEq, Eq)]
pub struct CreatePlaylist {
    pub user_id: String,
    pub name: String,
    pub public: bool,
    pub description: String,
}

/// What a [`CreatePlaylist`] stands for in contracts.
pub struct CreatePlaylistView {
    pub user_id: Seq<char>,
    pub name: Seq<char>,
    pub public: bool,
    pub description: Seq<char>,
}

impl View for CreatePlaylist {
    type V = CreatePlaylistView;

    open spec fn view(&self) -> CreatePlaylistView {
        CreatePlaylistView {
            user_id: self.user_id@,
            name: self.name@,
            public: self.public,
            description: self.description@,
        }
    }
}

/// One request that changes the tracks of a playlist.
#[derive(Clone, Debug, PartialEq, Eq)]
pub enum PlaylistWrite {
    /// Replace the playlist's tracks by `track_ids`.
    Replace { playlist_id: String, track_ids: Vec<String> },
    /// Append `track_ids` to the playlist.
    Add { playlist_id: String, track_ids: Vec<String> },
}

/// What a [`PlaylistWrite`] stands for in contracts.
pub enum PlaylistWriteView {
    Replace { playlist_id: Seq<char>, track_ids: Seq<Seq<char>> },
    Add { playlist_id: Seq<char>, track_ids: Seq<Seq<char>> },
}

impl View for PlaylistWrite {
    type V = PlaylistWriteView;

    open spec fn view(&self) -> PlaylistWriteView {
        match *self {
            PlaylistWrite::Replace { playlist_id, track_ids } => PlaylistWriteView::Replace {
                playlist_id: playlist_id@,
                track_ids: track_ids.deep_view(),
            },
            PlaylistWrite::Add { playlist_id, track_ids } => PlaylistWriteView::Add {
                playlist_id: playlist_id@,
                track_ids: track_ids.deep_view(),
            },
        }
    }
}

impl DeepView for PlaylistWrite {
    type V = PlaylistWriteView;

    open spec fn deep_view(&self) -> PlaylistWriteView {
        self@
    }
}

/// The description a playlist gets where the caller gives none.
pub open spec fn default_description() -> Seq<char> {
    "Automatically-generated shuffled playlist"@
}

/// `ids` cut into consecutive batches of `size`; the last may be shorter.
pub open spec fn batches(ids: Seq<Seq<char>>, size: nat) -> Seq<Seq<Seq<char>>>
    decreases ids.len(),
{
    if ids.len() == 0 || size == 0 {
        Seq::empty()
    } else if ids.len() <= size {
        seq![ids]
    } else {
        seq![ids.take(size as int)] + batches(ids.skip(size as int), size)
    }
}

/// The requests that append `batches` to a playlist, one for each batch.
pub open spec fn appends(playlist_id: Seq<char>, batches: Seq<Seq<Seq<char>>>) -> Seq<
    PlaylistWriteView,
> {
    batches.map_values(|track_ids: Seq<Seq<char>>| PlaylistWriteView::Add { playlist_id, track_ids })
}

/// The requests that make a playlist hold exactly `ids`: one that empties it,
/// then one for each batch of at most `size` IDs, in order.
pub open spec fn replacement(playlist_id: Seq<char>, ids: Seq<Seq<char>>, size: nat) -> Seq<
    PlaylistWriteView,
> {
    seq![PlaylistWriteView::Replace { playlist_id, track_ids: Seq::empty() }] + appends(
        playlist_id,
        batches(ids, size),
    )
}

/// Batches keep the order and leave nothing out: laid end to end they are the
/// list itself. None is empty, none holds more than `size` IDs, and all but
/// the last hold exactly `size`.
pub proof fn lemma_batches(ids: Seq<Seq<char>>, size: nat)
    requires
        size > 0,
    ensures
        batches(ids, size).flatten() == ids,
        forall|k: int|
            0 <= k < batches(ids, size).len() ==> 0 < (#[trigger] batches(ids, size)[k]).len() <= size,
        forall|k: int|
            0 <= k < batches(ids, size).len() - 1 ==> (#[trigger] batches(ids, size)[k]).len() == size,
    decreases ids.len(),
{
    let all = batches(ids, size);
    if ids.len() == 0 {
    } else if ids.len() <= size {
        all.lemma_flatten_one_element();
    } else {
        let rest = ids.skip(size as int);
        let later = batches(rest, size);
        lemma_batches(rest, size);
        assert(all.drop_first() =~= later);
        assert(all.first() == ids.take(size as int));
        assert(all.flatten() =~= ids);
        assert forall|k: int| 0 <= k < all.len() implies 0 < (#[trigger] all[k]).len() <= size by {
            if k > 0 {
                assert(all[k] == later[k - 1]);
            }
        }
        assert forall|k: int| 0 <= k < all.len() - 1 implies (#[trigger] all[k]).len() == size by {
            if k > 0 {
                assert(all[k] == later[k - 1]);
            }
        }
    }
}

/// The user's side of the remote service.
#[derive(Clone, Debug)]
pub struct Client {
    user_id: String,
}

impl Client {
    /// The ID of the user whose library this client works on.
    pub closed spec fn user(&self) -> Seq<char> {
        self.user_id@
    }

    /// A client for the user with this ID.
    pub fn new(user_id: String) -> (client: Client)
        ensures
            client.user() == user_id@,
    {
        Client { user_id }
    }

    /// The ID of the user whose library this client works on.
    pub fn user_id(&self) -> (user_id: &String)
        ensures
            user_id@ == self.user(),
    {
        &self.user_id
    }

    /// The request for one page of the user's own playlists.
    pub fn current_user_playlists(&self, offset: u32) -> (request: ListPlaylists)
        ensures
            request.offset == offset,
    {
        ListPlaylists { offset }
    }

    /// The request that creates a playlist called `name`. The playlist is not
    /// public; where no description is given it gets the default one.
    pub fn create_playlist(&self, name: &str, description: Option<&str>) -> (request: CreatePlaylist)
        ensures
            request@ == (CreatePlaylistView {
                user_id: self.user(),
                name: name@,
                public: false,
                description: match description {
                    Some(text) => text@,
                    None => default_description(),
                },
            }),
    {
        let description = match description {
            Some(text) => text.to_owned(),
            None => "Automatically-generated shuffled playlist".to_owned(),
        };
        CreatePlaylist {
            user_id: self.user_id.clone(),
            name: name.to_owned(),
            public: false,
            description,
        }
    }

    /// The request for one page of the tracks of `playlist`.
    pub fn playlist_tracks(&self, playlist: &Playlist, offset: u32) -> (request: ListTracks)
        ensures
            request.playlist_id@ == playlist@.id,
            request.offset == offset,
    {
        ListTracks { playlist_id: playlist.id.clone(), offset }
    }

    /// The requests that make the playlist hold exactly `track_ids`, in batches
    /// of at most `batch_size`.
    pub fn set_playlist_with(&self, playlist_id: &str, track_ids: &[String], batch_size: usize) -> (requests:
        Vec<PlaylistWrite>)
        requires
            batch_size > 0,
        ensures
            requests.deep_view() == replacement(playlist_id@, track_ids.deep_view(), batch_size as nat),
    {
        let ghost ids = track_ids.deep_view();
        let ghost size = batch_size as nat;
        let mut requests: Vec<PlaylistWrite> = Vec::new();
        let nothing: Vec<String> = Vec::new();
        assert(nothing.deep_view() =~= Seq::<Seq<char>>::empty());
        let clear = PlaylistWrite::Replace { playlist_id: playlist_id.to_owned(), track_ids: nothing };
        let ghost cleared = clear@;
        requests.push(clear);
        let mut pos: usize = 0;
        proof {
            assert(ids.skip(0) =~= ids);
            assert(requests.deep_view() =~= seq![cleared]);
        }
        while pos < track_ids.len()
            invariant
                pos <= track_ids.len(),
                batch_size > 0,
                ids == track_ids.deep_view(),
                size == batch_size as nat,
                requests.deep_view() + appends(playlist_id@, batches(ids.skip(pos as int), size))
                    == replacement(playlist_id@, ids, size),
            decreases track_ids.len() - pos,
        {
            let end = if track_ids.len() - pos <= batch_size {
                track_ids.len()
            } else {
                pos + batch_size
            };
            let mut batch: Vec<String> = Vec::new();
            let mut i: usize = pos;
            while i < end
                invariant
                    pos <= i <= end <= track_ids.len(),
                    ids == track_ids.deep_view(),
                    batch.deep_view() == ids.subrange(pos as int, i as int),
                decreases end - i,
            {
                let ghost so_far = batch.deep_view();
                batch.push(track_ids[i].clone());
                assert(batch.deep_view() =~= so_far.push(ids[i as int]));
                assert(ids.subrange(pos as int, i + 1) =~= so_far.push(ids[i as int]));
                i = i + 1;
            }
            let ghost before = requests.deep_view();
            let request = PlaylistWrite::Add { playlist_id: playlist_id.to_owned(), track_ids: batch };
            requests.push(request);
            proof {
                let rest = ids.skip(pos as int);
                let step = end - pos;
                assert(requests.deep_view() =~= before.push(request@));
                assert(rest.take(step) =~= ids.subrange(pos as int, end as int));
                assert(rest.skip(step) =~= ids.skip(end as int));
                if rest.len() <= size {
                    assert(rest =~= ids.subrange(pos as int, end as int));
                    assert(batches(ids.skip(end as int), size) =~= Seq::empty());
                    assert(appends(playlist_id@, batches(rest, size)) =~= seq![request@]);
                    assert(appends(playlist_id@, batches(ids.skip(end as int), size))
                        =~= Seq::empty());
                } else {
                    assert(appends(playlist_id@, batches(rest, size)) =~= seq![request@]
                        + appends(playlist_id@, batches(ids.skip(end as int), size)));
                }
            }
            pos = end;
        }
        proof {
            assert(ids.skip(pos as int) =~= Seq::empty());
            assert(appends(playlist_id@, batches(ids.skip(pos as int), size)) =~= Seq::empty());
        }
        requests
    }

    /// The requests that make the playlist hold exactly `track_ids`: first one
    /// that empties it, then one for each batch of at most 100 IDs, in order.
    pub fn set_playlist(&self, playlist_id: &str, track_ids: &[String]) -> (requests: Vec<
        PlaylistWrite,
    >)
        ensures
            requests.deep_view() == replacement(playlist_id@, track_ids.deep_view(), BATCH_SIZE as nat),
    {
        self.set_playlist_with(playlist_id, track_ids, BATCH_SIZE)
    }
}

} // verus!
