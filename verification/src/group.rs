//! Grouping: a playlist's tracks fall into albums, or stay together as a mix.

use vstd::prelude::*;
use vstd::slice::slice_subrange;
use crate::model::{Track, TrackView, TrackGroup, TrackGroupView, total_duration, ids_of,
    all_identified, all_have_album, sum_durations};
use crate::settings::{Settings, MIN_ALBUM_MS, MIX_LONGER_THAN_MS, MIX_SHORTER_THAN_MS};

verus! {

/// The group that a non-empty run of identified tracks forms: named after the
/// album of its first track.
pub open spec fn group_of(run: Seq<TrackView>) -> TrackGroupView {
    TrackGroupView {
        name: run[0].album_name,
        track_ids: ids_of(run),
        duration_ms: total_duration(run),
    }
}

impl TrackGroup {
    /// Forms the group of a run of tracks.
    pub fn from(src: &[Track]) -> (group: TrackGroup)
        requires
            src@.len() > 0,
            all_identified(src.deep_view()),
        ensures
            group@ == group_of(src.deep_view()),
            group.wf(),
    {
        let mut track_ids: Vec<String> = Vec::with_capacity(src.len());
        let mut i: usize = 0;
        while i < src.len()
            invariant
                i <= src.len(),
                track_ids@.len() == i,
                all_identified(src.deep_view()),
                forall|j: int| 0 <= j < i ==> Some((#[trigger] track_ids@[j])@) == src@[j]@.id,
            decreases src.len() - i,
        {
            assert(src.deep_view()[i as int].id is Some);
            match &src[i].id {
                Some(id) => {
                    track_ids.push(id.clone());
                },
                None => {},
            }
            i = i + 1;
        }
        let group = TrackGroup {
            name: src[0].album_name.clone(),
            track_ids,
            duration_ms: sum_durations(src),
        };
        assert(group@.track_ids =~= ids_of(src.deep_view()));
        group
    }
}

/// The number of leading tracks that share the album of the first.
pub open spec fn leading_run(tracks: Seq<TrackView>) -> nat
    decreases tracks.len(),
{
    if tracks.len() == 0 {
        0
    } else if tracks.len() == 1 || tracks[1].album_id != tracks[0].album_id {
        1
    } else {
        1 + leading_run(tracks.drop_first())
    }
}

/// The leading run is not empty, stays inside the list, holds one album only
/// and ends where the album changes.
pub proof fn lemma_leading_run(tracks: Seq<TrackView>)
    requires
        tracks.len() > 0,
    ensures
        0 < leading_run(tracks) <= tracks.len(),
        forall|i: int|
            0 <= i < leading_run(tracks) ==> (#[trigger] tracks[i]).album_id
                == tracks[0].album_id,
        leading_run(tracks) < tracks.len() ==> tracks[leading_run(tracks) as int].album_id
            != tracks[0].album_id,
    decreases tracks.len(),
{
    if tracks.len() == 1 || tracks[1].album_id != tracks[0].album_id {
    } else {
        let rest = tracks.drop_first();
        lemma_leading_run(rest);
        assert forall|i: int| 0 <= i < leading_run(tracks) implies (#[trigger] tracks[i]).album_id
            == tracks[0].album_id by {
            if i > 0 {
                assert(tracks[i] == rest[i - 1]);
            }
        }
        if leading_run(tracks) < tracks.len() {
            assert(tracks[leading_run(tracks) as int] == rest[leading_run(rest) as int]);
        }
    }
}

/// A prefix that holds one album only and ends where the album changes is the
/// leading run.
pub proof fn lemma_leading_run_is(tracks: Seq<TrackView>, n: int)
    requires
        0 < n <= tracks.len(),
        forall|i: int| 0 <= i < n ==> (#[trigger] tracks[i]).album_id == tracks[0].album_id,
        n < tracks.len() ==> tracks[n].album_id != tracks[0].album_id,
    ensures
        leading_run(tracks) == n,
    decreases tracks.len(),
{
    if tracks.len() == 1 || tracks[1].album_id != tracks[0].album_id {
    } else {
        let rest = tracks.drop_first();
        assert forall|i: int| 0 <= i < n - 1 implies (#[trigger] rest[i]).album_id
            == rest[0].album_id by {
            assert(rest[i] == tracks[i + 1]);
        }
        if n - 1 < rest.len() {
            assert(rest[n - 1] == tracks[n]);
        }
        lemma_leading_run_is(rest, n - 1);
    }
}

/// The maximal runs of neighbouring tracks that share an album, in order.
pub open spec fn album_runs(tracks: Seq<TrackView>) -> Seq<Seq<TrackView>>
    decreases tracks.len(),
{
    if tracks.len() == 0 {
        Seq::empty()
    } else {
        proof {
            lemma_leading_run(tracks);
        }
        let n = leading_run(tracks) as int;
        seq![tracks.take(n)] + album_runs(tracks.skip(n))
    }
}

/// The groups of those `runs` that play longer than `min_ms`, in order.
pub open spec fn long_runs(runs: Seq<Seq<TrackView>>, min_ms: nat) -> Seq<TrackGroupView>
    decreases runs.len(),
{
    if runs.len() == 0 {
        Seq::empty()
    } else {
        let rest = long_runs(runs.drop_first(), min_ms);
        if total_duration(runs[0]) > min_ms {
            seq![group_of(runs[0])] + rest
        } else {
            rest
        }
    }
}

/// What splitting by album makes of `tracks`: one group for each maximal run
/// of one album that plays longer than `min_ms`.
pub open spec fn album_groups(tracks: Seq<TrackView>, min_ms: nat) -> Seq<TrackGroupView> {
    long_runs(album_runs(tracks), min_ms)
}

/// Splitting by album deals with the leading run and then with the rest.
pub proof fn lemma_album_groups_step(tracks: Seq<TrackView>, min_ms: nat)
    requires
        tracks.len() > 0,
    ensures
        album_groups(tracks, min_ms) == (if total_duration(tracks.take(leading_run(tracks) as int))
            > min_ms {
            seq![group_of(tracks.take(leading_run(tracks) as int))]
        } else {
            Seq::empty()
        }) + album_groups(tracks.skip(leading_run(tracks) as int), min_ms),
{
    let n = leading_run(tracks) as int;
    let runs = album_runs(tracks);
    assert(runs.drop_first() =~= album_runs(tracks.skip(n)));
    assert(runs[0] == tracks.take(n));
}

/// Whether two tracks name the same album.
fn same_album(a: &Track, b: &Track) -> (same: bool)
    ensures
        same == (a@.album_id == b@.album_id),
{
    match &a.album_id {
        Some(x) => match &b.album_id {
            Some(y) => *x == *y,
            None => false,
        },
        None => b.album_id.is_none(),
    }
}

/// Splits `tracks` into its albums, with the thresholds of `settings`.
pub fn partition_by_album_with(tracks: &[Track], settings: &Settings) -> (groups: Vec<TrackGroup>)
    requires
        all_identified(tracks.deep_view()),
        all_have_album(tracks.deep_view()),
    ensures
        groups.deep_view() == album_groups(tracks.deep_view(), settings.min_album_ms as nat),
        forall|i: int| 0 <= i < groups@.len() ==> (#[trigger] groups@[i]).wf(),
{
    let ghost all = tracks.deep_view();
    let ghost min_ms = settings.min_album_ms as nat;
    let mut out: Vec<TrackGroup> = Vec::new();
    let mut pos: usize = 0;
    assert(all.skip(0) =~= all);
    while pos < tracks.len()
        invariant
            pos <= tracks.len(),
            all == tracks.deep_view(),
            min_ms == settings.min_album_ms as nat,
            all_identified(all),
            out.deep_view() + album_groups(all.skip(pos as int), min_ms) == album_groups(
                all,
                min_ms,
            ),
            forall|i: int| 0 <= i < out@.len() ==> (#[trigger] out@[i]).wf(),
        decreases tracks.len() - pos,
    {
        let ghost rest = all.skip(pos as int);
        let mut end: usize = pos + 1;
        while end < tracks.len() && same_album(&tracks[end], &tracks[pos])
            invariant
                pos < end <= tracks.len(),
                all == tracks.deep_view(),
                forall|i: int| pos <= i < end ==> (#[trigger] all[i]).album_id == all[pos as int].album_id,
            decreases tracks.len() - end,
        {
            end = end + 1;
        }
        proof {
            let n = end - pos;
            assert forall|i: int| 0 <= i < n implies (#[trigger] rest[i]).album_id
                == rest[0].album_id by {
                assert(rest[i] == all[pos + i]);
            }
            lemma_leading_run_is(rest, n);
            lemma_album_groups_step(rest, min_ms);
            assert(rest.skip(n) =~= all.skip(end as int));
            assert(rest.take(n) =~= all.subrange(pos as int, end as int));
        }
        let run = slice_subrange(tracks, pos, end);
        assert(run.deep_view() =~= all.subrange(pos as int, end as int));
        let group = TrackGroup::from(run);
        if group.duration_ms > settings.min_album_ms {
            let ghost before = out.deep_view();
            out.push(group);
            assert(out.deep_view() =~= before + seq![group@]);
        }
        pos = end;
    }
    assert(all.skip(pos as int) =~= Seq::<TrackView>::empty());
    out
}

/// Splits `tracks` into its albums: one group for each maximal run of tracks
/// of one album that plays longer than ten minutes.
pub fn partition_by_album(tracks: &[Track]) -> (groups: Vec<TrackGroup>)
    requires
        all_identified(tracks.deep_view()),
        all_have_album(tracks.deep_view()),
    ensures
        groups.deep_view() == album_groups(tracks.deep_view(), MIN_ALBUM_MS as nat),
        forall|i: int| 0 <= i < groups@.len() ==> (#[trigger] groups@[i]).wf(),
{
    partition_by_album_with(tracks, &Settings::default())
}

/// Whether a playlist of this playing time is kept whole: strictly inside
/// the band.
pub open spec fn is_mix(total_ms: nat, settings: Settings) -> bool {
    settings.mix_longer_than_ms < total_ms < settings.mix_shorter_than_ms
}

/// The one group that a playlist kept whole forms, under the playlist's name.
pub open spec fn whole_playlist(name: Seq<char>, tracks: Seq<TrackView>) -> TrackGroupView {
    TrackGroupView { name, track_ids: ids_of(tracks), duration_ms: total_duration(tracks) }
}

/// What grouping makes of a playlist: itself as one group where it plays like
/// a mix, its albums otherwise.
pub open spec fn playlist_groups(
    name: Seq<char>,
    tracks: Seq<TrackView>,
    settings: Settings,
) -> Seq<TrackGroupView> {
    if is_mix(total_duration(tracks), settings) {
        seq![whole_playlist(name, tracks)]
    } else {
        album_groups(tracks, settings.min_album_ms as nat)
    }
}

/// The tracks of a playlist can be grouped: each has an ID and, unless the
/// playlist is kept whole, names its album.
pub open spec fn groupable(tracks: Seq<TrackView>, settings: Settings) -> bool {
    &&& all_identified(tracks)
    &&& !is_mix(total_duration(tracks), settings) ==> all_have_album(tracks)
}

/// Groups the tracks of the playlist `playlist_name`, with the thresholds of
/// `settings`.
pub fn partition_groups_with(playlist_name: &str, tracks: &[Track], settings: &Settings) -> (groups:
    Vec<TrackGroup>)
    requires
        groupable(tracks.deep_view(), *settings),
    ensures
        groups.deep_view() == playlist_groups(playlist_name@, tracks.deep_view(), *settings),
        forall|i: int| 0 <= i < groups@.len() ==> (#[trigger] groups@[i]).wf(),
{
    let duration = sum_durations(tracks);
    if duration > settings.mix_longer_than_ms && duration < settings.mix_shorter_than_ms {
        let mut group = TrackGroup::from(tracks);
        group.name = playlist_name.to_owned();
        let mut groups: Vec<TrackGroup> = Vec::new();
        groups.push(group);
        assert(groups.deep_view() =~= seq![whole_playlist(playlist_name@, tracks.deep_view())]);
        groups
    } else {
        partition_by_album_with(tracks, settings)
    }
}

/// Groups the tracks of the playlist `playlist_name`. A playlist that plays
/// longer than 45 and shorter than 90 minutes stays whole, as one group under
/// its own name; any other is split into its albums.
pub fn partition_groups(playlist_name: &str, tracks: &[Track]) -> (groups: Vec<TrackGroup>)
    requires
        groupable(tracks.deep_view(), Settings::standard()),
    ensures
        groups.deep_view() == (if MIX_LONGER_THAN_MS < total_duration(tracks.deep_view())
            < MIX_SHORTER_THAN_MS {
            seq![whole_playlist(playlist_name@, tracks.deep_view())]
        } else {
            album_groups(tracks.deep_view(), MIN_ALBUM_MS as nat)
        }),
        forall|i: int| 0 <= i < groups@.len() ==> (#[trigger] groups@[i]).wf(),
{
    partition_groups_with(playlist_name, tracks, &Settings::default())
}

/// A list of tracks of one album that plays longer than `min_ms` comes out as
/// exactly one group: all the tracks in their order, with the sum of their
/// playing times.
pub proof fn lemma_one_album_one_group(tracks: Seq<TrackView>, min_ms: nat)
    requires
        tracks.len() > 0,
        forall|i: int| 0 <= i < tracks.len() ==> (#[trigger] tracks[i]).album_id == tracks[0].album_id,
        total_duration(tracks) > min_ms,
    ensures
        album_groups(tracks, min_ms) == seq![group_of(tracks)],
        group_of(tracks).track_ids == ids_of(tracks),
        group_of(tracks).duration_ms == total_duration(tracks),
{
    let n = tracks.len() as int;
    lemma_leading_run_is(tracks, n);
    lemma_album_groups_step(tracks, min_ms);
    assert(tracks.take(n) =~= tracks);
    assert(tracks.skip(n) =~= Seq::<TrackView>::empty());
    assert(album_groups(tracks, min_ms) =~= seq![group_of(tracks)]);
}

/// Splitting happens exactly where the album changes: the runs, laid end to
/// end, are the list itself; no run is empty; the tracks of one run share an
/// album; and where one run ends and the next begins the album differs.
pub proof fn lemma_runs_split_at_album_changes(tracks: Seq<TrackView>)
    ensures
        album_runs(tracks).flatten() == tracks,
        forall|k: int| 0 <= k < album_runs(tracks).len() ==> (#[trigger] album_runs(tracks)[k]).len() > 0,
        forall|k: int, i: int, j: int|
            0 <= k < album_runs(tracks).len() && 0 <= i < album_runs(tracks)[k].len() && 0 <= j
                < album_runs(tracks)[k].len() ==> (#[trigger] album_runs(tracks)[k][i]).album_id
                == (#[trigger] album_runs(tracks)[k][j]).album_id,
        forall|k: int|
            0 <= k < album_runs(tracks).len() - 1 ==> (#[trigger] album_runs(tracks)[k]).last().album_id
                != album_runs(tracks)[k + 1].first().album_id,
    decreases tracks.len(),
{
    if tracks.len() == 0 {
    } else {
        lemma_leading_run(tracks);
        let n = leading_run(tracks) as int;
        let head = tracks.take(n);
        let rest = tracks.skip(n);
        let runs = album_runs(tracks);
        let later = album_runs(rest);
        lemma_runs_split_at_album_changes(rest);
        assert(runs.drop_first() =~= later);
        assert(runs.first() == head);
        assert(runs.flatten() =~= tracks);
        assert forall|k: int, i: int, j: int|
            0 <= k < runs.len() && 0 <= i < runs[k].len() && 0 <= j < runs[k].len() implies (
        #[trigger] runs[k][i]).album_id == (#[trigger] runs[k][j]).album_id by {
            if k > 0 {
                assert(runs[k] == later[k - 1]);
            }
        }
        assert forall|k: int| 0 <= k < runs.len() - 1 implies (#[trigger] runs[k]).last().album_id
            != runs[k + 1].first().album_id by {
            if k > 0 {
                assert(runs[k] == later[k - 1]);
                assert(runs[k + 1] == later[k]);
            } else {
                lemma_leading_run(rest);
                assert(runs[1] == later[0]);
                assert(later[0] == rest.take(leading_run(rest) as int));
                assert(runs[1].first() == tracks[n]);
                assert(runs[0].last() == tracks[n - 1]);
            }
        }
        assert forall|k: int| 0 <= k < runs.len() implies (#[trigger] runs[k]).len() > 0 by {
            if k > 0 {
                assert(runs[k] == later[k - 1]);
            }
        }
    }
}

/// Every group that comes out of `runs` is the group of one of them, and of
/// one that plays longer than `min_ms`.
pub proof fn lemma_long_runs_only(runs: Seq<Seq<TrackView>>, min_ms: nat)
    ensures
        forall|i: int|
            0 <= i < long_runs(runs, min_ms).len() ==> (#[trigger] long_runs(runs, min_ms)[i]).duration_ms
                > min_ms,
        forall|i: int|
            0 <= i < long_runs(runs, min_ms).len() ==> exists|k: int|
                0 <= k < runs.len() && #[trigger] long_runs(runs, min_ms)[i] == group_of(
                    #[trigger] runs[k],
                ),
    decreases runs.len(),
{
    if runs.len() > 0 {
        let rest = runs.drop_first();
        lemma_long_runs_only(rest, min_ms);
        let out = long_runs(runs, min_ms);
        let later = long_runs(rest, min_ms);
        assert forall|i: int| 0 <= i < out.len() implies exists|k: int|
            0 <= k < runs.len() && #[trigger] out[i] == group_of(#[trigger] runs[k]) by {
            if total_duration(runs[0]) > min_ms && i == 0 {
                assert(out[0] == group_of(runs[0]));
            } else {
                let i2 = if total_duration(runs[0]) > min_ms { i - 1 } else { i };
                assert(out[i] == later[i2]);
                let k = choose|k: int| 0 <= k < rest.len() && later[i2] == group_of(#[trigger] rest[k]);
                assert(rest[k] == runs[k + 1]);
            }
        }
        assert forall|i: int| 0 <= i < out.len() implies (#[trigger] out[i]).duration_ms > min_ms by {
            if total_duration(runs[0]) > min_ms && i == 0 {
            } else {
                let i2 = if total_duration(runs[0]) > min_ms { i - 1 } else { i };
                assert(out[i] == later[i2]);
            }
        }
    }
}

/// No group that splitting by album gives plays `min_ms` or less.
pub proof fn lemma_no_short_album(tracks: Seq<TrackView>, min_ms: nat)
    ensures
        forall|i: int|
            0 <= i < album_groups(tracks, min_ms).len() ==> (#[trigger] album_groups(
                tracks,
                min_ms,
            )[i]).duration_ms > min_ms,
{
    lemma_long_runs_only(album_runs(tracks), min_ms);
}

} // verus!
