//! Selection: the groups are shuffled, and taken in that order until the
//! playing time aimed at is passed.

use vstd::prelude::*;
use crate::model::{TrackGroup, TrackGroupView};
use crate::settings::DEFAULT_GOAL_MS;

verus! {

/// The total playing time of `groups` in milliseconds.
pub open spec fn playing_time(groups: Seq<TrackGroupView>) -> nat
    decreases groups.len(),
{
    if groups.len() == 0 {
        0
    } else {
        groups[0].duration_ms + playing_time(groups.drop_first())
    }
}

/// The track IDs of `groups`, group after group.
pub open spec fn joined_ids(groups: Seq<TrackGroupView>) -> Seq<Seq<char>> {
    groups.map_values(|group: TrackGroupView| group.track_ids).flatten()
}

/// How many of `groups` are taken, from the front, when `running_ms` have
/// been gathered before them: a group is taken as long as the time gathered
/// before it has not passed `goal_ms`.
pub open spec fn taken_after(groups: Seq<TrackGroupView>, running_ms: nat, goal_ms: nat) -> nat
    decreases groups.len(),
{
    if groups.len() == 0 || running_ms > goal_ms {
        0
    } else {
        1 + taken_after(groups.drop_first(), running_ms + groups[0].duration_ms, goal_ms)
    }
}

/// How many of `groups` are taken, from the front, for a goal of `goal_ms`.
pub open spec fn taken(groups: Seq<TrackGroupView>, goal_ms: nat) -> nat {
    taken_after(groups, 0, goal_ms)
}

/// The playlist that `groups`, in this order, give for a goal of `goal_ms`:
/// the tracks of the groups taken, each group whole and in its own order.
pub open spec fn assembled(groups: Seq<TrackGroupView>, goal_ms: nat) -> Seq<Seq<char>> {
    joined_ids(groups.take(taken(groups, goal_ms) as int))
}

/// Builds the playlist from groups in the order given. Groups are taken from
/// the front, each with all its tracks; the first group whose turn comes when
/// the time gathered has already passed `goal_ms` is left out, with all that
/// follow it.
pub fn assemble(order: &Vec<TrackGroup>, goal_ms: u128) -> (ids: Vec<String>)
    ensures
        ids.deep_view() == assembled(order.deep_view(), goal_ms as nat),
{
    let ghost groups = order.deep_view();
    let ghost goal = goal_ms as nat;
    let mut ids: Vec<String> = Vec::new();
    let mut running: u128 = 0;
    let mut open = true;
    let mut i: usize = 0;
    assert(groups.skip(0) =~= groups);
    assert(groups.take(0).map_values(|group: TrackGroupView| group.track_ids) =~= Seq::empty());
    while open && i < order.len()
        invariant
            i <= order.len(),
            groups == order.deep_view(),
            goal == goal_ms as nat,
            ids.deep_view() == joined_ids(groups.take(i as int)),
            open ==> taken(groups, goal) == i + taken_after(groups.skip(i as int), running as nat, goal),
            !open ==> taken(groups, goal) == i,
        decreases (if open { 1nat } else { 0nat }), order.len() - i,
    {
        if running > goal_ms {
            open = false;
        } else {
            let group = &order[i];
            let ghost before = ids.deep_view();
            let mut j: usize = 0;
            while j < group.track_ids.len()
                invariant
                    j <= group.track_ids.len(),
                    ids.deep_view() == before + group@.track_ids.take(j as int),
                decreases group.track_ids.len() - j,
            {
                let ghost so_far = ids.deep_view();
                ids.push(group.track_ids[j].clone());
                assert(ids.deep_view() =~= so_far.push(group.track_ids@[j as int]@));
                assert(group@.track_ids.take(j + 1) =~= group@.track_ids.take(j as int).push(
                    group.track_ids@[j as int]@,
                ));
                j = j + 1;
            }
            proof {
                let lists = groups.take(i as int).map_values(|group: TrackGroupView| group.track_ids);
                assert(group@.track_ids.take(j as int) =~= group@.track_ids);
                assert(groups.take(i + 1).map_values(|group: TrackGroupView| group.track_ids)
                    =~= lists.push(group@.track_ids));
                lists.lemma_flatten_push(group@.track_ids);
                assert(groups.skip(i as int).drop_first() =~= groups.skip(i + 1));
            }
            match running.checked_add(group.duration_ms) {
                Some(total) => {
                    running = total;
                },
                None => {
                    assert(taken_after(
                        groups.skip(i + 1),
                        running as nat + group@.duration_ms,
                        goal,
                    ) == 0);
                    open = false;
                },
            }
            i = i + 1;
        }
    }
    assert(groups.skip(order.len() as int) =~= Seq::<TrackGroupView>::empty());
    ids
}

/// Counts the groups that [`assemble`] takes from `order`.
pub fn count_taken(order: &Vec<TrackGroup>, goal_ms: u128) -> (count: usize)
    ensures
        count == taken(order.deep_view(), goal_ms as nat),
{
    let ghost groups = order.deep_view();
    let ghost goal = goal_ms as nat;
    let mut running: u128 = 0;
    let mut open = true;
    let mut i: usize = 0;
    assert(groups.skip(0) =~= groups);
    while open && i < order.len()
        invariant
            i <= order.len(),
            groups == order.deep_view(),
            goal == goal_ms as nat,
            open ==> taken(groups, goal) == i + taken_after(groups.skip(i as int), running as nat, goal),
            !open ==> taken(groups, goal) == i,
        decreases (if open { 1nat } else { 0nat }), order.len() - i,
    {
        if running > goal_ms {
            open = false;
        } else {
            assert(groups.skip(i as int).drop_first() =~= groups.skip(i + 1));
            match running.checked_add(order[i].duration_ms) {
                Some(total) => {
                    running = total;
                },
                None => {
                    assert(taken_after(
                        groups.skip(i + 1),
                        running as nat + order[i as int]@.duration_ms,
                        goal,
                    ) == 0);
                    open = false;
                },
            }
            i = i + 1;
        }
    }
    assert(groups.skip(order.len() as int) =~= Seq::<TrackGroupView>::empty());
    i
}

/// The generator type of `rand::thread_rng`, carried through as it is.
#[verifier::external_type_specification]
#[verifier::external_body]
pub struct ExThreadRng(rand::rngs::ThreadRng);

/// `rand::thread_rng` hands out the calling thread's generator. Nothing is
/// claimed of it.
pub assume_specification[ rand::thread_rng ]() -> (rng: rand::rngs::ThreadRng);

/// Calls `rand::seq::SliceRandom::shuffle` on the groups. Its source walks the
/// slice once and does nothing but swap two of its elements at a time, which
/// is all that the contract claims: the same groups come back, each as often
/// as before. Which order comes out depends on the generator and is left open.
#[verifier::external_body]
fn shuffle_groups(groups: &mut Vec<TrackGroup>, rng: &mut rand::rngs::ThreadRng)
    ensures
        final(groups)@.to_multiset() == old(groups)@.to_multiset(),
{
    rand::seq::SliceRandom::shuffle(groups.as_mut_slice(), rng);
}

/// Whether `order` holds the groups of `src`, each as often as `src` does.
pub open spec fn is_order_of(order: Seq<TrackGroup>, src: Seq<TrackGroup>) -> bool {
    order.to_multiset() == src.to_multiset()
}

/// The views of `groups`, in order.
pub open spec fn views_of(groups: Seq<TrackGroup>) -> Seq<TrackGroupView> {
    groups.map_values(|group: TrackGroup| group@)
}

/// The playing time aimed at: the one named, or 1200 hours.
pub open spec fn goal_of(goal_duration: Option<u128>) -> nat {
    match goal_duration {
        Some(goal_ms) => goal_ms as nat,
        None => DEFAULT_GOAL_MS as nat,
    }
}

/// Puts `src` into a random order: the same groups, each as often as in
/// `src`. Which order it is depends on the thread's generator alone, so the
/// contract names none; the order of `src` itself is one that may come out.
pub fn shuffle(src: Vec<TrackGroup>) -> (order: Vec<TrackGroup>)
    ensures
        is_order_of(order@, src@),
{
    let mut order = src;
    let mut rng = rand::thread_rng();
    shuffle_groups(&mut order, &mut rng);
    order
}

/// Builds a playlist from `src`: shuffles the groups and takes them in that
/// order until the playing time gathered has passed `goal_duration`
/// (milliseconds; 1200 hours where `None`). Returns the track IDs.
///
/// The order is random; whatever it is, the playlist is what [`assemble`]
/// makes of the groups in that order.
pub fn create_playlist(src: Vec<TrackGroup>, goal_duration: Option<u128>) -> (ids: Vec<String>)
    ensures
        exists|order: Seq<TrackGroup>|
            #[trigger] is_order_of(order, src@) && ids.deep_view() == assembled(
                views_of(order),
                goal_of(goal_duration),
            ),
{
    let goal_ms = match goal_duration {
        Some(goal_ms) => goal_ms,
        None => DEFAULT_GOAL_MS,
    };
    let order = shuffle(src);
    let ids = assemble(&order, goal_ms);
    proof {
        assert(order.deep_view() =~= views_of(order@));
        assert(is_order_of(order@, src@));
    }
    ids
}

/// What stands behind [`taken_after`]: the groups taken are those before
/// which the time gathered had not passed the goal, and the first group left
/// out, if there is one, is the first before which it had.
pub proof fn lemma_taken_after(groups: Seq<TrackGroupView>, running_ms: nat, goal_ms: nat)
    ensures
        taken_after(groups, running_ms, goal_ms) <= groups.len(),
        forall|i: int|
            0 <= i < taken_after(groups, running_ms, goal_ms) ==> running_ms + playing_time(
                #[trigger] groups.take(i),
            ) <= goal_ms,
        taken_after(groups, running_ms, goal_ms) < groups.len() ==> running_ms + playing_time(
            groups.take(taken_after(groups, running_ms, goal_ms) as int),
        ) > goal_ms,
    decreases groups.len(),
{
    let k = taken_after(groups, running_ms, goal_ms);
    if groups.len() == 0 || running_ms > goal_ms {
        assert(groups.take(0) =~= Seq::<TrackGroupView>::empty());
    } else {
        let rest = groups.drop_first();
        let first_ms = groups[0].duration_ms;
        lemma_taken_after(rest, running_ms + first_ms, goal_ms);
        assert forall|i: int| 0 <= i < k implies running_ms + playing_time(#[trigger] groups.take(i))
            <= goal_ms by {
            if i == 0 {
                assert(groups.take(0) =~= Seq::<TrackGroupView>::empty());
            } else {
                assert(groups.take(i).drop_first() =~= rest.take(i - 1));
            }
        }
        if k < groups.len() {
            assert(groups.take(k as int).drop_first() =~= rest.take(k - 1));
        }
    }
}

/// The playlist is made of whole groups only: it is the tracks of the first
/// `taken` groups, no more and no less. A group is among them exactly if the
/// playing time of the groups before it has not passed the goal; so the first
/// group is always taken, and once the time gathered has passed the goal no
/// further group is.
pub proof fn lemma_whole_groups_until_goal_passed(groups: Seq<TrackGroupView>, goal_ms: nat)
    ensures
        taken(groups, goal_ms) <= groups.len(),
        assembled(groups, goal_ms) == joined_ids(groups.take(taken(groups, goal_ms) as int)),
        groups.len() > 0 ==> taken(groups, goal_ms) >= 1,
        forall|i: int|
            0 <= i < taken(groups, goal_ms) ==> playing_time(#[trigger] groups.take(i)) <= goal_ms,
        forall|i: int|
            taken(groups, goal_ms) <= i < groups.len() ==> playing_time(#[trigger] groups.take(i))
                > goal_ms,
{
    lemma_taken_after(groups, 0, goal_ms);
    let k = taken(groups, goal_ms) as int;
    assert forall|i: int| k <= i < groups.len() implies playing_time(#[trigger] groups.take(i))
        > goal_ms by {
        lemma_playing_time_grows(groups, k, i);
    }
}

/// A longer prefix of `groups` plays at least as long as a shorter one.
pub proof fn lemma_playing_time_grows(groups: Seq<TrackGroupView>, shorter: int, longer: int)
    requires
        0 <= shorter <= longer <= groups.len(),
    ensures
        playing_time(groups.take(shorter)) <= playing_time(groups.take(longer)),
    decreases groups.len(),
{
    if shorter == 0 {
        assert(groups.take(0) =~= Seq::<TrackGroupView>::empty());
    } else {
        let rest = groups.drop_first();
        assert(groups.take(shorter).drop_first() =~= rest.take(shorter - 1));
        assert(groups.take(longer).drop_first() =~= rest.take(longer - 1));
        lemma_playing_time_grows(rest, shorter - 1, longer - 1);
    }
}

} // verus!
