//! The thresholds of the heuristics, as named values and as a set of knobs.

use vstd::prelude::*;

verus! {

/// A run of one album counts as an album only if it plays longer than this:
/// ten minutes.
pub const MIN_ALBUM_MS: u128 = 600_000;

/// A playlist that plays longer than this (45 minutes) and shorter than
/// [`MIX_SHORTER_THAN_MS`] is kept whole.
pub const MIX_LONGER_THAN_MS: u128 = 2_700_000;

/// The upper end of the band in which a playlist is kept whole: 90 minutes.
pub const MIX_SHORTER_THAN_MS: u128 = 5_400_000;

/// The most track IDs the remote service takes in one call.
pub const BATCH_SIZE: usize = 100;

/// The playing time aimed at where the caller names none: 1200 hours.
pub const DEFAULT_GOAL_MS: u128 = 4_320_000_000;

/// What to do with a track that has no ID.
#[derive(Clone, Copy, Debug, PartialEq, Eq, Structural)]
pub enum MissingIdPolicy {
    /// Give up on the whole library.
    Abort,
    /// Leave the track out and go on.
    Skip,
}

/// The knobs of grouping, selection and writing back.
#[derive(Clone, Copy, Debug)]
pub struct Settings {
    /// A run of one album is kept only if it plays longer than this.
    pub min_album_ms: u128,
    /// Lower end of the band in which a playlist is kept whole, exclusive.
    pub mix_longer_than_ms: u128,
    /// Upper end of that band, exclusive.
    pub mix_shorter_than_ms: u128,
    /// The most track IDs written in one request.
    pub batch_size: usize,
    /// The playing time aimed at where the caller names none.
    pub goal_ms: u128,
    /// What to do with a track that has no ID.
    pub missing_track_id: MissingIdPolicy,
}

impl Settings {
    /// The usual values: those of the named constants, and giving up on a
    /// track without an ID.
    pub open spec fn standard() -> Settings {
        Settings {
            min_album_ms: MIN_ALBUM_MS,
            mix_longer_than_ms: MIX_LONGER_THAN_MS,
            mix_shorter_than_ms: MIX_SHORTER_THAN_MS,
            batch_size: BATCH_SIZE,
            goal_ms: DEFAULT_GOAL_MS,
            missing_track_id: MissingIdPolicy::Abort,
        }
    }

    /// Settings are usable when a batch holds at least one track.
    pub open spec fn wf(&self) -> bool {
        self.batch_size > 0
    }
}

impl Default for Settings {
    fn default() -> (settings: Settings)
        ensures
            settings == Settings::standard(),
            settings.wf(),
    {
        Settings {
            min_album_ms: MIN_ALBUM_MS,
            mix_longer_than_ms: MIX_LONGER_THAN_MS,
            mix_shorter_than_ms: MIX_SHORTER_THAN_MS,
            batch_size: BATCH_SIZE,
            goal_ms: DEFAULT_GOAL_MS,
            missing_track_id: MissingIdPolicy::Abort,
        }
    }
}

} // verus!
