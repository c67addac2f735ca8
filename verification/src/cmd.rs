//! The commands of the program, as the command line names them.

use vstd::prelude::*;

verus! {

/// The basic command set.
#[derive(Clone, Copy, Debug, PartialEq, Eq, Structural)]
pub enum BaseCmd {
    /// Shuffle the user's entire library into a playlist.
    ShuffleLibrary,
}

/// What the command line asks for.
#[derive(Clone, Copy, Debug)]
pub struct BaseOpts {
    pub command: BaseCmd,
}

} // verus!
