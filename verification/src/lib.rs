//! Reshuffles a music library into one long playlist of coherent groups.
//!
//! The library holds the decisions: how a paged listing is walked, when a
//! remote call is retried, how tracks fall into groups, which groups make up
//! the shuffled playlist and in which requests it is written back. Talking to
//! the remote service is left to the caller, who hands over what it received.

pub mod cmd;
pub mod model;
pub mod settings;
pub mod group;
pub mod fetch;
pub mod assemble;
pub mod client;
pub mod library;
