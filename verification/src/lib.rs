//! A dynamic set of token-addressed streams, driven by wake signals.
//!
//! Member streams are pushed into the set and identified by a stable,
//! nonzero token. The set keeps a ready queue of members whose wake signal
//! has fired, so that a call to [`StreamUnordered::poll_next`] polls only
//! members that asked to be polled. Each yielded item is tagged with the
//! token of the member that produced it; when a member reports its end, a
//! [`FinishedStream`] notice for its token is yielded instead, and the
//! caller decides whether to remove, take back, or keep the finished member.
//!
//! The set is single-owner: one caller at a time pushes, removes, polls and
//! iterates. Wake signals arrive through [`StreamUnordered::wake`]; an async
//! front end that adapts real wakers to such calls can drive the set as an
//! ordinary combined stream.

use vstd::prelude::*;

mod set;
mod token_index;
mod types;

pub use set::StreamUnordered;
pub use types::FinishedStream;
pub use types::PollResult;
pub use types::PollStream;
pub use types::StreamEntry;
pub use types::StreamYield;
