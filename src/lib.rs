//! Block-synchronization core of a utreexo-powered node: request scheduling,
//! inflight bookkeeping with timeouts, out-of-order block buffering with an
//! ordered drain, and the policy that decides what a failed block costs its peer.
use vstd::prelude::*;

pub mod ordering;
pub mod policy;
pub mod sync_node;

pub use policy::{BlockHash, BlockValidationFailure, ConnectError, FailurePolicy, PeerId};
pub use sync_node::{Dispatch, FailureReaction, InflightEntry, IterationPlan, PeerMessage, Reissue, SyncNode};

verus! {

} // verus!
