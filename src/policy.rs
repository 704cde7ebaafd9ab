//! Policy constants, identities and the classification of validation failures.
use vstd::prelude::*;

verus! {

/// Outgoing peers the sync driver keeps open at most.
pub const MAX_OUTGOING_PEERS: usize = 4;

/// Seconds between two attempts to open a new outgoing connection.
pub const TRY_NEW_CONNECTION: u64 = 10;

/// Seconds after which an unanswered request is reclaimed.
pub const REQUEST_TIMEOUT: u64 = 60;

/// Requests that may be outstanding at once.
pub const MAX_INFLIGHT_REQUESTS: usize = 100;

/// Blocks asked for in one scheduling round at most.
pub const BATCH_SIZE: usize = 100;

/// Ban-score increase for a request that timed out.
pub const TIMEOUT_BAN_SCORE: u32 = 1;

/// Seconds an address stays banned after its peer misbehaved: one day.
pub const BAN_TIME: u64 = 86400;

/// Service bit a peer advertises when it serves utreexo proofs.
pub const NODE_UTREEXO: u64 = 16777216;

/// Identity of a connected peer.
pub type PeerId = u32;

/// A 256-bit block hash, as four 64-bit words.
#[derive(Clone, Copy, Debug, PartialEq, Eq, Structural)]
pub struct BlockHash(pub u64, pub u64, pub u64, pub u64);

/// Why the chain refused to connect a block on consensus or proof grounds.
#[derive(Clone, Copy, Debug, PartialEq, Eq, Structural)]
pub enum BlockValidationFailure {
    InvalidTx,
    NotEnoughPow,
    BadMerkleRoot,
    BadWitnessCommitment,
    NotEnoughMoney,
    FirstTxIsNotCoinbase,
    BadCoinbaseOutValue,
    EmptyBlock,
    BlockExtendsAnOrphanChain,
    BadBip34,
    CoinbaseNotMatured,
    InvalidProof,
}

/// What the chain answered to a connect attempt that failed.
#[derive(Clone, Copy, Debug, PartialEq, Eq, Structural)]
pub enum ConnectError {
    /// The block or its proof broke a rule.
    Validation(BlockValidationFailure),
    /// Storage or another part of the chain failed; says nothing of the block.
    Interface,
}

/// The two outcomes a validation failure can have for the block.
#[derive(Clone, Copy, Debug, PartialEq, Eq, Structural)]
pub enum FailurePolicy {
    /// The block is invalid whoever sent it: invalidate it and ban the peer.
    InvalidateAndBan,
    /// Only the proof failed, which the header does not commit to: ban the peer only.
    BanOnly,
}

/// Whether a failure proves the block itself invalid.
pub open spec fn is_consensus_failure(f: BlockValidationFailure) -> bool {
    f != BlockValidationFailure::InvalidProof
}

/// Sorts a validation failure into the policy it calls for.
pub fn classify(f: BlockValidationFailure) -> (r: FailurePolicy)
    ensures
        r == (if is_consensus_failure(f) {
            FailurePolicy::InvalidateAndBan
        } else {
            FailurePolicy::BanOnly
        }),
{
    match f {
        BlockValidationFailure::InvalidTx
        | BlockValidationFailure::NotEnoughPow
        | BlockValidationFailure::BadMerkleRoot
        | BlockValidationFailure::BadWitnessCommitment
        | BlockValidationFailure::NotEnoughMoney
        | BlockValidationFailure::FirstTxIsNotCoinbase
        | BlockValidationFailure::BadCoinbaseOutValue
        | BlockValidationFailure::EmptyBlock
        | BlockValidationFailure::BlockExtendsAnOrphanChain
        | BlockValidationFailure::BadBip34
        | BlockValidationFailure::CoinbaseNotMatured => FailurePolicy::InvalidateAndBan,
        BlockValidationFailure::InvalidProof => FailurePolicy::BanOnly,
    }
}

} // verus!
