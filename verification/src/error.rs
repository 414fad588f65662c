//! The error taxonomy of the pool. Every rejection carries a tagged reason;
//! an error aborts the operation and leaves the pool unchanged.

use vstd::prelude::*;
use crate::types::{Address, AssetId, BlobId, ContractId, MessageNonce, UtxoId};

verus! {

/// Why a candidate collides with a resident transaction.
#[derive(Debug, Clone, Copy, PartialEq, Eq, Structural)]
pub enum CollisionReason {
    /// Both spend the same coin.
    CoinUtxo(UtxoId),
    /// Both consume the same cross-layer message.
    MessageNonce(MessageNonce),
    /// Both create the same contract.
    ContractCreate(ContractId),
    /// Both carry the blob with the same content hash.
    Blob(BlobId),
}

/// Why the collision policy rejects a candidate.
#[derive(Debug, Clone, Copy, PartialEq, Eq, Structural)]
pub enum CollisionError {
    /// The candidate both depends on residents and collides with a resident.
    DependentAndColliding,
    /// The candidate's tip does not strictly exceed the cumulative tip of a
    /// colliding resident's subtree.
    NotProfitable,
}

/// Which blacklist entry a candidate matched.
#[derive(Debug, Clone, Copy, PartialEq, Eq, Structural)]
pub enum BlacklistedReason {
    /// A coin owner or message sender is disallowed.
    Owner(Address),
    /// A coin's asset is disallowed.
    Asset(AssetId),
    /// A referenced contract is disallowed.
    ContractId(ContractId),
    /// An input's predicate root is disallowed.
    PredicateRoot(Address),
}

/// A rejection of a pool operation.
#[derive(Debug, Clone, Copy, PartialEq, Eq, Structural)]
pub enum Error {
    /// An input of the candidate matches the blacklist.
    Blacklisted(BlacklistedReason),
    /// The candidate's blob content hash already exists, in persistent
    /// storage or in the pool.
    NotInsertedBlobIdAlreadyTaken(BlobId),
    /// A coin input references a coin that exists neither on chain nor as an
    /// output of a resident transaction.
    NotInsertedInputUtxo(UtxoId),
    /// A message input references a nonce that is absent or already spent.
    NotInsertedMessageNonce(MessageNonce),
    /// A contract input references a contract that exists neither on chain
    /// nor as a creation of a resident transaction.
    NotInsertedContract(ContractId),
    /// The collision policy rejected the candidate.
    Collided(CollisionError),
    /// The pool is full and no feasible eviction set exists.
    NotInsertedLimitHit,
    /// A transaction with the same id is already resident.
    NotInsertedTxIdAlreadyExists(crate::types::TxId),
}

} // verus!
