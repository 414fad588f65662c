//! A snapshot of the persistent on-chain state, taken once at the start of an
//! operation and used for every check within it. The pool itself never
//! fetches state; the caller obtains a snapshot and passes it in.

use vstd::prelude::*;
use crate::types::{contains_blob, contains_contract, contains_nonce, contains_utxo};
use crate::types::{BlobId, ContractId, MessageNonce, UtxoId};

verus! {

/// The parts of persistent state the pool consults: which coins are
/// unspent, which message nonces are unconsumed, which contracts are
/// deployed, and which blob payloads are already stored.
#[derive(Debug, Clone, PartialEq, Eq)]
pub struct StateView {
    /// Unspent coins.
    pub coins: Vec<UtxoId>,
    /// Unconsumed cross-layer message nonces.
    pub messages: Vec<MessageNonce>,
    /// Deployed contracts.
    pub contracts: Vec<ContractId>,
    /// Stored blob payloads, by content hash.
    pub blobs: Vec<BlobId>,
}

impl StateView {
    /// Whether the coin `u` is unspent on chain.
    pub fn coin_exists(&self, u: UtxoId) -> (r: bool)
        ensures
            r == self.coins@.contains(u),
    {
        contains_utxo(&self.coins, u)
    }

    /// Whether the message nonce `n` is present and unconsumed.
    pub fn message_exists(&self, n: MessageNonce) -> (r: bool)
        ensures
            r == self.messages@.contains(n),
    {
        contains_nonce(&self.messages, n)
    }

    /// Whether the contract `c` is deployed on chain.
    pub fn contract_exists(&self, c: ContractId) -> (r: bool)
        ensures
            r == self.contracts@.contains(c),
    {
        contains_contract(&self.contracts, c)
    }

    /// Whether a blob with content hash `b` is already stored.
    pub fn blob_exist(&self, b: BlobId) -> (r: bool)
        ensures
            r == self.blobs@.contains(b),
    {
        contains_blob(&self.blobs, b)
    }
}

} // verus!
