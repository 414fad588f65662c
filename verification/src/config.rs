//! Pool configuration: the capacity envelope, the block gas constraint, and
//! the blacklist of disallowed owners, assets, contracts and predicate roots.

use vstd::prelude::*;
use crate::error::{BlacklistedReason, Error};
use crate::types::{contains_address, contains_asset, contains_contract};
use crate::types::{Address, AssetId, ContractId, Input, PoolTransaction};

verus! {

/// The pool's capacity envelope.
#[derive(Debug, Clone, Copy, PartialEq, Eq, Structural)]
pub struct PoolLimits {
    /// Upper bound on the sum of `max_gas` over all residents.
    pub max_gas: u64,
    /// Upper bound on the sum of `metered_bytes_size` over all residents.
    pub max_bytes_size: u64,
    /// Upper bound on the number of residents.
    pub max_txs: u64,
}

/// Disallowed owners, assets, contracts and predicate roots.
#[derive(Debug, Clone, PartialEq, Eq)]
pub struct BlackList {
    /// Disallowed coin owners and message senders.
    pub owners: Vec<Address>,
    /// Disallowed coin assets.
    pub assets: Vec<AssetId>,
    /// Disallowed contracts.
    pub contracts: Vec<ContractId>,
    /// Disallowed predicate roots.
    pub predicate_roots: Vec<Address>,
}

impl BlackList {
    /// The verdict of the blacklist on one input: the first matching entry,
    /// checked in the order owner, asset, predicate root for coins; sender,
    /// predicate root for messages; contract id for contract inputs.
    pub open spec fn input_verdict(&self, inp: Input) -> Option<BlacklistedReason> {
        match inp {
            Input::Coin { utxo_id: _, owner, asset_id, predicate_root } => {
                if self.owners@.contains(owner) {
                    Some(BlacklistedReason::Owner(owner))
                } else if self.assets@.contains(asset_id) {
                    Some(BlacklistedReason::Asset(asset_id))
                } else if predicate_root is Some && self.predicate_roots@.contains(
                    predicate_root->0,
                ) {
                    Some(BlacklistedReason::PredicateRoot(predicate_root->0))
                } else {
                    None
                }
            },
            Input::Message { nonce: _, sender, predicate_root } => {
                if self.owners@.contains(sender) {
                    Some(BlacklistedReason::Owner(sender))
                } else if predicate_root is Some && self.predicate_roots@.contains(
                    predicate_root->0,
                ) {
                    Some(BlacklistedReason::PredicateRoot(predicate_root->0))
                } else {
                    None
                }
            },
            Input::Contract { contract_id } => {
                if self.contracts@.contains(contract_id) {
                    Some(BlacklistedReason::ContractId(contract_id))
                } else {
                    None
                }
            },
        }
    }

    /// The verdict of the blacklist on a sequence of inputs: the verdict of
    /// the first input that matches, in input order.
    pub open spec fn inputs_verdict(&self, inputs: Seq<Input>) -> Option<BlacklistedReason>
        decreases inputs.len(),
    {
        if inputs.len() == 0 {
            None
        } else {
            match self.input_verdict(inputs[0]) {
                Some(e) => Some(e),
                None => self.inputs_verdict(inputs.drop_first()),
            }
        }
    }

    /// The verdict of the blacklist on a whole transaction.
    pub open spec fn verdict(&self, tx: &PoolTransaction) -> Option<BlacklistedReason> {
        self.inputs_verdict(tx.inputs@)
    }

    /// Checks every input of `tx` against the blacklist; returns the first
    /// match, in input order, as an error.
    pub fn check_blacklisting(&self, tx: &PoolTransaction) -> (r: Result<(), Error>)
        ensures
            r == match self.verdict(tx) {
                Some(e) => Err::<(), Error>(Error::Blacklisted(e)),
                None => Ok::<(), Error>(()),
            },
    {
        let n = tx.inputs.len();
        proof {
            assert(tx.inputs@.skip(0) =~= tx.inputs@);
        }
        let mut i: usize = 0;
        while i < n
            invariant
                0 <= i <= n,
                n == tx.inputs@.len(),
                self.inputs_verdict(tx.inputs@) == self.inputs_verdict(tx.inputs@.skip(i as int)),
            decreases n - i,
        {
            proof {
                assert(tx.inputs@.skip(i as int)[0] == tx.inputs@[i as int]);
                assert(tx.inputs@.skip(i as int).drop_first() =~= tx.inputs@.skip(i as int + 1));
            }
            let verdict: Option<BlacklistedReason> = match tx.inputs[i] {
                Input::Coin { utxo_id: _, owner, asset_id, predicate_root } => {
                    if contains_address(&self.owners, owner) {
                        Some(BlacklistedReason::Owner(owner))
                    } else if contains_asset(&self.assets, asset_id) {
                        Some(BlacklistedReason::Asset(asset_id))
                    } else {
                        match predicate_root {
                            Some(pr) => if contains_address(&self.predicate_roots, pr) {
                                Some(BlacklistedReason::PredicateRoot(pr))
                            } else {
                                None
                            },
                            None => None,
                        }
                    }
                },
                Input::Message { nonce: _, sender, predicate_root } => {
                    if contains_address(&self.owners, sender) {
                        Some(BlacklistedReason::Owner(sender))
                    } else {
                        match predicate_root {
                            Some(pr) => if contains_address(&self.predicate_roots, pr) {
                                Some(BlacklistedReason::PredicateRoot(pr))
                            } else {
                                None
                            },
                            None => None,
                        }
                    }
                },
                Input::Contract { contract_id } => {
                    if contains_contract(&self.contracts, contract_id) {
                        Some(BlacklistedReason::ContractId(contract_id))
                    } else {
                        None
                    }
                },
            };
            if let Some(e) = verdict {
                assert(self.input_verdict(tx.inputs@[i as int]) == Some(e));
                return Err(Error::Blacklisted(e));
            }
            assert(self.input_verdict(tx.inputs@[i as int]) is None);
            i += 1;
        }
        assert(tx.inputs@.skip(n as int) =~= Seq::<Input>::empty());
        Ok(())
    }
}

/// Configuration of the pool.
#[derive(Debug, Clone, PartialEq, Eq)]
pub struct Config {
    /// The capacity envelope.
    pub pool_limits: PoolLimits,
    /// Gas constraint handed to the selection algorithm when extracting a
    /// block.
    pub max_block_gas: u64,
    /// When false, coin, message and contract existence checks against the
    /// persistent view are skipped (test networks).
    pub utxo_validation: bool,
    /// Disallowed owners, assets, contracts and predicate roots.
    pub black_list: BlackList,
    /// Optional pruning horizon for resident transactions.
    pub ttl: Option<u64>,
}

} // verus!
