//! Per-owner, per-asset balance amounts, split into coin-backed and
//! message-backed parts.

use vstd::prelude::*;

verus! {

/// A balance amount, split into the part backed by coins and the part backed
/// by cross-layer messages.
#[derive(Debug, Clone, Copy, PartialEq, Eq, Structural)]
pub struct Amount {
    pub coins: u64,
    pub messages: u64,
}

impl Amount {
    /// An amount backed entirely by coins.
    pub fn new_coins(coins: u64) -> (r: Self)
        ensures
            r.coins == coins,
            r.messages == 0,
    {
        Self { coins, messages: 0 }
    }

    /// An amount backed entirely by messages.
    pub fn new_messages(messages: u64) -> (r: Self)
        ensures
            r.coins == 0,
            r.messages == messages,
    {
        Self { coins: 0, messages }
    }

    /// The coin-backed part of the amount.
    pub fn coins(&self) -> (r: u64)
        ensures
            r == self.coins,
    {
        self.coins
    }

    /// The message-backed part of the amount.
    pub fn messages(&self) -> (r: u64)
        ensures
            r == self.messages,
    {
        self.messages
    }

    /// Component-wise sum of two amounts. Inputs whose sum would not fit in
    /// 64 bits are excluded by the precondition.
    pub fn saturating_add(&self, other: &Self) -> (r: Self)
        requires
            self.coins + other.coins <= u64::MAX,
            self.messages + other.messages <= u64::MAX,
        ensures
            r.coins == self.coins + other.coins,
            r.messages == self.messages + other.messages,
    {
        Self { coins: self.coins + other.coins, messages: self.messages + other.messages }
    }
}

/// Marker for the storage table that holds the balance of each asset per
/// owner; `Amount` is its value type.
#[derive(Debug, Clone, Copy)]
pub struct Balances;

} // verus!
