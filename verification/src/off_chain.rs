//! Description of the node's off-chain database: its schema version, name,
//! and the key prefix length of owner-indexed columns.

use vstd::prelude::*;

verus! {

/// The columns of the off-chain database.
#[derive(Debug, Clone, Copy, PartialEq, Eq, Structural)]
pub enum Column {
    /// Database metadata, including the schema version.
    Metadata,
    /// Coins indexed by owner.
    OwnedCoins,
    /// Transaction ids indexed by owner and block.
    TransactionsByOwnerBlockIdx,
    /// Message ids indexed by owner.
    OwnedMessageIds,
    /// Balances of asset per owner.
    Balances,
}

/// The expected key prefix length of a column: owner-indexed columns are
/// prefixed by a 32-byte address.
pub open spec fn spec_prefix(column: Column) -> Option<usize> {
    match column {
        Column::OwnedCoins | Column::TransactionsByOwnerBlockIdx | Column::OwnedMessageIds => Some(
            32usize,
        ),
        _ => None,
    }
}

/// Marker for the off-chain database description.
#[derive(Debug, Clone, Copy)]
pub struct OffChain;

impl OffChain {
    /// The schema version of the off-chain database.
    pub fn version() -> (r: u32)
        ensures
            r == 1,
    {
        1
    }

    /// The name of the off-chain database.
    pub fn name() -> (r: String)
        ensures
            r@ == "off_chain"@,
    {
        String::from_str("off_chain")
    }

    /// The column holding the database metadata.
    pub fn metadata_column() -> (r: Column)
        ensures
            r == Column::Metadata,
    {
        Column::Metadata
    }

    /// The key prefix length of `column`: 32 bytes, the address length, for
    /// the owner-indexed columns.
    pub fn prefix(column: &Column) -> (r: Option<usize>)
        ensures
            r == spec_prefix(*column),
    {
        match column {
            Column::OwnedCoins | Column::TransactionsByOwnerBlockIdx
            | Column::OwnedMessageIds => Some(32),
            _ => None,
        }
    }
}

} // verus!
