//! Core data model of the pool: identifiers, transaction inputs and outputs,
//! and the validated candidate transaction.

use vstd::prelude::*;

verus! {

/// A 32-byte transaction identifier (content hash), held as two 128-bit
/// halves; `hi` holds the most significant half.
#[derive(Debug, Clone, Copy, PartialEq, Eq, Structural)]
pub struct TxId {
    pub hi: u128,
    pub lo: u128,
}

/// Lexicographic order on transaction identifiers, most significant half
/// first. This is the deterministic tie-break order of the pool.
pub open spec fn tx_id_lt(a: TxId, b: TxId) -> bool {
    a.hi < b.hi || (a.hi == b.hi && a.lo < b.lo)
}

/// Executable comparison realizing `tx_id_lt`.
pub fn tx_id_less(a: &TxId, b: &TxId) -> (r: bool)
    ensures
        r == tx_id_lt(*a, *b),
{
    a.hi < b.hi || (a.hi == b.hi && a.lo < b.lo)
}

/// A 32-byte unique identifier of a cross-layer message, consumable once.
#[derive(Debug, Clone, Copy, PartialEq, Eq, Structural)]
pub struct MessageNonce {
    pub hi: u128,
    pub lo: u128,
}

/// A 32-byte contract identifier.
#[derive(Debug, Clone, Copy, PartialEq, Eq, Structural)]
pub struct ContractId {
    pub hi: u128,
    pub lo: u128,
}

/// A 32-byte content hash identifying a binary blob payload.
#[derive(Debug, Clone, Copy, PartialEq, Eq, Structural)]
pub struct BlobId {
    pub hi: u128,
    pub lo: u128,
}

/// A 32-byte account address (owner of a coin, sender of a message, or a
/// predicate root).
#[derive(Debug, Clone, Copy, PartialEq, Eq, Structural)]
pub struct Address {
    pub hi: u128,
    pub lo: u128,
}

/// A 32-byte asset identifier.
#[derive(Debug, Clone, Copy, PartialEq, Eq, Structural)]
pub struct AssetId {
    pub hi: u128,
    pub lo: u128,
}

/// An unspent transaction output: the coin created as output number
/// `output_index` of transaction `tx_id`.
#[derive(Debug, Clone, Copy, PartialEq, Eq, Structural)]
pub struct UtxoId {
    pub tx_id: TxId,
    pub output_index: u16,
}

/// One input of a candidate transaction: the claim it makes on existing
/// state.
#[derive(Debug, Clone, Copy, PartialEq, Eq, Structural)]
pub enum Input {
    /// Spends the coin `utxo_id` owned by `owner`, denominated in `asset_id`.
    /// A predicate-guarded coin carries the root of its predicate.
    Coin { utxo_id: UtxoId, owner: Address, asset_id: AssetId, predicate_root: Option<Address> },
    /// Consumes the cross-layer message `nonce` sent by `sender`.
    Message { nonce: MessageNonce, sender: Address, predicate_root: Option<Address> },
    /// Reads or calls the deployed contract `contract_id`.
    Contract { contract_id: ContractId },
}

/// One output of a candidate transaction.
#[derive(Debug, Clone, Copy, PartialEq, Eq, Structural)]
pub enum Output {
    /// Creates a new coin for `to`, denominated in `asset_id`.
    Coin { to: Address, asset_id: AssetId },
    /// Deploys the contract `contract_id`.
    ContractCreated { contract_id: ContractId },
    /// An output that creates neither a spendable coin nor a contract.
    Other,
}

/// The variant of a candidate transaction.
#[derive(Debug, Clone, Copy, PartialEq, Eq, Structural)]
pub enum TxKind {
    Script,
    Create,
    Mint,
    Upgrade,
    Upload,
    /// Carries a content-addressed binary payload identified by `blob_id`.
    Blob { blob_id: BlobId },
}

/// A validated candidate transaction, as staged in the pool.
#[derive(Debug, Clone, PartialEq, Eq)]
pub struct PoolTransaction {
    /// Content hash identifying the transaction.
    pub id: TxId,
    /// The transaction variant, with its variant-specific payload.
    pub kind: TxKind,
    /// User-supplied priority fee.
    pub tip: u64,
    /// Maximum gas the transaction may consume.
    pub max_gas: u64,
    /// Size charged against the pool's byte capacity.
    pub metered_bytes_size: u64,
    /// The claims this transaction makes on existing state, in order.
    pub inputs: Vec<Input>,
    /// The outputs this transaction creates, in order.
    pub outputs: Vec<Output>,
}

impl PoolTransaction {
    /// The blob payload identifier, for blob transactions.
    pub open spec fn spec_blob_id(&self) -> Option<BlobId> {
        match self.kind {
            TxKind::Blob { blob_id } => Some(blob_id),
            _ => None,
        }
    }

    /// A well-formed candidate consumes gas: the tip/gas ratio must be
    /// defined for every resident.
    pub open spec fn well_formed(&self) -> bool {
        self.max_gas >= 1
    }

    /// Content hash identifying the transaction.
    pub fn id(&self) -> (r: TxId)
        ensures
            r == self.id,
    {
        self.id
    }

    /// User-supplied priority fee.
    pub fn tip(&self) -> (r: u64)
        ensures
            r == self.tip,
    {
        self.tip
    }

    /// Maximum gas the transaction may consume.
    pub fn max_gas(&self) -> (r: u64)
        ensures
            r == self.max_gas,
    {
        self.max_gas
    }

    /// Size charged against the pool's byte capacity.
    pub fn metered_bytes_size(&self) -> (r: u64)
        ensures
            r == self.metered_bytes_size,
    {
        self.metered_bytes_size
    }

    /// The blob payload identifier, for blob transactions.
    pub fn blob_id(&self) -> (r: Option<BlobId>)
        ensures
            r == self.spec_blob_id(),
    {
        match self.kind {
            TxKind::Blob { blob_id } => Some(blob_id),
            _ => None,
        }
    }
}

/// Whether `a` occurs in `v`.
pub fn contains_address(v: &Vec<Address>, a: Address) -> (r: bool)
    ensures
        r == v@.contains(a),
{
    let mut i: usize = 0;
    while i < v.len()
        invariant
            0 <= i <= v.len(),
            forall|j: int| 0 <= j < i ==> v@[j] != a,
        decreases v.len() - i,
    {
        if v[i] == a {
            return true;
        }
        i += 1;
    }
    false
}

/// Whether `a` occurs in `v`.
pub fn contains_asset(v: &Vec<AssetId>, a: AssetId) -> (r: bool)
    ensures
        r == v@.contains(a),
{
    let mut i: usize = 0;
    while i < v.len()
        invariant
            0 <= i <= v.len(),
            forall|j: int| 0 <= j < i ==> v@[j] != a,
        decreases v.len() - i,
    {
        if v[i] == a {
            return true;
        }
        i += 1;
    }
    false
}

/// Whether `c` occurs in `v`.
pub fn contains_contract(v: &Vec<ContractId>, c: ContractId) -> (r: bool)
    ensures
        r == v@.contains(c),
{
    let mut i: usize = 0;
    while i < v.len()
        invariant
            0 <= i <= v.len(),
            forall|j: int| 0 <= j < i ==> v@[j] != c,
        decreases v.len() - i,
    {
        if v[i] == c {
            return true;
        }
        i += 1;
    }
    false
}

/// Whether `u` occurs in `v`.
pub fn contains_utxo(v: &Vec<UtxoId>, u: UtxoId) -> (r: bool)
    ensures
        r == v@.contains(u),
{
    let mut i: usize = 0;
    while i < v.len()
        invariant
            0 <= i <= v.len(),
            forall|j: int| 0 <= j < i ==> v@[j] != u,
        decreases v.len() - i,
    {
        if v[i] == u {
            return true;
        }
        i += 1;
    }
    false
}

/// Whether `n` occurs in `v`.
pub fn contains_nonce(v: &Vec<MessageNonce>, n: MessageNonce) -> (r: bool)
    ensures
        r == v@.contains(n),
{
    let mut i: usize = 0;
    while i < v.len()
        invariant
            0 <= i <= v.len(),
            forall|j: int| 0 <= j < i ==> v@[j] != n,
        decreases v.len() - i,
    {
        if v[i] == n {
            return true;
        }
        i += 1;
    }
    false
}

/// Whether `b` occurs in `v`.
pub fn contains_blob(v: &Vec<BlobId>, b: BlobId) -> (r: bool)
    ensures
        r == v@.contains(b),
{
    let mut i: usize = 0;
    while i < v.len()
        invariant
            0 <= i <= v.len(),
            forall|j: int| 0 <= j < i ==> v@[j] != b,
        decreases v.len() - i,
    {
        if v[i] == b {
            return true;
        }
        i += 1;
    }
    false
}

/// Whether `x` occurs in `v`.
pub fn contains_index(v: &Vec<u64>, x: u64) -> (r: bool)
    ensures
        r == v@.contains(x),
{
    let mut i: usize = 0;
    while i < v.len()
        invariant
            0 <= i <= v.len(),
            forall|j: int| 0 <= j < i ==> v@[j] != x,
        decreases v.len() - i,
    {
        if v[i] == x {
            return true;
        }
        i += 1;
    }
    false
}

/// `a + b`, capped at the largest 64-bit value.
pub fn sat_add64(a: u64, b: u64) -> (r: u64)
    ensures
        r == if a + b <= u64::MAX {
            a + b
        } else {
            u64::MAX as int
        },
        r >= a,
        r >= b,
{
    if b > u64::MAX - a {
        u64::MAX
    } else {
        a + b
    }
}

/// `a - b`, floored at zero.
pub fn sat_sub64(a: u64, b: u64) -> (r: u64)
    ensures
        r == if a >= b {
            a - b
        } else {
            0
        },
{
    if a >= b {
        a - b
    } else {
        0
    }
}

/// Copies a vector of indices.
pub fn copy_indices(v: &Vec<u64>) -> (r: Vec<u64>)
    ensures
        r@ == v@,
{
    let mut r: Vec<u64> = Vec::new();
    let mut i: usize = 0;
    while i < v.len()
        invariant
            0 <= i <= v@.len(),
            r@ == v@.take(i as int),
        decreases v@.len() - i,
    {
        r.push(v[i]);
        proof {
            assert(v@.take(i as int + 1) =~= v@.take(i as int).push(v@[i as int]));
        }
        i += 1;
    }
    proof {
        assert(v@.take(v@.len() as int) =~= v@);
    }
    r
}

/// Removes the single occurrence of `x` from `v`, if present.
pub fn remove_value(v: &mut Vec<u64>, x: u64)
    requires
        old(v)@.no_duplicates(),
    ensures
        final(v)@.no_duplicates(),
        forall|y: u64| #[trigger] final(v)@.contains(y) <==> old(v)@.contains(y) && y != x,
        !old(v)@.contains(x) ==> final(v)@ == old(v)@,
{
    let n = v.len();
    let mut i: usize = 0;
    while i < n
        invariant
            0 <= i <= n,
            n == v@.len(),
            v@ == old(v)@,
            v@.no_duplicates(),
            forall|j: int| 0 <= j < i ==> v@[j] != x,
        decreases n - i,
    {
        if v[i] == x {
            let ghost oldv = v@;
            v.remove(i);
            proof {
                assert(v@ == oldv.remove(i as int));
                assert forall|y: u64| #[trigger] v@.contains(y) implies oldv.contains(y) && y != x by {
                    let j = choose|j: int| 0 <= j < v@.len() && v@[j] == y;
                    let j2: int = if j < i { j } else { j + 1 };
                    assert(oldv[j2] == y);
                    if y == x {
                        assert(oldv[i as int] == x);
                    }
                }
                assert forall|y: u64| oldv.contains(y) && y != x implies #[trigger] v@.contains(y) by {
                    let j = choose|j: int| 0 <= j < oldv.len() && oldv[j] == y;
                    let j2: int = if j < i { j } else { j - 1 };
                    assert(v@[j2] == y);
                }
                assert forall|a: int, b: int| 0 <= a < b < v@.len() implies v@[a] != v@[b] by {
                    let a2: int = if a < i { a } else { a + 1 };
                    let b2: int = if b < i { b } else { b + 1 };
                    assert(v@[a] == oldv[a2] && v@[b] == oldv[b2]);
                }
            }
            return ;
        }
        i += 1;
    }
    proof {
        assert forall|y: u64| #[trigger] v@.contains(y) implies y != x by {}
    }
}

} // verus!
