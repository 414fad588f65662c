//! The collision manager: an index from input claim (spent coin, consumed
//! message nonce, created contract, blob content hash) to the resident
//! transaction that currently occupies it, and the policy deciding whether a
//! newcomer may displace colliding residents.

use vstd::prelude::*;
use crate::assoc::{assoc_map, distinct_keys, has_key};
use crate::assoc::{
    lemma_assoc_map_absent, lemma_assoc_map_contains, lemma_assoc_map_index, lemma_assoc_map_push,
    lemma_assoc_map_remove,
};
use crate::error::{CollisionError, CollisionReason, Error};
use crate::storage::{Storage, StorageData};
use crate::types::{BlobId, Input, Output, PoolTransaction, TxKind};

verus! {

/// A claim a transaction makes on shared state; each key may be occupied by
/// at most one resident at a time.
#[derive(Debug, Clone, Copy, PartialEq, Eq, Structural)]
pub enum CollisionKey {
    /// The coin spent by a coin input.
    Coin(crate::types::UtxoId),
    /// The message nonce consumed by a message input.
    Message(crate::types::MessageNonce),
    /// The contract created by an output.
    Contract(crate::types::ContractId),
    /// The blob content hash carried by a blob transaction.
    Blob(BlobId),
}

/// The collision reason corresponding to a claim key.
pub open spec fn reason_of(k: CollisionKey) -> CollisionReason {
    match k {
        CollisionKey::Coin(u) => CollisionReason::CoinUtxo(u),
        CollisionKey::Message(n) => CollisionReason::MessageNonce(n),
        CollisionKey::Contract(c) => CollisionReason::ContractCreate(c),
        CollisionKey::Blob(b) => CollisionReason::Blob(b),
    }
}

/// The claim keys of a sequence of inputs, in input order.
pub open spec fn input_claims(inputs: Seq<Input>) -> Seq<CollisionKey>
    decreases inputs.len(),
{
    if inputs.len() == 0 {
        Seq::empty()
    } else {
        input_claims(inputs.drop_last()) + match inputs.last() {
            Input::Coin { utxo_id, .. } => seq![CollisionKey::Coin(utxo_id)],
            Input::Message { nonce, .. } => seq![CollisionKey::Message(nonce)],
            Input::Contract { .. } => seq![],
        }
    }
}

/// The claim keys of a sequence of outputs, in output order.
pub open spec fn output_claims(outputs: Seq<Output>) -> Seq<CollisionKey>
    decreases outputs.len(),
{
    if outputs.len() == 0 {
        Seq::empty()
    } else {
        output_claims(outputs.drop_last()) + match outputs.last() {
            Output::ContractCreated { contract_id } => seq![CollisionKey::Contract(contract_id)],
            _ => seq![],
        }
    }
}

/// The blob claim of a transaction, if it is a blob transaction.
pub open spec fn blob_claim(tx: &PoolTransaction) -> Seq<CollisionKey> {
    match tx.kind {
        TxKind::Blob { blob_id } => seq![CollisionKey::Blob(blob_id)],
        _ => Seq::empty(),
    }
}

/// Every claim key of a transaction: its blob claim, then the contracts it
/// creates, then the coins and message nonces its inputs consume.
pub open spec fn claim_keys_seq(tx: &PoolTransaction) -> Seq<CollisionKey> {
    blob_claim(tx) + output_claims(tx.outputs@) + input_claims(tx.inputs@)
}

/// Whether `k` is one of the claim keys of `tx`.
pub open spec fn is_claim(tx: &PoolTransaction, k: CollisionKey) -> bool {
    claim_keys_seq(tx).contains(k)
}

/// The displacement policy's verdict, checked entry by entry: a dependent
/// candidate may not collide at all; a blob collision is a duplicate; any
/// other colliding resident may be displaced only by a strictly higher tip
/// than its subtree's cumulative tip.
pub open spec fn collision_verdict(
    tx: &PoolTransaction,
    has_dependencies: bool,
    colliding: Seq<(u64, CollisionReason)>,
    m: Map<u64, StorageData>,
) -> Result<(), Error>
    decreases colliding.len(),
{
    if colliding.len() == 0 {
        Ok(())
    } else if has_dependencies {
        Err(Error::Collided(CollisionError::DependentAndColliding))
    } else {
        match colliding[0].1 {
            CollisionReason::Blob(b) => Err(Error::NotInsertedBlobIdAlreadyTaken(b)),
            _ => if !(tx.tip > m[colliding[0].0].dependents_cumulative_tip) {
                Err(Error::Collided(CollisionError::NotProfitable))
            } else {
                collision_verdict(tx, has_dependencies, colliding.drop_first(), m)
            },
        }
    }
}

/// The displacement policy rejects only with a collision or blob error.
pub proof fn lemma_collision_verdict_kinds(
    tx: &PoolTransaction,
    has_dependencies: bool,
    colliding: Seq<(u64, CollisionReason)>,
    m: Map<u64, StorageData>,
)
    ensures
        match collision_verdict(tx, has_dependencies, colliding, m) {
            Err(e) => e is Collided || e is NotInsertedBlobIdAlreadyTaken,
            Ok(()) => true,
        },
    decreases colliding.len(),
{
    if colliding.len() > 0 && !has_dependencies {
        lemma_collision_verdict_kinds(tx, has_dependencies, colliding.drop_first(), m);
    }
}

/// The displacement policy stated over the pool state itself, independent of
/// how the colliding set is collected: no occupied claim means acceptance; a
/// dependent candidate may not collide; an occupied blob claim is a
/// duplicate; otherwise every occupied claim's resident must be strictly
/// out-tipped.
pub open spec fn collision_outcome(
    tx: &PoolTransaction,
    has_dependencies: bool,
    cm: Map<CollisionKey, u64>,
    m: Map<u64, StorageData>,
) -> Result<(), Error> {
    if forall|k: CollisionKey| #[trigger] is_claim(tx, k) ==> !cm.contains_key(k) {
        Ok(())
    } else if has_dependencies {
        Err(Error::Collided(CollisionError::DependentAndColliding))
    } else if tx.kind is Blob && cm.contains_key(CollisionKey::Blob(tx.kind->blob_id)) {
        Err(Error::NotInsertedBlobIdAlreadyTaken(tx.kind->blob_id))
    } else if exists|k: CollisionKey|
        #[trigger] is_claim(tx, k) && cm.contains_key(k) && !(tx.tip
            > m[cm[k]].dependents_cumulative_tip) {
        Err(Error::Collided(CollisionError::NotProfitable))
    } else {
        Ok(())
    }
}

/// On a blob-free colliding set the policy walk reduces to the tip test.
proof fn lemma_verdict_walk(
    tx: &PoolTransaction,
    colliding: Seq<(u64, CollisionReason)>,
    m: Map<u64, StorageData>,
)
    requires
        forall|i: int| 0 <= i < colliding.len() ==> !((#[trigger] colliding[i]).1 is Blob),
    ensures
        collision_verdict(tx, false, colliding, m) == if exists|i: int|
            0 <= i < colliding.len() && !(tx.tip > m[(#[trigger] colliding[i]).0].dependents_cumulative_tip) {
            Err::<(), Error>(Error::Collided(CollisionError::NotProfitable))
        } else {
            Ok::<(), Error>(())
        },
    decreases colliding.len(),
{
    if colliding.len() == 0 {
    } else {
        assert(!(colliding[0].1 is Blob));
        if !(tx.tip > m[colliding[0].0].dependents_cumulative_tip) {
        } else {
            assert forall|i: int|
                0 <= i < colliding.drop_first().len() implies !(
            (#[trigger] colliding.drop_first()[i]).1 is Blob) by {
                assert(colliding.drop_first()[i] == colliding[i + 1]);
            }
            lemma_verdict_walk(tx, colliding.drop_first(), m);
            if exists|i: int|
                0 <= i < colliding.len() && !(tx.tip > m[(
                #[trigger] colliding[i]).0].dependents_cumulative_tip) {
                let i = choose|i: int|
                    0 <= i < colliding.len() && !(tx.tip > m[(
                    #[trigger] colliding[i]).0].dependents_cumulative_tip);
                assert(i > 0);
                assert(colliding.drop_first()[i - 1] == colliding[i]);
            }
            if exists|i: int|
                0 <= i < colliding.drop_first().len() && !(tx.tip > m[(
                #[trigger] colliding.drop_first()[i]).0].dependents_cumulative_tip) {
                let i = choose|i: int|
                    0 <= i < colliding.drop_first().len() && !(tx.tip > m[(
                    #[trigger] colliding.drop_first()[i]).0].dependents_cumulative_tip);
                assert(colliding[i + 1] == colliding.drop_first()[i]);
            }
        }
    }
}

/// On a colliding set that is sound, complete and blob-first with respect to
/// the claim index, the policy walk decides exactly the state-level outcome.
#[verifier::rlimit(100)]
pub proof fn lemma_verdict_is_outcome(
    tx: &PoolTransaction,
    has_dependencies: bool,
    colliding: Seq<(u64, CollisionReason)>,
    cm: Map<CollisionKey, u64>,
    m: Map<u64, StorageData>,
)
    requires
        forall|i: int|
            0 <= i < colliding.len() ==> exists|k: CollisionKey|
                is_claim(tx, k) && cm.contains_key(k) && cm[k] == (#[trigger] colliding[i]).0
                    && colliding[i].1 == reason_of(k),
        forall|k: CollisionKey|
            is_claim(tx, k) && #[trigger] cm.contains_key(k) ==> exists|i: int|
                0 <= i < colliding.len() && (#[trigger] colliding[i]).0 == cm[k],
        forall|b: BlobId|
            tx.kind == (TxKind::Blob { blob_id: b }) && #[trigger] cm.contains_key(
                CollisionKey::Blob(b),
            ) ==> colliding.len() > 0 && colliding[0] == (
                cm[CollisionKey::Blob(b)],
                CollisionReason::Blob(b),
            ),
    ensures
        collision_verdict(tx, has_dependencies, colliding, m) == collision_outcome(
            tx,
            has_dependencies,
            cm,
            m,
        ),
{
    if colliding.len() == 0 {
        assert forall|k: CollisionKey| #[trigger] is_claim(tx, k) implies !cm.contains_key(k) by {
            if cm.contains_key(k) {
                let i = choose|i: int| 0 <= i < colliding.len() && (#[trigger] colliding[i]).0 == cm[k];
            }
        }
    } else {
        let k0 = choose|k: CollisionKey|
            is_claim(tx, k) && cm.contains_key(k) && cm[k] == colliding[0].0 && colliding[0].1
                == reason_of(k);
        assert(!(forall|k: CollisionKey| #[trigger] is_claim(tx, k) ==> !cm.contains_key(k))) by {
            assert(is_claim(tx, k0) && cm.contains_key(k0));
        }
        if has_dependencies {
        } else if tx.kind is Blob && cm.contains_key(CollisionKey::Blob(tx.kind->blob_id)) {
            let b = tx.kind->blob_id;
            assert(colliding[0] == (cm[CollisionKey::Blob(b)], CollisionReason::Blob(b)));
        } else {
            // No entry carries a blob reason.
            assert forall|i: int| 0 <= i < colliding.len() implies !(
            (#[trigger] colliding[i]).1 is Blob) by {
                if colliding[i].1 is Blob {
                    let k = choose|k: CollisionKey|
                        is_claim(tx, k) && cm.contains_key(k) && cm[k] == (
                        #[trigger] colliding[i]).0 && colliding[i].1 == reason_of(k);
                    let b2 = colliding[i].1->Blob_0;
                    assert(k == CollisionKey::Blob(b2));
                    assert(is_claim(tx, CollisionKey::Blob(b2)));
                    assert(claim_keys_seq(tx).contains(CollisionKey::Blob(b2)));
                    let j = choose|j: int|
                        0 <= j < claim_keys_seq(tx).len() && claim_keys_seq(tx)[j]
                            == CollisionKey::Blob(b2);
                    lemma_blob_claim_is_kind(tx, b2);
                }
            }
            lemma_verdict_walk(tx, colliding, m);
            if exists|k: CollisionKey|
                #[trigger] is_claim(tx, k) && cm.contains_key(k) && !(tx.tip
                    > m[cm[k]].dependents_cumulative_tip) {
                let k = choose|k: CollisionKey|
                    #[trigger] is_claim(tx, k) && cm.contains_key(k) && !(tx.tip
                        > m[cm[k]].dependents_cumulative_tip);
                let i = choose|i: int|
                    0 <= i < colliding.len() && (#[trigger] colliding[i]).0 == cm[k];
                assert(!(tx.tip > m[colliding[i].0].dependents_cumulative_tip));
            }
            if exists|i: int|
                0 <= i < colliding.len() && !(tx.tip > m[(
                #[trigger] colliding[i]).0].dependents_cumulative_tip) {
                let i = choose|i: int|
                    0 <= i < colliding.len() && !(tx.tip > m[(
                    #[trigger] colliding[i]).0].dependents_cumulative_tip);
                let k = choose|k: CollisionKey|
                    is_claim(tx, k) && cm.contains_key(k) && cm[k] == (#[trigger] colliding[i]).0
                        && colliding[i].1 == reason_of(k);
                assert(is_claim(tx, k) && cm.contains_key(k) && !(tx.tip
                    > m[cm[k]].dependents_cumulative_tip));
            }
        }
    }
}

/// A blob claim key among a transaction's claims names the transaction's own
/// blob payload.
proof fn lemma_blob_claim_is_kind(tx: &PoolTransaction, b: BlobId)
    requires
        is_claim(tx, CollisionKey::Blob(b)),
    ensures
        tx.kind == (TxKind::Blob { blob_id: b }),
{
    lemma_claim_kinds(tx.inputs@, tx.outputs@, tx, CollisionKey::Blob(b));
}

/// Blob keys arise only from the blob claim; input and output claims are coin,
/// message or contract keys.
proof fn lemma_claim_kinds(
    inputs: Seq<Input>,
    outputs: Seq<Output>,
    tx: &PoolTransaction,
    k: CollisionKey,
)
    requires
        is_claim(tx, k),
        k is Blob,
    ensures
        tx.kind == (TxKind::Blob { blob_id: k->Blob_0 }),
{
    let j = choose|j: int| 0 <= j < claim_keys_seq(tx).len() && claim_keys_seq(tx)[j] == k;
    lemma_input_claims_not_blob(tx.inputs@);
    lemma_output_claims_not_blob(tx.outputs@);
    let bc = blob_claim(tx);
    if j < bc.len() {
        assert(tx.kind is Blob);
        assert(bc[0] == CollisionKey::Blob(tx.kind->blob_id));
    } else if j < bc.len() + output_claims(tx.outputs@).len() {
        assert(output_claims(tx.outputs@)[j - bc.len()] == k);
        assert(output_claims(tx.outputs@).contains(k)) by {
            assert(0 <= j - bc.len() < output_claims(tx.outputs@).len());
        }
    } else {
        assert(input_claims(tx.inputs@)[j - bc.len() - output_claims(tx.outputs@).len()] == k);
        assert(input_claims(tx.inputs@).contains(k)) by {
            assert(0 <= j - bc.len() - output_claims(tx.outputs@).len() < input_claims(
                tx.inputs@,
            ).len());
        }
    }
}

/// No input claim is a blob key.
proof fn lemma_input_claims_not_blob(inputs: Seq<Input>)
    ensures
        forall|k: CollisionKey| #[trigger] input_claims(inputs).contains(k) ==> !(k is Blob),
    decreases inputs.len(),
{
    if inputs.len() > 0 {
        lemma_input_claims_not_blob(inputs.drop_last());
        assert forall|k: CollisionKey| #[trigger] input_claims(inputs).contains(k) implies !(
        k is Blob) by {
            let j = choose|j: int|
                0 <= j < input_claims(inputs).len() && input_claims(inputs)[j] == k;
            let pre = input_claims(inputs.drop_last());
            if j < pre.len() {
                assert(pre[j] == k);
                assert(pre.contains(k));
            }
        }
    }
}

/// No output claim is a blob key.
proof fn lemma_output_claims_not_blob(outputs: Seq<Output>)
    ensures
        forall|k: CollisionKey| #[trigger] output_claims(outputs).contains(k) ==> !(k is Blob),
    decreases outputs.len(),
{
    if outputs.len() > 0 {
        lemma_output_claims_not_blob(outputs.drop_last());
        assert forall|k: CollisionKey| #[trigger] output_claims(outputs).contains(k) implies !(
        k is Blob) by {
            let j = choose|j: int|
                0 <= j < output_claims(outputs).len() && output_claims(outputs)[j] == k;
            let pre = output_claims(outputs.drop_last());
            if j < pre.len() {
                assert(pre[j] == k);
                assert(pre.contains(k));
            }
        }
    }
}

/// The collision manager's index: each occupied claim key maps to the one
/// resident that holds it.
pub struct CollisionManager {
    /// The occupied claims, keyed by claim key.
    pub claims: Vec<(CollisionKey, u64)>,
}

impl View for CollisionManager {
    type V = Map<CollisionKey, u64>;

    open spec fn view(&self) -> Map<CollisionKey, u64> {
        assoc_map(self.claims@)
    }
}

/// The claim keys of `tx`, as a vector.
pub fn claim_keys(tx: &PoolTransaction) -> (r: Vec<CollisionKey>)
    ensures
        r@ == claim_keys_seq(tx),
{
    let mut acc: Vec<CollisionKey> = Vec::new();
    match tx.kind {
        TxKind::Blob { blob_id } => {
            acc.push(CollisionKey::Blob(blob_id));
        },
        _ => {},
    }
    proof {
        assert(acc@ =~= blob_claim(tx));
    }
    let n = tx.outputs.len();
    let mut i: usize = 0;
    while i < n
        invariant
            0 <= i <= n,
            n == tx.outputs@.len(),
            acc@ =~= blob_claim(tx) + output_claims(tx.outputs@.take(i as int)),
        decreases n - i,
    {
        let ghost pre = tx.outputs@.take(i as int);
        proof {
            assert(tx.outputs@.take(i as int + 1).drop_last() =~= pre);
            assert(tx.outputs@.take(i as int + 1).last() == tx.outputs@[i as int]);
        }
        match tx.outputs[i] {
            Output::ContractCreated { contract_id } => {
                acc.push(CollisionKey::Contract(contract_id));
            },
            _ => {},
        }
        proof {
            assert(acc@ =~= blob_claim(tx) + output_claims(tx.outputs@.take(i as int + 1)));
        }
        i += 1;
    }
    proof {
        assert(tx.outputs@.take(n as int) =~= tx.outputs@);
    }
    let m = tx.inputs.len();
    let mut j: usize = 0;
    while j < m
        invariant
            0 <= j <= m,
            m == tx.inputs@.len(),
            acc@ =~= blob_claim(tx) + output_claims(tx.outputs@) + input_claims(
                tx.inputs@.take(j as int),
            ),
        decreases m - j,
    {
        let ghost pre = tx.inputs@.take(j as int);
        proof {
            assert(tx.inputs@.take(j as int + 1).drop_last() =~= pre);
            assert(tx.inputs@.take(j as int + 1).last() == tx.inputs@[j as int]);
        }
        match tx.inputs[j] {
            Input::Coin { utxo_id, .. } => {
                acc.push(CollisionKey::Coin(utxo_id));
            },
            Input::Message { nonce, .. } => {
                acc.push(CollisionKey::Message(nonce));
            },
            Input::Contract { .. } => {},
        }
        proof {
            assert(acc@ =~= blob_claim(tx) + output_claims(tx.outputs@) + input_claims(
                tx.inputs@.take(j as int + 1),
            ));
        }
        j += 1;
    }
    proof {
        assert(tx.inputs@.take(m as int) =~= tx.inputs@);
    }
    acc
}

impl CollisionManager {
    /// No claim key occurs twice: each claim is occupied by at most one
    /// resident.
    pub open spec fn wf(&self) -> bool {
        distinct_keys(self.claims@)
    }

    /// An empty index.
    pub fn new() -> (r: Self)
        ensures
            r.wf(),
            r@ =~= Map::<CollisionKey, u64>::empty(),
    {
        let r = CollisionManager { claims: Vec::new() };
        proof {
            assert(r.claims@.len() == 0);
        }
        r
    }

    /// The position of `k` in the claim vector.
    fn position_of(&self, k: CollisionKey) -> (r: Option<usize>)
        ensures
            match r {
                Some(i) => i < self.claims@.len() && self.claims@[i as int].0 == k,
                None => !has_key(self.claims@, k) && !self@.contains_key(k),
            },
    {
        let n = self.claims.len();
        let mut i: usize = 0;
        while i < n
            invariant
                0 <= i <= n,
                n == self.claims@.len(),
                forall|j: int| 0 <= j < i ==> (#[trigger] self.claims@[j]).0 != k,
            decreases n - i,
        {
            if self.claims[i].0 == k {
                return Some(i);
            }
            i += 1;
        }
        proof {
            lemma_assoc_map_absent(self.claims@, k);
        }
        None
    }

    /// The resident occupying `k`, if any.
    pub fn find_claim(&self, k: CollisionKey) -> (r: Option<u64>)
        requires
            self.wf(),
        ensures
            match r {
                Some(idx) => self@.contains_key(k) && self@[k] == idx,
                None => !self@.contains_key(k),
            },
    {
        match self.position_of(k) {
            Some(i) => {
                proof {
                    lemma_assoc_map_index(self.claims@, i as int);
                }
                Some(self.claims[i].1)
            },
            None => None,
        }
    }

    /// The residents that collide with `tx`: for each claim key of `tx` that
    /// is occupied, the occupying resident, exactly once, with a reason
    /// justified by one of the claim keys that hit it. The blob claim is
    /// checked first: when the candidate's blob hash is occupied, the first
    /// entry of the result is that resident with the blob reason, so the
    /// policy walk sees the duplicate before anything else.
    pub fn collect_colliding_transactions(&self, tx: &PoolTransaction) -> (r: Vec<
        (u64, CollisionReason),
    >)
        requires
            self.wf(),
        ensures
            forall|i: int, j: int| 0 <= i < j < r@.len() ==> (#[trigger] r@[i]).0 != (
            #[trigger] r@[j]).0,
            forall|i: int|
                0 <= i < r@.len() ==> exists|k: CollisionKey|
                    is_claim(tx, k) && self@.contains_key(k) && self@[k] == (#[trigger] r@[i]).0
                        && r@[i].1 == reason_of(k),
            forall|k: CollisionKey|
                is_claim(tx, k) && #[trigger] self@.contains_key(k) ==> exists|i: int|
                    0 <= i < r@.len() && (#[trigger] r@[i]).0 == self@[k],
            forall|b: BlobId|
                tx.kind == (TxKind::Blob { blob_id: b }) && #[trigger] self@.contains_key(
                    CollisionKey::Blob(b),
                ) ==> r@.len() > 0 && r@[0] == (
                    self@[CollisionKey::Blob(b)],
                    CollisionReason::Blob(b),
                ),
    {
        let keys = claim_keys(tx);
        let n = keys.len();
        let mut acc: Vec<(u64, CollisionReason)> = Vec::new();
        let mut start: usize = 0;
        match tx.kind {
            TxKind::Blob { blob_id } => {
                proof {
                    assert(keys@[0] == CollisionKey::Blob(blob_id));
                    assert(is_claim(tx, CollisionKey::Blob(blob_id))) by {
                        assert(keys@.contains(CollisionKey::Blob(blob_id)));
                    }
                }
                if let Some(idx) = self.find_claim(CollisionKey::Blob(blob_id)) {
                    acc.push((idx, CollisionReason::Blob(blob_id)));
                    proof {
                        assert(acc@[0] == (idx, CollisionReason::Blob(blob_id)));
                        assert(reason_of(CollisionKey::Blob(blob_id)) == CollisionReason::Blob(
                            blob_id,
                        ));
                    }
                }
                start = 1;
            },
            _ => {},
        }
        let mut i: usize = start;
        while i < n
            invariant
                self.wf(),
                start <= i <= n || (start == 1 && n == 0),
                i <= n || i == start,
                i >= start || i >= 0,
                0 <= i,
                i <= n,
                n == keys@.len(),
                keys@ == claim_keys_seq(tx),
                start == blob_claim(tx).len(),
                start <= 1,
                forall|a: int, b: int| 0 <= a < b < acc@.len() ==> (#[trigger] acc@[a]).0 != (
                #[trigger] acc@[b]).0,
                forall|a: int|
                    0 <= a < acc@.len() ==> exists|k: CollisionKey|
                        is_claim(tx, k) && self@.contains_key(k) && self@[k] == (
                        #[trigger] acc@[a]).0 && acc@[a].1 == reason_of(k),
                forall|j: int|
                    0 <= j < i && #[trigger] self@.contains_key(keys@[j]) ==> exists|a: int|
                        0 <= a < acc@.len() && (#[trigger] acc@[a]).0 == self@[keys@[j]],
                forall|b: BlobId|
                    tx.kind == (TxKind::Blob { blob_id: b }) && #[trigger] self@.contains_key(
                        CollisionKey::Blob(b),
                    ) ==> acc@.len() > 0 && acc@[0] == (
                        self@[CollisionKey::Blob(b)],
                        CollisionReason::Blob(b),
                    ),
            decreases n - i,
        {
            let k = keys[i];
            proof {
                assert(keys@.contains(k));
                assert(is_claim(tx, k));
            }
            if let Some(idx) = self.find_claim(k) {
                let m = acc.len();
                let mut present = false;
                let mut a: usize = 0;
                while a < m
                    invariant
                        0 <= a <= m,
                        m == acc@.len(),
                        !present ==> forall|b: int| 0 <= b < a ==> (#[trigger] acc@[b]).0 != idx,
                        present ==> exists|b: int| 0 <= b < acc@.len() && (#[trigger] acc@[b]).0
                            == idx,
                    ensures
                        present ==> exists|b: int| 0 <= b < acc@.len() && (#[trigger] acc@[b]).0
                            == idx,
                        !present ==> forall|b: int| 0 <= b < acc@.len() ==> (#[trigger] acc@[b]).0
                            != idx,
                    decreases m - a,
                {
                    if acc[a].0 == idx {
                        present = true;
                        proof {
                            assert((acc@[a as int]).0 == idx);
                        }
                        break ;
                    }
                    a += 1;
                }
                let ghost acc0 = acc@;
                if !present {
                    let reason = match k {
                        CollisionKey::Coin(u) => CollisionReason::CoinUtxo(u),
                        CollisionKey::Message(nn) => CollisionReason::MessageNonce(nn),
                        CollisionKey::Contract(c) => CollisionReason::ContractCreate(c),
                        CollisionKey::Blob(b) => CollisionReason::Blob(b),
                    };
                    acc.push((idx, reason));
                    proof {
                        assert(reason == reason_of(k));
                        assert(acc@[acc0.len() as int] == (idx, reason_of(k)));
                        assert forall|x: (u64, CollisionReason)| acc0.contains(x)
                            implies #[trigger] acc@.contains(x) by {
                            let j = choose|j: int| 0 <= j < acc0.len() && acc0[j] == x;
                            assert(acc@[j] == x);
                        }
                        assert forall|a2: int|
                            0 <= a2 < acc@.len() implies exists|kk: CollisionKey|
                            is_claim(tx, kk) && self@.contains_key(kk) && self@[kk] == (
                            #[trigger] acc@[a2]).0 && acc@[a2].1 == reason_of(kk) by {
                            if a2 < acc0.len() {
                                assert(acc@[a2] == acc0[a2]);
                            } else {
                                assert(acc@[a2] == (idx, reason_of(k)));
                                assert(is_claim(tx, k) && self@.contains_key(k) && self@[k] == idx);
                            }
                        }
                        assert forall|a2: int, b2: int|
                            0 <= a2 < b2 < acc@.len() implies (#[trigger] acc@[a2]).0 != (
                        #[trigger] acc@[b2]).0 by {
                            if b2 == acc0.len() {
                                assert(acc@[a2] == acc0[a2]);
                                assert(acc@[b2].0 == idx);
                            } else {
                                assert(acc@[a2] == acc0[a2] && acc@[b2] == acc0[b2]);
                            }
                        }
                        assert forall|j: int|
                            0 <= j < i + 1 && #[trigger] self@.contains_key(keys@[j]) implies
                        exists|a2: int|
                            0 <= a2 < acc@.len() && (#[trigger] acc@[a2]).0
                                == self@[keys@[j]] by {
                            if j < i as int {
                                let a2 = choose|a2: int|
                                    0 <= a2 < acc0.len() && (#[trigger] acc0[a2]).0
                                        == self@[keys@[j]];
                                assert(acc@[a2] == acc0[a2]);
                            } else {
                                assert(acc@[acc0.len() as int].0 == idx);
                            }
                        }
                    }
                } else {
                    proof {
                        assert forall|j: int|
                            0 <= j < i + 1 && #[trigger] self@.contains_key(keys@[j]) implies
                        exists|a2: int|
                            0 <= a2 < acc@.len() && (#[trigger] acc@[a2]).0
                                == self@[keys@[j]] by {}
                    }
                }
            }
            i += 1;
        }
        proof {
            assert forall|k: CollisionKey|
                is_claim(tx, k) && #[trigger] self@.contains_key(k) implies exists|a: int|
                0 <= a < acc@.len() && (#[trigger] acc@[a]).0 == self@[k] by {
                let j = choose|j: int| 0 <= j < keys@.len() && keys@[j] == k;
            }
        }
        acc
    }

    /// The displacement policy. A candidate that both depends on residents
    /// and collides is rejected. A blob collision is a duplicate. Any other
    /// colliding resident may be displaced only if the candidate's tip
    /// strictly exceeds the cumulative tip of that resident's subtree.
    pub fn can_store_transaction(
        &self,
        tx: &PoolTransaction,
        has_dependencies: bool,
        colliding: &Vec<(u64, CollisionReason)>,
        storage: &Storage,
    ) -> (r: Result<(), Error>)
        requires
            storage.wf(),
            forall|j: int|
                0 <= j < colliding@.len() ==> storage@.contains_key(
                    (#[trigger] colliding@[j]).0,
                ),
        ensures
            r == collision_verdict(tx, has_dependencies, colliding@, storage@),
    {
        if colliding.len() == 0 {
            return Ok(());
        }
        if has_dependencies {
            return Err(Error::Collided(CollisionError::DependentAndColliding));
        }
        let n = colliding.len();
        proof {
            assert(colliding@.skip(0) =~= colliding@);
        }
        let mut i: usize = 0;
        while i < n
            invariant
                0 <= i <= n,
                n == colliding@.len(),
                n > 0,
                !has_dependencies,
                storage.wf(),
                forall|j: int|
                    0 <= j < colliding@.len() ==> storage@.contains_key(
                        (#[trigger] colliding@[j]).0,
                    ),
                collision_verdict(tx, has_dependencies, colliding@, storage@)
                    == collision_verdict(
                    tx,
                    has_dependencies,
                    colliding@.skip(i as int),
                    storage@,
                ),
            decreases n - i,
        {
            proof {
                assert(colliding@.skip(i as int)[0] == colliding@[i as int]);
                assert(colliding@.skip(i as int).drop_first() =~= colliding@.skip(i as int + 1));
            }
            let entry = colliding[i];
            if let CollisionReason::Blob(b) = entry.1 {
                return Err(Error::NotInsertedBlobIdAlreadyTaken(b));
            }
            let data = storage.get_must(entry.0);
            if !(tx.tip > data.dependents_cumulative_tip) {
                return Err(Error::Collided(CollisionError::NotProfitable));
            }
            i += 1;
        }
        proof {
            assert(colliding@.skip(n as int) =~= Seq::<(u64, CollisionReason)>::empty());
        }
        Ok(())
    }

    /// Registers every claim of `tx` as occupied by resident `idx`.
    #[verifier::rlimit(100)]
    pub fn on_stored_transaction(&mut self, tx: &PoolTransaction, idx: u64)
        requires
            old(self).wf(),
        ensures
            final(self).wf(),
            forall|k: CollisionKey| is_claim(tx, k) ==> #[trigger] final(self)@.contains_key(k)
                && final(self)@[k] == idx,
            forall|k: CollisionKey|
                !is_claim(tx, k) ==> (#[trigger] final(self)@.contains_key(k) <==> old(
                    self,
                )@.contains_key(k)) && (old(self)@.contains_key(k) ==> final(self)@[k] == old(
                    self,
                )@[k]),
            forall|k: CollisionKey|
                #![trigger old(self)@.contains_key(k)]
                !is_claim(tx, k) && old(self)@.contains_key(k) ==> final(self)@.contains_key(k)
                    && final(self)@[k] == old(self)@[k],
    {
        let keys = claim_keys(tx);
        let n = keys.len();
        let mut i: usize = 0;
        while i < n
            invariant
                0 <= i <= n,
                n == keys@.len(),
                keys@ == claim_keys_seq(tx),
                self.wf(),
                forall|j: int| 0 <= j < i ==> #[trigger] self@.contains_key(keys@[j])
                    && self@[keys@[j]] == idx,
                forall|k: CollisionKey|
                    !keys@.contains(k) ==> (#[trigger] self@.contains_key(k) <==> old(
                        self,
                    )@.contains_key(k)) && (old(self)@.contains_key(k) ==> self@[k] == old(
                        self,
                    )@[k]),
                forall|k: CollisionKey|
                    #![trigger old(self)@.contains_key(k)]
                    !keys@.contains(k) && old(self)@.contains_key(k) ==> self@.contains_key(k)
                        && self@[k] == old(self)@[k],
            decreases n - i,
        {
            let k = keys[i];
            let ghost mpre = self@;
            match self.position_of(k) {
                Some(p) => {
                    proof {
                        lemma_assoc_map_remove(self.claims@, p as int);
                        assert(self.claims@[p as int].0 == k);
                    }
                    self.claims.remove(p);
                    proof {
                        assert(self@ =~= mpre.remove(k));
                        lemma_assoc_map_contains(self.claims@, k);
                        assert(!self@.contains_key(k));
                        assert(!has_key(self.claims@, k));
                        assert(distinct_keys(self.claims@));
                        lemma_assoc_map_push(self.claims@, k, idx);
                    }
                    self.claims.push((k, idx));
                    proof {
                        assert(distinct_keys(self.claims@));
                    }
                },
                None => {
                    proof {
                        lemma_assoc_map_contains(self.claims@, k);
                        assert(!has_key(self.claims@, k));
                        lemma_assoc_map_push(self.claims@, k, idx);
                    }
                    self.claims.push((k, idx));
                    proof {
                        assert(distinct_keys(self.claims@));
                    }
                },
            }
            proof {
                assert(self@ =~= mpre.insert(k, idx));
                assert(keys@.contains(k)) by {
                    assert(keys@[i as int] == k);
                }
                assert forall|j: int| 0 <= j < i + 1 implies #[trigger] self@.contains_key(
                    keys@[j],
                ) && self@[keys@[j]] == idx by {
                    if j < i as int {
                        assert(mpre.contains_key(keys@[j]) && mpre[keys@[j]] == idx);
                    } else {
                        assert(keys@[j] == k);
                    }
                }
                assert forall|kk: CollisionKey|
                    #![trigger old(self)@.contains_key(kk)]
                    !keys@.contains(kk) && old(self)@.contains_key(kk) implies self@.contains_key(
                    kk,
                ) && self@[kk] == old(self)@[kk] by {
                    assert(kk != k);
                    assert(mpre.contains_key(kk) && mpre[kk] == old(self)@[kk]);
                }
            }
            i += 1;
        }
        proof {
            assert forall|k: CollisionKey| is_claim(tx, k) implies #[trigger] self@.contains_key(k)
                && self@[k] == idx by {
                let j = choose|j: int| 0 <= j < keys@.len() && keys@[j] == k;
                assert(self@.contains_key(keys@[j]) && self@[keys@[j]] == idx);
            }
        }
    }

    /// Frees every claim of `tx`.
    pub fn on_removed_transaction(&mut self, tx: &PoolTransaction)
        requires
            old(self).wf(),
        ensures
            final(self).wf(),
            forall|k: CollisionKey| is_claim(tx, k) ==> !#[trigger] final(self)@.contains_key(k),
            forall|k: CollisionKey|
                !is_claim(tx, k) ==> (#[trigger] final(self)@.contains_key(k) <==> old(
                    self,
                )@.contains_key(k)) && (old(self)@.contains_key(k) ==> final(self)@[k] == old(
                    self,
                )@[k]),
            forall|k: CollisionKey|
                #![trigger old(self)@.contains_key(k)]
                !is_claim(tx, k) && old(self)@.contains_key(k) ==> final(self)@.contains_key(k)
                    && final(self)@[k] == old(self)@[k],
    {
        let keys = claim_keys(tx);
        let n = keys.len();
        let mut i: usize = 0;
        while i < n
            invariant
                0 <= i <= n,
                n == keys@.len(),
                keys@ == claim_keys_seq(tx),
                self.wf(),
                forall|k: CollisionKey|
                    #![trigger old(self)@.contains_key(k)]
                    !keys@.contains(k) && old(self)@.contains_key(k) ==> self@.contains_key(k)
                        && self@[k] == old(self)@[k],
                forall|j: int| 0 <= j < i ==> !#[trigger] self@.contains_key(keys@[j]),
                forall|k: CollisionKey|
                    !keys@.contains(k) ==> (#[trigger] self@.contains_key(k) <==> old(
                        self,
                    )@.contains_key(k)) && (old(self)@.contains_key(k) ==> self@[k] == old(
                        self,
                    )@[k]),
            decreases n - i,
        {
            let k = keys[i];
            let ghost mpre = self@;
            match self.position_of(k) {
                Some(p) => {
                    proof {
                        lemma_assoc_map_remove(self.claims@, p as int);
                    }
                    self.claims.remove(p);
                    proof {
                        assert(self@ =~= mpre.remove(k));
                    }
                },
                None => {},
            }
            proof {
                assert(!self@.contains_key(k));
                assert(keys@.contains(k)) by {
                    assert(keys@[i as int] == k);
                }
                assert forall|j: int| 0 <= j < i + 1 implies !#[trigger] self@.contains_key(
                    keys@[j],
                ) by {
                    if j < i as int {
                        assert(!mpre.contains_key(keys@[j]));
                    }
                }
                assert forall|kk: CollisionKey| !keys@.contains(kk) implies (
                #[trigger] self@.contains_key(kk) <==> old(self)@.contains_key(kk)) && (old(
                    self,
                )@.contains_key(kk) ==> self@[kk] == old(self)@[kk]) by {
                    assert(kk != k);
                    assert(mpre.contains_key(kk) <==> old(self)@.contains_key(kk));
                }
            }
            i += 1;
        }
        proof {
            assert forall|k: CollisionKey| is_claim(tx, k) implies !#[trigger] self@.contains_key(
                k,
            ) by {
                let j = choose|j: int| 0 <= j < keys@.len() && keys@[j] == k;
                assert(!self@.contains_key(keys@[j]));
            }
        }
    }
}

} // verus!
