//! The pool orchestrator: accepts candidate transactions, drives collision
//! resolution and capacity eviction, keeps the transaction-id index and the
//! running totals, and extracts gas-bounded batches for block production.

use vstd::prelude::*;
use crate::assoc::{assoc_map, distinct_keys, has_key};
use crate::assoc::{
    lemma_assoc_map_absent, lemma_assoc_map_contains, lemma_assoc_map_index, lemma_assoc_map_push,
    lemma_assoc_map_remove,
};
use crate::collision_manager::{collision_outcome, collision_verdict, is_claim, lemma_verdict_is_outcome, CollisionKey, CollisionManager};
use crate::config::Config;
use crate::error::{CollisionReason, Error};
use crate::ratio::{ratio_less, ratio_lt};
use crate::selection_algorithms::{all_in, first_fit, key_of, Constraints, RatioTipGasSelection};
use crate::state_view::StateView;
use crate::storage::{
    evict_before, ids_bytes_sum, ids_gas_sum, inputs_validity_verdict, is_dependency,
    lemma_ids_gas_sum_concat, lemma_ids_gas_sum_nonneg, lemma_ids_gas_sum_push,
    lemma_ids_tx_sum_match, lemma_sum_tx_concat, lemma_sum_tx_nonneg, reaches, sum_bytes, sum_gas,
    sum_tx_bytes, sum_tx_gas, Storage, StorageData,
};
use crate::storage::push_if_new;
use crate::types::{sat_add64, sat_sub64, PoolTransaction, TxId};

verus! {

/// The pool: the dependency graph of residents, the collision index, the
/// selection structure, the transaction-id index, and the running totals.
pub struct Pool {
    /// Configuration of the pool.
    pub config: Config,
    /// The storage of the pool.
    pub storage: Storage,
    /// The collision manager of the pool.
    pub collision_manager: CollisionManager,
    /// The selection algorithm of the pool.
    pub selection_algorithm: RatioTipGasSelection,
    /// Mapping from transaction id to storage index.
    pub tx_id_to_storage_id: Vec<(TxId, u64)>,
    /// Current pool gas stored: the sum of `max_gas` over all residents.
    pub current_gas: u64,
    /// Current pool size in bytes: the sum of `metered_bytes_size` over all
    /// residents.
    pub current_bytes_size: u64,
    /// The monotonic clock stamping each stored transaction.
    pub next_instant: u64,
}

impl Pool {
    /// The transaction-id index as a map.
    pub open spec fn tx_map(&self) -> Map<TxId, u64> {
        assoc_map(self.tx_id_to_storage_id@)
    }

    /// The transaction-id index is a bijection onto the residents.
    pub open spec fn tx_map_wf(&self) -> bool {
        &&& distinct_keys(self.tx_id_to_storage_id@)
        &&& forall|i: int|
            0 <= i < self.tx_id_to_storage_id@.len() ==> self.storage@.contains_key(
                (#[trigger] self.tx_id_to_storage_id@[i]).1,
            ) && self.storage@[self.tx_id_to_storage_id@[i].1].transaction.id
                == self.tx_id_to_storage_id@[i].0
        &&& forall|k: u64| #[trigger] self.storage@.contains_key(k) ==> has_key(
            self.tx_id_to_storage_id@,
            self.storage@[k].transaction.id,
        ) && self.tx_map()[self.storage@[k].transaction.id] == k
    }

    /// A resident is in the selection structure iff it has no resident
    /// parent, and each entry's key is derived from the resident's record.
    pub open spec fn selection_wf(&self) -> bool {
        &&& forall|i: int|
            0 <= i < self.selection_algorithm.entries@.len() ==> self.storage@.contains_key(
                (#[trigger] self.selection_algorithm.entries@[i]).storage_id,
            ) && self.selection_algorithm.entries@[i].key == key_of(
                self.storage@[self.selection_algorithm.entries@[i].storage_id],
            ) && self.storage@[self.selection_algorithm.entries@[i].storage_id].parents@.len() == 0
        &&& forall|k: u64|
            #[trigger] self.storage@.contains_key(k) && self.storage@[k].parents@.len() == 0
                ==> self.selection_algorithm.contains_id(k)
    }

    /// Each occupied collision key is claimed by exactly the resident it maps
    /// to, and every claim of every resident is occupied by it.
    pub open spec fn collision_wf(&self) -> bool {
        &&& self.collision_manager.wf()
        &&& forall|k: CollisionKey|
            #[trigger] self.collision_manager@.contains_key(k) ==> self.storage@.contains_key(
                self.collision_manager@[k],
            ) && is_claim(&self.storage@[self.collision_manager@[k]].transaction, k)
        &&& forall|i: u64, k: CollisionKey|
            self.storage@.contains_key(i) && #[trigger] is_claim(
                &self.storage@[i].transaction,
                k,
            ) ==> self.collision_manager@.contains_key(k) && self.collision_manager@[k] == i
    }

    /// The running totals are the exact sums over the residents and respect
    /// the capacity envelope.
    pub open spec fn totals_wf(&self) -> bool {
        &&& self.current_gas == sum_gas(self.storage.entries@)
        &&& self.current_bytes_size == sum_bytes(self.storage.entries@)
        &&& self.current_gas <= self.config.pool_limits.max_gas
        &&& self.current_bytes_size <= self.config.pool_limits.max_bytes_size
        &&& self.storage.entries@.len() <= self.config.pool_limits.max_txs
    }

    /// The full well-formedness of the pool.
    pub open spec fn wf(&self) -> bool {
        &&& self.storage.wf()
        &&& self.selection_algorithm.wf()
        &&& self.tx_map_wf()
        &&& self.selection_wf()
        &&& self.collision_wf()
        &&& self.totals_wf()
    }

    /// Whether a transaction with id `id` is resident.
    pub open spec fn spec_contains_tx(&self, id: TxId) -> bool {
        self.tx_map().contains_key(id)
    }

    /// Creates a pool over the given (empty) components.
    pub fn new(
        storage: Storage,
        collision_manager: CollisionManager,
        selection_algorithm: RatioTipGasSelection,
        config: Config,
    ) -> (r: Self)
        requires
            storage.wf(),
            storage@ =~= Map::<u64, StorageData>::empty(),
            storage.entries@.len() == 0,
            collision_manager.wf(),
            collision_manager@ =~= Map::<CollisionKey, u64>::empty(),
            selection_algorithm.wf(),
            selection_algorithm.entries@.len() == 0,
        ensures
            r.wf(),
            r.storage == storage,
            r.collision_manager == collision_manager,
            r.selection_algorithm == selection_algorithm,
            r.config == config,
            r.storage@ =~= Map::<u64, StorageData>::empty(),
            r.tx_id_to_storage_id@.len() == 0,
            r.current_gas == 0,
            r.current_bytes_size == 0,
            r.next_instant == 0,
    {
        let r = Pool {
            config,
            storage,
            collision_manager,
            selection_algorithm,
            tx_id_to_storage_id: Vec::new(),
            current_gas: 0,
            current_bytes_size: 0,
            next_instant: 0,
        };
        proof {
            assert(r.tx_id_to_storage_id@.len() == 0);
            assert forall|k: u64| !#[trigger] r.storage@.contains_key(k) by {}
            assert forall|k: CollisionKey| !#[trigger] r.collision_manager@.contains_key(k) by {}
        }
        r
    }

    /// The position of `id` in the transaction-id index.
    fn txmap_position(&self, id: TxId) -> (r: Option<usize>)
        ensures
            match r {
                Some(i) => i < self.tx_id_to_storage_id@.len()
                    && self.tx_id_to_storage_id@[i as int].0 == id,
                None => !has_key(self.tx_id_to_storage_id@, id) && !self.tx_map().contains_key(id),
            },
    {
        let n = self.tx_id_to_storage_id.len();
        let mut i: usize = 0;
        while i < n
            invariant
                0 <= i <= n,
                n == self.tx_id_to_storage_id@.len(),
                forall|j: int| 0 <= j < i ==> (#[trigger] self.tx_id_to_storage_id@[j]).0 != id,
            decreases n - i,
        {
            if self.tx_id_to_storage_id[i].0 == id {
                return Some(i);
            }
            i += 1;
        }
        proof {
            lemma_assoc_map_absent(self.tx_id_to_storage_id@, id);
        }
        None
    }

    /// The storage index of the resident with id `id`, if any.
    fn txmap_get(&self, id: TxId) -> (r: Option<u64>)
        requires
            distinct_keys(self.tx_id_to_storage_id@),
        ensures
            match r {
                Some(idx) => self.tx_map().contains_key(id) && self.tx_map()[id] == idx,
                None => !self.tx_map().contains_key(id),
            },
    {
        match self.txmap_position(id) {
            Some(i) => {
                proof {
                    lemma_assoc_map_index(self.tx_id_to_storage_id@, i as int);
                }
                Some(self.tx_id_to_storage_id[i].1)
            },
            None => None,
        }
    }

    /// Returns a borrow of the resident transaction with id `tx_id`, if any.
    pub fn find_one(&self, tx_id: &TxId) -> (r: Option<&PoolTransaction>)
        requires
            self.wf(),
        ensures
            match r {
                Some(t) => self.spec_contains_tx(*tx_id) && self.storage@.contains_key(
                    self.tx_map()[*tx_id],
                ) && *t == self.storage@[self.tx_map()[*tx_id]].transaction && t.id == *tx_id,
                None => !self.spec_contains_tx(*tx_id),
            },
    {
        match self.txmap_get(*tx_id) {
            Some(idx) => {
                proof {
                    lemma_assoc_map_contains(self.tx_id_to_storage_id@, *tx_id);
                    let i = choose|i: int|
                        0 <= i < self.tx_id_to_storage_id@.len()
                            && self.tx_id_to_storage_id@[i].0 == *tx_id;
                    lemma_assoc_map_index(self.tx_id_to_storage_id@, i);
                }
                Some(&self.storage.get_must(idx).transaction)
            },
            None => None,
        }
    }

    /// Prunes nothing: time-based expiry is not performed by this pool; the
    /// call leaves the pool unchanged and returns the empty list.
    pub fn prune(&mut self) -> (r: Result<Vec<PoolTransaction>, Error>)
        requires
            old(self).wf(),
        ensures
            *final(self) == *old(self),
            final(self).wf(),
            match r {
                Ok(v) => v@.len() == 0,
                Err(_) => false,
            },
    {
        Ok(Vec::new())
    }

    /// Checks whether the pool has room for `tx`, possibly by evicting less
    /// valuable work. Returns the empty list when `tx` fits as is; otherwise
    /// first credits back every colliding resident's subtree; a dependent
    /// candidate may not evict beyond that. An executable candidate walks the
    /// subtree roots in ascending cumulative tip/gas order, evicting only
    /// roots whose ratio is strictly below its own, until the limits are
    /// satisfied; if that fails the candidate is refused.
    pub fn check_pool_size_available(
        &self,
        tx: &PoolTransaction,
        collided_transactions: &Vec<(u64, CollisionReason)>,
        dependencies: &Vec<u64>,
    ) -> (r: Result<Vec<u64>, Error>)
        requires
            self.wf(),
            tx.well_formed(),
            forall|j: int|
                0 <= j < collided_transactions@.len() ==> self.storage@.contains_key(
                    (#[trigger] collided_transactions@[j]).0,
                ),
        ensures
            match r {
                Ok(list) => {
                    &&& forall|j: int| 0 <= j < list@.len() ==> self.storage@.contains_key(
                        #[trigger] list@[j],
                    )
                    &&& forall|k: u64|
                        #[trigger] list@.contains(k) ==> (exists|j: int|
                            0 <= j < collided_transactions@.len() && (
                            #[trigger] collided_transactions@[j]).0 == k) || (
                        self.storage@[k].parents@.len() == 0 && ratio_lt(
                            self.storage@[k].dependents_cumulative_tip,
                            self.storage@[k].dependents_cumulative_gas,
                            tx.tip,
                            tx.max_gas,
                        ))
                    &&& (sat_add_ok(self.current_gas, tx.max_gas, self.config.pool_limits.max_gas)
                        && sat_add_ok(
                        self.current_bytes_size,
                        tx.metered_bytes_size,
                        self.config.pool_limits.max_bytes_size,
                    ) && self.storage.entries@.len() + 1 <= self.config.pool_limits.max_txs
                        ==> list@.len() == 0)
                    &&& (dependencies@.len() > 0 && collided_transactions@.len() == 0
                        ==> list@.len() == 0)
                    &&& credited_gas(
                        self.storage@,
                        crate::storage::sat_add_spec(self.current_gas, tx.max_gas),
                        list@,
                    ) <= self.config.pool_limits.max_gas
                    &&& credited_bytes(
                        self.storage@,
                        crate::storage::sat_add_spec(self.current_bytes_size, tx.metered_bytes_size),
                        list@,
                    ) <= self.config.pool_limits.max_bytes_size
                    &&& credited_count(
                        crate::storage::sat_add_spec(self.storage.entries@.len() as u64, 1),
                        list@.len(),
                    ) <= self.config.pool_limits.max_txs
                },
                Err(e) => e == Error::NotInsertedLimitHit,
            },
            fits_without_eviction(*self, *tx) ==> r is Ok,
    {
        let tx_gas = tx.max_gas();
        let bytes_size = tx.metered_bytes_size();
        let mut removed_transactions: Vec<u64> = Vec::new();
        let mut gas_left = sat_add64(self.current_gas, tx_gas);
        let mut bytes_left = sat_add64(self.current_bytes_size, bytes_size);
        let count = self.storage.count();
        let mut txs_left = sat_add64(count as u64, 1);
        if gas_left <= self.config.pool_limits.max_gas && bytes_left
            <= self.config.pool_limits.max_bytes_size && txs_left <= self.config.pool_limits.max_txs
         {
            return Ok(removed_transactions);
        }
        proof {
            assert(count as u64 == self.storage.entries@.len());
        }
        // Credit back every colliding resident's subtree: those go anyway.
        let n = collided_transactions.len();
        let mut i: usize = 0;
        while i < n
            invariant
                self.wf(),
                0 <= i <= n,
                n == collided_transactions@.len(),
                !(sat_add_ok(self.current_gas, tx.max_gas, self.config.pool_limits.max_gas)
                    && sat_add_ok(
                    self.current_bytes_size,
                    tx.metered_bytes_size,
                    self.config.pool_limits.max_bytes_size,
                ) && crate::storage::sat_add_spec(self.storage.entries@.len() as u64, 1)
                    <= self.config.pool_limits.max_txs),
                forall|j: int|
                    0 <= j < collided_transactions@.len() ==> self.storage@.contains_key(
                        (#[trigger] collided_transactions@[j]).0,
                    ),
                forall|j: int| 0 <= j < removed_transactions@.len() ==> self.storage@.contains_key(
                    #[trigger] removed_transactions@[j],
                ),
                forall|k: u64| #[trigger] removed_transactions@.contains(k) ==> exists|j: int|
                    0 <= j < collided_transactions@.len() && (
                    #[trigger] collided_transactions@[j]).0 == k,
                gas_left == credited_gas(
                    self.storage@,
                    crate::storage::sat_add_spec(self.current_gas, tx.max_gas),
                    removed_transactions@,
                ),
                bytes_left == credited_bytes(
                    self.storage@,
                    crate::storage::sat_add_spec(self.current_bytes_size, tx.metered_bytes_size),
                    removed_transactions@,
                ),
                txs_left == credited_count(
                    crate::storage::sat_add_spec(self.storage.entries@.len() as u64, 1),
                    removed_transactions@.len(),
                ),
            decreases n - i,
        {
            let collision = collided_transactions[i].0;
            let collision_data = self.storage.get_must(collision);
            gas_left = sat_sub64(gas_left, collision_data.dependents_cumulative_gas);
            bytes_left = sat_sub64(bytes_left, collision_data.dependents_cumulative_bytes_size);
            txs_left = sat_sub64(txs_left, 1);
            let ghost r0 = removed_transactions@;
            proof {
                lemma_credited_push(self.storage@, crate::storage::sat_add_spec(self.current_gas, tx.max_gas), r0, collision);
                lemma_credited_push(self.storage@, crate::storage::sat_add_spec(self.current_bytes_size, tx.metered_bytes_size), r0, collision);
            }
            removed_transactions.push(collision);
            proof {
                assert forall|k: u64| #[trigger] removed_transactions@.contains(k) implies exists|
                    j: int,
                |
                    0 <= j < collided_transactions@.len() && (
                    #[trigger] collided_transactions@[j]).0 == k by {
                    let jj = choose|jj: int|
                        0 <= jj < removed_transactions@.len() && removed_transactions@[jj] == k;
                    if jj < r0.len() {
                        assert(r0[jj] == k);
                        assert(r0.contains(k));
                    } else {
                        assert(k == collision);
                        assert(collided_transactions@[i as int].0 == k);
                    }
                }
            }
            if gas_left <= self.config.pool_limits.max_gas && bytes_left
                <= self.config.pool_limits.max_bytes_size && txs_left
                <= self.config.pool_limits.max_txs {
                return Ok(removed_transactions);
            }
            i += 1;
        }
        // A dependent candidate may not evict unrelated work.
        if dependencies.len() > 0 {
            return Err(Error::NotInsertedLimitHit);
        }
        // An executable candidate evicts the least valuable subtree roots,
        // but only those strictly less valuable than itself.
        let sorted_txs = self.storage.get_worst_ratio_tip_gas_subtree_roots();
        let m = sorted_txs.len();
        let mut s: usize = 0;
        while !(gas_left <= self.config.pool_limits.max_gas && bytes_left
            <= self.config.pool_limits.max_bytes_size && txs_left
            <= self.config.pool_limits.max_txs)
            invariant
                self.wf(),
                tx.well_formed(),
                !(sat_add_ok(self.current_gas, tx.max_gas, self.config.pool_limits.max_gas)
                    && sat_add_ok(
                    self.current_bytes_size,
                    tx.metered_bytes_size,
                    self.config.pool_limits.max_bytes_size,
                ) && crate::storage::sat_add_spec(self.storage.entries@.len() as u64, 1)
                    <= self.config.pool_limits.max_txs),
                0 <= s <= m,
                m == sorted_txs@.len(),
                forall|k: u64| #[trigger] sorted_txs@.contains(k) <==> self.storage@.contains_key(k)
                    && self.storage@[k].parents@.len() == 0,
                forall|j: int|
                    0 <= j < removed_transactions@.len() ==> self.storage@.contains_key(
                        #[trigger] removed_transactions@[j],
                    ),
                forall|k: u64| #[trigger] removed_transactions@.contains(k) ==> (exists|j: int|
                    0 <= j < collided_transactions@.len() && (
                    #[trigger] collided_transactions@[j]).0 == k) || (
                self.storage@[k].parents@.len() == 0 && ratio_lt(
                    self.storage@[k].dependents_cumulative_tip,
                    self.storage@[k].dependents_cumulative_gas,
                    tx.tip,
                    tx.max_gas,
                )),
                gas_left == credited_gas(
                    self.storage@,
                    crate::storage::sat_add_spec(self.current_gas, tx.max_gas),
                    removed_transactions@,
                ),
                bytes_left == credited_bytes(
                    self.storage@,
                    crate::storage::sat_add_spec(self.current_bytes_size, tx.metered_bytes_size),
                    removed_transactions@,
                ),
                txs_left == credited_count(
                    crate::storage::sat_add_spec(self.storage.entries@.len() as u64, 1),
                    removed_transactions@.len(),
                ),
            ensures
                forall|j: int|
                    0 <= j < removed_transactions@.len() ==> self.storage@.contains_key(
                        #[trigger] removed_transactions@[j],
                    ),
                forall|k: u64| #[trigger] removed_transactions@.contains(k) ==> (exists|j: int|
                    0 <= j < collided_transactions@.len() && (
                    #[trigger] collided_transactions@[j]).0 == k) || (
                self.storage@[k].parents@.len() == 0 && ratio_lt(
                    self.storage@[k].dependents_cumulative_tip,
                    self.storage@[k].dependents_cumulative_gas,
                    tx.tip,
                    tx.max_gas,
                )),
                gas_left <= self.config.pool_limits.max_gas,
                bytes_left <= self.config.pool_limits.max_bytes_size,
                txs_left <= self.config.pool_limits.max_txs,
                gas_left == credited_gas(
                    self.storage@,
                    crate::storage::sat_add_spec(self.current_gas, tx.max_gas),
                    removed_transactions@,
                ),
                bytes_left == credited_bytes(
                    self.storage@,
                    crate::storage::sat_add_spec(self.current_bytes_size, tx.metered_bytes_size),
                    removed_transactions@,
                ),
                txs_left == credited_count(
                    crate::storage::sat_add_spec(self.storage.entries@.len() as u64, 1),
                    removed_transactions@.len(),
                ),
            decreases m - s,
        {
            if s >= m {
                return Err(Error::NotInsertedLimitHit);
            }
            let storage_id = sorted_txs[s];
            proof {
                assert(sorted_txs@.contains(storage_id));
            }
            let storage_data = self.storage.get_must(storage_id);
            if !ratio_less(
                storage_data.dependents_cumulative_tip,
                storage_data.dependents_cumulative_gas,
                tx.tip,
                tx.max_gas,
            ) {
                return Err(Error::NotInsertedLimitHit);
            }
            gas_left = sat_sub64(gas_left, storage_data.dependents_cumulative_gas);
            bytes_left = sat_sub64(bytes_left, storage_data.dependents_cumulative_bytes_size);
            txs_left = sat_sub64(txs_left, 1);
            let ghost r0 = removed_transactions@;
            proof {
                lemma_credited_push(self.storage@, crate::storage::sat_add_spec(self.current_gas, tx.max_gas), r0, storage_id);
                lemma_credited_push(self.storage@, crate::storage::sat_add_spec(self.current_bytes_size, tx.metered_bytes_size), r0, storage_id);
            }
            removed_transactions.push(storage_id);
            proof {
                assert forall|k: u64| #[trigger] removed_transactions@.contains(k) implies (exists|
                    j: int,
                |
                    0 <= j < collided_transactions@.len() && (
                    #[trigger] collided_transactions@[j]).0 == k) || (
                self.storage@[k].parents@.len() == 0 && ratio_lt(
                    self.storage@[k].dependents_cumulative_tip,
                    self.storage@[k].dependents_cumulative_gas,
                    tx.tip,
                    tx.max_gas,
                )) by {
                    let jj = choose|jj: int|
                        0 <= jj < removed_transactions@.len() && removed_transactions@[jj] == k;
                    if jj < r0.len() {
                        assert(r0[jj] == k);
                        assert(r0.contains(k));
                    } else {
                        assert(k == storage_id);
                    }
                }
            }
            s += 1;
        }
        Ok(removed_transactions)
    }
}

/// The saturating sum of `a` and `b` is within `limit`.
pub open spec fn sat_add_ok(a: u64, b: u64, limit: u64) -> bool {
    crate::storage::sat_add_spec(a, b) <= limit
}

/// The candidate fits without any eviction: the would-be totals stay within
/// the envelope.
pub open spec fn fits_without_eviction(pool: Pool, tx: PoolTransaction) -> bool {
    &&& pool.current_gas + tx.max_gas <= pool.config.pool_limits.max_gas
    &&& pool.current_bytes_size + tx.metered_bytes_size <= pool.config.pool_limits.max_bytes_size
    &&& pool.storage.entries@.len() + 1 <= pool.config.pool_limits.max_txs
}

/// Whether `tx` consumes an output of some resident.
pub open spec fn has_dependency(m: Map<u64, StorageData>, tx: PoolTransaction) -> bool {
    exists|k: u64| is_dependency(m, &tx, k)
}

/// Every pre-capacity check of an insertion passes on this state: the id is
/// new, the blacklist is silent, the blob is not persisted, the inputs exist,
/// and the collision policy accepts.
pub open spec fn insert_checks_pass(pool: Pool, tx: PoolTransaction, view: StateView) -> bool {
    &&& !pool.spec_contains_tx(tx.id)
    &&& pool.config.black_list.verdict(&tx) is None
    &&& (tx.spec_blob_id() is Some ==> !view.blobs@.contains(tx.spec_blob_id()->0))
    &&& (pool.config.utxo_validation ==> inputs_validity_verdict(
        pool.storage@,
        view,
        tx.inputs@,
    ) is None)
    &&& collision_outcome(
        &tx,
        has_dependency(pool.storage@, tx),
        pool.collision_manager@,
        pool.storage@,
    ) is Ok
}

/// Some removed transaction carries the id.
pub open spec fn removed_ids_contain(txs: Seq<PoolTransaction>, id: TxId) -> bool {
    exists|j: int| 0 <= j < txs.len() && txs[j].id == id
}

/// The relation between a pool before and after a committed insertion with
/// removed list `removed`: a resident survives exactly when its id is not
/// among the removed; survivors keep their records; the removed set is closed
/// under the dependency edges; every resident occupying a claim of the
/// candidate is removed; and the totals move by exactly the candidate's and
/// the removed transactions' weights.
pub open spec fn committed_shape(
    pre: Pool,
    post: Pool,
    tx: PoolTransaction,
    removed: Seq<PoolTransaction>,
) -> bool {
    &&& (forall|k: u64| #[trigger] pre.storage@.contains_key(k)
        ==> (post.storage@.contains_key(k) <==> !removed_ids_contain(
        removed,
        pre.storage@[k].transaction.id,
    )))
    &&& (forall|k: u64|
        #[trigger] pre.storage@.contains_key(k) && post.storage@.contains_key(k)
            ==> post.storage@[k].transaction == pre.storage@[k].transaction
            && post.storage@[k].creation_instant == pre.storage@[k].creation_instant)
    &&& (forall|k: u64, c: u64|
        #![trigger pre.storage@[k].children@.contains(c)]
        pre.storage@.contains_key(k) && removed_ids_contain(
            removed,
            pre.storage@[k].transaction.id,
        ) && pre.storage@[k].children@.contains(c) ==> pre.storage@.contains_key(c)
            && removed_ids_contain(removed, pre.storage@[c].transaction.id))
    &&& (forall|key: CollisionKey|
        is_claim(&tx, key) && #[trigger] pre.collision_manager@.contains_key(key)
            ==> removed_ids_contain(
            removed,
            pre.storage@[pre.collision_manager@[key]].transaction.id,
        ))
    &&& post.current_gas == pre.current_gas + tx.max_gas - sum_tx_gas(removed)
    &&& post.current_bytes_size == pre.current_bytes_size + tx.metered_bytes_size - sum_tx_bytes(
        removed,
    )
    &&& post.next_instant == pre.next_instant + 1
    &&& post.storage.next_index == pre.storage.next_index + 1
}

/// `start` with the cumulative gas of each listed resident credited back, in
/// list order, saturating at zero.
pub open spec fn credited_gas(m: Map<u64, StorageData>, start: u64, ids: Seq<u64>) -> u64
    decreases ids.len(),
{
    if ids.len() == 0 {
        start
    } else {
        credited_gas(
            m,
            crate::storage::sat_sub_spec(start, m[ids[0]].dependents_cumulative_gas),
            ids.drop_first(),
        )
    }
}

/// `start` with the cumulative bytes of each listed resident credited back,
/// in list order, saturating at zero.
pub open spec fn credited_bytes(m: Map<u64, StorageData>, start: u64, ids: Seq<u64>) -> u64
    decreases ids.len(),
{
    if ids.len() == 0 {
        start
    } else {
        credited_bytes(
            m,
            crate::storage::sat_sub_spec(start, m[ids[0]].dependents_cumulative_bytes_size),
            ids.drop_first(),
        )
    }
}

/// `start` with one transaction credited back per listed resident,
/// saturating at zero.
pub open spec fn credited_count(start: u64, n: nat) -> u64 {
    if start >= n {
        (start - n) as u64
    } else {
        0
    }
}

/// Crediting one more resident at the end of the list.
pub proof fn lemma_credited_push(m: Map<u64, StorageData>, start: u64, ids: Seq<u64>, k: u64)
    ensures
        credited_gas(m, start, ids.push(k)) == crate::storage::sat_sub_spec(
            credited_gas(m, start, ids),
            m[k].dependents_cumulative_gas,
        ),
        credited_bytes(m, start, ids.push(k)) == crate::storage::sat_sub_spec(
            credited_bytes(m, start, ids),
            m[k].dependents_cumulative_bytes_size,
        ),
    decreases ids.len(),
{
    if ids.len() == 0 {
        assert(ids.push(k)[0] == k);
        assert(ids.push(k).drop_first() =~= Seq::<u64>::empty());
        let g = crate::storage::sat_sub_spec(start, m[k].dependents_cumulative_gas);
        let b = crate::storage::sat_sub_spec(start, m[k].dependents_cumulative_bytes_size);
        assert(credited_gas(m, start, ids.push(k)) == credited_gas(
            m,
            g,
            ids.push(k).drop_first(),
        ));
        assert(credited_gas(m, g, ids.push(k).drop_first()) == g);
        assert(credited_gas(m, start, ids) == start);
        assert(credited_bytes(m, start, ids.push(k)) == credited_bytes(
            m,
            b,
            ids.push(k).drop_first(),
        ));
        assert(credited_bytes(m, b, ids.push(k).drop_first()) == b);
        assert(credited_bytes(m, start, ids) == start);
    } else {
        assert(ids.push(k).drop_first() =~= ids.drop_first().push(k));
        assert(ids.push(k)[0] == ids[0]);
        let sg = crate::storage::sat_sub_spec(start, m[ids[0]].dependents_cumulative_gas);
        let sb = crate::storage::sat_sub_spec(start, m[ids[0]].dependents_cumulative_bytes_size);
        lemma_credited_push(m, sg, ids.drop_first(), k);
        lemma_credited_push(m, sb, ids.drop_first(), k);
        assert(credited_gas(m, start, ids.push(k)) == credited_gas(
            m,
            sg,
            ids.drop_first().push(k),
        ));
        assert(credited_gas(m, start, ids) == credited_gas(m, sg, ids.drop_first()));
        assert(credited_bytes(m, start, ids.push(k)) == credited_bytes(
            m,
            sb,
            ids.drop_first().push(k),
        ));
        assert(credited_bytes(m, start, ids) == credited_bytes(m, sb, ids.drop_first()));
    }
}

} // verus!

verus! {

impl Pool {
    /// Deletes the index entry of `id`, if present.
    fn txmap_remove(&mut self, id: TxId)
        requires
            distinct_keys(old(self).tx_id_to_storage_id@),
        ensures
            distinct_keys(final(self).tx_id_to_storage_id@),
            final(self).storage == old(self).storage,
            final(self).collision_manager == old(self).collision_manager,
            final(self).selection_algorithm == old(self).selection_algorithm,
            final(self).config == old(self).config,
            final(self).current_gas == old(self).current_gas,
            final(self).current_bytes_size == old(self).current_bytes_size,
            final(self).next_instant == old(self).next_instant,
            forall|x: TxId| has_key(final(self).tx_id_to_storage_id@, x) <==> has_key(
                old(self).tx_id_to_storage_id@,
                x,
            ) && x != id,
            forall|x: TxId|
                #[trigger] final(self).tx_map().contains_key(x) <==> old(
                    self,
                ).tx_map().contains_key(x) && x != id,
            forall|x: TxId| #[trigger]
                final(self).tx_map().contains_key(x) ==> final(self).tx_map()[x] == old(
                    self,
                ).tx_map()[x],
            forall|x: TxId|
                #![trigger old(self).tx_map().contains_key(x)]
                old(self).tx_map().contains_key(x) && x != id ==> final(self).tx_map().contains_key(
                    x,
                ) && final(self).tx_map()[x] == old(self).tx_map()[x],
            forall|j: int|
                0 <= j < final(self).tx_id_to_storage_id@.len() ==> old(
                    self,
                ).tx_id_to_storage_id@.contains(#[trigger] final(self).tx_id_to_storage_id@[j]),
    {
        let ghost pairs0 = self.tx_id_to_storage_id@;
        match self.txmap_position(id) {
            Some(i) => {
                proof {
                    lemma_assoc_map_remove(self.tx_id_to_storage_id@, i as int);
                }
                self.tx_id_to_storage_id.remove(i);
                proof {
                    let ii = i as int;
                    assert(self.tx_id_to_storage_id@ == pairs0.remove(ii));
                    assert forall|x: TxId| has_key(self.tx_id_to_storage_id@, x) <==> has_key(
                        pairs0,
                        x,
                    ) && x != id by {
                        lemma_assoc_map_contains(self.tx_id_to_storage_id@, x);
                        lemma_assoc_map_contains(pairs0, x);
                    }
                    assert forall|j: int|
                        0 <= j < self.tx_id_to_storage_id@.len() implies pairs0.contains(
                        #[trigger] self.tx_id_to_storage_id@[j],
                    ) by {
                        let j2: int = if j < ii {
                            j
                        } else {
                            j + 1
                        };
                        assert(pairs0[j2] == self.tx_id_to_storage_id@[j]);
                    }
                }
            },
            None => {
                proof {
                    assert forall|x: TxId| has_key(self.tx_id_to_storage_id@, x) implies x
                        != id by {
                        if x == id {
                            assert(has_key(pairs0, id));
                        }
                    }
                    assert forall|j: int|
                        0 <= j < self.tx_id_to_storage_id@.len() implies pairs0.contains(
                        #[trigger] self.tx_id_to_storage_id@[j],
                    ) by {}
                }
            },
        }
        proof {
            lemma_assoc_map_contains(self.tx_id_to_storage_id@, id);
        }
    }

    /// Frees the collision claims, the selection entries, the index entries
    /// and the running totals of the removed transactions.
    fn update_components_and_caches_on_removal(&mut self, removed_transactions: &Vec<PoolTransaction>)
        requires
            old(self).collision_manager.wf(),
            old(self).selection_algorithm.wf(),
            distinct_keys(old(self).tx_id_to_storage_id@),
            sum_tx_gas(removed_transactions@) <= old(self).current_gas,
            sum_tx_bytes(removed_transactions@) <= old(self).current_bytes_size,
        ensures
            final(self).storage == old(self).storage,
            final(self).config == old(self).config,
            final(self).next_instant == old(self).next_instant,
            final(self).collision_manager.wf(),
            final(self).selection_algorithm.wf(),
            distinct_keys(final(self).tx_id_to_storage_id@),
            final(self).current_gas == old(self).current_gas - sum_tx_gas(removed_transactions@),
            final(self).current_bytes_size == old(self).current_bytes_size - sum_tx_bytes(
                removed_transactions@,
            ),
            forall|key: CollisionKey|
                (exists|j: int|
                    0 <= j < removed_transactions@.len() && is_claim(
                        &removed_transactions@[j],
                        key,
                    )) ==> !#[trigger] final(self).collision_manager@.contains_key(key),
            forall|key: CollisionKey|
                (forall|j: int|
                    0 <= j < removed_transactions@.len() ==> !is_claim(
                        &removed_transactions@[j],
                        key,
                    )) ==> (#[trigger] final(self).collision_manager@.contains_key(key) <==> old(
                    self,
                ).collision_manager@.contains_key(key)) && (old(
                    self,
                ).collision_manager@.contains_key(key) ==> final(self).collision_manager@[key]
                    == old(self).collision_manager@[key]),
            forall|key: CollisionKey|
                #![trigger old(self).collision_manager@.contains_key(key)]
                old(self).collision_manager@.contains_key(key) && (forall|j: int|
                    0 <= j < removed_transactions@.len() ==> !is_claim(
                        &removed_transactions@[j],
                        key,
                    )) ==> final(self).collision_manager@.contains_key(key)
                    && final(self).collision_manager@[key] == old(self).collision_manager@[key],
            forall|e: crate::selection_algorithms::SelectionEntry| #[trigger]
                final(self).selection_algorithm.entries@.contains(e) <==> old(
                    self,
                ).selection_algorithm.entries@.contains(e) && (forall|j: int|
                    0 <= j < removed_transactions@.len() ==> e.key.tx_id != (
                    #[trigger] removed_transactions@[j]).id),
            forall|x: TxId|
                #[trigger] final(self).tx_map().contains_key(x) <==> old(
                    self,
                ).tx_map().contains_key(x) && (forall|j: int|
                    0 <= j < removed_transactions@.len() ==> x != (
                    #[trigger] removed_transactions@[j]).id),
            forall|x: TxId| #[trigger]
                final(self).tx_map().contains_key(x) ==> final(self).tx_map()[x] == old(
                    self,
                ).tx_map()[x],
            forall|j: int|
                0 <= j < final(self).tx_id_to_storage_id@.len() ==> old(
                    self,
                ).tx_id_to_storage_id@.contains(#[trigger] final(self).tx_id_to_storage_id@[j]),
    {
        let n = removed_transactions.len();
        let mut i: usize = 0;
        while i < n
            invariant
                0 <= i <= n,
                n == removed_transactions@.len(),
                self.storage == old(self).storage,
                self.config == old(self).config,
                self.next_instant == old(self).next_instant,
                self.collision_manager.wf(),
                self.selection_algorithm.wf(),
                distinct_keys(self.tx_id_to_storage_id@),
                sum_tx_gas(removed_transactions@) <= old(self).current_gas,
                sum_tx_bytes(removed_transactions@) <= old(self).current_bytes_size,
                self.current_gas == old(self).current_gas - sum_tx_gas(
                    removed_transactions@.take(i as int),
                ),
                self.current_bytes_size == old(self).current_bytes_size - sum_tx_bytes(
                    removed_transactions@.take(i as int),
                ),
                forall|key: CollisionKey|
                    (exists|j: int|
                        0 <= j < i && is_claim(&removed_transactions@[j], key))
                        ==> !#[trigger] self.collision_manager@.contains_key(key),
                forall|key: CollisionKey|
                    (forall|j: int|
                        0 <= j < removed_transactions@.len() ==> !is_claim(
                            &removed_transactions@[j],
                            key,
                        )) ==> (#[trigger] self.collision_manager@.contains_key(key) <==> old(
                        self,
                    ).collision_manager@.contains_key(key)) && (old(
                        self,
                    ).collision_manager@.contains_key(key) ==> self.collision_manager@[key] == old(
                        self,
                    ).collision_manager@[key]),
                forall|key: CollisionKey|
                    #![trigger old(self).collision_manager@.contains_key(key)]
                    old(self).collision_manager@.contains_key(key) && (forall|j: int|
                        0 <= j < removed_transactions@.len() ==> !is_claim(
                            &removed_transactions@[j],
                            key,
                        )) ==> self.collision_manager@.contains_key(key)
                        && self.collision_manager@[key] == old(self).collision_manager@[key],
                forall|e: crate::selection_algorithms::SelectionEntry| #[trigger]
                    self.selection_algorithm.entries@.contains(e) <==> old(
                        self,
                    ).selection_algorithm.entries@.contains(e) && (forall|j: int|
                        0 <= j < i ==> e.key.tx_id != (#[trigger] removed_transactions@[j]).id),
                forall|x: TxId|
                    #[trigger] self.tx_map().contains_key(x) <==> old(self).tx_map().contains_key(
                        x,
                    ) && (forall|j: int|
                        0 <= j < i ==> x != (#[trigger] removed_transactions@[j]).id),
                forall|x: TxId| #[trigger]
                    self.tx_map().contains_key(x) ==> self.tx_map()[x] == old(self).tx_map()[x],
                forall|j: int|
                    0 <= j < self.tx_id_to_storage_id@.len() ==> old(
                        self,
                    ).tx_id_to_storage_id@.contains(#[trigger] self.tx_id_to_storage_id@[j]),
            decreases n - i,
        {
            proof {
                assert(removed_transactions@.take(i as int + 1).drop_last() =~= removed_transactions@.take(i as int));
                assert(removed_transactions@.take(i as int + 1).last()
                    == removed_transactions@[i as int]);
                assert(removed_transactions@ =~= removed_transactions@.take(i as int + 1)
                    + removed_transactions@.skip(i as int + 1));
                lemma_sum_tx_concat(
                    removed_transactions@.take(i as int + 1),
                    removed_transactions@.skip(i as int + 1),
                );
                lemma_sum_tx_nonneg(removed_transactions@.skip(i as int + 1));
                lemma_sum_tx_nonneg(removed_transactions@.take(i as int));
                lemma_sum_tx_nonneg(removed_transactions@.take(i as int + 1));
            }
            let tx = &removed_transactions[i];
            let ghost pre = *self;
            self.collision_manager.on_removed_transaction(tx);
            let ghost pcm = *self;
            self.selection_algorithm.on_removed_transaction(tx);
            proof {
                assert(self.tx_id_to_storage_id@ == pre.tx_id_to_storage_id@);
                assert(self.tx_map() == pre.tx_map());
            }
            self.txmap_remove(tx.id());
            proof {
                assert(tx.id == removed_transactions@[i as int].id);
                assert forall|x: TxId| #[trigger] self.tx_map().contains_key(x) implies
                    pre.tx_map().contains_key(x) && x != tx.id by {}
                assert forall|x: TxId|
                    pre.tx_map().contains_key(x) && x != tx.id implies #[trigger] self.tx_map().contains_key(x)
                    && self.tx_map()[x] == pre.tx_map()[x] by {}
            }
            let ghost mid = *self;
            self.current_gas = sat_sub64(self.current_gas, tx.max_gas());
            self.current_bytes_size = sat_sub64(self.current_bytes_size, tx.metered_bytes_size());
            proof {
                assert(*tx == removed_transactions@[i as int]);
                assert(self.tx_id_to_storage_id@ == mid.tx_id_to_storage_id@);
                assert(self.tx_map() == mid.tx_map());
                assert(self.collision_manager == mid.collision_manager);
                assert(self.collision_manager@ == pcm.collision_manager@);
                assert(self.selection_algorithm == mid.selection_algorithm);
                // The collision index: newly freed claims join the freed set.
                assert forall|key: CollisionKey|
                    (exists|j: int|
                        0 <= j < i + 1 && is_claim(&removed_transactions@[j], key)) implies
                    !#[trigger] self.collision_manager@.contains_key(key) by {
                    let j = choose|j: int|
                        0 <= j < i + 1 && is_claim(&removed_transactions@[j], key);
                    if j == i as int {
                        assert(is_claim(tx, key));
                        assert(!pcm.collision_manager@.contains_key(key));
                    } else {
                        assert(!pre.collision_manager@.contains_key(key));
                        if !is_claim(tx, key) {
                            assert((pcm.collision_manager@.contains_key(key)
                                <==> pre.collision_manager@.contains_key(key)));
                        } else {
                            assert(!pcm.collision_manager@.contains_key(key));
                        }
                    }
                }
                assert forall|key: CollisionKey|
                    (forall|j: int|
                        0 <= j < removed_transactions@.len() ==> !is_claim(
                            &removed_transactions@[j],
                            key,
                        )) implies (#[trigger] self.collision_manager@.contains_key(key) <==> old(
                    self,
                ).collision_manager@.contains_key(key)) && (old(
                    self,
                ).collision_manager@.contains_key(key) ==> self.collision_manager@[key] == old(
                    self,
                ).collision_manager@[key]) by {
                    assert(!is_claim(&removed_transactions@[i as int], key));
                    assert(!is_claim(tx, key));
                    assert((pcm.collision_manager@.contains_key(key)
                        <==> pre.collision_manager@.contains_key(key)) && (
                    pre.collision_manager@.contains_key(key)
                        ==> pcm.collision_manager@[key] == pre.collision_manager@[key]));
                }
                assert forall|key: CollisionKey|
                    #![trigger old(self).collision_manager@.contains_key(key)]
                    old(self).collision_manager@.contains_key(key) && (forall|j: int|
                        0 <= j < removed_transactions@.len() ==> !is_claim(
                            &removed_transactions@[j],
                            key,
                        )) implies self.collision_manager@.contains_key(key)
                    && self.collision_manager@[key] == old(self).collision_manager@[key] by {
                    assert(!is_claim(&removed_transactions@[i as int], key));
                    assert(!is_claim(tx, key));
                    assert((pcm.collision_manager@.contains_key(key)
                        <==> pre.collision_manager@.contains_key(key)) && (
                    pre.collision_manager@.contains_key(key)
                        ==> pcm.collision_manager@[key] == pre.collision_manager@[key]));
                }
                // The selection structure: entries of newly removed ids left.
                assert forall|e: crate::selection_algorithms::SelectionEntry| #[trigger]
                    self.selection_algorithm.entries@.contains(e) <==> old(
                    self,
                ).selection_algorithm.entries@.contains(e) && (forall|j: int|
                    0 <= j < i + 1 ==> e.key.tx_id != (
                    #[trigger] removed_transactions@[j]).id) by {
                    if self.selection_algorithm.entries@.contains(e) {
                        assert(pre.selection_algorithm.entries@.contains(e) && e.key.tx_id
                            != tx.id);
                        assert forall|j: int| 0 <= j < i + 1 implies e.key.tx_id != (
                        #[trigger] removed_transactions@[j]).id by {
                            if j < i as int {
                                assert(pre.selection_algorithm.entries@.contains(e));
                            }
                        }
                    }
                    if old(self).selection_algorithm.entries@.contains(e) && (forall|j: int|
                        0 <= j < i + 1 ==> e.key.tx_id != (
                        #[trigger] removed_transactions@[j]).id) {
                        assert(e.key.tx_id != removed_transactions@[i as int].id);
                        assert(pre.selection_algorithm.entries@.contains(e));
                        assert(self.selection_algorithm.entries@.contains(e));
                    }
                }
                // The transaction-id index: the newly removed id left.
                assert forall|x: TxId| #[trigger] self.tx_map().contains_key(x) <==> old(
                    self,
                ).tx_map().contains_key(x) && (forall|j: int|
                    0 <= j < i + 1 ==> x != (#[trigger] removed_transactions@[j]).id) by {
                    if self.tx_map().contains_key(x) {
                        assert(pre.tx_map().contains_key(x) && x != tx.id);
                        assert forall|j: int| 0 <= j < i + 1 implies x != (
                        #[trigger] removed_transactions@[j]).id by {
                            if j < i as int {
                                assert(pre.tx_map().contains_key(x));
                            }
                        }
                    }
                    if old(self).tx_map().contains_key(x) && (forall|j: int|
                        0 <= j < i + 1 ==> x != (#[trigger] removed_transactions@[j]).id) {
                        assert(x != removed_transactions@[i as int].id);
                        assert(pre.tx_map().contains_key(x));
                        assert(self.tx_map().contains_key(x));
                    }
                }
                assert forall|x: TxId| #[trigger] self.tx_map().contains_key(x) implies
                    self.tx_map()[x] == old(self).tx_map()[x] by {
                    assert(pre.tx_map().contains_key(x));
                    assert(self.tx_map()[x] == pre.tx_map()[x]);
                }
            }
            i += 1;
        }
        proof {
            assert(removed_transactions@.take(n as int) =~= removed_transactions@);
        }
    }
}

} // verus!

verus! {

impl Pool {
    /// Inserts `tx`, validating it against the snapshot `view`: blacklist,
    /// blob duplication, input existence, collision policy and capacity, in
    /// that order, after rejecting a duplicate id. A successful insertion may
    /// displace colliding residents and evict less valuable subtrees; the
    /// displaced and evicted transactions are returned. On an error the pool
    /// is unchanged.
    #[verifier::rlimit(100)]
    pub fn insert(&mut self, tx: PoolTransaction, view: &StateView) -> (r: Result<
        Vec<PoolTransaction>,
        Error,
    >)
        requires
            old(self).wf(),
            tx.well_formed(),
            old(self).storage.next_index < u64::MAX,
            old(self).next_instant < u64::MAX,
        ensures
            final(self).wf(),
            final(self).config == old(self).config,
            insert_checks_pass(*old(self), tx, *view) && fits_without_eviction(*old(self), tx)
                ==> r is Ok,
            match r {
                Err(e) => *final(self) == *old(self) && (match e {
                    Error::NotInsertedTxIdAlreadyExists(dup) => dup == tx.id && old(
                        self,
                    ).spec_contains_tx(tx.id),
                    Error::Blacklisted(b) => !old(self).spec_contains_tx(tx.id) && old(
                        self,
                    ).config.black_list.verdict(&tx) == Some(b),
                    Error::NotInsertedBlobIdAlreadyTaken(b) => tx.spec_blob_id() == Some(b) && (
                    view.blobs@.contains(b) || collision_outcome(
                        &tx,
                        has_dependency(old(self).storage@, tx),
                        old(self).collision_manager@,
                        old(self).storage@,
                    ) == Err::<(), Error>(e)),
                    Error::NotInsertedInputUtxo(_) | Error::NotInsertedMessageNonce(_)
                    | Error::NotInsertedContract(_) => old(self).config.utxo_validation
                        && inputs_validity_verdict(old(self).storage@, *view, tx.inputs@) == Some(
                        e,
                    ),
                    Error::Collided(_) => collision_outcome(
                        &tx,
                        has_dependency(old(self).storage@, tx),
                        old(self).collision_manager@,
                        old(self).storage@,
                    ) == Err::<(), Error>(e),
                    Error::NotInsertedLimitHit => !fits_without_eviction(*old(self), tx),
                }),
                Ok(removed) => {
                    &&& insert_checks_pass(*old(self), tx, *view)
                    &&& final(self).spec_contains_tx(tx.id)
                    &&& final(self).storage@.contains_key(final(self).tx_map()[tx.id])
                    &&& final(self).storage@[final(self).tx_map()[tx.id]].transaction == tx
                    &&& forall|j: int|
                        0 <= j < removed@.len() ==> old(self).spec_contains_tx(
                            (#[trigger] removed@[j]).id,
                        ) && removed@[j].id != tx.id && !final(self).spec_contains_tx(
                            removed@[j].id,
                        )
                    &&& committed_shape(*old(self), *final(self), tx, removed@)
                    &&& (has_dependency(old(self).storage@, tx) ==> removed@.len() == 0)
                },
            },
    {
        let tx_id = tx.id();
        // A duplicate candidate is refused outright.
        if self.txmap_get(tx_id).is_some() {
            return Err(Error::NotInsertedTxIdAlreadyExists(tx_id));
        }
        // Blacklist.
        match self.config.black_list.check_blacklisting(&tx) {
            Err(e) => {
                return Err(e);
            },
            Ok(()) => {},
        }
        // Blob duplication against persistent state.
        match tx.blob_id() {
            Some(b) => {
                if view.blob_exist(b) {
                    return Err(Error::NotInsertedBlobIdAlreadyTaken(b));
                }
            },
            None => {},
        }
        // Input existence against the snapshot and the pool's own outputs.
        match self.storage.validate_inputs(&tx, view, self.config.utxo_validation) {
            Err(e) => {
                proof {
                    crate::storage::lemma_validity_verdict_kinds(
                        self.storage@,
                        *view,
                        tx.inputs@,
                    );
                }
                return Err(e);
            },
            Ok(()) => {},
        }
        // Collisions and dependencies.
        let colliding = self.collision_manager.collect_colliding_transactions(&tx);
        proof {
            assert forall|j: int|
                0 <= j < colliding@.len() implies self.storage@.contains_key(
                (#[trigger] colliding@[j]).0,
            ) by {
                let k = choose|k: CollisionKey|
                    is_claim(&tx, k) && self.collision_manager@.contains_key(k)
                        && self.collision_manager@[k] == colliding@[j].0 && colliding@[j].1
                        == crate::collision_manager::reason_of(k);
            }
        }
        let dependencies = self.storage.collect_transaction_dependencies(&tx);
        let has_dependencies = dependencies.len() > 0;
        proof {
            assert(has_dependencies == has_dependency(self.storage@, tx)) by {
                if dependencies@.len() > 0 {
                    assert(dependencies@.contains(dependencies@[0]));
                    assert(is_dependency(self.storage@, &tx, dependencies@[0]));
                }
                if has_dependency(self.storage@, tx) {
                    let k = choose|k: u64| is_dependency(self.storage@, &tx, k);
                    assert(dependencies@.contains(k));
                }
            }
        }
        let r_policy = self.collision_manager.can_store_transaction(
            &tx,
            has_dependencies,
            &colliding,
            &self.storage,
        );
        proof {
            lemma_verdict_is_outcome(
                &tx,
                has_dependencies,
                colliding@,
                self.collision_manager@,
                self.storage@,
            );
        }
        match r_policy {
            Err(e) => {
                proof {
                    crate::collision_manager::lemma_collision_verdict_kinds(
                        &tx,
                        has_dependencies,
                        colliding@,
                        self.storage@,
                    );
                }
                return Err(e);
            },
            Ok(()) => {},
        }
        // Capacity: plan the eviction set.
        let to_remove = match self.check_pool_size_available(&tx, &colliding, &dependencies) {
            Err(e) => {
                return Err(e);
            },
            Ok(v) => v,
        };
        let plan = self.removal_plan(&tx, &to_remove, &colliding);
        let members = plan.0;
        // Exact capacity check: with the planned removals gone, the candidate
        // must fit.
        if !plan.1 {
            proof {
                lemma_ids_gas_sum_nonneg(self.storage@, members@);
            }
            return Err(Error::NotInsertedLimitHit);
        }
        // All checks passed: derive what the commit relies on, then commit.
        proof {
            assert forall|k: CollisionKey|
                is_claim(&tx, k) && #[trigger] self.collision_manager@.contains_key(k) implies
                members@.contains(self.collision_manager@[k]) by {
                let je = choose|je: int|
                    0 <= je < colliding@.len() && (#[trigger] colliding@[je]).0
                        == self.collision_manager@[k];
            }
            assert forall|d: u64| #[trigger] dependencies@.contains(d) implies
                self.storage@.contains_key(d) && !members@.contains(d) by {
                if has_dependencies {
                    assert(colliding@.len() == 0);
                    assert(to_remove@.len() == 0);
                    assert(members@.len() == 0);
                    if members@.contains(d) {
                        let jj = choose|jj: int| 0 <= jj < members@.len() && members@[jj] == d;
                    }
                } else {
                    assert(dependencies@.len() == 0);
                }
            }
            assert(self.current_gas + tx.max_gas <= self.config.pool_limits.max_gas + ids_gas_sum(
                self.storage@,
                members@,
            ));
            assert(self.current_bytes_size + tx.metered_bytes_size
                <= self.config.pool_limits.max_bytes_size + ids_bytes_sum(
                self.storage@,
                members@,
            ));
        }
        let removed_transactions = self.insert_commit(tx, dependencies, members);
        Ok(removed_transactions)
    }
}

} // verus!

verus! {

impl Pool {
    /// Commits a fully checked candidate: removes `members` (the union of the
    /// subtrees of the colliding and evicted residents), frees their claims,
    /// entries and totals, stores the candidate, indexes it, updates the
    /// totals, promotes it into the selection structure if it is executable,
    /// and registers its claims.
    #[verifier::rlimit(100)]
    fn insert_commit(
        &mut self,
        tx: PoolTransaction,
        dependencies: Vec<u64>,
        members: Vec<u64>,
    ) -> (r: Vec<PoolTransaction>)
        requires
            old(self).wf(),
            tx.well_formed(),
            old(self).storage.next_index < u64::MAX,
            old(self).next_instant < u64::MAX,
            !old(self).tx_map().contains_key(tx.id),
            members@.no_duplicates(),
            forall|x: u64| #[trigger] members@.contains(x) ==> old(self).storage@.contains_key(x),
            forall|k: u64, c: u64|
                #![trigger members@.contains(k), old(self).storage@[k].children@.contains(c)]
                members@.contains(k) && old(self).storage@.contains_key(k) && old(
                    self,
                ).storage@[k].children@.contains(c) ==> members@.contains(c),
            forall|k: CollisionKey|
                is_claim(&tx, k) && #[trigger] old(self).collision_manager@.contains_key(k)
                    ==> members@.contains(old(self).collision_manager@[k]),
            dependencies@.no_duplicates(),
            forall|d: u64| #[trigger] dependencies@.contains(d) ==> old(
                self,
            ).storage@.contains_key(d) && !members@.contains(d),
            old(self).current_gas + tx.max_gas <= old(self).config.pool_limits.max_gas
                + ids_gas_sum(old(self).storage@, members@),
            old(self).current_bytes_size + tx.metered_bytes_size <= old(
                self,
            ).config.pool_limits.max_bytes_size + ids_bytes_sum(old(self).storage@, members@),
            old(self).storage.entries@.len() + 1 <= old(self).config.pool_limits.max_txs
                + members@.len(),
        ensures
            final(self).wf(),
            final(self).config == old(self).config,
            final(self).spec_contains_tx(tx.id),
            final(self).storage@.contains_key(final(self).tx_map()[tx.id]),
            final(self).storage@[final(self).tx_map()[tx.id]].transaction == tx,
            forall|j: int|
                0 <= j < r@.len() ==> old(self).spec_contains_tx((#[trigger] r@[j]).id)
                    && r@[j].id != tx.id && !final(self).spec_contains_tx(r@[j].id),
            r@.len() == members@.len(),
            committed_shape(*old(self), *final(self), tx, r@),
    {
        let tx_id = tx.id();
        let has_dependencies = dependencies.len() > 0;
        let ghost pre = *self;
        let removed_transactions = self.storage.remove_collected(&members);
        proof {
            lemma_ids_tx_sum_match(pre.storage@, members@, removed_transactions@);
            crate::storage::lemma_sum_entries_nonneg(self.storage.entries@);
        }
        let ghost mid0 = *self;
        self.update_components_and_caches_on_removal(&removed_transactions);
        let ghost mid1 = *self;
        let gas = tx.max_gas();
        let bytes_size = tx.metered_bytes_size();
        let instant = self.next_instant;
        self.next_instant = instant + 1;
        proof {
            assert forall|k: u64| #[trigger] self.storage@.contains_key(k) implies
                self.storage@[k].transaction.id != tx.id by {
                assert(pre.storage@.contains_key(k));
                assert(has_key(pre.tx_id_to_storage_id@, pre.storage@[k].transaction.id));
                if pre.storage@[k].transaction.id == tx.id {
                    crate::assoc::lemma_assoc_map_contains(pre.tx_id_to_storage_id@, tx.id);
                }
            }
            assert forall|k: u64| #[trigger] dependencies@.contains(k) implies
                self.storage@.contains_key(k) by {
                assert(pre.storage@.contains_key(k) && !members@.contains(k));
            }
        }
        let storage_id = self.storage.store_transaction(tx, dependencies, instant);
        let ghost mid2 = *self;
        proof {
            lemma_assoc_map_contains(self.tx_id_to_storage_id@, tx_id);
            if has_key(self.tx_id_to_storage_id@, tx_id) {
                let j = choose|j: int|
                    0 <= j < self.tx_id_to_storage_id@.len() && self.tx_id_to_storage_id@[j].0
                        == tx_id;
                assert(pre.tx_id_to_storage_id@.contains(self.tx_id_to_storage_id@[j]));
                let j2 = choose|j2: int|
                    0 <= j2 < pre.tx_id_to_storage_id@.len() && pre.tx_id_to_storage_id@[j2]
                        == self.tx_id_to_storage_id@[j];
                assert(has_key(pre.tx_id_to_storage_id@, tx_id));
                lemma_assoc_map_contains(pre.tx_id_to_storage_id@, tx_id);
            }
            lemma_assoc_map_push(self.tx_id_to_storage_id@, tx_id, storage_id);
        }
        self.tx_id_to_storage_id.push((tx_id, storage_id));
        proof {
            assert(self.current_gas as int + gas <= self.config.pool_limits.max_gas);
            assert(self.current_bytes_size as int + bytes_size
                <= self.config.pool_limits.max_bytes_size);
        }
        self.current_gas = self.current_gas + gas;
        self.current_bytes_size = self.current_bytes_size + bytes_size;
        if !has_dependencies {
            proof {
                assert forall|i4: int|
                    0 <= i4 < self.selection_algorithm.entries@.len() implies (
                #[trigger] self.selection_algorithm.entries@[i4]).key.tx_id
                    != self.storage@[storage_id].transaction.id
                    && self.selection_algorithm.entries@[i4].storage_id != storage_id by {
                    let e = self.selection_algorithm.entries@[i4];
                    assert(self.selection_algorithm.entries@.contains(e));
                    assert(pre.selection_algorithm.entries@.contains(e));
                    let i5 = choose|i5: int|
                        0 <= i5 < pre.selection_algorithm.entries@.len()
                            && pre.selection_algorithm.entries@[i5] == e;
                    assert(pre.storage@.contains_key(e.storage_id));
                    assert(e.key == key_of(pre.storage@[e.storage_id]));
                    assert(e.key.tx_id == pre.storage@[e.storage_id].transaction.id);
                    assert(has_key(
                        pre.tx_id_to_storage_id@,
                        pre.storage@[e.storage_id].transaction.id,
                    ));
                    if e.key.tx_id == tx.id {
                        crate::assoc::lemma_assoc_map_contains(pre.tx_id_to_storage_id@, tx.id);
                    }
                    assert(e.storage_id < pre.storage.next_index);
                }
            }
            let nd = self.storage.get_must(storage_id);
            self.selection_algorithm.new_executable_transaction(storage_id, nd);
        }
        let ghost mid3 = *self;
        self.collision_manager.on_stored_transaction(
            &self.storage.get_must(storage_id).transaction,
            storage_id,
        );
        proof {
            let fin = *self;
            assert(mid3.collision_manager@ == mid1.collision_manager@);
            assert(mid0.collision_manager@ == pre.collision_manager@);
            assert(mid0.tx_id_to_storage_id@ == pre.tx_id_to_storage_id@);
            assert(mid0.tx_map() == pre.tx_map());
            assert(mid0.selection_algorithm.entries@ == pre.selection_algorithm.entries@);
            let m2 = fin.storage@;
            let stx = m2[storage_id].transaction;
            assert(stx == tx);
            assert(mid2.tx_id_to_storage_id@ == mid1.tx_id_to_storage_id@);
            assert(mid2.tx_map() == mid1.tx_map());
            assert(mid2.collision_manager@ == mid1.collision_manager@);
            assert(mid2.selection_algorithm.entries@ == mid1.selection_algorithm.entries@);
            assert(mid2.current_gas == mid1.current_gas);
            assert(mid2.current_bytes_size == mid1.current_bytes_size);
            assert forall|x: TxId| #[trigger] mid2.tx_map().contains_key(x) implies
                mid1.tx_map().contains_key(x) by {}
            assert forall|x: TxId| #[trigger] mid1.tx_map().contains_key(x) implies
                mid2.tx_map().contains_key(x) && mid2.tx_map()[x] == mid1.tx_map()[x] by {}
            // Ids of the removed transactions are the ids of the removed
            // residents.
            assert forall|j: int| 0 <= j < removed_transactions@.len() implies (
            #[trigger] removed_transactions@[j]) == pre.storage@[members@[j]].transaction
                && members@.contains(members@[j]) by {}
            // The transaction-id index is a bijection onto the residents.
            assert forall|i4: int|
                0 <= i4 < fin.tx_id_to_storage_id@.len() implies m2.contains_key(
                (#[trigger] fin.tx_id_to_storage_id@[i4]).1,
            ) && m2[fin.tx_id_to_storage_id@[i4].1].transaction.id
                == fin.tx_id_to_storage_id@[i4].0 by {
                let pair = fin.tx_id_to_storage_id@[i4];
                if i4 == fin.tx_id_to_storage_id@.len() - 1 {
                    assert(pair == (tx_id, storage_id));
                } else {
                    assert(mid1.tx_id_to_storage_id@.contains(pair)) by {
                        assert(mid1.tx_id_to_storage_id@[i4] == pair);
                    }
                    assert(mid0.tx_id_to_storage_id@.contains(pair));
                    let i5 = choose|i5: int|
                        0 <= i5 < pre.tx_id_to_storage_id@.len() && pre.tx_id_to_storage_id@[i5]
                            == pair;
                    assert(pre.storage@.contains_key(pair.1));
                    assert(pre.storage@[pair.1].transaction.id == pair.0);
                    assert(has_key(mid1.tx_id_to_storage_id@, pair.0)) by {
                        assert(mid1.tx_id_to_storage_id@[i4].0 == pair.0);
                    }
                    lemma_assoc_map_contains(mid1.tx_id_to_storage_id@, pair.0);
                    assert(!members@.contains(pair.1)) by {
                        if members@.contains(pair.1) {
                            let jm = choose|jm: int|
                                0 <= jm < members@.len() && members@[jm] == pair.1;
                            assert(removed_transactions@[jm].id == pair.0);
                            assert(mid1.tx_map().contains_key(pair.0)) by {
                                lemma_assoc_map_contains(mid1.tx_id_to_storage_id@, pair.0);
                            }
                        }
                    }
                    assert(m2.contains_key(pair.1));
                    assert(m2[pair.1].transaction == pre.storage@[pair.1].transaction);
                }
            }
            assert forall|k: u64| #[trigger] m2.contains_key(k) implies has_key(
                fin.tx_id_to_storage_id@,
                m2[k].transaction.id,
            ) && fin.tx_map()[m2[k].transaction.id] == k by {
                if k == storage_id {
                    assert(m2[k].transaction.id == tx_id);
                    assert(fin.tx_map() =~= mid2.tx_map().insert(tx_id, storage_id));
                    assert(has_key(fin.tx_id_to_storage_id@, tx_id)) by {
                        assert(fin.tx_id_to_storage_id@[fin.tx_id_to_storage_id@.len() - 1].0
                            == tx_id);
                    }
                } else {
                    assert(pre.storage@.contains_key(k) && !members@.contains(k));
                    let kid = pre.storage@[k].transaction.id;
                    assert(m2[k].transaction == pre.storage@[k].transaction);
                    assert(has_key(pre.tx_id_to_storage_id@, kid) && pre.tx_map()[kid] == k);
                    lemma_assoc_map_contains(pre.tx_id_to_storage_id@, kid);
                    assert(mid0.tx_map().contains_key(kid)) by {
                        lemma_assoc_map_contains(mid0.tx_id_to_storage_id@, kid);
                    }
                    assert(mid1.tx_map().contains_key(kid)) by {
                        assert forall|j: int|
                            0 <= j < removed_transactions@.len() implies kid != (
                        #[trigger] removed_transactions@[j]).id by {
                            if kid == removed_transactions@[j].id {
                                assert(members@.contains(members@[j]));
                                assert(pre.storage@.contains_key(members@[j]));
                                assert(pre.storage@[members@[j]].transaction.id == kid);
                                assert(members@[j] == k);
                            }
                        }
                    }
                    assert(mid1.tx_map()[kid] == mid0.tx_map()[kid]);
                    assert(mid2.tx_map()[kid] == mid1.tx_map()[kid]);
                    assert(kid != tx_id);
                    assert(fin.tx_map() =~= mid2.tx_map().insert(tx_id, storage_id));
                    lemma_assoc_map_contains(fin.tx_id_to_storage_id@, kid);
                }
            }
            // Selection: entries are exactly the executable residents.
            assert forall|i4: int|
                0 <= i4 < fin.selection_algorithm.entries@.len() implies m2.contains_key(
                (#[trigger] fin.selection_algorithm.entries@[i4]).storage_id,
            ) && fin.selection_algorithm.entries@[i4].key == key_of(
                m2[fin.selection_algorithm.entries@[i4].storage_id],
            ) && m2[fin.selection_algorithm.entries@[i4].storage_id].parents@.len() == 0 by {
                let e = fin.selection_algorithm.entries@[i4];
                assert(fin.selection_algorithm.entries@.contains(e));
                if !has_dependencies && e == (crate::selection_algorithms::SelectionEntry {
                    key: key_of(mid2.storage@[storage_id]),
                    storage_id,
                }) {
                    assert(m2[storage_id].parents@ == dependencies@);
                } else {
                    assert(mid1.selection_algorithm.entries@.contains(e));
                    assert(mid0.selection_algorithm.entries@.contains(e));
                    assert(pre.selection_algorithm.entries@.contains(e) && (forall|j: int|
                        0 <= j < removed_transactions@.len() ==> e.key.tx_id != (
                        #[trigger] removed_transactions@[j]).id));
                    let i5 = choose|i5: int|
                        0 <= i5 < pre.selection_algorithm.entries@.len()
                            && pre.selection_algorithm.entries@[i5] == e;
                    assert(pre.storage@.contains_key(e.storage_id));
                    assert(!members@.contains(e.storage_id)) by {
                        if members@.contains(e.storage_id) {
                            let jm = choose|jm: int|
                                0 <= jm < members@.len() && members@[jm] == e.storage_id;
                            assert(removed_transactions@[jm].id
                                == pre.storage@[e.storage_id].transaction.id);
                            assert(e.key == key_of(pre.storage@[e.storage_id]));
                        }
                    }
                    assert(e.storage_id < pre.storage.next_index);
                    assert(m2.contains_key(e.storage_id));
                    assert(m2[e.storage_id].transaction == pre.storage@[e.storage_id].transaction);
                    assert(m2[e.storage_id].creation_instant
                        == pre.storage@[e.storage_id].creation_instant);
                    assert(m2[e.storage_id].parents@ == pre.storage@[e.storage_id].parents@);
                }
            }
            assert forall|k: u64|
                #[trigger] m2.contains_key(k) && m2[k].parents@.len() == 0 implies
                fin.selection_algorithm.contains_id(k) by {
                if k == storage_id {
                    assert(m2[storage_id].parents@ == dependencies@);
                    assert(!has_dependencies);
                    let newe = crate::selection_algorithms::SelectionEntry {
                        key: key_of(mid2.storage@[storage_id]),
                        storage_id,
                    };
                    assert(fin.selection_algorithm.entries@.contains(newe));
                    let i5 = choose|i5: int|
                        0 <= i5 < fin.selection_algorithm.entries@.len()
                            && fin.selection_algorithm.entries@[i5] == newe;
                    assert(fin.selection_algorithm.entries@[i5].storage_id == k);
                } else {
                    assert(pre.storage@.contains_key(k) && !members@.contains(k));
                    assert(m2[k].parents@ == pre.storage@[k].parents@);
                    assert(pre.selection_algorithm.contains_id(k));
                    let i5 = choose|i5: int|
                        0 <= i5 < pre.selection_algorithm.entries@.len() && (
                        #[trigger] pre.selection_algorithm.entries@[i5]).storage_id == k;
                    let e = pre.selection_algorithm.entries@[i5];
                    assert(pre.selection_algorithm.entries@.contains(e));
                    assert(e.key == key_of(pre.storage@[k]));
                    assert(mid0.selection_algorithm.entries@.contains(e));
                    assert(mid1.selection_algorithm.entries@.contains(e)) by {
                        assert forall|j: int|
                            0 <= j < removed_transactions@.len() implies e.key.tx_id != (
                        #[trigger] removed_transactions@[j]).id by {
                            if e.key.tx_id == removed_transactions@[j].id {
                                assert(removed_transactions@[j].id
                                    == pre.storage@[members@[j]].transaction.id);
                                assert(members@.contains(members@[j]));
                                assert(pre.storage@.contains_key(members@[j]));
                                assert(members@[j] == k);
                            }
                        }
                    }
                    assert(fin.selection_algorithm.entries@.contains(e));
                    let i6 = choose|i6: int|
                        0 <= i6 < fin.selection_algorithm.entries@.len()
                            && fin.selection_algorithm.entries@[i6] == e;
                    assert(fin.selection_algorithm.entries@[i6].storage_id == k);
                }
            }
            // Collision index: exact claims consistency.
            assert forall|k: CollisionKey|
                #[trigger] fin.collision_manager@.contains_key(k) implies m2.contains_key(
                fin.collision_manager@[k],
            ) && is_claim(&m2[fin.collision_manager@[k]].transaction, k) by {
                if is_claim(&stx, k) {
                    assert(fin.collision_manager@[k] == storage_id);
                } else {
                    assert(!is_claim(&tx, k));
                    assert(mid3.collision_manager@.contains_key(k) && fin.collision_manager@[k]
                        == mid3.collision_manager@[k]);
                    assert(mid1.collision_manager@.contains_key(k) && fin.collision_manager@[k]
                        == mid1.collision_manager@[k]);
                    assert forall|j: int|
                        0 <= j < removed_transactions@.len() implies !is_claim(
                        &removed_transactions@[j],
                        k,
                    ) by {
                        if is_claim(&removed_transactions@[j], k) {
                            assert(!mid1.collision_manager@.contains_key(k));
                            assert(mid3.collision_manager@.contains_key(k));
                        }
                    }
                    assert(mid0.collision_manager@.contains_key(k) && mid1.collision_manager@[k]
                        == mid0.collision_manager@[k]);
                    let v = pre.collision_manager@[k];
                    assert(pre.storage@.contains_key(v) && is_claim(
                        &pre.storage@[v].transaction,
                        k,
                    ));
                    assert(!members@.contains(v)) by {
                        if members@.contains(v) {
                            let jm = choose|jm: int|
                                0 <= jm < members@.len() && members@[jm] == v;
                            assert(removed_transactions@[jm] == pre.storage@[v].transaction);
                            assert(is_claim(&removed_transactions@[jm], k));
                        }
                    }
                    assert(m2.contains_key(v));
                    assert(m2[v].transaction == pre.storage@[v].transaction);
                }
            }
            assert forall|i4: u64, k: CollisionKey|
                m2.contains_key(i4) && #[trigger] is_claim(&m2[i4].transaction, k) implies
                fin.collision_manager@.contains_key(k) && fin.collision_manager@[k] == i4 by {
                if i4 == storage_id {
                    assert(is_claim(&stx, k));
                    assert(fin.collision_manager@.contains_key(k) && fin.collision_manager@[k]
                        == storage_id);
                } else {
                    assert(pre.storage@.contains_key(i4) && !members@.contains(i4));
                    assert(m2[i4].transaction == pre.storage@[i4].transaction);
                    assert(is_claim(&pre.storage@[i4].transaction, k));
                    assert(pre.collision_manager@.contains_key(k) && pre.collision_manager@[k]
                        == i4);
                    assert(!is_claim(&tx, k)) by {
                        if is_claim(&tx, k) {
                            assert(members@.contains(pre.collision_manager@[k]));
                        }
                    }
                    assert forall|j: int|
                        0 <= j < removed_transactions@.len() implies !is_claim(
                        &removed_transactions@[j],
                        k,
                    ) by {
                        if is_claim(&removed_transactions@[j], k) {
                            assert(removed_transactions@[j]
                                == pre.storage@[members@[j]].transaction);
                            assert(members@.contains(members@[j]));
                            assert(pre.storage@.contains_key(members@[j]));
                            assert(pre.collision_manager@.contains_key(k)
                                && pre.collision_manager@[k] == members@[j]);
                            assert(members@[j] == i4);
                        }
                    }
                    assert(mid0.collision_manager@.contains_key(k) && mid0.collision_manager@[k]
                        == i4);
                    assert(mid1.collision_manager@.contains_key(k) && mid1.collision_manager@[k]
                        == i4);
                    assert(mid3.collision_manager@.contains_key(k) && mid3.collision_manager@[k]
                        == i4);
                    assert(fin.collision_manager@.contains_key(k) && fin.collision_manager@[k]
                        == i4);
                }
            }
            // Totals.
            assert(sum_tx_gas(removed_transactions@) == ids_gas_sum(pre.storage@, members@));
            assert(fin.current_gas == sum_gas(fin.storage.entries@));
            assert(fin.current_bytes_size == sum_bytes(fin.storage.entries@));
            assert(fin.current_gas <= fin.config.pool_limits.max_gas);
            assert(fin.current_bytes_size <= fin.config.pool_limits.max_bytes_size);
            assert(fin.storage.entries@.len() <= fin.config.pool_limits.max_txs);
            assert(fin.wf());
            // The surface facts of a successful insertion.
            assert(fin.spec_contains_tx(tx.id)) by {
                lemma_assoc_map_contains(fin.tx_id_to_storage_id@, tx_id);
                assert(has_key(fin.tx_id_to_storage_id@, tx_id)) by {
                    assert(fin.tx_id_to_storage_id@[fin.tx_id_to_storage_id@.len() - 1].0
                        == tx_id);
                }
            }
            assert(fin.tx_map()[tx.id] == storage_id) by {
                assert(fin.tx_map() =~= mid2.tx_map().insert(tx_id, storage_id));
            }
            assert forall|j: int|
                0 <= j < removed_transactions@.len() implies pre.spec_contains_tx(
                (#[trigger] removed_transactions@[j]).id,
            ) && removed_transactions@[j].id != tx.id && !fin.spec_contains_tx(
                removed_transactions@[j].id,
            ) by {
                let rid = removed_transactions@[j].id;
                assert(members@.contains(members@[j]));
                assert(pre.storage@.contains_key(members@[j]));
                assert(rid == pre.storage@[members@[j]].transaction.id);
                assert(has_key(pre.tx_id_to_storage_id@, rid));
                lemma_assoc_map_contains(pre.tx_id_to_storage_id@, rid);
                assert(mid0.tx_map().contains_key(rid) <==> pre.tx_map().contains_key(rid));
                assert(!mid1.tx_map().contains_key(rid));
                assert(!mid2.tx_map().contains_key(rid));
                if rid == tx.id {
                    assert(pre.tx_map().contains_key(tx.id));
                }
                assert(fin.tx_map() =~= mid2.tx_map().insert(tx_id, storage_id));
                assert(!fin.tx_map().contains_key(rid));
            }
            // Membership of a resident in the removal, by id.
            assert forall|k: u64| #[trigger] pre.storage@.contains_key(k) implies (
            members@.contains(k) <==> removed_ids_contain(
                removed_transactions@,
                pre.storage@[k].transaction.id,
            )) by {
                if members@.contains(k) {
                    let j = choose|j: int| 0 <= j < members@.len() && members@[j] == k;
                    assert(removed_transactions@[j].id == pre.storage@[k].transaction.id);
                }
                if removed_ids_contain(removed_transactions@, pre.storage@[k].transaction.id) {
                    let j = choose|j: int|
                        0 <= j < removed_transactions@.len() && (
                        #[trigger] removed_transactions@[j]).id == pre.storage@[k].transaction.id;
                    assert(members@.contains(members@[j]));
                    assert(pre.storage@.contains_key(members@[j]));
                    assert(pre.storage@[members@[j]].transaction.id
                        == pre.storage@[k].transaction.id);
                    assert(members@[j] == k);
                }
            }
            assert forall|k: u64| #[trigger] pre.storage@.contains_key(k) implies (
            fin.storage@.contains_key(k) <==> !removed_ids_contain(
                removed_transactions@,
                pre.storage@[k].transaction.id,
            )) by {
                assert(k < pre.storage.next_index);
                assert(k != storage_id);
            }
            assert forall|k: u64|
                #[trigger] pre.storage@.contains_key(k) && fin.storage@.contains_key(k) implies
                fin.storage@[k].transaction == pre.storage@[k].transaction
                    && fin.storage@[k].creation_instant == pre.storage@[k].creation_instant by {
                assert(k != storage_id);
                assert(!members@.contains(k));
            }
            assert forall|k: u64, c: u64|
                #![trigger pre.storage@[k].children@.contains(c)]
                pre.storage@.contains_key(k) && removed_ids_contain(
                    removed_transactions@,
                    pre.storage@[k].transaction.id,
                ) && pre.storage@[k].children@.contains(c) implies pre.storage@.contains_key(c)
                && removed_ids_contain(
                removed_transactions@,
                pre.storage@[c].transaction.id,
            ) by {
                assert(members@.contains(k));
                assert(crate::storage::child_edge(pre.storage@, k, c));
                assert(members@.contains(c));
            }
            assert forall|key: CollisionKey|
                is_claim(&stx, key) && #[trigger] pre.collision_manager@.contains_key(
                    key,
                ) implies removed_ids_contain(
                removed_transactions@,
                pre.storage@[pre.collision_manager@[key]].transaction.id,
            ) by {
                assert(members@.contains(pre.collision_manager@[key]));
            }
            assert(committed_shape(pre, fin, stx, removed_transactions@));
            assert(committed_shape(*old(self), *self, stx, removed_transactions@));
        }
        proof {
            assert forall|j: int|
                0 <= j < removed_transactions@.len() implies pre.spec_contains_tx(
                (#[trigger] removed_transactions@[j]).id,
            ) by {}
        }
        removed_transactions
    }
}

} // verus!
verus! {

impl Pool {
    /// The full removal set for an insertion: the union of the subtrees of
    /// the planned evictions and of the colliding residents, with its exact
    /// total weights.
    fn removal_plan(
        &self,
        tx: &PoolTransaction,
        to_remove: &Vec<u64>,
        colliding: &Vec<(u64, CollisionReason)>,
    ) -> (r: (Vec<u64>, bool))
        requires
            self.wf(),
            forall|j: int| 0 <= j < to_remove@.len() ==> self.storage@.contains_key(
                #[trigger] to_remove@[j],
            ),
            forall|j: int|
                0 <= j < colliding@.len() ==> self.storage@.contains_key(
                    (#[trigger] colliding@[j]).0,
                ),
        ensures
            r.0@.no_duplicates(),
            forall|x: u64| #[trigger] r.0@.contains(x) ==> self.storage@.contains_key(x),
            forall|k: u64, c: u64|
                #![trigger r.0@.contains(k), self.storage@[k].children@.contains(c)]
                r.0@.contains(k) && self.storage@.contains_key(k)
                    && self.storage@[k].children@.contains(c) ==> r.0@.contains(c),
            forall|j: int| 0 <= j < colliding@.len() ==> r.0@.contains(
                (#[trigger] colliding@[j]).0,
            ),
            to_remove@.len() == 0 && colliding@.len() == 0 ==> r.0@.len() == 0,
            r.1 == (self.current_gas + tx.max_gas <= self.config.pool_limits.max_gas + ids_gas_sum(
                self.storage@,
                r.0@,
            ) && self.current_bytes_size + tx.metered_bytes_size
                <= self.config.pool_limits.max_bytes_size + ids_bytes_sum(self.storage@, r.0@)
                && self.storage.entries@.len() + 1 <= self.config.pool_limits.max_txs
                + r.0@.len()),
    {
        // The removal roots: the planned evictions and every colliding
        // resident, each once.
        let mut roots: Vec<u64> = Vec::new();
        let tn = to_remove.len();
        let mut i: usize = 0;
        while i < tn
            invariant
                0 <= i <= tn,
                tn == to_remove@.len(),
                roots@.no_duplicates(),
                forall|j: int| 0 <= j < to_remove@.len() ==> self.storage@.contains_key(
                    #[trigger] to_remove@[j],
                ),
                forall|x: u64| #[trigger] roots@.contains(x) ==> to_remove@.contains(x),
                forall|j: int| 0 <= j < i ==> roots@.contains(#[trigger] to_remove@[j]),
            decreases tn - i,
        {
            proof {
                assert(to_remove@.contains(to_remove@[i as int]));
            }
            push_if_new(&mut roots, to_remove[i]);
            i += 1;
        }
        let cn = colliding.len();
        let mut i2: usize = 0;
        while i2 < cn
            invariant
                0 <= i2 <= cn,
                cn == colliding@.len(),
                roots@.no_duplicates(),
                forall|j: int| 0 <= j < to_remove@.len() ==> self.storage@.contains_key(
                    #[trigger] to_remove@[j],
                ),
                forall|j: int| 0 <= j < colliding@.len() ==> self.storage@.contains_key(
                    (#[trigger] colliding@[j]).0,
                ),
                forall|x: u64| #[trigger] roots@.contains(x) ==> to_remove@.contains(x) || exists|
                    j: int,
                | 0 <= j < colliding@.len() && (#[trigger] colliding@[j]).0 == x,
                forall|j: int| 0 <= j < to_remove@.len() ==> roots@.contains(
                    #[trigger] to_remove@[j],
                ),
                forall|j: int| 0 <= j < i2 ==> roots@.contains((#[trigger] colliding@[j]).0),
            decreases cn - i2,
        {
            let ghost r0 = roots@;
            push_if_new(&mut roots, colliding[i2].0);
            proof {
                assert forall|x: u64| #[trigger] roots@.contains(x) implies to_remove@.contains(x)
                    || exists|j: int|
                    0 <= j < colliding@.len() && (#[trigger] colliding@[j]).0 == x by {
                    if !r0.contains(x) {
                        assert(x == colliding@[i2 as int].0);
                    }
                }
            }
            i2 += 1;
        }
        proof {
            assert forall|x: u64| #[trigger] roots@.contains(x) implies self.storage@.contains_key(
                x,
            ) by {
                if to_remove@.contains(x) {
                    let j = choose|j: int| 0 <= j < to_remove@.len() && to_remove@[j] == x;
                }
            }
        }
        // The full removal set and its exact weight.
        let members = self.storage.collect_subtrees_union(&roots);
        let mut removed_gas: u128 = 0;
        let mut removed_bytes: u128 = 0;
        let mn = members.len();
        let mut i3: usize = 0;
        while i3 < mn
            invariant
                self.wf(),
                0 <= i3 <= mn,
                mn == members@.len(),
                forall|x: u64| #[trigger] members@.contains(x) ==> self.storage@.contains_key(x),
                removed_gas == ids_gas_sum(self.storage@, members@.take(i3 as int)),
                removed_bytes == ids_bytes_sum(self.storage@, members@.take(i3 as int)),
                removed_gas <= i3 * (u64::MAX as int),
                removed_bytes <= i3 * (u64::MAX as int),
            decreases mn - i3,
        {
            proof {
                assert(members@.contains(members@[i3 as int]));
                assert(members@.take(i3 as int + 1).drop_last() =~= members@.take(i3 as int));
                assert(members@.take(i3 as int + 1).last() == members@[i3 as int]);
                assert((i3 + 1) * (u64::MAX as int) == i3 * (u64::MAX as int) + u64::MAX);
            }
            let d = self.storage.get_must(members[i3]);
            removed_gas = removed_gas + d.transaction.max_gas as u128;
            removed_bytes = removed_bytes + d.transaction.metered_bytes_size as u128;
            i3 += 1;
        }
        proof {
            assert(members@.take(mn as int) =~= members@);
        }
        proof {
            if to_remove.len() == 0 && colliding.len() == 0 {
                assert(roots@.len() == 0) by {
                    if roots@.len() > 0 {
                        assert(roots@.contains(roots@[0]));
                    }
                }
                assert(members@.len() == 0) by {
                    if members@.len() > 0 {
                        assert(members@.contains(members@[0]));
                        let rt = choose|rt: u64|
                            roots@.contains(rt) && reaches(self.storage@, rt, members@[0]);
                    }
                }
            }
            assert(removed_gas <= (u64::MAX as int) * (u64::MAX as int)) by (nonlinear_arith)
                requires
                    removed_gas <= mn * (u64::MAX as int),
                    0 <= mn <= u64::MAX as int,
            ;
            assert(removed_bytes <= (u64::MAX as int) * (u64::MAX as int)) by (nonlinear_arith)
                requires
                    removed_bytes <= mn * (u64::MAX as int),
                    0 <= mn <= u64::MAX as int,
            ;
        }
        let fits = (self.current_gas as u128 + tx.max_gas as u128 <= self.config.pool_limits.max_gas
            as u128 + removed_gas) && (self.current_bytes_size as u128 + tx.metered_bytes_size
            as u128 <= self.config.pool_limits.max_bytes_size as u128 + removed_bytes) && (
        self.storage.count() as u128 + 1 <= self.config.pool_limits.max_txs as u128
            + members.len() as u128);
        (members, fits)
    }
}

} // verus!

verus! {

/// The relation between a pool before and after an extraction: `ids` are the
/// storage indices of the extracted transactions `txs`, distinct, resident
/// before and removed after, in an order where a parent always precedes its
/// children, and fitting the block gas budget together.
pub open spec fn extracted_shape(
    pre: Pool,
    post: Pool,
    txs: Seq<PoolTransaction>,
    ids: Seq<u64>,
) -> bool {
    &&& ids.no_duplicates()
    &&& ids.len() == txs.len()
    &&& (forall|j: int|
        0 <= j < ids.len() ==> pre.storage@.contains_key(#[trigger] ids[j]) && txs[j]
            == pre.storage@[ids[j]].transaction)
    &&& (forall|j: int, p: u64|
        0 <= j < ids.len() && (#[trigger] pre.storage@[ids[j]].parents@.contains(p)) ==> exists|
            j2: int,
        | 0 <= j2 < j && ids[j2] == p)
    &&& ids_gas_sum(pre.storage@, ids) <= pre.config.max_block_gas
    &&& (forall|k: u64|
        #[trigger] post.storage@.contains_key(k) <==> pre.storage@.contains_key(k) && !ids.contains(
            k,
        ))
    &&& (forall|k: u64| #[trigger] post.storage@.contains_key(k) ==> post.storage@[k].transaction
        == pre.storage@[k].transaction && post.storage@[k].creation_instant
        == pre.storage@[k].creation_instant && post.storage@[k].children@
        == pre.storage@[k].children@)
    &&& (forall|k: u64, p: u64|
        #![trigger post.storage@[k].parents@.contains(p)]
        post.storage@.contains_key(k) ==> (post.storage@[k].parents@.contains(p)
            <==> pre.storage@[k].parents@.contains(p) && !ids.contains(p)))
    &&& post.current_gas == pre.current_gas - sum_tx_gas(txs)
    &&& post.current_bytes_size == pre.current_bytes_size - sum_tx_bytes(txs)
    &&& post.config == pre.config
    &&& post.next_instant == pre.next_instant
    &&& (match first_fit(pre.selection_algorithm.entries@, pre.config.max_block_gas) {
        Some(e) => ids.len() > 0 && ids[0] == e.storage_id,
        None => true,
    })
}

/// Some index sequence witnesses the extraction relation.
pub open spec fn extracted_ok(pre: Pool, post: Pool, txs: Seq<PoolTransaction>) -> bool {
    exists|ids: Seq<u64>| #[trigger] extracted_shape(pre, post, txs, ids)
}

impl Pool {
    /// Extracts a gas-bounded batch for a block: gathers the best executable
    /// residents under `max_block_gas`, removes each selected resident (its
    /// children having been promoted by the selection pass), frees their
    /// claims, entries, index entries and totals, and returns the extracted
    /// transactions in selection order, a parent always before its children.
    #[verifier::rlimit(100)]
    pub fn extract_transactions_for_block(&mut self) -> (r: Result<Vec<PoolTransaction>, Error>)
        requires
            old(self).wf(),
        ensures
            final(self).wf(),
            final(self).config == old(self).config,
            match r {
                Ok(txs) => extracted_ok(*old(self), *final(self), txs@),
                Err(_) => false,
            },
    {
        let ghost pre = *self;
        let gathered = self.selection_algorithm.gather_best_txs(
            Constraints { max_gas: self.config.max_block_gas },
            &self.storage,
        );
        let ghost selg = self.selection_algorithm;
        let n = gathered.len();
        let mut txs: Vec<PoolTransaction> = Vec::new();
        let mut i: usize = 0;
        while i < n
            invariant
                0 <= i <= n,
                n == gathered@.len(),
                pre.wf(),
                gathered@.no_duplicates(),
                forall|k: u64| #[trigger] gathered@.contains(k) ==> pre.storage@.contains_key(k),
                forall|j: int, p: u64|
                    0 <= j < gathered@.len() && (#[trigger] pre.storage@[gathered@[j]].parents@.contains(
                        p,
                    )) ==> exists|j2: int| 0 <= j2 < j && gathered@[j2] == p,
                self.storage.wf(),
                self.storage.next_index == pre.storage.next_index,
                self.collision_manager == pre.collision_manager,
                self.selection_algorithm == selg,
                self.tx_id_to_storage_id == pre.tx_id_to_storage_id,
                self.current_gas == pre.current_gas,
                self.current_bytes_size == pre.current_bytes_size,
                self.config == pre.config,
                self.next_instant == pre.next_instant,
                forall|k: u64| #[trigger] self.storage@.contains_key(k) <==> pre.storage@.contains_key(
                    k,
                ) && !gathered@.take(i as int).contains(k),
                forall|k: u64| #[trigger] self.storage@.contains_key(k)
                    ==> self.storage@[k].transaction == pre.storage@[k].transaction
                    && self.storage@[k].creation_instant == pre.storage@[k].creation_instant
                    && self.storage@[k].children@ == pre.storage@[k].children@,
                forall|k: u64, p: u64|
                    #![trigger self.storage@[k].parents@.contains(p)]
                    self.storage@.contains_key(k) ==> (self.storage@[k].parents@.contains(p)
                        <==> pre.storage@[k].parents@.contains(p) && !gathered@.take(
                        i as int,
                    ).contains(p)),
                txs@.len() == i,
                forall|j: int| 0 <= j < i ==> #[trigger] txs@[j] == pre.storage@[gathered@[j]].transaction,
                sum_gas(self.storage.entries@) == sum_gas(pre.storage.entries@) - sum_tx_gas(
                    txs@,
                ),
                sum_bytes(self.storage.entries@) == sum_bytes(pre.storage.entries@) - sum_tx_bytes(
                    txs@,
                ),
                self.storage.entries@.len() == pre.storage.entries@.len() - i,
            decreases n - i,
        {
            let idx = gathered[i];
            proof {
                assert(gathered@.contains(idx));
                assert(!gathered@.take(i as int).contains(idx)) by {
                    if gathered@.take(i as int).contains(idx) {
                        let j = choose|j: int|
                            0 <= j < i && #[trigger] gathered@.take(i as int)[j] == idx;
                        assert(gathered@[j] == idx && gathered@[i as int] == idx);
                    }
                }
                assert(self.storage@.contains_key(idx));
                assert(self.storage@[idx].parents@.len() == 0) by {
                    if self.storage@[idx].parents@.len() > 0 {
                        let p = self.storage@[idx].parents@[0];
                        assert(self.storage@[idx].parents@.contains(p));
                        assert(pre.storage@[idx].parents@.contains(p));
                        let j2 = choose|j2: int| 0 <= j2 < i && gathered@[j2] == p;
                        assert(gathered@.take(i as int)[j2] == p);
                        assert(gathered@.take(i as int).contains(p));
                    }
                }
            }
            let data = self.storage.remove_transaction_without_dependencies(idx);
            proof {
                crate::storage::lemma_sum_tx_push(txs@, data.transaction);
            }
            txs.push(data.transaction);
            i += 1;
            proof {
                assert(gathered@.take(i as int) =~= gathered@.take(i as int - 1).push(idx));
                assert(gathered@.take(i as int)[i - 1] == idx);
                assert(gathered@.take(i as int).contains(idx));
                assert forall|k: u64| #[trigger] self.storage@.contains_key(k)
                    <==> pre.storage@.contains_key(k) && !gathered@.take(i as int).contains(
                    k,
                ) by {
                    if gathered@.take(i as int).contains(k) && !gathered@.take(
                        i as int - 1,
                    ).contains(k) {
                        let j = choose|j: int|
                            0 <= j < i && #[trigger] gathered@.take(i as int)[j] == k;
                        if j < i - 1 {
                            assert(gathered@.take(i as int - 1)[j] == k);
                        }
                        assert(k == idx);
                    }
                    if gathered@.take(i as int - 1).contains(k) {
                        let j = choose|j: int|
                            0 <= j < i - 1 && #[trigger] gathered@.take(i as int - 1)[j] == k;
                        assert(gathered@.take(i as int)[j] == k);
                    }
                }
                assert forall|k: u64, p: u64|
                    #![trigger self.storage@[k].parents@.contains(p)]
                    self.storage@.contains_key(k) implies (self.storage@[k].parents@.contains(p)
                    <==> pre.storage@[k].parents@.contains(p) && !gathered@.take(
                    i as int,
                ).contains(p)) by {
                    if gathered@.take(i as int).contains(p) && !gathered@.take(
                        i as int - 1,
                    ).contains(p) {
                        let j = choose|j: int|
                            0 <= j < i && #[trigger] gathered@.take(i as int)[j] == p;
                        if j < i - 1 {
                            assert(gathered@.take(i as int - 1)[j] == p);
                        }
                        assert(p == idx);
                    }
                    if gathered@.take(i as int - 1).contains(p) {
                        let j = choose|j: int|
                            0 <= j < i - 1 && #[trigger] gathered@.take(i as int - 1)[j] == p;
                        assert(gathered@.take(i as int)[j] == p);
                    }
                }
            }
        }
        proof {
            assert(gathered@.take(n as int) =~= gathered@);
            assert(sum_tx_gas(txs@) <= pre.current_gas) by {
                crate::storage::lemma_sum_entries_nonneg(self.storage.entries@);
            }
            assert(sum_tx_bytes(txs@) <= pre.current_bytes_size) by {
                crate::storage::lemma_sum_entries_nonneg(self.storage.entries@);
            }
        }
        let ghost mid0 = *self;
        self.update_components_and_caches_on_removal(&txs);
        proof {
            let fin = *self;
            let m2 = fin.storage@;
            assert(m2 == mid0.storage@);
            assert(fin.storage == mid0.storage);
            // Transaction-id index.
            assert forall|i4: int|
                0 <= i4 < fin.tx_id_to_storage_id@.len() implies m2.contains_key(
                (#[trigger] fin.tx_id_to_storage_id@[i4]).1,
            ) && m2[fin.tx_id_to_storage_id@[i4].1].transaction.id
                == fin.tx_id_to_storage_id@[i4].0 by {
                let pair = fin.tx_id_to_storage_id@[i4];
                assert(mid0.tx_id_to_storage_id@.contains(pair));
                assert(mid0.tx_id_to_storage_id@ == pre.tx_id_to_storage_id@);
                assert(pre.tx_id_to_storage_id@.contains(pair));
                let i5 = choose|i5: int|
                    0 <= i5 < pre.tx_id_to_storage_id@.len() && pre.tx_id_to_storage_id@[i5]
                        == pair;
                assert(pre.storage@.contains_key(pair.1));
                assert(pre.storage@[pair.1].transaction.id == pair.0);
                assert(has_key(fin.tx_id_to_storage_id@, pair.0)) by {
                    assert(fin.tx_id_to_storage_id@[i4].0 == pair.0);
                }
                lemma_assoc_map_contains(fin.tx_id_to_storage_id@, pair.0);
                assert(fin.tx_map().contains_key(pair.0));
                assert(!gathered@.contains(pair.1)) by {
                    if gathered@.contains(pair.1) {
                        let jm = choose|jm: int|
                            0 <= jm < gathered@.len() && gathered@[jm] == pair.1;
                        assert(txs@[jm].id == pair.0);
                    }
                }
                assert(m2.contains_key(pair.1));
            }
            assert forall|k: u64| #[trigger] m2.contains_key(k) implies has_key(
                fin.tx_id_to_storage_id@,
                m2[k].transaction.id,
            ) && fin.tx_map()[m2[k].transaction.id] == k by {
                assert(pre.storage@.contains_key(k) && !gathered@.contains(k));
                let kid = pre.storage@[k].transaction.id;
                assert(m2[k].transaction == pre.storage@[k].transaction);
                assert(has_key(pre.tx_id_to_storage_id@, kid) && pre.tx_map()[kid] == k);
                lemma_assoc_map_contains(pre.tx_id_to_storage_id@, kid);
                assert(fin.tx_map().contains_key(kid)) by {
                    assert forall|j: int| 0 <= j < txs@.len() implies kid != (
                    #[trigger] txs@[j]).id by {
                        if kid == txs@[j].id {
                            assert(gathered@.contains(gathered@[j]));
                            assert(pre.storage@.contains_key(gathered@[j]));
                            assert(pre.storage@[gathered@[j]].transaction.id == kid);
                            assert(gathered@[j] == k);
                        }
                    }
                }
                assert(fin.tx_map()[kid] == pre.tx_map()[kid]);
                lemma_assoc_map_contains(fin.tx_id_to_storage_id@, kid);
            }
            // Selection structure: exactly the executables.
            assert forall|e: crate::selection_algorithms::SelectionEntry| #[trigger]
                fin.selection_algorithm.entries@.contains(e) implies selg.entries@.contains(
                e,
            ) by {}
            assert forall|e: crate::selection_algorithms::SelectionEntry|
                selg.entries@.contains(e) implies #[trigger] fin.selection_algorithm.entries@.contains(
                e,
            ) by {
                let i5 = choose|i5: int|
                    0 <= i5 < selg.entries@.len() && selg.entries@[i5] == e;
                assert(pre.storage@.contains_key(e.storage_id));
                assert(selg.contains_id(e.storage_id)) by {
                    assert(selg.entries@[i5].storage_id == e.storage_id);
                }
                assert(!gathered@.contains(e.storage_id));
                assert forall|j: int| 0 <= j < txs@.len() implies e.key.tx_id != (
                #[trigger] txs@[j]).id by {
                    if e.key.tx_id == txs@[j].id {
                        assert(gathered@.contains(gathered@[j]));
                        assert(pre.storage@.contains_key(gathered@[j]));
                        assert(e.key == key_of(pre.storage@[e.storage_id]));
                        assert(pre.storage@[gathered@[j]].transaction.id
                            == pre.storage@[e.storage_id].transaction.id);
                        assert(gathered@[j] == e.storage_id);
                    }
                }
            }
            assert forall|i4: int|
                0 <= i4 < fin.selection_algorithm.entries@.len() implies m2.contains_key(
                (#[trigger] fin.selection_algorithm.entries@[i4]).storage_id,
            ) && fin.selection_algorithm.entries@[i4].key == key_of(
                m2[fin.selection_algorithm.entries@[i4].storage_id],
            ) && m2[fin.selection_algorithm.entries@[i4].storage_id].parents@.len() == 0 by {
                let e = fin.selection_algorithm.entries@[i4];
                assert(fin.selection_algorithm.entries@.contains(e));
                assert(selg.entries@.contains(e));
                let i5 = choose|i5: int|
                    0 <= i5 < selg.entries@.len() && selg.entries@[i5] == e;
                assert(pre.storage@.contains_key(e.storage_id));
                assert(selg.contains_id(e.storage_id)) by {
                    assert(selg.entries@[i5].storage_id == e.storage_id);
                }
                assert(!gathered@.contains(e.storage_id) && all_in(
                    pre.storage@[e.storage_id].parents@,
                    gathered@,
                ));
                assert(m2.contains_key(e.storage_id));
                assert(m2[e.storage_id].transaction == pre.storage@[e.storage_id].transaction);
                assert(m2[e.storage_id].creation_instant
                    == pre.storage@[e.storage_id].creation_instant);
                assert(e.key == key_of(pre.storage@[e.storage_id]));
                assert(m2[e.storage_id].parents@.len() == 0) by {
                    if m2[e.storage_id].parents@.len() > 0 {
                        let p = m2[e.storage_id].parents@[0];
                        assert(m2[e.storage_id].parents@.contains(p));
                        assert(pre.storage@[e.storage_id].parents@.contains(p));
                        assert(gathered@.contains(p));
                    }
                }
            }
            assert forall|k: u64|
                #[trigger] m2.contains_key(k) && m2[k].parents@.len() == 0 implies
                fin.selection_algorithm.contains_id(k) by {
                assert(pre.storage@.contains_key(k) && !gathered@.contains(k));
                assert(all_in(pre.storage@[k].parents@, gathered@)) by {
                    assert forall|p: u64|
                        pre.storage@[k].parents@.contains(p) implies gathered@.contains(p) by {
                        if !gathered@.contains(p) {
                            assert(m2[k].parents@.contains(p));
                            assert(m2[k].parents@.len() > 0);
                        }
                    }
                }
                assert(selg.contains_id(k));
                let i5 = choose|i5: int|
                    0 <= i5 < selg.entries@.len() && (#[trigger] selg.entries@[i5]).storage_id
                        == k;
                let e = selg.entries@[i5];
                assert(selg.entries@.contains(e));
                assert(fin.selection_algorithm.entries@.contains(e));
                let i6 = choose|i6: int|
                    0 <= i6 < fin.selection_algorithm.entries@.len()
                        && fin.selection_algorithm.entries@[i6] == e;
                assert(fin.selection_algorithm.contains_id(k)) by {
                    assert(fin.selection_algorithm.entries@[i6].storage_id == k);
                }
            }
            // Collision index.
            assert forall|k: CollisionKey|
                #[trigger] fin.collision_manager@.contains_key(k) implies m2.contains_key(
                fin.collision_manager@[k],
            ) && is_claim(&m2[fin.collision_manager@[k]].transaction, k) by {
                assert forall|j: int| 0 <= j < txs@.len() implies !is_claim(
                    &txs@[j],
                    k,
                ) by {
                    if is_claim(&txs@[j], k) {
                        assert(!fin.collision_manager@.contains_key(k));
                    }
                }
                assert(pre.collision_manager@.contains_key(k) && fin.collision_manager@[k]
                    == pre.collision_manager@[k]);
                let v = pre.collision_manager@[k];
                assert(pre.storage@.contains_key(v) && is_claim(&pre.storage@[v].transaction, k));
                assert(!gathered@.contains(v)) by {
                    if gathered@.contains(v) {
                        let jm = choose|jm: int|
                            0 <= jm < gathered@.len() && gathered@[jm] == v;
                        assert(txs@[jm] == pre.storage@[v].transaction);
                        assert(is_claim(&txs@[jm], k));
                    }
                }
                assert(m2.contains_key(v));
                assert(m2[v].transaction == pre.storage@[v].transaction);
            }
            assert forall|i4: u64, k: CollisionKey|
                m2.contains_key(i4) && #[trigger] is_claim(&m2[i4].transaction, k) implies
                fin.collision_manager@.contains_key(k) && fin.collision_manager@[k] == i4 by {
                assert(pre.storage@.contains_key(i4) && !gathered@.contains(i4));
                assert(m2[i4].transaction == pre.storage@[i4].transaction);
                assert(is_claim(&pre.storage@[i4].transaction, k));
                assert(pre.collision_manager@.contains_key(k) && pre.collision_manager@[k] == i4);
                assert forall|j: int| 0 <= j < txs@.len() implies !is_claim(&txs@[j], k) by {
                    if is_claim(&txs@[j], k) {
                        assert(txs@[j] == pre.storage@[gathered@[j]].transaction);
                        assert(gathered@.contains(gathered@[j]));
                        assert(pre.storage@.contains_key(gathered@[j]));
                        assert(pre.collision_manager@.contains_key(k) && pre.collision_manager@[k]
                            == gathered@[j]);
                        assert(gathered@[j] == i4);
                    }
                }
                assert(fin.collision_manager@.contains_key(k) && fin.collision_manager@[k] == i4);
            }
            // Totals and the batch's gas bound.
            crate::storage::lemma_sum_tx_nonneg(txs@);
            lemma_ids_tx_sum_match(pre.storage@, gathered@, txs@);
            assert(fin.wf());
            assert(fin.storage@ == m2);
            assert forall|k: u64| #[trigger] fin.storage@.contains_key(k) <==> pre.storage@.contains_key(
                k,
            ) && !gathered@.contains(k) by {}
            assert(gathered@.no_duplicates());
            assert(gathered@.len() == txs@.len());
            assert forall|j: int| 0 <= j < gathered@.len() implies pre.storage@.contains_key(
                #[trigger] gathered@[j],
            ) && txs@[j] == pre.storage@[gathered@[j]].transaction by {
                assert(gathered@.contains(gathered@[j]));
            }
            assert forall|j: int, p: u64|
                0 <= j < gathered@.len() && (#[trigger] pre.storage@[gathered@[j]].parents@.contains(
                    p,
                )) implies exists|j2: int| 0 <= j2 < j && gathered@[j2] == p by {}
            assert(ids_gas_sum(pre.storage@, gathered@) <= pre.config.max_block_gas);
            assert(extracted_shape(pre, fin, txs@, gathered@));
            assert(extracted_ok(pre, fin, txs@));
            assert(extracted_ok(*old(self), *self, txs@));
        }
        Ok(txs)
    }
}

} // verus!

verus! {

impl Pool {
    /// Dry run of an insertion: performs every check of `insert` without
    /// mutating anything. Success means the candidate passed the blacklist,
    /// duplicate, input, collision and capacity checks against this pool
    /// state.
    pub fn can_insert_transaction(&self, tx: &PoolTransaction, view: &StateView) -> (r: Result<
        (),
        Error,
    >)
        requires
            self.wf(),
            tx.well_formed(),
        ensures
            r is Ok ==> insert_checks_pass(*self, *tx, *view),
            insert_checks_pass(*self, *tx, *view) && fits_without_eviction(*self, *tx) ==> r is Ok,
            match r {
                Err(e) => match e {
                    Error::NotInsertedTxIdAlreadyExists(dup) => dup == tx.id
                        && self.spec_contains_tx(tx.id),
                    Error::Blacklisted(b) => !self.spec_contains_tx(tx.id)
                        && self.config.black_list.verdict(tx) == Some(b),
                    Error::NotInsertedBlobIdAlreadyTaken(b) => tx.spec_blob_id() == Some(b) && (
                    view.blobs@.contains(b) || collision_outcome(
                        tx,
                        has_dependency(self.storage@, *tx),
                        self.collision_manager@,
                        self.storage@,
                    ) == Err::<(), Error>(e)),
                    Error::NotInsertedInputUtxo(_) | Error::NotInsertedMessageNonce(_)
                    | Error::NotInsertedContract(_) => self.config.utxo_validation
                        && inputs_validity_verdict(self.storage@, *view, tx.inputs@) == Some(e),
                    Error::Collided(_) => collision_outcome(
                        tx,
                        has_dependency(self.storage@, *tx),
                        self.collision_manager@,
                        self.storage@,
                    ) == Err::<(), Error>(e),
                    Error::NotInsertedLimitHit => !fits_without_eviction(*self, *tx),
                },
                Ok(()) => true,
            },
    {
        if self.txmap_get(tx.id()).is_some() {
            return Err(Error::NotInsertedTxIdAlreadyExists(tx.id()));
        }
        match self.config.black_list.check_blacklisting(tx) {
            Err(e) => {
                return Err(e);
            },
            Ok(()) => {},
        }
        match tx.blob_id() {
            Some(b) => {
                if view.blob_exist(b) {
                    return Err(Error::NotInsertedBlobIdAlreadyTaken(b));
                }
            },
            None => {},
        }
        let colliding = self.collision_manager.collect_colliding_transactions(tx);
        proof {
            assert forall|j: int|
                0 <= j < colliding@.len() implies self.storage@.contains_key(
                (#[trigger] colliding@[j]).0,
            ) by {
                let k = choose|k: CollisionKey|
                    is_claim(tx, k) && self.collision_manager@.contains_key(k)
                        && self.collision_manager@[k] == colliding@[j].0 && colliding@[j].1
                        == crate::collision_manager::reason_of(k);
            }
        }
        match self.storage.validate_inputs(tx, view, self.config.utxo_validation) {
            Err(e) => {
                proof {
                    crate::storage::lemma_validity_verdict_kinds(self.storage@, *view, tx.inputs@);
                }
                return Err(e);
            },
            Ok(()) => {},
        }
        let dependencies = self.storage.collect_transaction_dependencies(tx);
        let has_dependencies = dependencies.len() > 0;
        proof {
            assert(has_dependencies == has_dependency(self.storage@, *tx)) by {
                if dependencies@.len() > 0 {
                    assert(dependencies@.contains(dependencies@[0]));
                    assert(is_dependency(self.storage@, tx, dependencies@[0]));
                }
                if has_dependency(self.storage@, *tx) {
                    let k = choose|k: u64| is_dependency(self.storage@, tx, k);
                    assert(dependencies@.contains(k));
                }
            }
        }
        let r_policy = self.collision_manager.can_store_transaction(
            tx,
            has_dependencies,
            &colliding,
            &self.storage,
        );
        proof {
            lemma_verdict_is_outcome(
                tx,
                has_dependencies,
                colliding@,
                self.collision_manager@,
                self.storage@,
            );
        }
        match r_policy {
            Err(e) => {
                proof {
                    crate::collision_manager::lemma_collision_verdict_kinds(
                        tx,
                        has_dependencies,
                        colliding@,
                        self.storage@,
                    );
                }
                return Err(e);
            },
            Ok(()) => {},
        }
        match self.check_pool_size_available(tx, &colliding, &dependencies) {
            Err(e) => {
                return Err(e);
            },
            Ok(_) => {},
        }
        match self.storage.can_store_transaction(tx, &dependencies, &colliding) {
            Err(e) => {
                proof {
                    if dependencies@.len() == 0 {
                        assert(false);
                    } else {
                        assert(colliding@.len() == 0);
                        assert(false);
                    }
                }
                return Err(e);
            },
            Ok(()) => {},
        }
        Ok(())
    }
}

} // verus!

verus! {

/// The transaction-id index is a bijection onto the residents: it holds
/// exactly one entry per resident transaction.
pub proof fn lemma_index_bijection(pool: &Pool)
    requires
        pool.wf(),
    ensures
        pool.tx_id_to_storage_id@.len() == pool.storage.entries@.len(),
{
    crate::assoc::lemma_assoc_map_len(pool.tx_id_to_storage_id@);
    crate::assoc::lemma_assoc_map_len(pool.storage.entries@);
    let m = pool.tx_map();
    let f = |id: TxId| m[id];
    assert forall|id: TxId| #[trigger] m.dom().contains(id) implies pool.storage@.contains_key(
        f(id),
    ) && pool.storage@[f(id)].transaction.id == id by {
        lemma_assoc_map_contains(pool.tx_id_to_storage_id@, id);
        let i = choose|i: int|
            0 <= i < pool.tx_id_to_storage_id@.len() && pool.tx_id_to_storage_id@[i].0 == id;
        lemma_assoc_map_index(pool.tx_id_to_storage_id@, i);
    }
    assert(vstd::relations::injective_on(f, m.dom())) by {
        assert forall|x1: TxId, x2: TxId|
            #![trigger f(x1), f(x2)]
            m.dom().contains(x1) && m.dom().contains(x2) && f(x1) == f(x2) implies x1 == x2 by {
            assert(pool.storage@[f(x1)].transaction.id == x1);
            assert(pool.storage@[f(x2)].transaction.id == x2);
        }
    }
    assert(m.dom().map(f) =~= pool.storage@.dom()) by {
        assert forall|k: u64| #[trigger] m.dom().map(f).contains(k) implies
            pool.storage@.dom().contains(k) by {
            let id = choose|id: TxId| m.dom().contains(id) && f(id) == k;
        }
        assert forall|k: u64| pool.storage@.dom().contains(k) implies #[trigger] m.dom().map(
            f,
        ).contains(k) by {
            let id = pool.storage@[k].transaction.id;
            lemma_assoc_map_contains(pool.tx_id_to_storage_id@, id);
            assert(m.dom().contains(id) && f(id) == k);
        }
    }
    vstd::set_lib::lemma_map_size(m.dom(), pool.storage@.dom(), f);
}

/// A resident is in the selection structure exactly when it has no resident
/// parent.
pub proof fn lemma_selection_membership(pool: &Pool, k: u64)
    requires
        pool.wf(),
        pool.storage@.contains_key(k),
    ensures
        pool.selection_algorithm.contains_id(k) <==> pool.storage@[k].parents@.len() == 0,
{
    if pool.selection_algorithm.contains_id(k) {
        let i = choose|i: int|
            0 <= i < pool.selection_algorithm.entries@.len() && (
            #[trigger] pool.selection_algorithm.entries@[i]).storage_id == k;
    }
}

/// Each collision key is occupied by exactly one resident: the one the index
/// names, and no other resident claims it.
pub proof fn lemma_collision_exclusivity(pool: &Pool, key: CollisionKey, i1: u64, i2: u64)
    requires
        pool.wf(),
        pool.storage@.contains_key(i1),
        pool.storage@.contains_key(i2),
        is_claim(&pool.storage@[i1].transaction, key),
        is_claim(&pool.storage@[i2].transaction, key),
    ensures
        i1 == i2,
        pool.collision_manager@.contains_key(key) && pool.collision_manager@[key] == i1,
{
}

/// The capacity envelope holds of every well-formed pool: the running totals
/// are the exact sums over the residents and respect the configured limits.
pub proof fn lemma_capacity_envelope(pool: &Pool)
    requires
        pool.wf(),
    ensures
        pool.current_gas == sum_gas(pool.storage.entries@),
        pool.current_bytes_size == sum_bytes(pool.storage.entries@),
        pool.current_gas <= pool.config.pool_limits.max_gas,
        pool.current_bytes_size <= pool.config.pool_limits.max_bytes_size,
        pool.storage.entries@.len() <= pool.config.pool_limits.max_txs,
{
}

} // verus!
