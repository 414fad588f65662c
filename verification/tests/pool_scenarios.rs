//! End-to-end scenarios of the pool: displacement, eviction, capacity,
//! extraction order, promotion, and the pool-wide invariants checked on
//! concrete runs.

use txpool::collision_manager::CollisionManager;
use txpool::config::{BlackList, Config, PoolLimits};
use txpool::error::{CollisionError, Error};
use txpool::pool::Pool;
use txpool::selection_algorithms::RatioTipGasSelection;
use txpool::state_view::StateView;
use txpool::storage::Storage;
use txpool::types::{
    Address, AssetId, BlobId, Input, Output, PoolTransaction, TxId, TxKind, UtxoId,
};

fn tid(n: u128) -> TxId {
    TxId { hi: 0, lo: n }
}

fn addr(n: u128) -> Address {
    Address { hi: 0, lo: n }
}

fn asset(n: u128) -> AssetId {
    AssetId { hi: 0, lo: n }
}

fn coin_input(producer: u128, index: u16) -> Input {
    Input::Coin {
        utxo_id: UtxoId { tx_id: tid(producer), output_index: index },
        owner: addr(1),
        asset_id: asset(1),
        predicate_root: None,
    }
}

fn tx(id: u128, tip: u64, gas: u64, inputs: Vec<Input>, outputs: Vec<Output>) -> PoolTransaction {
    PoolTransaction {
        id: tid(id),
        kind: TxKind::Script,
        tip,
        max_gas: gas,
        metered_bytes_size: 10,
        inputs,
        outputs,
    }
}

fn blob_tx(id: u128, tip: u64, gas: u64, blob: u128) -> PoolTransaction {
    PoolTransaction {
        id: tid(id),
        kind: TxKind::Blob { blob_id: BlobId { hi: 0, lo: blob } },
        tip,
        max_gas: gas,
        metered_bytes_size: 10,
        inputs: vec![],
        outputs: vec![],
    }
}

fn coin_output() -> Output {
    Output::Coin { to: addr(9), asset_id: asset(1) }
}

fn empty_blacklist() -> BlackList {
    BlackList { owners: vec![], assets: vec![], contracts: vec![], predicate_roots: vec![] }
}

fn mk_pool(max_gas: u64, max_bytes: u64, max_txs: u64, block_gas: u64) -> Pool {
    Pool::new(
        Storage::new(),
        CollisionManager::new(),
        RatioTipGasSelection::new(),
        Config {
            pool_limits: PoolLimits { max_gas, max_bytes_size: max_bytes, max_txs },
            max_block_gas: block_gas,
            utxo_validation: false,
            black_list: empty_blacklist(),
            ttl: None,
        },
    )
}

fn empty_view() -> StateView {
    StateView { coins: vec![], messages: vec![], contracts: vec![], blobs: vec![] }
}

/// The pool-wide invariants, checked on the concrete state: index bijection,
/// aggregate sums, selection membership, capacity, collision exclusivity.
fn check_invariants(pool: &Pool) {
    // Bijection: as many index entries as residents.
    assert_eq!(pool.tx_id_to_storage_id.len(), pool.storage.entries.len());
    // Totals are the exact sums and stay within the envelope.
    let mut gas_sum: u64 = 0;
    let mut bytes_sum: u64 = 0;
    for (_, d) in pool.storage.entries.iter() {
        gas_sum += d.transaction.max_gas;
        bytes_sum += d.transaction.metered_bytes_size;
    }
    assert_eq!(pool.current_gas, gas_sum);
    assert_eq!(pool.current_bytes_size, bytes_sum);
    assert!(pool.current_gas <= pool.config.pool_limits.max_gas);
    assert!(pool.current_bytes_size <= pool.config.pool_limits.max_bytes_size);
    assert!(pool.storage.entries.len() as u64 <= pool.config.pool_limits.max_txs);
    // Aggregates: each resident's cumulative fields are the sums over itself
    // and its transitive descendants.
    for (k, d) in pool.storage.entries.iter() {
        let mut members = vec![*k];
        let mut qi = 0;
        while qi < members.len() {
            let cur = members[qi];
            let cd = pool.storage.entries.iter().find(|(i, _)| *i == cur).unwrap();
            for c in cd.1.children.iter() {
                if !members.contains(c) {
                    members.push(*c);
                }
            }
            qi += 1;
        }
        let mut cg: u64 = 0;
        let mut cb: u64 = 0;
        let mut ct: u64 = 0;
        for m in members.iter() {
            let md = pool.storage.entries.iter().find(|(i, _)| *i == *m).unwrap();
            cg += md.1.transaction.max_gas;
            cb += md.1.transaction.metered_bytes_size;
            ct += md.1.transaction.tip;
        }
        assert_eq!(d.dependents_cumulative_gas, cg);
        assert_eq!(d.dependents_cumulative_bytes_size, cb);
        assert_eq!(d.dependents_cumulative_tip, ct);
    }
    // Selection membership: an entry per parentless resident, and only those.
    for e in pool.selection_algorithm.entries.iter() {
        let d = pool
            .storage
            .entries
            .iter()
            .find(|(i, _)| *i == e.storage_id)
            .expect("selection entry must be resident");
        assert!(d.1.parents.is_empty());
    }
    for (k, d) in pool.storage.entries.iter() {
        if d.parents.is_empty() {
            assert!(pool.selection_algorithm.entries.iter().any(|e| e.storage_id == *k));
        }
    }
    // Collision exclusivity: each claim key occupied at most once.
    for (i, (k1, _)) in pool.collision_manager.claims.iter().enumerate() {
        for (k2, _) in pool.collision_manager.claims.iter().skip(i + 1) {
            assert!(k1 != k2);
        }
    }
}

#[test]
fn displacement_by_tip() {
    let mut pool = mk_pool(1_000, 10_000, 100, 1_000);
    let view = empty_view();
    let a = tx(1, 100, 10, vec![coin_input(100, 0)], vec![]);
    assert_eq!(pool.insert(a, &view).unwrap(), vec![]);
    check_invariants(&pool);

    let b = tx(2, 50, 10, vec![coin_input(100, 0)], vec![]);
    let r = pool.insert(b, &view);
    assert_eq!(r, Err(Error::Collided(CollisionError::NotProfitable)));
    check_invariants(&pool);

    let b2 = tx(3, 200, 10, vec![coin_input(100, 0)], vec![]);
    let removed = pool.insert(b2, &view).unwrap();
    assert_eq!(removed.len(), 1);
    assert_eq!(removed[0].id, tid(1));
    assert!(pool.find_one(&tid(1)).is_none());
    assert!(pool.find_one(&tid(3)).is_some());
    // The displaced resident is gone from the selection structure.
    assert!(!pool.selection_algorithm.entries.iter().any(|e| e.key.tx_id == tid(1)));
    check_invariants(&pool);
}

#[test]
fn dependent_cannot_evict() {
    let mut pool = mk_pool(1_000, 10_000, 2, 1_000);
    let view = empty_view();
    let p = tx(1, 1, 10, vec![], vec![coin_output()]);
    pool.insert(p, &view).unwrap();
    let x = tx(2, 1, 10, vec![], vec![]);
    pool.insert(x, &view).unwrap();
    check_invariants(&pool);
    // The pool is at max_txs; a dependent of a resident may not evict.
    let d = tx(3, 10_000, 10, vec![coin_input(1, 0)], vec![]);
    assert_eq!(pool.insert(d, &view), Err(Error::NotInsertedLimitHit));
    check_invariants(&pool);
}

#[test]
fn subtree_eviction_on_limits() {
    let mut pool = mk_pool(100, 10_000, 100, 1_000);
    let view = empty_view();
    let r = tx(1, 1, 50, vec![], vec![coin_output()]);
    pool.insert(r, &view).unwrap();
    let rc = tx(2, 1, 40, vec![coin_input(1, 0)], vec![]);
    pool.insert(rc, &view).unwrap();
    assert_eq!(pool.current_gas, 90);
    check_invariants(&pool);
    // An executable with a far better ratio evicts the worst subtree whole.
    let x = tx(3, 1_000, 20, vec![], vec![]);
    let removed = pool.insert(x, &view).unwrap();
    assert_eq!(removed.len(), 2);
    assert!(pool.find_one(&tid(1)).is_none());
    assert!(pool.find_one(&tid(2)).is_none());
    assert!(pool.find_one(&tid(3)).is_some());
    assert_eq!(pool.current_gas, 20);
    check_invariants(&pool);
}

#[test]
fn eviction_requires_strictly_better_ratio() {
    let mut pool = mk_pool(20, 10_000, 100, 1_000);
    let view = empty_view();
    let r = tx(1, 10, 10, vec![], vec![]);
    pool.insert(r, &view).unwrap();
    // Same tip/gas ratio as the resident: not strictly better, refused.
    let x = tx(2, 20, 20, vec![], vec![]);
    assert_eq!(pool.insert(x, &view), Err(Error::NotInsertedLimitHit));
    check_invariants(&pool);
}

#[test]
fn extract_order() {
    let mut pool = mk_pool(1_000, 10_000, 100, 15);
    let view = empty_view();
    pool.insert(tx(1, 10, 10, vec![], vec![]), &view).unwrap();
    pool.insert(tx(2, 20, 10, vec![], vec![]), &view).unwrap();
    let batch = pool.extract_transactions_for_block().unwrap();
    assert_eq!(batch.len(), 1);
    assert_eq!(batch[0].id, tid(2));
    assert!(pool.find_one(&tid(1)).is_some());
    assert!(pool.find_one(&tid(2)).is_none());
    check_invariants(&pool);
}

#[test]
fn promotion_on_extract() {
    let mut pool = mk_pool(1_000, 10_000, 100, 10);
    let view = empty_view();
    let p = tx(1, 5, 5, vec![], vec![coin_output()]);
    pool.insert(p, &view).unwrap();
    let c = tx(2, 100, 5, vec![coin_input(1, 0)], vec![]);
    pool.insert(c, &view).unwrap();
    check_invariants(&pool);
    // The first pass selects the parent; the promoted child follows.
    let batch = pool.extract_transactions_for_block().unwrap();
    assert_eq!(batch.len(), 2);
    assert_eq!(batch[0].id, tid(1));
    assert_eq!(batch[1].id, tid(2));
    check_invariants(&pool);
}

#[test]
fn blob_duplicate() {
    let mut pool = mk_pool(1_000, 10_000, 100, 1_000);
    let blob = BlobId { hi: 0, lo: 7 };
    let taken_view =
        StateView { coins: vec![], messages: vec![], contracts: vec![], blobs: vec![blob] };
    let r = pool.insert(blob_tx(1, 1, 10, 7), &taken_view);
    assert_eq!(r, Err(Error::NotInsertedBlobIdAlreadyTaken(blob)));
    // The same submission is accepted once the blob left persistent storage.
    let free_view = empty_view();
    assert!(pool.insert(blob_tx(1, 1, 10, 7), &free_view).is_ok());
    check_invariants(&pool);
}

#[test]
fn resident_blob_collides() {
    let mut pool = mk_pool(1_000, 10_000, 100, 1_000);
    let view = empty_view();
    pool.insert(blob_tx(1, 1, 10, 7), &view).unwrap();
    let blob = BlobId { hi: 0, lo: 7 };
    let r = pool.insert(blob_tx(2, 1_000, 10, 7), &view);
    assert_eq!(r, Err(Error::NotInsertedBlobIdAlreadyTaken(blob)));
    check_invariants(&pool);
}

#[test]
fn extract_is_deterministic() {
    let build = || {
        let mut pool = mk_pool(1_000, 10_000, 100, 40);
        let view = empty_view();
        pool.insert(tx(1, 10, 10, vec![], vec![coin_output()]), &view).unwrap();
        pool.insert(tx(2, 30, 10, vec![], vec![]), &view).unwrap();
        pool.insert(tx(3, 20, 10, vec![coin_input(1, 0)], vec![]), &view).unwrap();
        pool.insert(tx(4, 30, 10, vec![], vec![]), &view).unwrap();
        pool
    };
    let mut p1 = build();
    let mut p2 = build();
    let b1 = p1.extract_transactions_for_block().unwrap();
    let b2 = p2.extract_transactions_for_block().unwrap();
    assert_eq!(b1, b2);
    check_invariants(&p1);
}

#[test]
fn duplicate_id_is_refused() {
    let mut pool = mk_pool(1_000, 10_000, 100, 1_000);
    let view = empty_view();
    pool.insert(tx(1, 1, 10, vec![], vec![]), &view).unwrap();
    let r = pool.insert(tx(1, 1, 10, vec![], vec![]), &view);
    assert_eq!(r, Err(Error::NotInsertedTxIdAlreadyExists(tid(1))));
    check_invariants(&pool);
}

#[test]
fn dependent_and_colliding_is_refused() {
    let mut pool = mk_pool(1_000, 10_000, 100, 1_000);
    let view = empty_view();
    pool.insert(tx(1, 1, 10, vec![], vec![coin_output()]), &view).unwrap();
    pool.insert(tx(2, 1, 10, vec![coin_input(99, 0)], vec![]), &view).unwrap();
    // Depends on the first resident and collides with the second.
    let d = tx(3, 1_000, 10, vec![coin_input(1, 0), coin_input(99, 0)], vec![]);
    assert_eq!(pool.insert(d, &view), Err(Error::Collided(CollisionError::DependentAndColliding)));
    check_invariants(&pool);
}

#[test]
fn prune_returns_nothing_and_changes_nothing() {
    let mut pool = mk_pool(1_000, 10_000, 100, 1_000);
    let view = empty_view();
    pool.insert(tx(1, 1, 10, vec![], vec![]), &view).unwrap();
    let pruned = pool.prune().unwrap();
    assert!(pruned.is_empty());
    assert!(pool.find_one(&tid(1)).is_some());
    check_invariants(&pool);
}

#[test]
fn can_insert_is_a_dry_run() {
    let mut pool = mk_pool(1_000, 10_000, 100, 1_000);
    let view = empty_view();
    let a = tx(1, 1, 10, vec![], vec![]);
    assert!(pool.can_insert_transaction(&a, &view).is_ok());
    assert!(pool.find_one(&tid(1)).is_none());
    pool.insert(a, &view).unwrap();
    let again = tx(1, 1, 10, vec![], vec![]);
    assert!(pool.can_insert_transaction(&again, &view).is_err());
    check_invariants(&pool);
}

#[test]
fn input_validation_against_view() {
    let mut pool = Pool::new(
        Storage::new(),
        CollisionManager::new(),
        RatioTipGasSelection::new(),
        Config {
            pool_limits: PoolLimits { max_gas: 1_000, max_bytes_size: 10_000, max_txs: 100 },
            max_block_gas: 1_000,
            utxo_validation: true,
            black_list: empty_blacklist(),
            ttl: None,
        },
    );
    let missing = empty_view();
    let utxo = UtxoId { tx_id: tid(100), output_index: 0 };
    let a = tx(1, 1, 10, vec![coin_input(100, 0)], vec![]);
    assert_eq!(pool.insert(a, &missing), Err(Error::NotInsertedInputUtxo(utxo)));
    let present = StateView {
        coins: vec![utxo],
        messages: vec![],
        contracts: vec![],
        blobs: vec![],
    };
    let a2 = tx(1, 1, 10, vec![coin_input(100, 0)], vec![]);
    assert!(pool.insert(a2, &present).is_ok());
    check_invariants(&pool);
}
