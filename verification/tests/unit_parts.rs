//! Unit tests of the smaller components: balances, blacklist, database
//! description, protocol versioning, message status, peer reports, and the
//! selection structure's order.

use txpool::balances::Amount;
use txpool::collision_manager::CollisionManager;
use txpool::config::{BlackList, Config, PoolLimits};
use txpool::error::{BlacklistedReason, Error};
use txpool::messages::{message_status, MessageStatus};
use txpool::off_chain::{Column, OffChain};
use txpool::peer_report::{Behaviour, PeerId, PeerReportEvent};
use txpool::pool::Pool;
use txpool::protocols::{ProtocolVersion, REQUEST_RESPONSE_PROTOCOL_ID};
use txpool::selection_algorithms::RatioTipGasSelection;
use txpool::state_view::StateView;
use txpool::storage::Storage;
use txpool::types::{Address, AssetId, Input, PoolTransaction, TxId, TxKind, UtxoId};

const HEARTBEAT_PROTOCOL: &str = "/fuel/heartbeat/0.0.1";

#[test]
fn test_latest_protocol_version_defined() {
    let peer_info = vec![REQUEST_RESPONSE_PROTOCOL_ID.to_string(), HEARTBEAT_PROTOCOL.to_string()];
    let latest_compatible_version_for_peer =
        ProtocolVersion::latest_compatible_version_for_peer(&peer_info).unwrap();
    assert_eq!(latest_compatible_version_for_peer, ProtocolVersion::V1);
}

#[test]
fn test_latest_protocol_version_undefined() {
    let peer_info = vec![HEARTBEAT_PROTOCOL.to_string(), "/some/other/protocol/1.0.0".to_string()];
    let latest_compatible_version_for_peer =
        ProtocolVersion::latest_compatible_version_for_peer(&peer_info);
    assert!(latest_compatible_version_for_peer.is_none());
}

#[test]
fn amount_parts_and_sum() {
    let c = Amount::new_coins(100);
    assert_eq!(c.coins(), 100);
    assert_eq!(c.messages(), 0);
    let m = Amount::new_messages(600);
    assert_eq!(m.coins(), 0);
    assert_eq!(m.messages(), 600);
    let s = c.saturating_add(&m);
    assert_eq!(s.coins(), 100);
    assert_eq!(s.messages(), 600);
    let s2 = s.saturating_add(&Amount::new_messages(400));
    assert_eq!(s2.messages(), 1000);
}

#[test]
fn off_chain_description() {
    assert_eq!(OffChain::version(), 1);
    assert_eq!(OffChain::name(), "off_chain".to_string());
    assert_eq!(OffChain::metadata_column(), Column::Metadata);
    assert_eq!(OffChain::prefix(&Column::OwnedCoins), Some(32));
    assert_eq!(OffChain::prefix(&Column::TransactionsByOwnerBlockIdx), Some(32));
    assert_eq!(OffChain::prefix(&Column::OwnedMessageIds), Some(32));
    assert_eq!(OffChain::prefix(&Column::Metadata), None);
    assert_eq!(OffChain::prefix(&Column::Balances), None);
}

#[test]
fn message_status_cases() {
    assert_eq!(message_status(true, true), MessageStatus::Spent);
    assert_eq!(message_status(true, false), MessageStatus::Spent);
    assert_eq!(message_status(false, true), MessageStatus::Unspent);
    assert_eq!(message_status(false, false), MessageStatus::NotFound);
}

#[test]
fn peer_report_queue() {
    let mut b = Behaviour::new();
    let p1 = PeerId { hi: 0, lo: 1 };
    let p2 = PeerId { hi: 0, lo: 2 };
    b.on_connection_established(p1, 0);
    b.on_connection_established(p2, 3);
    b.on_connection_closed(p1, 2);
    b.on_connection_closed(p2, 0);
    assert_eq!(
        b.poll(false),
        Some(PeerReportEvent::PeerConnected { peer_id: p1, initial_connection: true })
    );
    assert_eq!(
        b.poll(false),
        Some(PeerReportEvent::PeerConnected { peer_id: p2, initial_connection: false })
    );
    assert_eq!(b.poll(false), Some(PeerReportEvent::PeerDisconnected { peer_id: p2 }));
    assert_eq!(b.poll(false), None);
    assert_eq!(b.poll(true), Some(PeerReportEvent::PerformDecay));
}

#[test]
fn blacklist_refuses_owner() {
    let owner = Address { hi: 0, lo: 5 };
    let mut pool = Pool::new(
        Storage::new(),
        CollisionManager::new(),
        RatioTipGasSelection::new(),
        Config {
            pool_limits: PoolLimits { max_gas: 1_000, max_bytes_size: 10_000, max_txs: 100 },
            max_block_gas: 1_000,
            utxo_validation: false,
            black_list: BlackList {
                owners: vec![owner],
                assets: vec![],
                contracts: vec![],
                predicate_roots: vec![],
            },
            ttl: None,
        },
    );
    let view = StateView { coins: vec![], messages: vec![], contracts: vec![], blobs: vec![] };
    let tx = PoolTransaction {
        id: TxId { hi: 0, lo: 1 },
        kind: TxKind::Script,
        tip: 1,
        max_gas: 10,
        metered_bytes_size: 10,
        inputs: vec![Input::Coin {
            utxo_id: UtxoId { tx_id: TxId { hi: 0, lo: 100 }, output_index: 0 },
            owner,
            asset_id: AssetId { hi: 0, lo: 1 },
            predicate_root: None,
        }],
        outputs: vec![],
    };
    assert_eq!(pool.insert(tx, &view), Err(Error::Blacklisted(BlacklistedReason::Owner(owner))));
}

#[test]
fn less_worth_txs_are_worst_first() {
    let mut pool = Pool::new(
        Storage::new(),
        CollisionManager::new(),
        RatioTipGasSelection::new(),
        Config {
            pool_limits: PoolLimits { max_gas: 1_000, max_bytes_size: 10_000, max_txs: 100 },
            max_block_gas: 1_000,
            utxo_validation: false,
            black_list: BlackList {
                owners: vec![],
                assets: vec![],
                contracts: vec![],
                predicate_roots: vec![],
            },
            ttl: None,
        },
    );
    let view = StateView { coins: vec![], messages: vec![], contracts: vec![], blobs: vec![] };
    for (id, tip) in [(1u128, 10u64), (2, 30), (3, 20)] {
        let tx = PoolTransaction {
            id: TxId { hi: 0, lo: id },
            kind: TxKind::Script,
            tip,
            max_gas: 10,
            metered_bytes_size: 10,
            inputs: vec![],
            outputs: vec![],
        };
        pool.insert(tx, &view).unwrap();
    }
    // Best first in the structure; the advisory view is worst first.
    let best_first: Vec<TxId> =
        pool.selection_algorithm.entries.iter().map(|e| e.key.tx_id).collect();
    assert_eq!(
        best_first,
        vec![TxId { hi: 0, lo: 2 }, TxId { hi: 0, lo: 3 }, TxId { hi: 0, lo: 1 }]
    );
    let worst = pool.selection_algorithm.get_less_worth_txs();
    assert_eq!(worst.len(), 3);
    let mut best = pool.selection_algorithm.entries.iter().map(|e| e.storage_id);
    assert_eq!(worst.last().copied(), best.next());
}
