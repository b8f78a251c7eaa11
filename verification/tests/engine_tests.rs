use nakamoto_client::engine::{events, Engine};
use nakamoto_client::handle::Event;
use nakamoto_client::filter::{filter_header, FilterCache, FilterEntry, FilterError};
use nakamoto_client::header::Header;
use nakamoto_client::network::Network;
use nakamoto_client::pow::{check_proof_of_work, target_or_zero};
use nakamoto_client::rules::TreeError;
use nakamoto_client::store::RecordLog;
use nakamoto_client::sync::{Decision, Range, Request, SyncState};
use nakamoto_client::tree::{BlockTree, ImportOutcome, ImportReport};
use nakamoto_client::uint256::U256;

const NOW: u64 = 2_000_000_000;

fn genesis() -> Header {
    Network::Regtest.genesis()
}

fn mine(prev: &Header, salt: u64) -> Header {
    let limit = target_or_zero(0x207fffff);
    let mut header = Header {
        version: 1,
        prev_blockhash: prev.hash(),
        merkle_root: U256::from_u64(salt),
        time: prev.time + 600,
        bits: 0x207fffff,
        nonce: 0,
    };
    while !check_proof_of_work(&header.hash(), 0x207fffff, &limit) {
        header.nonce += 1;
    }
    header
}

fn chain(base: &Header, n: usize, salt: u64) -> Vec<Header> {
    let mut out = Vec::new();
    let mut prev = *base;
    for _ in 0..n {
        let next = mine(&prev, salt);
        out.push(next);
        prev = next;
    }
    out
}

fn engine() -> Engine {
    let tree = BlockTree::new(genesis(), Network::Regtest.params(), Vec::new()).unwrap();
    let filters = FilterCache::new(FilterEntry::genesis(genesis().hash(), U256::from_u64(1)));
    Engine::new(tree, filters).unwrap()
}

#[test]
fn engine_starts_idle_at_tree_height() {
    let mut tree = BlockTree::new(genesis(), Network::Regtest.params(), Vec::new()).unwrap();
    let headers = chain(&genesis(), 3, 1);
    tree.import(&headers, NOW).unwrap();
    let filters = FilterCache::new(FilterEntry::genesis(genesis().hash(), U256::from_u64(1)));
    let e = Engine::new(tree, filters).unwrap();
    assert_eq!(e.height(), 3);
    assert_eq!(e.get_tip(), headers[2]);
    assert_eq!(e.get_header_at(2), Some(headers[1]));
    assert_eq!(e.get_header_at(4), None);
    assert_eq!(e.sync().state(), SyncState::Idle);
    assert_eq!(e.sync().local_height(), 3);
    assert_eq!(e.filters().len(), 1);
    assert_eq!(e.tree().height(), 3);
}

#[test]
fn engine_refuses_wrong_filters() {
    let tree = BlockTree::new(genesis(), Network::Regtest.params(), Vec::new()).unwrap();
    let filters = FilterCache::new(FilterEntry::genesis(U256::from_u64(9), U256::from_u64(1)));
    assert_eq!(Engine::new(tree, filters).err(), Some(FilterError::Integrity { height: 0 }));
}

#[test]
fn engine_drops_filters_above_chain() {
    let tree = BlockTree::new(genesis(), Network::Regtest.params(), Vec::new()).unwrap();
    let first = FilterEntry::genesis(genesis().hash(), U256::from_u64(1));
    let above = FilterEntry {
        block_hash: U256::from_u64(9),
        filter_hash: U256::from_u64(2),
        header: filter_header(&U256::from_u64(2), &first.header),
    };
    let mut log = RecordLog::new(96, 10).unwrap();
    log.append(&first.encode()).unwrap();
    log.append(&above.encode()).unwrap();
    let filters = FilterCache::open(log.as_bytes().clone(), first).unwrap();
    let e = Engine::new(tree, filters).unwrap();
    assert_eq!(e.filters().len(), 1);
    assert_eq!(e.filters().get(0), Some(first));
}

#[test]
fn engine_syncs_and_keeps_filters_in_step() {
    let mut e = engine();
    let a = chain(&genesis(), 4, 1);
    let d = e.peer_connected(1, 4, 0);
    assert_eq!(d.request, Some(Request { peer: 1, range: Range { start: 1, end: 4 } }));
    let (report, d) = e.received_headers(1, &a, NOW);
    assert!(matches!(
        report,
        Some(ImportReport { outcome: ImportOutcome::Advanced { height: 4, .. }, error: None })
    ));
    assert_eq!(d, Decision { request: None, disconnect: None, synced: Some(4) });
    for i in 0..4u64 {
        assert_eq!(e.append_filter(U256::from_u64(10 + i)), Ok(()));
    }
    assert_eq!(e.append_filter(U256::from_u64(99)), Err(FilterError::AheadOfChain));
    assert_eq!(e.filters().len(), 5);
    assert_eq!(e.filters().verify(e.tree()), Ok(()));
    // a second peer brings a branch that leaves the chain after height 1
    let b = chain(&a[0], 5, 2);
    let d = e.peer_connected(2, 6, 1);
    assert_eq!(d.request, Some(Request { peer: 2, range: Range { start: 5, end: 6 } }));
    let (report, d) = e.received_headers(2, &b, NOW);
    match report {
        Some(ImportReport { outcome: ImportOutcome::Reorg { tip, height, reverted }, error: None }) => {
            assert_eq!(tip, b[4].hash());
            assert_eq!(height, 6);
            assert_eq!(reverted, vec![a[3], a[2], a[1]]);
        }
        other => panic!("{:?}", other),
    }
    assert_eq!(d.synced, Some(6));
    // the filter entries above the fork are gone
    assert_eq!(e.filters().len(), 2);
    assert_eq!(e.filters().get(1).unwrap().block_hash, a[0].hash());
    assert_eq!(e.filters().verify(e.tree()), Ok(()));
    assert_eq!(e.append_filter(U256::from_u64(50)), Ok(()));
    assert_eq!(e.filters().get(2).unwrap().block_hash, b[0].hash());
    assert_eq!(e.height(), 6);
    assert_eq!(e.sync().local_height(), 6);
}

#[test]
fn engine_import_from_outside() {
    let mut e = engine();
    let a = chain(&genesis(), 3, 1);
    assert_eq!(e.peer_connected(1, 3, 0).request.unwrap().peer, 1);
    // headers that no peer was asked for
    let outcome = e.import_headers(&a[..2].to_vec(), NOW).unwrap();
    assert!(matches!(outcome, ImportOutcome::Advanced { height: 2, .. }));
    assert_eq!(e.height(), 2);
    // the request that was out is stale and dropped
    assert_eq!(e.sync().local_height(), 2);
    assert_eq!(e.sync().state(), SyncState::Idle);
    assert_eq!(e.sync().pending(), None);
    assert_eq!(e.tick(1).request, Some(Request { peer: 1, range: Range { start: 3, end: 3 } }));
    // an import that changes nothing leaves the request alone
    let outcome = e.import_headers(&a[..2].to_vec(), NOW).unwrap();
    assert!(matches!(outcome, ImportOutcome::Unchanged));
    assert_eq!(e.sync().state(), SyncState::AwaitingHeaders);
    // an import that fails
    let err = e.import_headers(&vec![mine(&a[2], 3)], NOW).unwrap_err();
    assert_eq!(err, TreeError::InvalidBlock);
    assert_eq!(e.height(), 2);
}

#[test]
fn engine_import_realigns_filters() {
    let mut e = engine();
    let a = chain(&genesis(), 3, 1);
    e.import_headers(&a, NOW).unwrap();
    for i in 0..3u64 {
        e.append_filter(U256::from_u64(i)).unwrap();
    }
    let b = chain(&genesis(), 4, 2);
    let outcome = e.import_headers(&b, NOW).unwrap();
    assert!(matches!(outcome, ImportOutcome::Reorg { height: 4, .. }));
    assert_eq!(e.filters().len(), 1);
    assert_eq!(e.filters().verify(e.tree()), Ok(()));
}

#[test]
fn engine_peer_events() {
    let mut e = engine();
    assert_eq!(e.peer_connected(1, 0, 0).synced, Some(0));
    assert_eq!(e.sync().state(), SyncState::Synced);
    e.peer_disconnected(1);
    assert_eq!(e.sync().state(), SyncState::Idle);
    assert_eq!(e.sync().peer_count(), 0);
    assert_eq!(e.tick(5), Decision { request: None, disconnect: None, synced: None });
    let (report, d) = e.received_headers(7, &chain(&genesis(), 1, 1), NOW);
    assert!(report.is_none());
    assert_eq!(d, Decision { request: None, disconnect: None, synced: None });
    assert_eq!(e.height(), 0);
}

#[test]
fn engine_prunes_only_past_the_bound() {
    let mut e = engine();
    let a = chain(&genesis(), 3, 1);
    e.import_headers(&a, NOW).unwrap();
    let b = chain(&genesis(), 2, 2);
    e.import_headers(&b, NOW).unwrap();
    assert_eq!(e.tree().side_count(), 2);
    assert_eq!(e.prune(), 0);
    assert_eq!(e.tree().side_count(), 2);
    assert!(e.tree().contains(&b[1].hash()));
}

#[test]
fn events_follow_outcome_and_decision() {
    let quiet = Decision { request: None, disconnect: None, synced: None };
    let synced = Decision { request: None, disconnect: None, synced: Some(9) };
    let tip = U256::from_u64(5);
    assert_eq!(events(&ImportOutcome::Unchanged, &quiet, tip), Vec::new());
    assert_eq!(
        events(&ImportOutcome::Unchanged, &synced, tip),
        vec![Event::Synced { hash: tip, height: 9 }]
    );
    let advanced = ImportOutcome::Advanced { tip: U256::from_u64(7), height: 3 };
    assert_eq!(
        events(&advanced, &quiet, tip),
        vec![Event::TipChanged { hash: U256::from_u64(7), height: 3, reverted: Vec::new() }]
    );
    let a = chain(&genesis(), 2, 1);
    let reorg = ImportOutcome::Reorg { tip, height: 9, reverted: vec![a[1], a[0]] };
    assert_eq!(
        events(&reorg, &synced, tip),
        vec![
            Event::TipChanged { hash: tip, height: 9, reverted: vec![a[1], a[0]] },
            Event::Synced { hash: tip, height: 9 },
        ]
    );
}

#[test]
fn filter_request_follows_the_chain() {
    let mut e = engine();
    // the cache is as high as the chain
    assert_eq!(e.filter_request(), None);
    let a = chain(&genesis(), 4, 1);
    e.import_headers(&a, NOW).unwrap();
    // no peer to ask
    assert_eq!(e.filter_request(), None);
    // a peer that does not reach the end of the range
    e.peer_connected(1, 3, 0);
    assert_eq!(e.filter_request(), None);
    e.peer_connected(2, 4, 0);
    assert_eq!(
        e.filter_request(),
        Some(Request { peer: 2, range: Range { start: 1, end: 4 } })
    );
    e.append_filter(U256::from_u64(1)).unwrap();
    assert_eq!(
        e.filter_request(),
        Some(Request { peer: 2, range: Range { start: 2, end: 4 } })
    );
}

#[test]
fn filter_hashes_are_appended_in_order() {
    let mut e = engine();
    let a = chain(&genesis(), 3, 1);
    e.import_headers(&a, NOW).unwrap();
    let top = e.filters().get(0).unwrap().header;
    let hashes: Vec<U256> = (0..5u64).map(|i| U256::from_u64(100 + i)).collect();
    // the hashes do not follow the top of the cache
    assert_eq!(
        e.received_filter_hashes(U256::from_u64(1), &hashes),
        Err(FilterError::Integrity { height: 1 })
    );
    assert_eq!(e.filters().len(), 1);
    // five hashes for a chain that has room for three
    assert_eq!(e.received_filter_hashes(top, &hashes), Ok(3));
    assert_eq!(e.filters().len(), 4);
    let first = e.filters().get(1).unwrap();
    assert_eq!(first.block_hash, a[0].hash());
    assert_eq!(first.filter_hash, U256::from_u64(100));
    assert_eq!(first.header, filter_header(&U256::from_u64(100), &top));
    let third = e.filters().get(3).unwrap();
    assert_eq!(third.block_hash, a[2].hash());
    assert_eq!(third.filter_hash, U256::from_u64(102));
    assert_eq!(e.filters().verify(e.tree()), Ok(()));
    // nothing more fits
    assert_eq!(e.received_filter_hashes(third.header, &hashes), Ok(0));
    assert_eq!(e.received_filter_hashes(third.header, &Vec::new()), Ok(0));
    assert_eq!(e.filter_request(), None);
}

#[test]
fn import_report_tells_of_partial_import() {
    let mut e = engine();
    let a = chain(&genesis(), 3, 1);
    let report = e.import_report(&vec![a[0], a[2]], NOW);
    assert_eq!(report.error, Some(TreeError::InvalidBlock));
    assert!(matches!(report.outcome, ImportOutcome::Advanced { height: 1, .. }));
    assert_eq!(e.height(), 1);
    assert_eq!(e.sync().local_height(), 1);
    let report = e.import_report(&a, NOW);
    assert_eq!(report.error, None);
    assert!(matches!(report.outcome, ImportOutcome::Advanced { height: 3, .. }));
}

#[test]
fn import_keeps_rules_and_limits() {
    let mut e = engine();
    let limit = e.tree().store().limit();
    let params = e.tree().params();
    e.import_headers(&chain(&genesis(), 2, 1), NOW).unwrap();
    e.prune();
    assert_eq!(e.tree().store().limit(), limit);
    assert_eq!(e.tree().params(), params);
}
