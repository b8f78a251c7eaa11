use nakamoto_client::header::Header;
use nakamoto_client::network::Network;
use nakamoto_client::pow::{check_proof_of_work, target_or_zero};
use nakamoto_client::rules::{Checkpoint, TreeError};
use nakamoto_client::store::StoreError;
use nakamoto_client::sync::{
    Decision, Range, Request, Session, SyncManager, SyncState, MAX_BATCH, MAX_RETRIES,
    REQUEST_TIMEOUT,
};
use nakamoto_client::tree::{BlockTree, ImportOutcome, ImportReport};
use nakamoto_client::uint256::U256;

const NOW: u64 = 2_000_000_000;

fn nothing() -> Decision {
    Decision { request: None, disconnect: None, synced: None }
}

fn ask(peer: u64, start: u64, end: u64) -> Decision {
    Decision {
        request: Some(Request { peer, range: Range { start, end } }),
        disconnect: None,
        synced: None,
    }
}

fn genesis() -> Header {
    Network::Regtest.genesis()
}

fn tree() -> BlockTree {
    BlockTree::new(genesis(), Network::Regtest.params(), Vec::new()).unwrap()
}

fn mine(prev: &Header, salt: u64) -> Header {
    let limit = target_or_zero(0x207fffff);
    let mut header = Header {
        version: 1,
        prev_blockhash: prev.hash(),
        merkle_root: U256::from_u64(salt),
        time: prev.time + 600,
        bits: 0x207fffff,
        nonce: 0,
    };
    while !check_proof_of_work(&header.hash(), 0x207fffff, &limit) {
        header.nonce += 1;
    }
    header
}

fn chain(base: &Header, n: usize, salt: u64) -> Vec<Header> {
    let mut out = Vec::new();
    let mut prev = *base;
    for _ in 0..n {
        let next = mine(&prev, salt);
        out.push(next);
        prev = next;
    }
    out
}

#[test]
fn new_manager_is_idle() {
    let m = SyncManager::new(7);
    assert_eq!(m.state(), SyncState::Idle);
    assert_eq!(m.local_height(), 7);
    assert_eq!(m.peer_count(), 0);
    assert_eq!(m.best_height(), 0);
    assert_eq!(m.pending(), None);
    assert_eq!(m.session(1), None);
}

#[test]
fn peer_ahead_is_asked_once() {
    let mut m = SyncManager::new(0);
    let d = m.peer_connected(1, 100, 10);
    assert_eq!(d, ask(1, 1, 100));
    assert_eq!(m.state(), SyncState::AwaitingHeaders);
    assert_eq!(m.best_height(), 100);
    assert_eq!(m.pending(), Some(Request { peer: 1, range: Range { start: 1, end: 100 } }));
    assert_eq!(
        m.session(1),
        Some(Session {
            peer: 1,
            height: 100,
            request: Some(Range { start: 1, end: 100 }),
            issued_at: 10,
            retries: 0,
            deprioritized: false,
        })
    );
    // a second peer is not asked while the request is out
    assert_eq!(m.peer_connected(2, 100, 11), nothing());
    assert_eq!(m.peer_connected(3, 500, 12), nothing());
    assert_eq!(m.best_height(), 500);
    assert_eq!(m.peer_count(), 3);
    // nor does the clock ask again before the request has stalled
    assert_eq!(m.tick(10 + REQUEST_TIMEOUT - 1), nothing());
    assert_eq!(m.pending().unwrap().peer, 1);
}

#[test]
fn request_is_capped_at_a_batch() {
    let mut m = SyncManager::new(10);
    let d = m.peer_connected(1, 5000, 0);
    assert_eq!(d, ask(1, 11, 10 + MAX_BATCH));
    let mut m = SyncManager::new(10);
    assert_eq!(m.peer_connected(1, 10 + MAX_BATCH, 0), ask(1, 11, 10 + MAX_BATCH));
    let mut m = SyncManager::new(10);
    assert_eq!(m.peer_connected(1, 11 + MAX_BATCH, 0), ask(1, 11, 10 + MAX_BATCH));
    let mut m = SyncManager::new(u64::MAX - 5);
    assert_eq!(m.peer_connected(1, u64::MAX, 0), ask(1, u64::MAX - 4, u64::MAX));
}

#[test]
fn peer_not_ahead_means_synced() {
    let mut m = SyncManager::new(50);
    let d = m.peer_connected(1, 50, 0);
    assert_eq!(d, Decision { request: None, disconnect: None, synced: Some(50) });
    assert_eq!(m.state(), SyncState::Synced);
    // said once
    assert_eq!(m.peer_connected(2, 20, 1), nothing());
    assert_eq!(m.tick(2), nothing());
    assert_eq!(m.state(), SyncState::Synced);
    // a higher announcement ends it
    assert_eq!(m.peer_connected(2, 60, 3), ask(2, 51, 60));
    assert_eq!(m.state(), SyncState::AwaitingHeaders);
}

#[test]
fn greatest_height_is_asked_first() {
    let mut m = SyncManager::new(50);
    m.peer_connected(1, 10, 0);
    m.peer_connected(2, 20, 0);
    assert_eq!(m.state(), SyncState::Synced);
    m.peer_disconnected(1);
    m.peer_disconnected(2);
    assert_eq!(m.state(), SyncState::Idle);
    let mut m = SyncManager::new(0);
    m.peer_connected(1, 100, 0);
    m.peer_connected(2, 300, 0);
    m.peer_connected(3, 200, 0);
    m.peer_disconnected(1);
    assert_eq!(m.state(), SyncState::Idle);
    assert_eq!(m.tick(1), ask(2, 1, 300));
}

#[test]
fn latest_peer_wins_ties() {
    let mut m = SyncManager::new(0);
    m.peer_connected(1, 100, 0);
    m.peer_connected(2, 100, 0);
    m.peer_connected(3, 100, 0);
    m.peer_disconnected(1);
    assert_eq!(m.tick(1), ask(3, 1, 100));
}

#[test]
fn announcement_raises_height() {
    let mut m = SyncManager::new(100);
    m.peer_connected(1, 50, 0);
    assert_eq!(m.session(1).unwrap().height, 50);
    // a lower announcement is not recorded
    m.peer_connected(1, 40, 1);
    assert_eq!(m.session(1).unwrap().height, 50);
    assert_eq!(m.peer_count(), 1);
    assert_eq!(m.peer_connected(1, 150, 2), ask(1, 101, 150));
    assert_eq!(m.session(1).unwrap().height, 150);
}

#[test]
fn stalled_request_goes_to_another_peer() {
    let mut m = SyncManager::new(0);
    assert_eq!(m.peer_connected(1, 100, 10), ask(1, 1, 100));
    m.peer_connected(2, 100, 11);
    let d = m.tick(10 + REQUEST_TIMEOUT);
    assert_eq!(d, ask(2, 1, 100));
    assert_eq!(m.state(), SyncState::AwaitingHeaders);
    let first = m.session(1).unwrap();
    assert_eq!(first.request, None);
    assert_eq!(first.retries, 1);
    assert!(!first.deprioritized);
    let second = m.session(2).unwrap();
    assert_eq!(second.request, Some(Range { start: 1, end: 100 }));
    assert_eq!(second.issued_at, 10 + REQUEST_TIMEOUT);
}

#[test]
fn stalled_range_goes_on_unchanged() {
    // the other peer has announced less than the end of the range
    let mut m = SyncManager::new(0);
    assert_eq!(m.peer_connected(1, 100, 0), ask(1, 1, 100));
    m.peer_connected(2, 60, 0);
    assert_eq!(m.tick(REQUEST_TIMEOUT), ask(2, 1, 100));
    assert_eq!(m.session(1).unwrap().retries, 1);
    assert_eq!(m.session(1).unwrap().request, None);
    assert_eq!(m.pending(), Some(Request { peer: 2, range: Range { start: 1, end: 100 } }));
    // the other peer has announced more
    let mut m = SyncManager::new(0);
    assert_eq!(m.peer_connected(1, 100, 0), ask(1, 1, 100));
    m.peer_connected(2, 900, 0);
    assert_eq!(m.tick(REQUEST_TIMEOUT), ask(2, 1, 100));
    // the other peer has announced nothing above the local chain
    let mut m = SyncManager::new(0);
    assert_eq!(m.peer_connected(1, 100, 0), ask(1, 1, 100));
    m.peer_connected(2, 0, 0);
    assert_eq!(m.tick(REQUEST_TIMEOUT), ask(2, 1, 100));
    assert_eq!(m.state(), SyncState::AwaitingHeaders);
    assert_eq!(m.session(1).unwrap().retries, 1);
}

#[test]
fn stalled_range_goes_to_the_peer_asked_first() {
    let mut m = SyncManager::new(0);
    assert_eq!(m.peer_connected(1, 100, 0), ask(1, 1, 100));
    m.peer_connected(2, 40, 0);
    m.peer_connected(3, 70, 0);
    m.peer_connected(4, 70, 0);
    // the greatest height among the others, and the later of two
    assert_eq!(m.tick(REQUEST_TIMEOUT), ask(4, 1, 100));
    // and on from there: the first peer has the greatest height and one stall
    assert_eq!(m.tick(2 * REQUEST_TIMEOUT), ask(1, 1, 100));
    assert_eq!(m.session(4).unwrap().retries, 1);
    assert_eq!(m.pending().unwrap().peer, 1);
}

#[test]
fn stalled_request_without_other_peer() {
    let mut m = SyncManager::new(0);
    m.peer_connected(1, 100, 0);
    assert_eq!(m.tick(REQUEST_TIMEOUT), nothing());
    assert_eq!(m.state(), SyncState::Idle);
    assert_eq!(m.pending(), None);
    // the next tick asks the only peer again
    assert_eq!(m.tick(REQUEST_TIMEOUT + 1), ask(1, 1, 100));
}

#[test]
fn peer_that_keeps_stalling_is_asked_last() {
    let mut m = SyncManager::new(0);
    m.peer_connected(1, 100, 0);
    let mut now = 0;
    for _ in 0..MAX_RETRIES {
        now += REQUEST_TIMEOUT;
        assert_eq!(m.tick(now), nothing());
        now += 1;
        if m.session(1).unwrap().retries < MAX_RETRIES {
            assert_eq!(m.tick(now), ask(1, 1, 100));
        }
    }
    let s = m.session(1).unwrap();
    assert_eq!(s.retries, MAX_RETRIES);
    assert!(s.deprioritized);
    // a lower peer that has not stalled comes first
    m.peer_connected(2, 40, now);
    assert_eq!(m.pending().unwrap(), Request { peer: 2, range: Range { start: 1, end: 40 } });
}

#[test]
fn clock_running_backwards_is_no_stall() {
    let mut m = SyncManager::new(0);
    m.peer_connected(1, 100, 1000);
    m.peer_connected(2, 100, 1000);
    assert_eq!(m.tick(5), nothing());
    assert_eq!(m.pending().unwrap().peer, 1);
}

#[test]
fn disconnect_drops_request() {
    let mut m = SyncManager::new(0);
    m.peer_connected(1, 100, 0);
    m.peer_connected(2, 80, 0);
    m.peer_disconnected(1);
    assert_eq!(m.state(), SyncState::Idle);
    assert_eq!(m.pending(), None);
    assert_eq!(m.peer_count(), 1);
    assert_eq!(m.best_height(), 80);
    // the range is asked anew on the next tick
    assert_eq!(m.tick(1), ask(2, 1, 80));
    // a peer that is not connected
    m.peer_disconnected(9);
    assert_eq!(m.peer_count(), 1);
    assert_eq!(m.state(), SyncState::AwaitingHeaders);
    // a peer without request
    m.peer_connected(3, 10, 2);
    m.peer_disconnected(3);
    assert_eq!(m.state(), SyncState::AwaitingHeaders);
}

#[test]
fn answer_is_imported_and_next_range_asked() {
    let mut t = tree();
    let mut m = SyncManager::new(0);
    let headers = chain(&genesis(), 5, 1);
    assert_eq!(m.peer_connected(1, 5, 0), ask(1, 1, 5));
    m.peer_connected(2, 8, 0);
    let (result, d) = m.received_headers(&mut t, 1, &headers[..3].to_vec(), NOW);
    match result {
        Some(ImportReport { outcome: ImportOutcome::Advanced { tip, height }, error: None }) => {
            assert_eq!(tip, headers[2].hash());
            assert_eq!(height, 3);
        }
        other => panic!("{:?}", other),
    }
    // the peer that answered is asked first
    assert_eq!(d, ask(1, 4, 5));
    assert_eq!(m.local_height(), 3);
    assert_eq!(t.height(), 3);
    let (_, d) = m.received_headers(&mut t, 1, &headers[3..].to_vec(), NOW);
    // the peer has no more; the other is asked
    assert_eq!(d, ask(2, 6, 8));
    assert_eq!(m.session(1).unwrap().request, None);
}

#[test]
fn sync_to_parity() {
    let mut t = tree();
    let mut m = SyncManager::new(0);
    let headers = chain(&genesis(), 100, 1);
    assert_eq!(m.peer_connected(1, 100, 0), ask(1, 1, 100));
    assert_eq!(m.peer_connected(2, 100, 0), nothing());
    // the first peer stalls, the second answers
    assert_eq!(m.tick(REQUEST_TIMEOUT), ask(2, 1, 100));
    let (result, d) = m.received_headers(&mut t, 2, &headers, NOW);
    assert!(matches!(
        result,
        Some(ImportReport { outcome: ImportOutcome::Advanced { height: 100, .. }, error: None })
    ));
    assert_eq!(d, Decision { request: None, disconnect: None, synced: Some(100) });
    assert_eq!(m.state(), SyncState::Synced);
    assert_eq!(m.local_height(), 100);
    assert_eq!(t.height(), 100);
    assert_eq!(m.tick(REQUEST_TIMEOUT + 1), nothing());
}

#[test]
fn unsolicited_headers_are_left_alone() {
    let mut t = tree();
    let mut m = SyncManager::new(0);
    let headers = chain(&genesis(), 2, 1);
    // from a peer that is not connected
    let (result, d) = m.received_headers(&mut t, 1, &headers, NOW);
    assert!(result.is_none());
    assert_eq!(d, nothing());
    assert_eq!(t.height(), 0);
    // from a peer that was not asked
    m.peer_connected(1, 2, 0);
    m.peer_connected(2, 2, 0);
    let (result, d) = m.received_headers(&mut t, 2, &headers, NOW);
    assert!(result.is_none());
    assert_eq!(d, nothing());
    assert_eq!(t.height(), 0);
    assert_eq!(m.pending().unwrap().peer, 1);
}

#[test]
fn invalid_headers_cost_the_peer_its_session() {
    let mut t = tree();
    let mut m = SyncManager::new(0);
    let headers = chain(&genesis(), 4, 1);
    m.peer_connected(1, 4, 0);
    m.peer_connected(2, 4, 0);
    // the third header is not the child of the second
    let bad = vec![headers[0], headers[1], headers[3]];
    let (result, d) = m.received_headers(&mut t, 1, &bad, NOW);
    // the headers before the refused one moved the tip
    assert!(matches!(
        result,
        Some(ImportReport {
            outcome: ImportOutcome::Advanced { height: 2, .. },
            error: Some(TreeError::InvalidBlock),
        })
    ));
    // the other peer is asked from the last height that is good
    assert_eq!(
        d,
        Decision {
            request: Some(Request { peer: 2, range: Range { start: 3, end: 4 } }),
            disconnect: Some(1),
            synced: None,
        }
    );
    assert_eq!(m.session(1), None);
    assert_eq!(m.peer_count(), 1);
    assert_eq!(m.local_height(), 2);
    assert_eq!(t.height(), 2);
}

#[test]
fn invalid_headers_from_the_only_peer() {
    let mut t = tree();
    let mut m = SyncManager::new(0);
    let headers = chain(&genesis(), 3, 1);
    m.peer_connected(1, 3, 0);
    let (result, d) = m.received_headers(&mut t, 1, &vec![headers[2]], NOW);
    assert!(matches!(
        result,
        Some(ImportReport { outcome: ImportOutcome::Unchanged, error: Some(TreeError::InvalidBlock) })
    ));
    assert_eq!(d, Decision { request: None, disconnect: Some(1), synced: None });
    assert_eq!(m.state(), SyncState::Idle);
    assert_eq!(m.peer_count(), 0);
}

#[test]
fn checkpoint_failure_costs_the_peer_its_session() {
    let good = chain(&genesis(), 2, 1);
    let bad = chain(&genesis(), 2, 2);
    let cps = vec![Checkpoint { height: 1, hash: good[0].hash() }];
    let mut t = BlockTree::new(genesis(), Network::Regtest.params(), cps).unwrap();
    let mut m = SyncManager::new(0);
    m.peer_connected(1, 2, 0);
    let (result, d) = m.received_headers(&mut t, 1, &bad, NOW);
    assert_eq!(result.unwrap().error, Some(TreeError::InvalidCheckpoint));
    assert_eq!(d.disconnect, Some(1));
    assert_eq!(t.height(), 0);
}

#[test]
fn store_failure_is_handed_on() {
    let mut t = tree();
    t.set_store_limit(2);
    let mut m = SyncManager::new(0);
    let headers = chain(&genesis(), 3, 1);
    m.peer_connected(1, 3, 0);
    let (result, d) = m.received_headers(&mut t, 1, &headers, NOW);
    assert_eq!(result.unwrap().error, Some(TreeError::Store(StoreError::Full)));
    assert_eq!(d, nothing());
    assert_eq!(m.state(), SyncState::Idle);
    // the peer keeps its session
    assert_eq!(m.session(1).unwrap().request, None);
    assert_eq!(m.local_height(), 1);
    assert_eq!(t.height(), 1);
}

#[test]
fn answer_forgets_stalls() {
    let mut t = tree();
    let mut m = SyncManager::new(0);
    let headers = chain(&genesis(), 2, 1);
    m.peer_connected(1, 2, 0);
    assert_eq!(m.tick(REQUEST_TIMEOUT), nothing());
    assert_eq!(m.session(1).unwrap().retries, 1);
    assert_eq!(m.tick(REQUEST_TIMEOUT + 1), ask(1, 1, 2));
    let (_, d) = m.received_headers(&mut t, 1, &headers, NOW);
    assert_eq!(d.synced, Some(2));
    assert_eq!(m.session(1).unwrap().retries, 0);
}

#[test]
fn reorg_is_reported_with_reverted_headers() {
    let mut t = tree();
    let mut m = SyncManager::new(0);
    let a = chain(&genesis(), 2, 1);
    let b = chain(&genesis(), 3, 2);
    m.peer_connected(1, 2, 0);
    m.received_headers(&mut t, 1, &a, NOW);
    assert_eq!(m.state(), SyncState::Synced);
    assert_eq!(m.peer_connected(2, 3, 1), ask(2, 3, 3));
    let (result, d) = m.received_headers(&mut t, 2, &b, NOW);
    match result {
        Some(ImportReport { outcome: ImportOutcome::Reorg { tip, height, reverted }, error: None }) => {
            assert_eq!(tip, b[2].hash());
            assert_eq!(height, 3);
            assert_eq!(reverted, vec![a[1], a[0]]);
        }
        other => panic!("{:?}", other),
    }
    assert_eq!(d.synced, Some(3));
}

#[test]
fn oversized_batch_is_left_alone() {
    let mut t = tree();
    let mut m = SyncManager::new(0);
    let headers = chain(&genesis(), MAX_BATCH as usize + 1, 1);
    assert_eq!(m.peer_connected(1, 5000, 0), ask(1, 1, MAX_BATCH));
    let (result, d) = m.received_headers(&mut t, 1, &headers, NOW);
    assert!(result.is_none());
    assert_eq!(d, nothing());
    assert_eq!(t.height(), 0);
    assert_eq!(m.pending().unwrap().peer, 1);
    // a batch that is longer than the range asked for, but no larger than a batch may be
    let mut m = SyncManager::new(0);
    assert_eq!(m.peer_connected(1, 2, 0), ask(1, 1, 2));
    let (result, _) = m.received_headers(&mut t, 1, &headers[..3].to_vec(), NOW);
    assert!(result.is_some());
    assert_eq!(t.height(), 3);
}

#[test]
fn empty_answer_is_an_answer() {
    let mut t = tree();
    let mut m = SyncManager::new(0);
    m.peer_connected(1, 2, 0);
    let (result, d) = m.received_headers(&mut t, 1, &Vec::new(), 5);
    assert!(matches!(
        result,
        Some(ImportReport { outcome: ImportOutcome::Unchanged, error: None })
    ));
    // the peer is still ahead and is asked again
    assert_eq!(d, ask(1, 1, 2));
    assert_eq!(m.session(1).unwrap().issued_at, 5);
}

#[test]
fn peer_above_a_height() {
    let mut m = SyncManager::new(100);
    assert_eq!(m.peer_above(0), None);
    m.peer_connected(1, 10, 0);
    m.peer_connected(2, 30, 0);
    m.peer_connected(3, 30, 0);
    m.peer_connected(4, 20, 0);
    // the greatest height, and the later peer of two
    assert_eq!(m.peer_above(5), Some(3));
    assert_eq!(m.peer_above(29), Some(3));
    assert_eq!(m.peer_above(30), None);
    m.peer_disconnected(3);
    assert_eq!(m.peer_above(5), Some(2));
}
