use nakamoto_client::header::Header;
use nakamoto_client::network::Network;
use nakamoto_client::pow::{check_proof_of_work, target_or_zero, Params};
use nakamoto_client::rules::{median, Checkpoint, TreeError};
use nakamoto_client::store::{HeaderStore, StoreError};
use nakamoto_client::tree::{BlockTree, ImportOutcome};
use nakamoto_client::uint256::U256;

const NOW: u64 = 2_000_000_000;
const START: u32 = 1_296_688_602;

fn genesis() -> Header {
    Network::Regtest.genesis()
}

fn params() -> Params {
    Network::Regtest.params()
}

fn tree() -> BlockTree {
    BlockTree::new(genesis(), params(), Vec::new()).unwrap()
}

/// A header on `prev` that meets the target of `bits`; `salt` tells
/// branches apart.
fn mine(prev: &Header, time: u32, bits: u32, salt: u64) -> Header {
    let limit = target_or_zero(bits);
    let mut header = Header {
        version: 1,
        prev_blockhash: prev.hash(),
        merkle_root: U256::from_u64(salt),
        time,
        bits,
        nonce: 0,
    };
    while !check_proof_of_work(&header.hash(), bits, &limit) {
        header.nonce += 1;
    }
    header
}

/// `n` headers on `base`, ten minutes apart.
fn chain(base: &Header, n: usize, salt: u64) -> Vec<Header> {
    let mut out = Vec::new();
    let mut prev = *base;
    for _ in 0..n {
        let next = mine(&prev, prev.time + 600, 0x207fffff, salt);
        out.push(next);
        prev = next;
    }
    out
}

#[test]
fn new_tree_holds_genesis() {
    let t = tree();
    assert_eq!(t.height(), 0);
    assert_eq!(t.get_tip(), genesis());
    assert_eq!(t.tip_hash(), genesis().hash());
    assert_eq!(t.get_header(0), Some(genesis()));
    assert_eq!(t.get_header(1), None);
    assert_eq!(t.get_hash(0), Some(genesis().hash()));
    assert!(t.contains(&genesis().hash()));
    assert!(!t.contains(&U256::zero()));
    assert_eq!(t.store().height(), 0);
    assert_eq!(t.params(), params());
}

#[test]
fn new_tree_needs_sound_rules() {
    let mut p = params();
    p.retarget_interval = 0;
    assert!(BlockTree::new(genesis(), p, Vec::new()).is_none());
}

#[test]
fn import_three_headers() {
    let mut t = tree();
    let headers = chain(&genesis(), 3, 1);
    let outcome = t.import(&headers, NOW).unwrap();
    match outcome {
        ImportOutcome::Advanced { tip, height } => {
            assert_eq!(tip, headers[2].hash());
            assert_eq!(height, 3);
        }
        other => panic!("{:?}", other),
    }
    assert_eq!(t.height(), 3);
    assert_eq!(t.get_tip(), headers[2]);
    assert_eq!(t.tip_hash(), headers[2].hash());
    assert_eq!(t.get_header(1), Some(headers[0]));
    assert_eq!(t.get_header(3), Some(headers[2]));
    assert_eq!(t.get_header(4), None);
    assert_eq!(t.store().height(), 3);
    assert_eq!(t.store().check(), Ok(()));
}

#[test]
fn import_extends_tip_by_batch_length() {
    let mut t = tree();
    let first = chain(&genesis(), 4, 1);
    t.import(&first, NOW).unwrap();
    let second = chain(&first[3], 6, 1);
    let before = t.height();
    let outcome = t.import(&second, NOW).unwrap();
    assert!(matches!(outcome, ImportOutcome::Advanced { height: 10, .. }));
    assert_eq!(t.height(), before + 6);
    assert_eq!(t.get_tip(), second[5]);
}

#[test]
fn reimport_changes_nothing() {
    let mut t = tree();
    let headers = chain(&genesis(), 5, 1);
    t.import(&headers, NOW).unwrap();
    let bytes = t.store().as_bytes().clone();
    let outcome = t.import(&headers, NOW).unwrap();
    assert!(matches!(outcome, ImportOutcome::Unchanged));
    assert_eq!(t.height(), 5);
    assert_eq!(t.get_tip(), headers[4]);
    assert_eq!(t.store().as_bytes(), &bytes);
    let outcome = t.import(&headers[1..3].to_vec(), NOW).unwrap();
    assert!(matches!(outcome, ImportOutcome::Unchanged));
    let outcome = t.import(&Vec::new(), NOW).unwrap();
    assert!(matches!(outcome, ImportOutcome::Unchanged));
    let outcome = t.import(&vec![genesis()], NOW).unwrap();
    assert!(matches!(outcome, ImportOutcome::Unchanged));
}

#[test]
fn reorg_to_branch_with_more_work() {
    let mut t = tree();
    let a = chain(&genesis(), 5, 1);
    t.import(&a, NOW).unwrap();
    // chain B leaves chain A after height 2 and reaches height 7
    let b = chain(&a[1], 5, 2);
    let outcome = t.import(&b, NOW).unwrap();
    match outcome {
        ImportOutcome::Reorg { tip, height, reverted } => {
            assert_eq!(tip, b[4].hash());
            assert_eq!(height, 7);
            assert_eq!(reverted, vec![a[4], a[3], a[2]]);
        }
        other => panic!("{:?}", other),
    }
    assert_eq!(t.height(), 7);
    assert_eq!(t.get_tip(), b[4]);
    assert_eq!(t.get_header(2), Some(a[1]));
    assert_eq!(t.get_header(3), Some(b[0]));
    assert_eq!(t.get_header(7), Some(b[4]));
    assert_eq!(t.get_header(8), None);
    assert_eq!(t.store().height(), 7);
    assert_eq!(t.store().check(), Ok(()));
    assert_eq!(t.store().get(4), Some(b[1]));
    // the old branch is still known
    assert!(t.contains(&a[4].hash()));
}

#[test]
fn reorg_reports_fork_height() {
    let mut t = tree();
    let a = chain(&genesis(), 5, 1);
    t.import(&a, NOW).unwrap();
    let b = chain(&a[1], 5, 2);
    let outcome = t.import(&b, NOW).unwrap();
    assert_eq!(outcome.fork_height(5), Some(2));
    assert_eq!(ImportOutcome::Unchanged.fork_height(5), None);
    assert_eq!(ImportOutcome::Advanced { tip: U256::zero(), height: 6 }.fork_height(5), None);
}

#[test]
fn reorg_back_to_old_branch() {
    let mut t = tree();
    let a = chain(&genesis(), 3, 1);
    t.import(&a, NOW).unwrap();
    let b = chain(&genesis(), 4, 2);
    assert!(matches!(t.import(&b, NOW).unwrap(), ImportOutcome::Reorg { height: 4, .. }));
    // chain A grows past chain B
    let more = chain(&a[2], 2, 1);
    let outcome = t.import(&more, NOW).unwrap();
    match outcome {
        ImportOutcome::Reorg { tip, height, reverted } => {
            assert_eq!(tip, more[1].hash());
            assert_eq!(height, 5);
            assert_eq!(reverted, vec![b[3], b[2], b[1], b[0]]);
        }
        other => panic!("{:?}", other),
    }
    assert_eq!(t.get_header(1), Some(a[0]));
    assert_eq!(t.get_header(5), Some(more[1]));
}

#[test]
fn branch_with_equal_work_does_not_win() {
    let mut t = tree();
    let a = chain(&genesis(), 3, 1);
    t.import(&a, NOW).unwrap();
    let b = chain(&genesis(), 3, 2);
    let outcome = t.import(&b, NOW).unwrap();
    assert!(matches!(outcome, ImportOutcome::Unchanged));
    assert_eq!(t.get_tip(), a[2]);
    assert!(t.contains(&b[2].hash()));
    // one more header on the second branch tips the scale
    let more = chain(&b[2], 1, 2);
    let outcome = t.import(&more, NOW).unwrap();
    assert!(matches!(outcome, ImportOutcome::Reorg { height: 4, .. }));
}

#[test]
fn branch_with_less_work_stays_aside() {
    let mut t = tree();
    let a = chain(&genesis(), 4, 1);
    t.import(&a, NOW).unwrap();
    let b = chain(&a[0], 2, 2);
    let outcome = t.import(&b, NOW).unwrap();
    assert!(matches!(outcome, ImportOutcome::Unchanged));
    assert_eq!(t.height(), 4);
    assert_eq!(t.store().height(), 4);
}

#[test]
fn unknown_parent_is_refused() {
    let mut t = tree();
    let headers = chain(&genesis(), 3, 1);
    let orphan = vec![headers[1], headers[2]];
    assert_eq!(t.import(&orphan, NOW).unwrap_err(), TreeError::InvalidBlock);
    assert_eq!(t.height(), 0);
    assert!(!t.contains(&headers[1].hash()));
    assert_eq!(t.import_one(headers[2], NOW), Some(TreeError::InvalidBlock));
}

#[test]
fn batch_out_of_order_is_refused() {
    let mut t = tree();
    let headers = chain(&genesis(), 3, 1);
    let shuffled = vec![headers[0], headers[2], headers[1]];
    assert_eq!(t.import(&shuffled, NOW).unwrap_err(), TreeError::InvalidBlock);
    // the header before the refused one stays
    assert_eq!(t.height(), 1);
    assert_eq!(t.get_tip(), headers[0]);
    assert!(!t.contains(&headers[1].hash()));
}

#[test]
fn hash_above_target_is_refused() {
    let mut t = tree();
    let mut header = mine(&genesis(), START + 600, 0x207fffff, 1);
    let limit = target_or_zero(0x207fffff);
    while check_proof_of_work(&header.hash(), 0x207fffff, &limit) {
        header.nonce += 1;
    }
    assert_eq!(t.import(&vec![header], NOW).unwrap_err(), TreeError::InvalidProofOfWork);
    assert_eq!(t.height(), 0);
}

#[test]
fn target_easier_than_limit_is_refused() {
    let mut t = tree();
    let mut header = mine(&genesis(), START + 600, 0x207fffff, 1);
    header.bits = 0x2100ffff;
    assert_eq!(t.import(&vec![header], NOW).unwrap_err(), TreeError::InvalidProofOfWork);
}

#[test]
fn wrong_difficulty_is_refused() {
    let mut t = tree();
    // a harder target than the chain calls for, met by the hash
    let header = mine(&genesis(), START + 600, 0x207ffffe, 1);
    assert_eq!(t.import(&vec![header], NOW).unwrap_err(), TreeError::InvalidDifficulty);
    assert_eq!(t.height(), 0);
}

#[test]
fn time_at_median_is_refused() {
    let mut t = tree();
    let header = mine(&genesis(), START, 0x207fffff, 1);
    assert_eq!(t.import(&vec![header], NOW).unwrap_err(), TreeError::InvalidTimestamp);
    let header = mine(&genesis(), START + 1, 0x207fffff, 1);
    assert!(t.import(&vec![header], NOW).is_ok());
}

#[test]
fn time_must_pass_median_of_eleven() {
    let mut t = tree();
    let headers = chain(&genesis(), 11, 1);
    t.import(&headers, NOW).unwrap();
    // the last eleven are heights 1 to 11; their median is that of height 6
    let median = headers[5].time;
    let late = mine(&headers[10], median, 0x207fffff, 1);
    assert_eq!(t.import(&vec![late], NOW).unwrap_err(), TreeError::InvalidTimestamp);
    let fine = mine(&headers[10], median + 1, 0x207fffff, 1);
    assert!(matches!(t.import(&vec![fine], NOW).unwrap(), ImportOutcome::Advanced { .. }));
}

#[test]
fn time_too_far_ahead_is_refused() {
    let mut t = tree();
    let now = (START + 1000) as u64;
    let header = mine(&genesis(), START + 1000 + 7201, 0x207fffff, 1);
    assert_eq!(t.import(&vec![header], now).unwrap_err(), TreeError::InvalidTimestamp);
    let header = mine(&genesis(), START + 1000 + 7200, 0x207fffff, 1);
    assert!(t.import(&vec![header], now).is_ok());
}

#[test]
fn checkpoint_conflict_is_refused() {
    let headers = chain(&genesis(), 3, 1);
    let other = chain(&genesis(), 3, 2);
    let cps = vec![Checkpoint { height: 2, hash: headers[1].hash() }];
    let mut t = BlockTree::new(genesis(), params(), cps).unwrap();
    // the branch that disagrees with the checkpoint at height 2
    assert_eq!(t.import(&other, NOW).unwrap_err(), TreeError::InvalidCheckpoint);
    assert_eq!(t.height(), 1);
    assert!(t.contains(&other[0].hash()));
    assert!(!t.contains(&other[1].hash()));
    // and again
    assert_eq!(t.import_one(other[1], NOW), Some(TreeError::InvalidCheckpoint));
    // the branch that agrees
    assert!(matches!(t.import(&headers, NOW).unwrap(), ImportOutcome::Reorg { height: 3, .. }));
    assert_eq!(t.get_header(2), Some(headers[1]));
}

#[test]
fn checkpoint_beats_more_work() {
    let headers = chain(&genesis(), 2, 1);
    let cps = vec![Checkpoint { height: 1, hash: headers[0].hash() }];
    let mut t = BlockTree::new(genesis(), params(), cps).unwrap();
    t.import(&headers, NOW).unwrap();
    let heavier = chain(&genesis(), 6, 2);
    assert_eq!(t.import(&heavier, NOW).unwrap_err(), TreeError::InvalidCheckpoint);
    assert_eq!(t.get_tip(), headers[1]);
    assert_eq!(t.height(), 2);
}

#[test]
fn full_store_refuses_new_tip() {
    let mut t = tree();
    let headers = chain(&genesis(), 4, 1);
    t.set_store_limit(3);
    let err = t.import(&headers, NOW).unwrap_err();
    assert_eq!(err, TreeError::Store(StoreError::Full));
    // the store and the tree agree on what was taken
    assert_eq!(t.height(), 2);
    assert_eq!(t.store().height(), 2);
    assert_eq!(t.get_tip(), headers[1]);
    assert!(!t.contains(&headers[2].hash()));
    t.set_store_limit(10);
    assert!(t.import(&headers, NOW).is_ok());
    assert_eq!(t.height(), 4);
}

#[test]
fn store_limit_is_never_below_chain() {
    let mut t = tree();
    t.import(&chain(&genesis(), 3, 1), NOW).unwrap();
    t.set_store_limit(1);
    assert_eq!(t.store().limit(), 4);
}

#[test]
fn difficulty_is_adjusted_at_period_end() {
    let rules = Params {
        pow_limit_bits: 0x207fffff,
        retarget_interval: 4,
        target_timespan: 2400,
        no_retargeting: false,
    };
    let mut t = BlockTree::new(genesis(), rules, Vec::new()).unwrap();
    // heights 1 to 3, five minutes apart: a period of 900 seconds in place of 2400
    let mut prev = genesis();
    let mut headers = Vec::new();
    for _ in 0..3 {
        let next = mine(&prev, prev.time + 300, 0x207fffff, 1);
        headers.push(next);
        prev = next;
    }
    t.import(&headers, NOW).unwrap();
    let expected = rules.next_bits(0x207fffff, genesis().time, prev.time);
    // 0x7fffff * 2^232 * 900 / 2400
    assert_eq!(expected, 0x202fffff);
    let unchanged = mine(&prev, prev.time + 300, 0x207fffff, 1);
    assert_eq!(t.import(&vec![unchanged], NOW).unwrap_err(), TreeError::InvalidDifficulty);
    let adjusted = mine(&prev, prev.time + 300, expected, 1);
    assert!(matches!(t.import(&vec![adjusted], NOW).unwrap(), ImportOutcome::Advanced { height: 4, .. }));
    // within the next period the target stays
    let next = mine(&adjusted, adjusted.time + 300, expected, 1);
    assert!(t.import(&vec![next], NOW).is_ok());
    let wrong = mine(&next, next.time + 300, 0x207fffff, 1);
    assert_eq!(t.import(&vec![wrong], NOW).unwrap_err(), TreeError::InvalidDifficulty);
}

#[test]
fn tree_from_store() {
    let mut t = tree();
    let headers = chain(&genesis(), 6, 1);
    t.import(&headers, NOW).unwrap();
    let bytes = t.store().as_bytes().clone();
    let store = HeaderStore::open(bytes.clone(), genesis()).unwrap();
    let loaded = BlockTree::from_store(&store, params(), Vec::new(), NOW).unwrap();
    assert_eq!(loaded.height(), 6);
    assert_eq!(loaded.get_tip(), headers[5]);
    assert_eq!(loaded.store().as_bytes(), &bytes);
    assert_eq!(loaded.get_header(3), Some(headers[2]));
}

#[test]
fn tree_from_damaged_store() {
    let mut t = tree();
    t.import(&chain(&genesis(), 3, 1), NOW).unwrap();
    let mut bytes = t.store().as_bytes().clone();
    bytes.truncate(3 * 84 + 10);
    let mut store = HeaderStore::open(bytes, genesis()).unwrap();
    let err = BlockTree::from_store(&store, params(), Vec::new(), NOW).err().unwrap();
    assert_eq!(err, TreeError::Store(StoreError::Corruption { offset: 3 * 84 }));
    store.heal();
    let loaded = BlockTree::from_store(&store, params(), Vec::new(), NOW).unwrap();
    assert_eq!(loaded.height(), 2);
}

#[test]
fn tree_from_store_with_broken_chain() {
    let headers = chain(&genesis(), 3, 1);
    let mut store = HeaderStore::create(false, genesis()).unwrap();
    store.append(&headers[0]).unwrap();
    store.append(&headers[2]).unwrap();
    let err = BlockTree::from_store(&store, params(), Vec::new(), NOW).err().unwrap();
    assert_eq!(err, TreeError::InvalidBlock);
    // a store that holds a header twice
    let mut store = HeaderStore::create(false, genesis()).unwrap();
    store.append(&headers[0]).unwrap();
    store.append(&headers[0]).unwrap();
    let err = BlockTree::from_store(&store, params(), Vec::new(), NOW).err().unwrap();
    assert_eq!(err, TreeError::InvalidBlock);
}

#[test]
fn tree_from_store_checks_rules() {
    let headers = chain(&genesis(), 2, 1);
    let mut store = HeaderStore::create(false, genesis()).unwrap();
    store.append(&headers[0]).unwrap();
    store.append(&headers[1]).unwrap();
    let cps = vec![Checkpoint { height: 2, hash: U256::from_u64(5) }];
    let err = BlockTree::from_store(&store, params(), cps, NOW).err().unwrap();
    assert_eq!(err, TreeError::InvalidCheckpoint);
}

#[test]
fn median_of_times() {
    assert_eq!(median(&vec![5]), 5);
    assert_eq!(median(&vec![5, 1]), 5);
    assert_eq!(median(&vec![3, 1, 2]), 2);
    assert_eq!(median(&vec![9, 1, 8, 2, 7, 3, 6, 4, 5, 11, 10]), 6);
    assert_eq!(median(&vec![4, 4, 1, 4]), 4);
}

#[test]
fn prune_drops_old_branches() {
    let mut t = tree();
    let a = chain(&genesis(), 4, 1);
    t.import(&a, NOW).unwrap();
    // a branch that left the chain at height 1, three below the tip
    let b = chain(&a[0], 2, 2);
    t.import(&b, NOW).unwrap();
    // and one that left it at height 3, one below the tip
    let c = chain(&a[2], 1, 3);
    t.import(&c, NOW).unwrap();
    assert_eq!(t.side_count(), 3);
    let bytes = t.store().as_bytes().clone();
    // branches that left the chain no more than three below the tip stay
    assert_eq!(t.prune(3), 0);
    assert_eq!(t.side_count(), 3);
    // no more than two below: the first branch goes
    assert_eq!(t.prune(2), 2);
    assert_eq!(t.side_count(), 1);
    assert_eq!(t.height(), 4);
    assert_eq!(t.get_tip(), a[3]);
    assert_eq!(t.store().as_bytes(), &bytes);
    assert!(!t.contains(&b[0].hash()));
    assert!(!t.contains(&b[1].hash()));
    assert!(t.contains(&c[0].hash()));
    assert!(t.contains(&a[2].hash()));
    assert_eq!(t.get_hash(2), Some(a[1].hash()));
    assert_eq!(t.prune(2), 0);
    // the branch that stayed can still win
    let more = chain(&c[0], 2, 3);
    match t.import(&more, NOW).unwrap() {
        ImportOutcome::Reorg { tip, height, reverted } => {
            assert_eq!(tip, more[1].hash());
            assert_eq!(height, 6);
            assert_eq!(reverted, vec![a[3]]);
        }
        other => panic!("{:?}", other),
    }
    // a branch that was dropped can come again
    let again = chain(&a[0], 8, 2);
    assert_eq!(again[0], b[0]);
    assert!(matches!(t.import(&again, NOW).unwrap(), ImportOutcome::Reorg { height: 9, .. }));
}

#[test]
fn prune_all_side_branches() {
    let mut t = tree();
    let a = chain(&genesis(), 3, 1);
    t.import(&a, NOW).unwrap();
    let b = chain(&genesis(), 5, 2);
    t.import(&b, NOW).unwrap();
    // the old chain left the new one at genesis, five below the tip
    assert_eq!(t.side_count(), 3);
    assert_eq!(t.prune(5), 0);
    assert_eq!(t.prune(4), 3);
    assert_eq!(t.side_count(), 0);
    assert_eq!(t.get_tip(), b[4]);
    for h in 1..=5u64 {
        assert_eq!(t.get_header(h), Some(b[h as usize - 1]));
        assert_eq!(t.get_hash(h), Some(b[h as usize - 1].hash()));
    }
    assert!(!t.contains(&a[0].hash()));
    assert!(t.contains(&genesis().hash()));
    // the tree goes on as before
    let more = chain(&b[4], 2, 2);
    assert!(matches!(t.import(&more, NOW).unwrap(), ImportOutcome::Advanced { height: 7, .. }));
}

#[test]
fn prune_keeps_children_of_the_tip_side() {
    let mut t = tree();
    let a = chain(&genesis(), 2, 1);
    t.import(&a, NOW).unwrap();
    // two branches of equal work that left the chain just below the tip
    let b = chain(&a[0], 1, 2);
    t.import(&b, NOW).unwrap();
    assert_eq!(t.side_count(), 1);
    assert_eq!(t.prune(0), 1);
    assert_eq!(t.side_count(), 0);
    assert_eq!(t.get_tip(), a[1]);
}
