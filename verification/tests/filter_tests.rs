use nakamoto_client::filter::{filter_header, FilterCache, FilterEntry, FilterError};
use nakamoto_client::hash::hash256;
use nakamoto_client::header::Header;
use nakamoto_client::network::Network;
use nakamoto_client::pow::{check_proof_of_work, target_or_zero};
use nakamoto_client::store::StoreError;
use nakamoto_client::tree::BlockTree;
use nakamoto_client::uint256::U256;

const NOW: u64 = 2_000_000_000;

fn genesis() -> Header {
    Network::Regtest.genesis()
}

fn mine(prev: &Header, salt: u64) -> Header {
    let limit = target_or_zero(0x207fffff);
    let mut header = Header {
        version: 1,
        prev_blockhash: prev.hash(),
        merkle_root: U256::from_u64(salt),
        time: prev.time + 600,
        bits: 0x207fffff,
        nonce: 0,
    };
    while !check_proof_of_work(&header.hash(), 0x207fffff, &limit) {
        header.nonce += 1;
    }
    header
}

fn chain(base: &Header, n: usize, salt: u64) -> Vec<Header> {
    let mut out = Vec::new();
    let mut prev = *base;
    for _ in 0..n {
        let next = mine(&prev, salt);
        out.push(next);
        prev = next;
    }
    out
}

fn tree_with(n: usize) -> (BlockTree, Vec<Header>) {
    let mut t = BlockTree::new(genesis(), Network::Regtest.params(), Vec::new()).unwrap();
    let headers = chain(&genesis(), n, 1);
    t.import(&headers, NOW).unwrap();
    (t, headers)
}

fn first_entry(log: &nakamoto_client::store::RecordLog) -> FilterEntry {
    FilterEntry::decode(&log.get(0).unwrap()).unwrap()
}

fn cache() -> FilterCache {
    FilterCache::new(FilterEntry::genesis(genesis().hash(), U256::from_u64(1000)))
}

#[test]
fn filter_header_is_hash_of_both() {
    let a = U256 { hi: 1, lo: 2 };
    let b = U256 { hi: 3, lo: 4 };
    let mut bytes = a.to_le_bytes();
    bytes.extend_from_slice(&b.to_le_bytes());
    assert_eq!(filter_header(&a, &b), hash256(&bytes));
    assert_ne!(filter_header(&a, &b), filter_header(&b, &a));
}

#[test]
fn genesis_entry_follows_zero_header() {
    let entry = FilterEntry::genesis(U256::from_u64(5), U256::from_u64(6));
    assert_eq!(entry.block_hash, U256::from_u64(5));
    assert_eq!(entry.filter_hash, U256::from_u64(6));
    assert_eq!(entry.header, filter_header(&U256::from_u64(6), &U256::zero()));
}

#[test]
fn entry_round_trip() {
    let entry = FilterEntry {
        block_hash: U256 { hi: 1, lo: 2 },
        filter_hash: U256 { hi: 3, lo: 4 },
        header: U256 { hi: 5, lo: 6 },
    };
    let bytes = entry.encode();
    assert_eq!(bytes.len(), 96);
    assert_eq!(bytes[0], 2);
    assert_eq!(bytes[16], 1);
    assert_eq!(bytes[32], 4);
    assert_eq!(bytes[64], 6);
    assert_eq!(FilterEntry::decode(&bytes), Some(entry));
    assert_eq!(FilterEntry::decode(&bytes[..95]), None);
}

#[test]
fn new_cache_holds_genesis() {
    let c = cache();
    assert_eq!(c.len(), 1);
    assert_eq!(c.as_bytes().len(), 100);
    assert_eq!(c.check(), Ok(()));
    assert_eq!(c.get(0), Some(FilterEntry::genesis(genesis().hash(), U256::from_u64(1000))));
    assert_eq!(c.get(1), None);
}

#[test]
fn append_follows_the_chain() {
    let (t, headers) = tree_with(3);
    let mut c = cache();
    for i in 0..3u64 {
        assert_eq!(c.append(&t, U256::from_u64(1001 + i)), Ok(()));
    }
    assert_eq!(c.len(), 4);
    let first = c.get(0).unwrap();
    let second = c.get(1).unwrap();
    assert_eq!(second.block_hash, headers[0].hash());
    assert_eq!(second.filter_hash, U256::from_u64(1001));
    assert_eq!(second.header, filter_header(&U256::from_u64(1001), &first.header));
    let fourth = c.get(3).unwrap();
    assert_eq!(fourth.block_hash, headers[2].hash());
    assert_eq!(fourth.header, filter_header(&U256::from_u64(1003), &c.get(2).unwrap().header));
    assert_eq!(c.verify(&t), Ok(()));
}

#[test]
fn append_stops_at_the_tip() {
    let (t, _) = tree_with(1);
    let mut c = cache();
    assert_eq!(c.append(&t, U256::from_u64(1)), Ok(()));
    let before = c.as_bytes().clone();
    assert_eq!(c.append(&t, U256::from_u64(2)), Err(FilterError::AheadOfChain));
    assert_eq!(c.as_bytes(), &before);
    assert_eq!(c.len(), 2);
}

#[test]
fn append_stops_when_full() {
    let (t, _) = tree_with(3);
    let mut c = cache();
    c.set_limit(2);
    assert_eq!(c.append(&t, U256::from_u64(1)), Ok(()));
    assert_eq!(c.append(&t, U256::from_u64(2)), Err(FilterError::Store(StoreError::Full)));
    assert_eq!(c.len(), 2);
}

#[test]
fn filter_rollback_drops_the_top() {
    let (t, _) = tree_with(4);
    let mut c = cache();
    for i in 0..4u64 {
        c.append(&t, U256::from_u64(i)).unwrap();
    }
    let third = c.get(2).unwrap();
    c.rollback(2);
    assert_eq!(c.len(), 3);
    assert_eq!(c.get(2), Some(third));
    assert_eq!(c.get(3), None);
    assert_eq!(c.check(), Ok(()));
    // a cache that is no higher stays
    c.rollback(2);
    assert_eq!(c.len(), 3);
    c.rollback(100);
    assert_eq!(c.len(), 3);
    c.rollback(u64::MAX);
    assert_eq!(c.len(), 3);
    c.rollback(0);
    assert_eq!(c.len(), 1);
}

#[test]
fn reorg_realigns_the_cache() {
    let (mut t, a) = tree_with(4);
    let mut c = cache();
    for i in 0..4u64 {
        c.append(&t, U256::from_u64(i)).unwrap();
    }
    assert_eq!(c.verify(&t), Ok(()));
    let b = chain(&a[1], 4, 2);
    let outcome = t.import(&b, NOW).unwrap();
    // the entries above the fork belong to blocks that left the chain
    assert_eq!(c.verify(&t), Err(FilterError::Integrity { height: 3 }));
    let fork = outcome.fork_height(4).unwrap();
    assert_eq!(fork, 2);
    c.rollback(fork);
    assert_eq!(c.len(), 3);
    assert_eq!(c.verify(&t), Ok(()));
    assert_eq!(c.append(&t, U256::from_u64(77)), Ok(()));
    assert_eq!(c.get(3).unwrap().block_hash, b[0].hash());
    assert_eq!(c.verify(&t), Ok(()));
}

#[test]
fn verify_finds_broken_link() {
    let (t, headers) = tree_with(3);
    let mut c = cache();
    for i in 0..2u64 {
        c.append(&t, U256::from_u64(i)).unwrap();
    }
    // an entry whose header does not follow, stored with a good checksum
    let forged = FilterEntry {
        block_hash: headers[2].hash(),
        filter_hash: U256::from_u64(2),
        header: U256::from_u64(12345),
    };
    let mut log = nakamoto_client::store::RecordLog::from_bytes(c.as_bytes().clone(), 96, 10).unwrap();
    log.append(&forged.encode()).unwrap();
    let c = FilterCache::open(log.as_bytes().clone(), first_entry(&log)).unwrap();
    assert_eq!(c.check(), Ok(()));
    assert_eq!(c.verify(&t), Err(FilterError::Integrity { height: 3 }));
}

#[test]
fn verify_finds_wrong_block() {
    let (t, _) = tree_with(2);
    let genesis_entry = FilterEntry::genesis(genesis().hash(), U256::from_u64(1));
    let wrong = FilterEntry {
        block_hash: U256::from_u64(9),
        filter_hash: U256::from_u64(2),
        header: filter_header(&U256::from_u64(2), &genesis_entry.header),
    };
    let mut log = nakamoto_client::store::RecordLog::new(96, 10).unwrap();
    log.append(&genesis_entry.encode()).unwrap();
    log.append(&wrong.encode()).unwrap();
    let c = FilterCache::open(log.as_bytes().clone(), first_entry(&log)).unwrap();
    assert_eq!(c.verify(&t), Err(FilterError::Integrity { height: 1 }));
    // a wrong block at height zero
    let c = FilterCache::new(FilterEntry::genesis(U256::from_u64(9), U256::from_u64(1)));
    assert_eq!(c.verify(&t), Err(FilterError::Integrity { height: 0 }));
}

#[test]
fn verify_passes_entries_above_the_chain() {
    let (t, _) = tree_with(1);
    let mut c = cache();
    c.append(&t, U256::from_u64(1)).unwrap();
    let top = c.get(1).unwrap();
    // an entry for a height that the chain does not have yet
    let above = FilterEntry {
        block_hash: U256::from_u64(9),
        filter_hash: U256::from_u64(2),
        header: filter_header(&U256::from_u64(2), &top.header),
    };
    let mut log = nakamoto_client::store::RecordLog::from_bytes(c.as_bytes().clone(), 96, 10).unwrap();
    log.append(&above.encode()).unwrap();
    let c = FilterCache::open(log.as_bytes().clone(), first_entry(&log)).unwrap();
    assert_eq!(c.verify(&t), Ok(()));
}

#[test]
fn damaged_cache_is_healed() {
    let (t, _) = tree_with(3);
    let mut c = cache();
    for i in 0..3u64 {
        c.append(&t, U256::from_u64(i)).unwrap();
    }
    let mut bytes = c.as_bytes().clone();
    bytes.truncate(3 * 100 + 40);
    let genesis_entry = c.get(0).unwrap();
    let mut c = FilterCache::open(bytes, genesis_entry).unwrap();
    assert_eq!(c.check(), Err(StoreError::Corruption { offset: 300 }));
    assert_eq!(
        c.verify(&t),
        Err(FilterError::Store(StoreError::Corruption { offset: 300 }))
    );
    assert_eq!(c.heal(), 40);
    assert_eq!(c.len(), 3);
    assert_eq!(c.check(), Ok(()));
    assert_eq!(c.verify(&t), Ok(()));
    assert_eq!(c.heal(), 0);
    assert!(!c.recover());
}

#[test]
fn open_cache_checks_genesis() {
    let c = cache();
    let genesis_entry = c.get(0).unwrap();
    let bytes = c.as_bytes().clone();
    assert!(FilterCache::open(bytes.clone(), genesis_entry).is_ok());
    let other = FilterEntry::of_network(&Network::Mainnet);
    assert!(matches!(FilterCache::open(bytes.clone(), other), Err(StoreError::NetworkMismatch)));
    let mut damaged = bytes.clone();
    damaged[0] ^= 1;
    assert!(matches!(
        FilterCache::open(damaged, genesis_entry),
        Err(StoreError::Corruption { offset: 0 })
    ));
    assert!(matches!(
        FilterCache::open(Vec::new(), genesis_entry),
        Err(StoreError::Corruption { offset: 0 })
    ));
}

#[test]
fn recover_heals_when_needed() {
    let (t, _) = tree_with(2);
    let mut c = cache();
    c.append(&t, U256::from_u64(1)).unwrap();
    let genesis_entry = c.get(0).unwrap();
    let mut bytes = c.as_bytes().clone();
    bytes.push(7);
    let mut c = FilterCache::open(bytes, genesis_entry).unwrap();
    assert!(c.recover());
    assert_eq!(c.len(), 2);
    assert_eq!(c.check(), Ok(()));
    assert!(!c.recover());
}

#[test]
fn genesis_filter_headers() {
    let entry = FilterEntry::of_network(&Network::Mainnet);
    assert_eq!(Network::Mainnet.genesis_filter(), vec![0x01, 0x7f, 0xa8, 0x80]);
    assert_eq!(entry.block_hash, Network::Mainnet.genesis_hash());
    assert_eq!(
        entry.filter_hash,
        U256 { hi: 0x68b83ead19e023c91ae25811737541d3, lo: 0x398fc7b5110feb5d4ddb343a6228bf12 }
    );
    assert_eq!(
        entry.header,
        U256 { hi: 0x02c2392180d0ce2b5b6f8b08d39a11ff, lo: 0xe831c673311a3ecf77b97fc3f0303c9f }
    );
    let entry = FilterEntry::of_network(&Network::Regtest);
    assert_eq!(Network::Regtest.genesis_filter(), vec![0x01, 0x47, 0x56, 0xc0]);
    assert_eq!(
        entry.header,
        U256 { hi: 0x485e301e4509d7f0d954bf5b529f3ece, lo: 0xf68c5191fd0e635f775c1d0266dc5a2b }
    );
}
