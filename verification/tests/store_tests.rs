use nakamoto_client::header::Header;
use nakamoto_client::network::Network;
use nakamoto_client::store::{bytes_equal, HeaderStore, RecordLog, StoreError};
use nakamoto_client::uint256::U256;

fn genesis() -> Header {
    Network::Regtest.genesis()
}

fn header(n: u32) -> Header {
    Header {
        version: 1,
        prev_blockhash: U256::from_u64(n as u64),
        merkle_root: U256::from_u64(7),
        time: 1_600_000_000 + n,
        bits: 0x207fffff,
        nonce: n,
    }
}

fn store_with(n: u32) -> HeaderStore {
    let mut store = HeaderStore::create(false, genesis()).unwrap();
    for i in 1..=n {
        store.append(&header(i)).unwrap();
    }
    store
}

#[test]
fn create_fresh_store() {
    let store = HeaderStore::create(false, genesis()).unwrap();
    assert_eq!(store.height(), 0);
    assert_eq!(store.len(), 1);
    assert_eq!(store.as_bytes().len(), 84);
    assert_eq!(&store.as_bytes()[..80], &genesis().encode()[..]);
    assert_eq!(store.check(), Ok(()));
    assert_eq!(store.get(0), Some(genesis()));
    assert_eq!(store.get(1), None);
    assert_eq!(store.limit(), usize::MAX);
}

#[test]
fn create_fails_when_store_exists() {
    assert!(matches!(HeaderStore::create(true, genesis()), Err(StoreError::AlreadyExists)));
}

#[test]
fn open_existing_store() {
    let bytes = store_with(3).as_bytes().clone();
    let store = HeaderStore::open(bytes, genesis()).unwrap();
    assert_eq!(store.height(), 3);
    assert_eq!(store.check(), Ok(()));
    assert_eq!(store.get(2), Some(header(2)));
}

#[test]
fn open_refuses_other_network() {
    let bytes = store_with(2).as_bytes().clone();
    let other = Network::Mainnet.genesis();
    assert!(matches!(HeaderStore::open(bytes, other), Err(StoreError::NetworkMismatch)));
}

#[test]
fn open_refuses_damaged_genesis() {
    let mut bytes = store_with(1).as_bytes().clone();
    bytes[5] ^= 0xff;
    assert!(matches!(
        HeaderStore::open(bytes, genesis()),
        Err(StoreError::Corruption { offset: 0 })
    ));
    assert!(matches!(
        HeaderStore::open(vec![0u8; 83], genesis()),
        Err(StoreError::Corruption { offset: 0 })
    ));
    assert!(matches!(
        HeaderStore::open(Vec::new(), genesis()),
        Err(StoreError::Corruption { offset: 0 })
    ));
}

#[test]
fn open_or_create_chooses() {
    let fresh = HeaderStore::open_or_create(None, genesis()).unwrap();
    assert_eq!(fresh.height(), 0);
    let bytes = store_with(4).as_bytes().clone();
    let opened = HeaderStore::open_or_create(Some(bytes), genesis()).unwrap();
    assert_eq!(opened.height(), 4);
    let bytes = store_with(4).as_bytes().clone();
    assert!(matches!(
        HeaderStore::open_or_create(Some(bytes), Network::Mainnet.genesis()),
        Err(StoreError::NetworkMismatch)
    ));
}

#[test]
fn append_and_read_by_height() {
    let store = store_with(5);
    assert_eq!(store.height(), 5);
    assert_eq!(store.as_bytes().len(), 6 * 84);
    for i in 1..=5u32 {
        assert_eq!(store.get(i as u64), Some(header(i)));
    }
    assert_eq!(store.get(6), None);
    assert_eq!(store.get(u64::MAX), None);
    // the record of height 2 lies at offset 2 * 84
    assert_eq!(&store.as_bytes()[168..248], &header(2).encode()[..]);
}

#[test]
fn rollback_drops_the_top() {
    let mut store = store_with(5);
    store.rollback(2);
    assert_eq!(store.height(), 2);
    assert_eq!(store.get(2), Some(header(2)));
    assert_eq!(store.get(3), None);
    assert_eq!(store.check(), Ok(()));
    store.rollback(2);
    assert_eq!(store.height(), 2);
    store.rollback(0);
    assert_eq!(store.height(), 0);
    assert_eq!(store.get(0), Some(genesis()));
}

#[test]
fn truncated_final_record_is_healed() {
    let mut bytes = store_with(3).as_bytes().clone();
    // a fifth record of which only 30 bytes were written
    bytes.extend_from_slice(&header(4).encode()[..30]);
    let mut store = HeaderStore::open(bytes, genesis()).unwrap();
    assert_eq!(store.check(), Err(StoreError::Corruption { offset: 4 * 84 }));
    let dropped = store.heal();
    assert_eq!(dropped, 30);
    assert_eq!(store.height(), 3);
    assert_eq!(store.as_bytes().len(), 4 * 84);
    assert_eq!(store.check(), Ok(()));
    assert_eq!(store.get(3), Some(header(3)));
}

#[test]
fn damaged_record_is_healed() {
    let mut bytes = store_with(5).as_bytes().clone();
    // one bit of the header at height 3
    bytes[3 * 84 + 10] ^= 1;
    let mut store = HeaderStore::open(bytes, genesis()).unwrap();
    assert_eq!(store.check(), Err(StoreError::Corruption { offset: 3 * 84 }));
    assert_eq!(store.get(3), None);
    assert_eq!(store.get(4), Some(header(4)));
    let dropped = store.heal();
    assert_eq!(dropped, 3 * 84);
    assert_eq!(store.height(), 2);
    assert_eq!(store.check(), Ok(()));
}

#[test]
fn damaged_checksum_is_found() {
    let mut bytes = store_with(2).as_bytes().clone();
    // the last byte of the checksum at height 1
    bytes[2 * 84 - 1] ^= 0x80;
    let store = HeaderStore::open(bytes, genesis()).unwrap();
    assert_eq!(store.check(), Err(StoreError::Corruption { offset: 84 }));
}

#[test]
fn heal_leaves_healthy_store_alone() {
    let mut store = store_with(4);
    let before = store.as_bytes().clone();
    assert_eq!(store.heal(), 0);
    assert_eq!(store.as_bytes(), &before);
    assert_eq!(store.heal(), 0);
    assert_eq!(store.height(), 4);
}

#[test]
fn heal_never_raises_height() {
    let mut bytes = store_with(6).as_bytes().clone();
    bytes[84 + 3] ^= 0x10;
    bytes.push(0);
    let mut store = HeaderStore::open(bytes, genesis()).unwrap();
    let before = store.height();
    store.heal();
    assert!(store.height() <= before);
    assert_eq!(store.height(), 0);
    assert_eq!(store.check(), Ok(()));
}

#[test]
fn full_store_takes_no_more() {
    let mut store = store_with(2);
    store.set_limit(3);
    assert_eq!(store.limit(), 3);
    let before = store.as_bytes().clone();
    assert_eq!(store.append(&header(3)), Err(StoreError::Full));
    assert_eq!(store.as_bytes(), &before);
    store.set_limit(4);
    assert_eq!(store.append(&header(3)), Ok(()));
    assert_eq!(store.height(), 3);
}

#[test]
fn record_log_widths() {
    assert!(RecordLog::new(0, 10).is_none());
    assert!(RecordLog::new(4097, 10).is_none());
    assert!(RecordLog::new(4096, 10).is_some());
    assert!(RecordLog::from_bytes(vec![1, 2, 3], 0, 10).is_none());
}

#[test]
fn record_log_round_trip() {
    let mut log = RecordLog::new(3, 2).unwrap();
    assert_eq!(log.len(), 0);
    assert_eq!(log.check(), Ok(()));
    assert_eq!(log.append(&[1, 2, 3]), Ok(()));
    assert_eq!(log.append(&[4, 5, 6]), Ok(()));
    assert_eq!(log.append(&[7, 8, 9]), Err(StoreError::Full));
    assert_eq!(log.len(), 2);
    assert_eq!(log.width(), 3);
    assert_eq!(log.limit(), 2);
    assert_eq!(log.as_bytes().len(), 14);
    assert_eq!(log.get(0), Some(vec![1, 2, 3]));
    assert_eq!(log.get(1), Some(vec![4, 5, 6]));
    assert_eq!(log.get(2), None);
    assert_eq!(log.valid_records(), 2);
    log.truncate(1);
    assert_eq!(log.len(), 1);
    assert_eq!(log.get(1), None);
    let mut bytes = log.as_bytes().clone();
    bytes.extend_from_slice(&[9, 9, 9, 0, 0, 0, 0]);
    let mut damaged = RecordLog::from_bytes(bytes, 3, 5).unwrap();
    assert_eq!(damaged.len(), 2);
    assert_eq!(damaged.valid_records(), 1);
    assert_eq!(damaged.check(), Err(StoreError::Corruption { offset: 7 }));
    assert_eq!(damaged.heal(), 7);
    assert_eq!(damaged.check(), Ok(()));
}

#[test]
fn bytes_are_compared_whole() {
    assert!(bytes_equal(&[], &[]));
    assert!(bytes_equal(&[1, 2], &[1, 2]));
    assert!(!bytes_equal(&[1, 2], &[1, 3]));
    assert!(!bytes_equal(&[1, 2], &[1, 2, 3]));
}

#[test]
fn recover_checks_then_heals() {
    let mut store = store_with(3);
    assert!(!store.recover());
    assert_eq!(store.height(), 3);
    let mut bytes = store.as_bytes().clone();
    bytes.truncate(3 * 84 + 83);
    let mut store = HeaderStore::open(bytes, genesis()).unwrap();
    assert!(store.recover());
    assert_eq!(store.height(), 2);
    assert_eq!(store.check(), Ok(()));
    assert!(!store.recover());
}

#[test]
fn opened_or_created_store_has_no_limit() {
    let fresh = HeaderStore::open_or_create(None, genesis()).unwrap();
    assert_eq!(fresh.limit(), usize::MAX);
    let mut limited = store_with(2);
    limited.set_limit(3);
    let opened = HeaderStore::open_or_create(Some(limited.as_bytes().clone()), genesis()).unwrap();
    assert_eq!(opened.limit(), usize::MAX);
}
