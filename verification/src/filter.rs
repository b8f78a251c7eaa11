//! The filter-header cache: one record per height of the best chain, each
//! holding the hash of the block's filter and the filter header that chains
//! it to the one before.

use crate::hash::{hash256, spec_hash256};
use crate::header::Header;
use crate::network::Network;
use crate::store::{healthy, payload_at, payloads, valid_at, valid_prefix, RecordLog, StoreError};
use crate::tree::BlockTree;
use crate::uint256::{append_bytes, U256};
use vstd::prelude::*;
use vstd::slice::slice_subrange;

verus! {

/// Length of an encoded filter record's payload in bytes.
pub const FILTER_ENTRY_SIZE: usize = 96;

/// What the cache holds for one height.
#[derive(Clone, Copy, Debug, PartialEq, Eq, Structural)]
pub struct FilterEntry {
    /// Hash of the block that the filter belongs to.
    pub block_hash: U256,
    /// Hash of the block's filter.
    pub filter_hash: U256,
    /// The filter header: the hash of the filter hash and the filter header
    /// of the height below.
    pub header: U256,
}

/// What can go wrong with the filter cache.
#[derive(Clone, Copy, Debug, PartialEq, Eq, Structural)]
pub enum FilterError {
    /// The entry at `height` does not follow the one below it, or belongs
    /// to another block than the best chain's.
    Integrity { height: u64 },
    /// The best chain has no block yet at the next height of the cache.
    AheadOfChain,
    /// The store below the cache failed.
    Store(StoreError),
}

/// The filter header that follows `prev` for a filter with the given hash.
pub open spec fn spec_filter_header(filter_hash: U256, prev: U256) -> U256 {
    spec_hash256(filter_hash.spec_to_le_bytes() + prev.spec_to_le_bytes())
}

/// The filter header that follows `prev` for a filter with the given hash.
pub fn filter_header(filter_hash: &U256, prev: &U256) -> (r: U256)
    ensures
        r == spec_filter_header(*filter_hash, *prev),
{
    let mut bytes: Vec<u8> = filter_hash.to_le_bytes();
    let tail: Vec<u8> = prev.to_le_bytes();
    append_bytes(&mut bytes, tail.as_slice());
    hash256(bytes.as_slice())
}

impl FilterEntry {
    /// The 96 bytes of an entry: block hash, filter hash and filter header.
    pub open spec fn spec_encode(self) -> Seq<u8> {
        self.block_hash.spec_to_le_bytes() + self.filter_hash.spec_to_le_bytes()
            + self.header.spec_to_le_bytes()
    }

    /// The entry that 96 bytes stand for.
    pub open spec fn spec_decode(b: Seq<u8>) -> FilterEntry {
        FilterEntry {
            block_hash: U256::spec_from_le_bytes(b.subrange(0, 32)),
            filter_hash: U256::spec_from_le_bytes(b.subrange(32, 64)),
            header: U256::spec_from_le_bytes(b.subrange(64, 96)),
        }
    }

    /// An encoded entry is 96 bytes long, and decoding it gives the entry
    /// back.
    pub proof fn lemma_decode_encode(self)
        ensures
            self.spec_encode().len() == 96,
            FilterEntry::spec_decode(self.spec_encode()) == self,
    {
        self.block_hash.lemma_bytes_round_trip();
        self.filter_hash.lemma_bytes_round_trip();
        self.header.lemma_bytes_round_trip();
        let b = self.spec_encode();
        assert(b.subrange(0, 32) == self.block_hash.spec_to_le_bytes());
        assert(b.subrange(32, 64) == self.filter_hash.spec_to_le_bytes());
        assert(b.subrange(64, 96) == self.header.spec_to_le_bytes());
    }

    /// Encodes the entry in its 96 bytes.
    pub fn encode(&self) -> (out: Vec<u8>)
        ensures
            out@ == self.spec_encode(),
            out@.len() == 96,
    {
        let mut out: Vec<u8> = self.block_hash.to_le_bytes();
        let mid: Vec<u8> = self.filter_hash.to_le_bytes();
        append_bytes(&mut out, mid.as_slice());
        let tail: Vec<u8> = self.header.to_le_bytes();
        append_bytes(&mut out, tail.as_slice());
        out
    }

    /// Decodes an entry from its 96 bytes; `None` for any other length.
    pub fn decode(b: &[u8]) -> (r: Option<FilterEntry>)
        ensures
            r == if b@.len() == 96 {
                Some(FilterEntry::spec_decode(b@))
            } else {
                None
            },
    {
        if b.len() != 96 {
            return None;
        }
        let block_hash: U256 = U256::from_le_bytes(slice_subrange(b, 0, 32));
        let filter_hash: U256 = U256::from_le_bytes(slice_subrange(b, 32, 64));
        let header: U256 = U256::from_le_bytes(slice_subrange(b, 64, 96));
        Some(FilterEntry { block_hash, filter_hash, header })
    }

    /// The entry at height zero of a network: that of its genesis block
    /// and the hash of that block's filter.
    pub fn of_network(network: &Network) -> (r: FilterEntry)
        ensures
            r == (FilterEntry {
                block_hash: network.spec_genesis().spec_hash(),
                filter_hash: spec_hash256(network.spec_genesis_filter()),
                header: spec_filter_header(
                    spec_hash256(network.spec_genesis_filter()),
                    U256 { hi: 0, lo: 0 },
                ),
            }),
    {
        let filter: Vec<u8> = network.genesis_filter();
        FilterEntry::genesis(network.genesis_hash(), hash256(filter.as_slice()))
    }

    /// The entry at height zero for a genesis block with the given hash and
    /// filter hash: its filter header follows the zero header.
    pub fn genesis(block_hash: U256, filter_hash: U256) -> (r: FilterEntry)
        ensures
            r == (FilterEntry {
                block_hash,
                filter_hash,
                header: spec_filter_header(filter_hash, U256 { hi: 0, lo: 0 }),
            }),
    {
        let header: U256 = filter_header(&filter_hash, &U256::zero());
        FilterEntry { block_hash, filter_hash, header }
    }
}

/// The entries that a healthy cache of `data` holds, in order of height.
pub open spec fn entries_of(data: Seq<u8>) -> Seq<FilterEntry> {
    Seq::new((data.len() / 100) as nat, |i: int| FilterEntry::spec_decode(payload_at(data, 96, i)))
}

/// The filter header that entry `i` must follow.
pub open spec fn spec_prev_header(entries: Seq<FilterEntry>, i: int) -> U256 {
    if i == 0 {
        U256 { hi: 0, lo: 0 }
    } else {
        entries[i - 1].header
    }
}

/// Entry `i` follows the entry below it, and belongs to the block of the
/// chain at its height where the chain is that high.
pub open spec fn spec_entry_ok(entries: Seq<FilterEntry>, chain: Seq<Header>, i: int) -> bool {
    &&& entries[i].header == spec_filter_header(entries[i].filter_hash, spec_prev_header(entries, i))
    &&& i < chain.len() ==> entries[i].block_hash == chain[i].spec_hash()
}

/// Every entry follows the one below it and belongs to the chain's block at
/// its height, where the chain is that high.
pub open spec fn spec_consistent(entries: Seq<FilterEntry>, chain: Seq<Header>) -> bool {
    forall|i: int| 0 <= i < entries.len() ==> #[trigger] spec_entry_ok(entries, chain, i)
}

/// The error that the verification of a cache of `data` against a chain
/// ends with: the store's `Corruption`, at the offset of the first byte
/// that belongs to no valid record, where the cache is not healthy; else
/// `Integrity` at the first height whose entry is wrong.
pub open spec fn spec_verify_error(data: Seq<u8>, chain: Seq<Header>, e: FilterError) -> bool {
    if !healthy(data, 96) {
        exists|n: int|
            {
                &&& #[trigger] crate::store::is_valid_count(data, 96, n)
                &&& e == FilterError::Store(StoreError::Corruption { offset: (n * 100) as usize })
            }
    } else {
        exists|h: int|
            {
                &&& 0 <= h < entries_of(data).len()
                &&& !#[trigger] spec_entry_ok(entries_of(data), chain, h)
                &&& forall|i: int| 0 <= i < h ==> #[trigger] spec_entry_ok(entries_of(data), chain, i)
                &&& e == (FilterError::Integrity { height: h as u64 })
            }
    }
}

/// The cache is consistent with the chain and no higher than it.
pub open spec fn spec_aligned(entries: Seq<FilterEntry>, chain: Seq<Header>) -> bool {
    spec_consistent(entries, chain) && entries.len() <= chain.len()
}

/// A cache that is aligned with a chain stays aligned, once it is cut back
/// to the fork, with any chain that agrees with the first up to the fork.
pub proof fn lemma_rollback_aligned(
    entries: Seq<FilterEntry>,
    old: Seq<Header>,
    new: Seq<Header>,
    keep: int,
)
    requires
        spec_aligned(entries, old),
        0 <= keep <= old.len(),
        keep <= new.len(),
        old.take(keep) == new.take(keep),
    ensures
        spec_aligned(
            if keep < entries.len() {
                entries.take(keep)
            } else {
                entries
            },
            new,
        ),
{
    let cut = if keep < entries.len() {
        entries.take(keep)
    } else {
        entries
    };
    assert forall|i: int| 0 <= i < cut.len() implies #[trigger] spec_entry_ok(cut, new, i) by {
        assert(spec_entry_ok(entries, old, i));
        assert(old.take(keep)[i] == old[i]);
        assert(new.take(keep)[i] == new[i]);
    }
}

/// The filter-header cache.
pub struct FilterCache {
    log: RecordLog,
}

impl FilterCache {
    /// The bytes of the cache, as they are written out.
    pub closed spec fn bytes(&self) -> Seq<u8> {
        self.log.bytes()
    }

    /// The number of entries that the cache may hold.
    pub closed spec fn spec_limit(&self) -> nat {
        self.log.spec_limit()
    }

    /// The log below the cache is one of 96-byte payloads.
    pub closed spec fn wf(&self) -> bool {
        self.log.wf() && self.log.spec_width() == 96
    }

    /// The cache is a whole number of valid records.
    pub open spec fn spec_healthy(&self) -> bool {
        healthy(self.bytes(), 96)
    }

    /// The entries of the cache's record slots, in order of height.
    pub open spec fn spec_entries(&self) -> Seq<FilterEntry> {
        entries_of(self.bytes())
    }

    /// A new cache that holds the entry of the genesis block alone.
    pub fn new(genesis: FilterEntry) -> (r: FilterCache)
        ensures
            r.wf(),
            r.spec_healthy(),
            r.spec_entries() == seq![genesis],
            r.spec_limit() == usize::MAX,
    {
        let mut log: RecordLog = RecordLog::new(96, usize::MAX).unwrap();
        let payload: Vec<u8> = genesis.encode();
        let ghost before = log.bytes();
        proof {
            crate::store::lemma_slots(0, 0, 100);
        }
        let _ = log.append(payload.as_slice());
        let cache = FilterCache { log };
        proof {
            assert(before + crate::store::spec_record(payload@) == crate::store::spec_record(
                payload@,
            ));
            assert(cache.bytes().len() == 100);
            genesis.lemma_decode_encode();
            assert(valid_at(cache.bytes(), 96, 0));
            assert(payload_at(cache.bytes(), 96, 0) == payload@);
            assert(cache.spec_entries() =~= seq![genesis]);
        }
        cache
    }

    /// Opens a cache over bytes that were stored earlier. Fails with
    /// `Corruption` at offset 0 where the bytes do not begin with a valid
    /// record, and with `NetworkMismatch` where that record is not
    /// `genesis`.
    pub fn open(bytes: Vec<u8>, genesis: FilterEntry) -> (r: Result<FilterCache, StoreError>)
        ensures
            !valid_at(bytes@, 96, 0) ==> r == Err::<FilterCache, StoreError>(
                StoreError::Corruption { offset: 0 },
            ),
            valid_at(bytes@, 96, 0) && FilterEntry::spec_decode(payload_at(bytes@, 96, 0))
                != genesis ==> r == Err::<FilterCache, StoreError>(StoreError::NetworkMismatch),
            valid_at(bytes@, 96, 0) && FilterEntry::spec_decode(payload_at(bytes@, 96, 0))
                == genesis ==> r is Ok,
            r matches Ok(cache) ==> {
                &&& cache.wf()
                &&& cache.bytes() == bytes@
                &&& cache.spec_limit() == usize::MAX
            },
    {
        let log: RecordLog = RecordLog::from_bytes(bytes, 96, usize::MAX).unwrap();
        match log.get(0) {
            None => Err(StoreError::Corruption { offset: 0 }),
            Some(payload) => {
                let first: FilterEntry = FilterEntry::decode(payload.as_slice()).unwrap();
                if first == genesis {
                    Ok(FilterCache { log })
                } else {
                    Err(StoreError::NetworkMismatch)
                }
            },
        }
    }

    /// The bytes of the cache, to be written out.
    pub fn as_bytes(&self) -> (r: &Vec<u8>)
        ensures
            r@ == self.bytes(),
    {
        self.log.as_bytes()
    }

    /// Changes the number of entries that the cache may hold.
    pub fn set_limit(&mut self, limit: usize)
        ensures
            final(self).bytes() == old(self).bytes(),
            final(self).wf() == old(self).wf(),
            final(self).spec_limit() == limit,
    {
        self.log.set_limit(limit);
    }

    /// The number of record slots in the cache.
    pub fn len(&self) -> (r: usize)
        requires
            self.wf(),
        ensures
            r == self.spec_entries().len(),
    {
        self.log.len()
    }

    /// Checks that the cache is a whole number of valid records. Where it
    /// is not, the error gives the offset of the first byte that belongs to
    /// no valid record.
    pub fn check(&self) -> (r: Result<(), StoreError>)
        requires
            self.wf(),
        ensures
            r is Ok <==> self.spec_healthy(),
            r matches Err(e) ==> exists|n: int|
                {
                    &&& #[trigger] crate::store::is_valid_count(self.bytes(), 96, n)
                    &&& e == (StoreError::Corruption { offset: (n * 100) as usize })
                },
    {
        let r: Result<(), StoreError> = self.log.check();
        proof {
            if r is Err {
                let e = r->Err_0;
                let n = choose|n: int|
                    {
                        &&& #[trigger] crate::store::is_valid_count(
                            self.log.bytes(),
                            self.log.spec_width(),
                            n,
                        )
                        &&& e == (StoreError::Corruption {
                            offset: (n * (self.log.spec_width() + 4)) as usize,
                        })
                    };
                assert(n * (self.log.spec_width() + 4) == n * 100);
                assert(crate::store::is_valid_count(self.bytes(), 96, n));
            }
        }
        r
    }

    /// Cuts the cache back to the valid records that it begins with, and
    /// returns the number of bytes that were dropped.
    pub fn heal(&mut self) -> (dropped: usize)
        requires
            old(self).wf(),
        ensures
            final(self).wf(),
            final(self).spec_limit() == old(self).spec_limit(),
            final(self).spec_healthy(),
            final(self).bytes() == old(self).bytes().subrange(0, final(self).bytes().len() as int),
            final(self).bytes().len() + dropped == old(self).bytes().len(),
            crate::store::is_valid_count(
                old(self).bytes(),
                96,
                final(self).spec_entries().len() as int,
            ),
            old(self).spec_healthy() ==> final(self).bytes() == old(self).bytes(),
    {
        self.log.heal()
    }

    /// Checks the cache and heals it where the check fails; says whether
    /// it had to heal.
    pub fn recover(&mut self) -> (healed: bool)
        requires
            old(self).wf(),
        ensures
            final(self).wf(),
            final(self).spec_limit() == old(self).spec_limit(),
            final(self).spec_healthy(),
            healed == !old(self).spec_healthy(),
            final(self).bytes() == old(self).bytes().subrange(0, final(self).bytes().len() as int),
            crate::store::is_valid_count(
                old(self).bytes(),
                96,
                final(self).spec_entries().len() as int,
            ),
            !healed ==> final(self).bytes() == old(self).bytes(),
    {
        if self.check().is_err() {
            self.heal();
            true
        } else {
            proof {
                assert(self.bytes().subrange(0, self.bytes().len() as int) == self.bytes());
                let n = self.spec_entries().len() as int;
                assert(n == self.bytes().len() as int / 100);
                assert(self.bytes().len() % 100 == 0);
                assert(n * 100 + 100 > self.bytes().len());
                assert(!valid_at(self.bytes(), 96, n));
            }
            false
        }
    }

    /// The entry at `height`, where the record there is valid.
    pub fn get(&self, height: u64) -> (r: Option<FilterEntry>)
        requires
            self.wf(),
        ensures
            r is Some <==> valid_at(self.bytes(), 96, height as int),
            r matches Some(e) ==> e == FilterEntry::spec_decode(
                payload_at(self.bytes(), 96, height as int),
            ),
            self.spec_healthy() ==> (r is Some <==> height < self.spec_entries().len()),
            self.spec_healthy() && height < self.spec_entries().len() ==> r == Some(
                self.spec_entries()[height as int],
            ),
    {
        proof {
            if self.spec_healthy() {
                let total = self.bytes().len() as int / 100;
                if height < total {
                    assert(valid_at(self.bytes(), 96, height as int));
                }
            }
        }
        let slots: usize = self.log.len();
        if height >= slots as u64 {
            return None;
        }
        match self.log.get(height as usize) {
            None => None,
            Some(payload) => FilterEntry::decode(payload.as_slice()),
        }
    }

    /// Walks the cache from height zero and checks every entry: that its
    /// filter header follows the one below it, and, where the best chain
    /// has a block at its height, that it belongs to that block. Fails with
    /// the store's `Corruption` where the cache is not healthy, and else with
    /// `Integrity` at the first height that is wrong.
    pub fn verify(&self, tree: &BlockTree) -> (r: Result<(), FilterError>)
        requires
            self.wf(),
            tree.wf(),
        ensures
            r is Ok <==> self.spec_healthy() && spec_consistent(
                self.spec_entries(),
                tree.spec_best_chain(),
            ),
            r matches Err(e) ==> spec_verify_error(self.bytes(), tree.spec_best_chain(), e),
    {
        match self.check() {
            Err(e) => {
                proof {
                    let n = choose|n: int|
                        {
                            &&& #[trigger] crate::store::is_valid_count(self.bytes(), 96, n)
                            &&& e == (StoreError::Corruption { offset: (n * 100) as usize })
                        };
                    assert(crate::store::is_valid_count(self.bytes(), 96, n));
                }
                return Err(FilterError::Store(e));
            },
            Ok(_) => {},
        }
        proof {
            tree.lemma_best_chain();
        }
        let n: usize = self.log.len();
        let mut prev: U256 = U256::zero();
        let mut i: usize = 0;
        while i < n
            invariant
                self.wf(),
                tree.wf(),
                self.spec_healthy(),
                n == self.spec_entries().len(),
                i <= n,
                prev == spec_prev_header(self.spec_entries(), i as int),
                tree.spec_best_chain().len() == tree.spec_height() + 1,
                forall|k: int|
                    0 <= k < i ==> #[trigger] spec_entry_ok(
                        self.spec_entries(),
                        tree.spec_best_chain(),
                        k,
                    ),
            decreases n - i,
        {
            let entry: FilterEntry = self.get(i as u64).unwrap();
            let expected: U256 = filter_header(&entry.filter_hash, &prev);
            let block: Option<U256> = tree.get_hash(i as u64);
            let committed: bool = match block {
                Some(hash) => hash == entry.block_hash,
                None => true,
            };
            if expected != entry.header || !committed {
                assert(!spec_entry_ok(self.spec_entries(), tree.spec_best_chain(), i as int));
                assert(spec_verify_error(
                    self.bytes(),
                    tree.spec_best_chain(),
                    FilterError::Integrity { height: i as u64 },
                ));
                return Err(FilterError::Integrity { height: i as u64 });
            }
            assert(spec_entry_ok(self.spec_entries(), tree.spec_best_chain(), i as int));
            prev = entry.header;
            i = i + 1;
        }
        Ok(())
    }

    /// Appends the entry for the next height, for a filter with the given
    /// hash. Fails with `AheadOfChain`, and changes nothing, where the best
    /// chain has no block at that height, and with the store's `Full` where
    /// the cache holds as many entries as it may.
    pub fn append(&mut self, tree: &BlockTree, filter_hash: U256) -> (r: Result<(), FilterError>)
        requires
            old(self).wf(),
            old(self).spec_healthy(),
            tree.wf(),
        ensures
            final(self).wf(),
            final(self).spec_healthy(),
            final(self).spec_limit() == old(self).spec_limit(),
            ({
                let entries = old(self).spec_entries();
                let chain = tree.spec_best_chain();
                let h = entries.len() as int;
                let entry = FilterEntry {
                    block_hash: chain[h].spec_hash(),
                    filter_hash,
                    header: spec_filter_header(filter_hash, spec_prev_header(entries, h)),
                };
                match r {
                    Ok(_) => {
                        &&& h < chain.len()
                        &&& h < old(self).spec_limit()
                        &&& final(self).spec_entries() == entries.push(entry)
                        &&& spec_aligned(entries, chain) ==> spec_aligned(
                            final(self).spec_entries(),
                            chain,
                        )
                    },
                    Err(e) => {
                        &&& final(self).bytes() == old(self).bytes()
                        &&& e == if h >= chain.len() {
                            FilterError::AheadOfChain
                        } else {
                            FilterError::Store(StoreError::Full)
                        }
                        &&& h >= chain.len() || h >= old(self).spec_limit()
                    },
                }
            }),
    {
        proof {
            tree.lemma_best_chain();
        }
        let n: usize = self.log.len();
        let block_hash: U256 = match tree.get_hash(n as u64) {
            None => {
                return Err(FilterError::AheadOfChain);
            },
            Some(hash) => hash,
        };
        let prev: U256 = if n == 0 {
            U256::zero()
        } else {
            self.get((n - 1) as u64).unwrap().header
        };
        let entry = FilterEntry {
            block_hash,
            filter_hash,
            header: filter_header(&filter_hash, &prev),
        };
        let payload: Vec<u8> = entry.encode();
        let ghost before = self.spec_entries();
        match self.log.append(payload.as_slice()) {
            Err(e) => Err(FilterError::Store(e)),
            Ok(_) => {
                proof {
                    entry.lemma_decode_encode();
                    let a = self.spec_entries();
                    let b = before.push(entry);
                    assert(a.len() == b.len());
                    assert forall|i: int| 0 <= i < a.len() implies a[i] == b[i] by {
                        assert(payloads(self.bytes(), 96)[i] == payload_at(self.bytes(), 96, i));
                        if i < b.len() - 1 {
                            assert(payloads(old(self).bytes(), 96)[i] == payload_at(
                                old(self).bytes(),
                                96,
                                i,
                            ));
                        }
                    }
                    assert(a =~= b);
                    let chain = tree.spec_best_chain();
                    if spec_aligned(before, chain) {
                        assert forall|i: int| 0 <= i < a.len() implies #[trigger] spec_entry_ok(
                            a,
                            chain,
                            i,
                        ) by {
                            if i < before.len() {
                                assert(spec_entry_ok(before, chain, i));
                            }
                        }
                    }
                }
                Ok(())
            },
        }
    }

    /// Drops every entry above `height`; a cache that is no higher stays as
    /// it is.
    pub fn rollback(&mut self, height: u64)
        requires
            old(self).wf(),
            old(self).spec_healthy(),
        ensures
            final(self).wf(),
            final(self).spec_healthy(),
            final(self).spec_limit() == old(self).spec_limit(),
            final(self).spec_entries() == if height + 1 < old(self).spec_entries().len() {
                old(self).spec_entries().take(height + 1)
            } else {
                old(self).spec_entries()
            },
    {
        let n: usize = self.log.len();
        if height >= n as u64 || height + 1 >= n as u64 {
            return ;
        }
        let keep: usize = (height + 1) as usize;
        let ghost before = self.spec_entries();
        proof {
            assert(valid_prefix(self.bytes(), 96, keep as int));
        }
        self.log.truncate(keep);
        proof {
            let a = self.spec_entries();
            let b = before.take(keep as int);
            assert(a.len() == b.len());
            assert forall|i: int| 0 <= i < a.len() implies a[i] == b[i] by {
                assert(payloads(self.bytes(), 96)[i] == payload_at(self.bytes(), 96, i));
                assert(payloads(old(self).bytes(), 96)[i] == payload_at(old(self).bytes(), 96, i));
            }
            assert(a =~= b);
        }
    }
}

} // verus!
