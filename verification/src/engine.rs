//! The engine that owns the block tree, the filter cache and the
//! synchronisation manager, and keeps the three in step.

use crate::filter::{lemma_rollback_aligned, spec_aligned, FilterCache, FilterEntry, FilterError};
use crate::handle::{spec_views, Event, EventView};
use crate::header::Header;
use crate::rules::TreeError;
use crate::sync::{
    spec_after_import, spec_answers, spec_choice, spec_has_choice, spec_nothing, spec_on_chain,
    spec_on_disconnect, spec_on_peer, spec_on_tick, spec_session_of, spec_verdict, view_wf,
    Decision, Range, Request, SyncManager, SyncView,
};
use crate::tree::{
    lemma_common_prefix, spec_change, spec_common_len, spec_import, BlockTree, Change,
    ImportOutcome, ImportReport,
};
use crate::uint256::U256;
use vstd::prelude::*;

verus! {

/// The filter entries that stay when the best chain `old` gives way to the
/// best chain `new`: those up to the last header that the two have in
/// common.
pub open spec fn spec_realigned(
    entries: Seq<FilterEntry>,
    old: Seq<Header>,
    new: Seq<Header>,
) -> Seq<FilterEntry> {
    let common = spec_common_len(old, new);
    if common < entries.len() {
        entries.take(common as int)
    } else {
        entries
    }
}

/// Filter entries that are aligned with a best chain are aligned, once
/// those above the fork are dropped, with the best chain that takes its
/// place.
pub proof fn lemma_realigned(entries: Seq<FilterEntry>, old: Seq<Header>, new: Seq<Header>)
    requires
        spec_aligned(entries, old),
    ensures
        spec_aligned(spec_realigned(entries, old, new), new),
{
    lemma_common_prefix(old, new);
    lemma_rollback_aligned(entries, old, new, spec_common_len(old, new) as int);
}

/// What the handles of the client are told after an event: that the best
/// chain has a new tip, where it has one, with the headers that a
/// reorganisation reverted; and then that the client is synced, where it
/// has just become so.
pub open spec fn spec_events(change: Change, decision: Decision, tip: U256) -> Seq<EventView> {
    let moved = match change {
        Change::Unchanged => Seq::<EventView>::empty(),
        Change::Advanced { tip, height } => seq![
            EventView::TipChanged {
                hash: tip,
                height: height as u64,
                reverted: Seq::<Header>::empty(),
            },
        ],
        Change::Reorg { tip, height, reverted } => seq![
            EventView::TipChanged { hash: tip, height: height as u64, reverted },
        ],
    };
    match decision.synced {
        Some(height) => moved.push(EventView::Synced { hash: tip, height }),
        None => moved,
    }
}

/// A copy of the headers.
fn copy_headers(headers: &Vec<Header>) -> (r: Vec<Header>)
    ensures
        r@ == headers@,
{
    let mut out: Vec<Header> = Vec::new();
    let mut i: usize = 0;
    while i < headers.len()
        invariant
            i <= headers@.len(),
            out@ == headers@.take(i as int),
        decreases headers@.len() - i,
    {
        out.push(headers[i]);
        assert(out@ =~= headers@.take(i + 1));
        i = i + 1;
    }
    assert(headers@.take(headers@.len() as int) =~= headers@);
    out
}

/// What the handles of the client are told after an event that changed the
/// best chain as `outcome` says and made the manager decide `decision`,
/// where `tip` is the hash of the tip of the best chain.
pub fn events(outcome: &ImportOutcome, decision: &Decision, tip: U256) -> (r: Vec<Event>)
    ensures
        spec_views(r@) == spec_events(outcome@, *decision, tip),
{
    let mut out: Vec<Event> = Vec::new();
    match outcome {
        ImportOutcome::Unchanged => {},
        ImportOutcome::Advanced { tip, height } => {
            out.push(Event::TipChanged { hash: *tip, height: *height, reverted: Vec::new() });
        },
        ImportOutcome::Reorg { tip, height, reverted } => {
            out.push(
                Event::TipChanged { hash: *tip, height: *height, reverted: copy_headers(reverted) },
            );
        },
    }
    match decision.synced {
        Some(height) => {
            out.push(Event::Synced { hash: tip, height });
        },
        None => {},
    }
    assert(spec_views(out@) =~= spec_events(outcome@, *decision, tip));
    out
}

/// The most filter headers that one request asks for.
pub const MAX_FILTER_BATCH: u64 = 2000;

/// The range of heights to ask filter headers for, where the cache holds
/// `have` entries and the best chain `chain` headers: from the height above
/// the cache up to the tip, but no more than a batch; `None` where the
/// cache is not behind.
pub open spec fn spec_filter_range(have: nat, chain: nat) -> Option<Range> {
    if have >= chain {
        None
    } else {
        Some(
            Range {
                start: have as u64,
                end: if chain - 1 - have >= MAX_FILTER_BATCH {
                    (have + MAX_FILTER_BATCH - 1) as u64
                } else {
                    (chain - 1) as u64
                },
            },
        )
    }
}

/// The entry that follows `entries` for a filter with the given hash.
pub open spec fn spec_next_entry(
    entries: Seq<FilterEntry>,
    chain: Seq<Header>,
    filter_hash: U256,
) -> FilterEntry {
    let h = entries.len() as int;
    FilterEntry {
        block_hash: chain[h].spec_hash(),
        filter_hash,
        header: crate::filter::spec_filter_header(
            filter_hash,
            crate::filter::spec_prev_header(entries, h),
        ),
    }
}

/// The entries after the filter hashes were appended in order, up to the
/// height of the chain and the `limit` of the cache.
pub open spec fn spec_append_all(
    entries: Seq<FilterEntry>,
    chain: Seq<Header>,
    limit: nat,
    hashes: Seq<U256>,
) -> Seq<FilterEntry>
    decreases hashes.len(),
{
    if hashes.len() == 0 || entries.len() >= chain.len() || entries.len() >= limit {
        entries
    } else {
        spec_append_all(
            entries.push(spec_next_entry(entries, chain, hashes[0])),
            chain,
            limit,
            hashes.drop_first(),
        )
    }
}

/// The tree, the filter cache and the synchronisation manager.
pub struct Engine {
    tree: BlockTree,
    filters: FilterCache,
    sync: SyncManager,
}

impl Engine {
    /// The block tree.
    pub closed spec fn spec_tree(&self) -> BlockTree {
        self.tree
    }

    /// The filter cache.
    pub closed spec fn spec_filters(&self) -> FilterCache {
        self.filters
    }

    /// The state of the synchronisation manager.
    pub closed spec fn spec_sync(&self) -> SyncView {
        self.sync@
    }

    /// The three are sound and in step: the filter cache is healthy, holds
    /// the entry of genesis, is consistent with the best chain and no higher
    /// than it, and the manager knows the height of the best chain.
    pub open spec fn wf(&self) -> bool {
        &&& self.spec_tree().wf()
        &&& self.spec_filters().wf()
        &&& self.spec_filters().spec_healthy()
        &&& spec_aligned(self.spec_filters().spec_entries(), self.spec_tree().spec_best_chain())
        &&& self.spec_filters().spec_entries().len() >= 1
        &&& view_wf(self.spec_sync())
        &&& self.spec_sync().local == self.spec_tree().spec_height()
    }

    /// An engine over a tree and a filter cache that were loaded. The cache
    /// is verified against the tree, and entries above the best chain are
    /// dropped. Fails, as `FilterCache::verify` does, where the cache is
    /// damaged or an entry is wrong, and with `Integrity` at height zero
    /// where the cache is empty.
    pub fn new(tree: BlockTree, filters: FilterCache) -> (r: Result<Engine, FilterError>)
        requires
            tree.wf(),
            filters.wf(),
        ensures
            r is Ok <==> filters.spec_healthy() && filters.spec_entries().len() >= 1
                && crate::filter::spec_consistent(filters.spec_entries(), tree.spec_best_chain()),
            r matches Err(e) ==> if filters.spec_healthy() && filters.spec_entries().len() == 0 {
                e == (FilterError::Integrity { height: 0 })
            } else {
                crate::filter::spec_verify_error(filters.bytes(), tree.spec_best_chain(), e)
            },
            r matches Ok(engine) ==> {
                &&& engine.wf()
                &&& engine.spec_tree() == tree
                &&& engine.spec_filters().spec_limit() == filters.spec_limit()
                &&& engine.spec_filters().spec_entries() == if tree.spec_best_chain().len()
                    < filters.spec_entries().len() {
                    filters.spec_entries().take(tree.spec_best_chain().len() as int)
                } else {
                    filters.spec_entries()
                }
                &&& engine.spec_sync() == (SyncView {
                    sessions: Seq::<crate::sync::Session>::empty(),
                    state: crate::sync::SyncState::Idle,
                    local: tree.spec_height() as u64,
                })
            },
    {
        let mut filters = filters;
        match filters.verify(&tree) {
            Err(e) => {
                proof {
                    if filters.spec_healthy() {
                        let h = choose|h: int|
                            {
                                &&& 0 <= h < filters.spec_entries().len()
                                &&& !#[trigger] crate::filter::spec_entry_ok(
                                    filters.spec_entries(),
                                    tree.spec_best_chain(),
                                    h,
                                )
                            };
                        assert(!crate::filter::spec_entry_ok(
                            filters.spec_entries(),
                            tree.spec_best_chain(),
                            h,
                        ));
                    }
                }
                return Err(e);
            },
            Ok(_) => {},
        }
        if filters.len() == 0 {
            return Err(FilterError::Integrity { height: 0 });
        }
        proof {
            tree.lemma_best_chain();
        }
        let height: u64 = tree.height();
        let ghost before = filters.spec_entries();
        filters.rollback(height);
        proof {
            let chain = tree.spec_best_chain();
            let after = filters.spec_entries();
            assert forall|i: int|
                0 <= i < after.len() implies #[trigger] crate::filter::spec_entry_ok(
                after,
                chain,
                i,
            ) by {
                assert(crate::filter::spec_entry_ok(before, chain, i));
            }
        }
        let sync: SyncManager = SyncManager::new(height);
        Ok(Engine { tree, filters, sync })
    }

    /// The block tree.
    pub fn tree(&self) -> (r: &BlockTree)
        ensures
            *r == self.spec_tree(),
    {
        &self.tree
    }

    /// The filter cache.
    pub fn filters(&self) -> (r: &FilterCache)
        ensures
            *r == self.spec_filters(),
    {
        &self.filters
    }

    /// The synchronisation manager.
    pub fn sync(&self) -> (r: &SyncManager)
        ensures
            r@ == self.spec_sync(),
    {
        &self.sync
    }

    /// The header at the tip of the best chain.
    pub fn get_tip(&self) -> (r: Header)
        requires
            self.wf(),
        ensures
            r == self.spec_tree().spec_best_chain().last(),
    {
        self.tree.get_tip()
    }

    /// The header of the best chain at `height`; `None` above the tip.
    pub fn get_header_at(&self, height: u64) -> (r: Option<Header>)
        requires
            self.wf(),
        ensures
            r == if height <= self.spec_tree().spec_height() {
                Some(self.spec_tree().spec_best_chain()[height as int])
            } else {
                None
            },
    {
        self.tree.get_header(height)
    }

    /// The height of the tip of the best chain.
    pub fn height(&self) -> (r: u64)
        requires
            self.wf(),
        ensures
            r == self.spec_tree().spec_height(),
    {
        self.tree.height()
    }

    /// Drops the filter entries above the fork, where the outcome is a
    /// reorganisation of a chain that was `old_height` high.
    fn realign(
        &mut self,
        outcome: &ImportOutcome,
        old_height: u64,
        Ghost(before): Ghost<Seq<Header>>,
    )
        requires
            old(self).tree.wf(),
            old(self).filters.wf(),
            old(self).filters.spec_healthy(),
            spec_aligned(old(self).filters.spec_entries(), before),
            before.len() == old_height + 1,
            before[0] == old(self).tree.spec_best_chain()[0],
            outcome@ == spec_change(before, old(self).tree.spec_best_chain()),
        ensures
            final(self).tree == old(self).tree,
            final(self).sync == old(self).sync,
            final(self).filters.wf(),
            final(self).filters.spec_healthy(),
            final(self).filters.spec_limit() == old(self).filters.spec_limit(),
            final(self).filters.spec_entries() == spec_realigned(
                old(self).filters.spec_entries(),
                before,
                old(self).tree.spec_best_chain(),
            ),
            spec_aligned(final(self).filters.spec_entries(), final(self).tree.spec_best_chain()),
            old(self).filters.spec_entries().len() >= 1 ==> final(self).filters.spec_entries().len()
                >= 1,
    {
        let ghost new = self.tree.spec_best_chain();
        let ghost entries = self.filters.spec_entries();
        proof {
            self.tree.lemma_best_chain();
            lemma_realigned(entries, before, new);
            lemma_common_prefix(before, new);
            assert(spec_common_len(before, new) >= 1);
            if new == before {
                crate::tree::lemma_common_len(before, new, before.len() as int);
            }
        }
        match outcome.fork_height(old_height) {
            Some(fork) => {
                self.filters.rollback(fork);
            },
            None => {},
        }
    }

    /// Takes a batch of headers that did not come as the answer of a peer.
    /// The tree imports them as `BlockTree::import_report` does; then the
    /// filter entries above the fork are dropped, and the manager takes note
    /// of the new height as `spec_on_chain` says. The report says what became
    /// of the best chain, also where a header was refused.
    pub fn import_report(&mut self, headers: &Vec<Header>, now: u64) -> (r: ImportReport)
        requires
            old(self).wf(),
        ensures
            final(self).wf(),
            final(self).spec_filters().spec_limit() == old(self).spec_filters().spec_limit(),
            final(self).spec_tree().spec_params() == old(self).spec_tree().spec_params(),
            final(self).spec_tree().spec_checkpoints() == old(self).spec_tree().spec_checkpoints(),
            final(self).spec_tree().spec_limit() == old(self).spec_tree().spec_limit(),
            ({
                let tree = old(self).spec_tree();
                let fin = spec_import(
                    tree.state(),
                    tree.spec_params(),
                    tree.spec_checkpoints(),
                    tree.spec_limit(),
                    headers@,
                    now,
                );
                &&& final(self).spec_tree().state() == fin.0
                &&& r.error == fin.1
                &&& r.outcome@ == spec_change(
                    tree.spec_best_chain(),
                    final(self).spec_tree().spec_best_chain(),
                )
                &&& final(self).spec_filters().spec_entries() == spec_realigned(
                    old(self).spec_filters().spec_entries(),
                    tree.spec_best_chain(),
                    final(self).spec_tree().spec_best_chain(),
                )
                &&& final(self).spec_sync() == spec_on_chain(
                    old(self).spec_sync(),
                    final(self).spec_tree().spec_height() as u64,
                )
            }),
    {
        let ghost old_chain = self.tree.spec_best_chain();
        proof {
            self.tree.lemma_best_chain();
            crate::arena::lemma_path(self.tree.nodes(), self.tree.spec_tip());
        }
        let old_height: u64 = self.tree.height();
        let report: ImportReport = self.tree.import_report(headers, now);
        proof {
            self.tree.lemma_best_chain();
            let tree = old(self).tree;
            crate::tree::lemma_import_wf(
                tree.state(),
                tree.spec_params(),
                tree.spec_checkpoints(),
                tree.spec_limit(),
                headers@,
                now,
            );
            lemma_same_genesis(old(self).tree, self.tree);
        }
        self.realign(&report.outcome, old_height, Ghost(old_chain));
        let height: u64 = self.tree.height();
        self.sync.chain_changed(height);
        report
    }

    /// Takes a batch of headers that did not come as the answer of a peer,
    /// as `import_report` does. On success it says what became of the best
    /// chain; else it names the rule that the refused header broke.
    pub fn import_headers(&mut self, headers: &Vec<Header>, now: u64) -> (r: Result<
        ImportOutcome,
        TreeError,
    >)
        requires
            old(self).wf(),
        ensures
            final(self).wf(),
            final(self).spec_filters().spec_limit() == old(self).spec_filters().spec_limit(),
            final(self).spec_tree().spec_params() == old(self).spec_tree().spec_params(),
            final(self).spec_tree().spec_checkpoints() == old(self).spec_tree().spec_checkpoints(),
            final(self).spec_tree().spec_limit() == old(self).spec_tree().spec_limit(),
            ({
                let tree = old(self).spec_tree();
                let fin = spec_import(
                    tree.state(),
                    tree.spec_params(),
                    tree.spec_checkpoints(),
                    tree.spec_limit(),
                    headers@,
                    now,
                );
                &&& final(self).spec_tree().state() == fin.0
                &&& match r {
                    Ok(outcome) => fin.1 is None && outcome@ == spec_change(
                        tree.spec_best_chain(),
                        final(self).spec_tree().spec_best_chain(),
                    ),
                    Err(e) => fin.1 == Some(e),
                }
                &&& final(self).spec_filters().spec_entries() == spec_realigned(
                    old(self).spec_filters().spec_entries(),
                    tree.spec_best_chain(),
                    final(self).spec_tree().spec_best_chain(),
                )
                &&& final(self).spec_sync() == spec_on_chain(
                    old(self).spec_sync(),
                    final(self).spec_tree().spec_height() as u64,
                )
            }),
    {
        let report: ImportReport = self.import_report(headers, now);
        match report.error {
            None => Ok(report.outcome),
            Some(e) => Err(e),
        }
    }

    /// Takes the headers that a peer sent, as
    /// `SyncManager::received_headers` does, and drops the filter entries
    /// above the fork where the best chain was reorganised.
    pub fn received_headers(&mut self, peer: u64, headers: &Vec<Header>, now: u64) -> (r: (
        Option<ImportReport>,
        Decision,
    ))
        requires
            old(self).wf(),
        ensures
            final(self).wf(),
            final(self).spec_tree().spec_params() == old(self).spec_tree().spec_params(),
            final(self).spec_tree().spec_checkpoints() == old(self).spec_tree().spec_checkpoints(),
            final(self).spec_tree().spec_limit() == old(self).spec_tree().spec_limit(),
            final(self).spec_filters().spec_limit() == old(self).spec_filters().spec_limit(),
            final(self).spec_filters().spec_entries() == spec_realigned(
                old(self).spec_filters().spec_entries(),
                old(self).spec_tree().spec_best_chain(),
                final(self).spec_tree().spec_best_chain(),
            ),
            spec_answers(old(self).spec_sync(), peer, headers@.len()) ==> ({
                let tree = old(self).spec_tree();
                let fin = spec_import(
                    tree.state(),
                    tree.spec_params(),
                    tree.spec_checkpoints(),
                    tree.spec_limit(),
                    headers@,
                    now,
                );
                &&& final(self).spec_tree().state() == fin.0
                &&& match r.0 {
                    Some(report) => report.error == fin.1 && report.outcome@ == spec_change(
                        tree.spec_best_chain(),
                        final(self).spec_tree().spec_best_chain(),
                    ),
                    None => false,
                }
                &&& (final(self).spec_sync(), r.1) == spec_after_import(
                    old(self).spec_sync(),
                    spec_session_of(old(self).spec_sync().sessions, peer),
                    spec_verdict(fin.1),
                    final(self).spec_tree().spec_height() as u64,
                    now,
                )
            }),
            !spec_answers(old(self).spec_sync(), peer, headers@.len()) ==> {
                &&& r.0 is None
                &&& r.1 == spec_nothing()
                &&& final(self).spec_sync() == old(self).spec_sync()
                &&& final(self).spec_tree().state() == old(self).spec_tree().state()
                &&& final(self).spec_tree().spec_store() == old(self).spec_tree().spec_store()
            },
    {
        let ghost old_chain = self.tree.spec_best_chain();
        let ghost entries = self.filters.spec_entries();
        proof {
            self.tree.lemma_best_chain();
        }
        let old_height: u64 = self.tree.height();
        let r: (Option<ImportReport>, Decision) = self.sync.received_headers(
            &mut self.tree,
            peer,
            headers,
            now,
        );
        proof {
            self.tree.lemma_best_chain();
        }
        match &r.0 {
            Some(report) => {
                proof {
                    let tree = old(self).tree;
                    crate::tree::lemma_import_wf(
                        tree.state(),
                        tree.spec_params(),
                        tree.spec_checkpoints(),
                        tree.spec_limit(),
                        headers@,
                        now,
                    );
                    lemma_same_genesis(old(self).tree, self.tree);
                }
                self.realign(&report.outcome, old_height, Ghost(old_chain));
            },
            None => {
                proof {
                    lemma_common_prefix(old_chain, old_chain);
                    crate::tree::lemma_common_len(old_chain, old_chain, old_chain.len() as int);
                }
            },
        }
        r
    }

    /// The request for filter headers to send, if the filter cache is behind
    /// the best chain and a peer has announced the height that the request
    /// ends at: the range is `spec_filter_range`, and the peer is the one
    /// that is to be asked first among those that reach its end.
    pub fn filter_request(&self) -> (r: Option<Request>)
        requires
            self.wf(),
        ensures
            r == match spec_filter_range(
                self.spec_filters().spec_entries().len(),
                self.spec_tree().spec_best_chain().len(),
            ) {
                None => None,
                Some(range) => if spec_has_choice(
                    self.spec_sync().sessions,
                    Some((range.end - 1) as u64),
                    None,
                ) {
                    Some(
                        Request {
                            peer: self.spec_sync().sessions[spec_choice(
                                self.spec_sync().sessions,
                                Some((range.end - 1) as u64),
                                None,
                            )].peer,
                            range,
                        },
                    )
                } else {
                    None
                },
            },
    {
        proof {
            self.tree.lemma_best_chain();
        }
        let have: usize = self.filters.len();
        let height: u64 = self.tree.height();
        if have as u64 > height {
            return None;
        }
        let start: u64 = have as u64;
        let end: u64 = if height - start >= MAX_FILTER_BATCH {
            start + (MAX_FILTER_BATCH - 1)
        } else {
            height
        };
        match self.sync.peer_above(end - 1) {
            Some(peer) => Some(Request { peer, range: Range { start, end } }),
            None => None,
        }
    }

    /// Takes the filter hashes that a peer sent for the heights above the
    /// cache, with the filter header `prev` that the first of them is to
    /// follow. Fails with `Integrity` at the next height, and changes
    /// nothing, where `prev` is not the filter header at the top of the
    /// cache. Else the hashes are appended in order, up to the height of the
    /// best chain and the room that the cache has, and their number is
    /// returned.
    pub fn received_filter_hashes(&mut self, prev: U256, hashes: &Vec<U256>) -> (r: Result<
        usize,
        FilterError,
    >)
        requires
            old(self).wf(),
        ensures
            final(self).wf(),
            final(self).spec_tree() == old(self).spec_tree(),
            final(self).spec_sync() == old(self).spec_sync(),
            final(self).spec_filters().spec_limit() == old(self).spec_filters().spec_limit(),
            ({
                let entries = old(self).spec_filters().spec_entries();
                let chain = old(self).spec_tree().spec_best_chain();
                let limit = old(self).spec_filters().spec_limit();
                if prev != entries.last().header {
                    &&& r == Err::<usize, FilterError>(
                        FilterError::Integrity { height: entries.len() as u64 },
                    )
                    &&& final(self).spec_filters().spec_entries() == entries
                } else {
                    &&& final(self).spec_filters().spec_entries() == spec_append_all(
                        entries,
                        chain,
                        limit,
                        hashes@,
                    )
                    &&& r == Ok::<usize, FilterError>(
                        (final(self).spec_filters().spec_entries().len() - entries.len()) as usize,
                    )
                }
            }),
    {
        let have: usize = self.filters.len();
        let top: FilterEntry = self.filters.get((have - 1) as u64).unwrap();
        if prev != top.header {
            return Err(FilterError::Integrity { height: have as u64 });
        }
        let ghost entries = self.filters.spec_entries();
        let ghost chain = self.tree.spec_best_chain();
        let ghost limit = self.filters.spec_limit();
        let mut i: usize = 0;
        let mut open: bool = true;
        assert(hashes@.skip(0) =~= hashes@);
        while i < hashes.len() && open
            invariant
                self.wf(),
                self.tree == old(self).tree,
                self.sync == old(self).sync,
                chain == self.tree.spec_best_chain(),
                limit == self.filters.spec_limit(),
                i <= hashes@.len(),
                self.filters.spec_entries().len() == entries.len() + i,
                open ==> spec_append_all(entries, chain, limit, hashes@) == spec_append_all(
                    self.filters.spec_entries(),
                    chain,
                    limit,
                    hashes@.skip(i as int),
                ),
                !open ==> spec_append_all(entries, chain, limit, hashes@)
                    == self.filters.spec_entries(),
            decreases hashes@.len() - i + (if open { 1int } else { 0int }),
        {
            proof {
                assert(hashes@.skip(i as int)[0] == hashes@[i as int]);
                assert(hashes@.skip(i as int).drop_first() =~= hashes@.skip(i + 1));
            }
            match self.filters.append(&self.tree, hashes[i]) {
                Ok(_) => {
                    i = i + 1;
                },
                Err(_) => {
                    open = false;
                },
            }
        }
        proof {
            if open {
                assert(hashes@.skip(i as int).len() == 0);
            }
        }
        Ok(i)
    }

    /// Appends the filter entry for the next height, as
    /// `FilterCache::append` does.
    pub fn append_filter(&mut self, filter_hash: U256) -> (r: Result<(), FilterError>)
        requires
            old(self).wf(),
        ensures
            final(self).wf(),
            final(self).spec_tree() == old(self).spec_tree(),
            final(self).spec_sync() == old(self).spec_sync(),
            final(self).spec_filters().spec_limit() == old(self).spec_filters().spec_limit(),
            ({
                let entries = old(self).spec_filters().spec_entries();
                let chain = old(self).spec_tree().spec_best_chain();
                let h = entries.len() as int;
                match r {
                    Ok(_) => {
                        &&& h < chain.len()
                        &&& final(self).spec_filters().spec_entries() == entries.push(
                            FilterEntry {
                                block_hash: chain[h].spec_hash(),
                                filter_hash,
                                header: crate::filter::spec_filter_header(
                                    filter_hash,
                                    crate::filter::spec_prev_header(entries, h),
                                ),
                            },
                        )
                    },
                    Err(e) => {
                        &&& final(self).spec_filters().spec_entries() == entries
                        &&& e == if h >= chain.len() {
                            FilterError::AheadOfChain
                        } else {
                            FilterError::Store(crate::store::StoreError::Full)
                        }
                    },
                }
            }),
    {
        self.filters.append(&self.tree, filter_hash)
    }

    /// Forgets old branches where the tree knows more headers off the best
    /// chain than it is to keep: then the branches that left the best chain
    /// more than `MAX_FORK_DEPTH` below its tip are dropped, as
    /// `BlockTree::prune` does. Returns the number of headers dropped.
    pub fn prune(&mut self) -> (dropped: usize)
        requires
            old(self).wf(),
        ensures
            final(self).wf(),
            final(self).spec_filters() == old(self).spec_filters(),
            final(self).spec_sync() == old(self).spec_sync(),
            final(self).spec_tree().spec_best_chain() == old(self).spec_tree().spec_best_chain(),
            final(self).spec_tree().spec_store() == old(self).spec_tree().spec_store(),
            final(self).spec_tree().spec_params() == old(self).spec_tree().spec_params(),
            final(self).spec_tree().spec_checkpoints() == old(self).spec_tree().spec_checkpoints(),
            final(self).spec_tree().spec_limit() == old(self).spec_tree().spec_limit(),
            ({
                let tree = old(self).spec_tree();
                let side = tree.nodes().len() - tree.spec_height() - 1;
                if side > crate::tree::MAX_SIDE_HEADERS {
                    &&& final(self).spec_tree().nodes() == crate::prune::spec_compact(
                        tree.nodes(),
                        crate::prune::spec_keep(
                            tree.nodes(),
                            tree.spec_tip(),
                            crate::tree::MAX_FORK_DEPTH,
                        ),
                        tree.nodes().len() as int,
                    )
                    &&& dropped == tree.nodes().len() - final(self).spec_tree().nodes().len()
                } else {
                    &&& dropped == 0
                    &&& final(self).spec_tree() == tree
                }
            }),
    {
        if self.tree.side_count() > crate::tree::MAX_SIDE_HEADERS {
            proof {
                self.tree.lemma_best_chain();
            }
            let dropped: usize = self.tree.prune(crate::tree::MAX_FORK_DEPTH);
            proof {
                self.tree.lemma_best_chain();
            }
            dropped
        } else {
            0
        }
    }

    /// Takes note that a peer has connected or announced a height, as
    /// `SyncManager::peer_connected` does.
    pub fn peer_connected(&mut self, peer: u64, height: u64, now: u64) -> (d: Decision)
        requires
            old(self).wf(),
        ensures
            final(self).wf(),
            final(self).spec_tree() == old(self).spec_tree(),
            final(self).spec_filters() == old(self).spec_filters(),
            (final(self).spec_sync(), d) == spec_on_peer(old(self).spec_sync(), peer, height, now),
    {
        self.sync.peer_connected(peer, height, now)
    }

    /// Takes note that a peer has disconnected, as
    /// `SyncManager::peer_disconnected` does.
    pub fn peer_disconnected(&mut self, peer: u64)
        requires
            old(self).wf(),
        ensures
            final(self).wf(),
            final(self).spec_tree() == old(self).spec_tree(),
            final(self).spec_filters() == old(self).spec_filters(),
            final(self).spec_sync() == spec_on_disconnect(old(self).spec_sync(), peer),
    {
        self.sync.peer_disconnected(peer)
    }

    /// Takes note of the time, as `SyncManager::tick` does.
    pub fn tick(&mut self, now: u64) -> (d: Decision)
        requires
            old(self).wf(),
        ensures
            final(self).wf(),
            final(self).spec_tree() == old(self).spec_tree(),
            final(self).spec_filters() == old(self).spec_filters(),
            (final(self).spec_sync(), d) == spec_on_tick(old(self).spec_sync(), now),
    {
        self.sync.tick(now)
    }
}

/// A tree that grew out of another has the same genesis.
pub proof fn lemma_same_genesis(old: BlockTree, new: BlockTree)
    requires
        old.wf(),
        new.wf(),
        crate::tree::spec_extends(old.nodes(), new.nodes()),
    ensures
        old.spec_best_chain()[0] == new.spec_best_chain()[0],
{
    crate::arena::lemma_path(old.nodes(), old.spec_tip());
    crate::arena::lemma_path(new.nodes(), new.spec_tip());
    let a = crate::arena::spec_path(old.nodes(), old.spec_tip())[0];
    let b = crate::arena::spec_path(new.nodes(), new.spec_tip())[0];
    crate::tree::lemma_height_zero(old.nodes(), a);
    crate::tree::lemma_height_zero(new.nodes(), b);
    assert(new.nodes().take(old.nodes().len() as int)[0] == new.nodes()[0]);
}

} // verus!
