//! The block tree: every known header, the chain of greatest work among
//! them, and the store that holds that chain.

use crate::arena::{
    add_work, arena_linked, lemma_index_of, lemma_path, lemma_push_frame,
    lemma_push_linked, node_linked, spec_add_work, spec_chain, spec_index_of, spec_known,
    spec_path, Node,
};
use crate::header::Header;
use crate::index::HashIndex;
use crate::pow::Params;
use crate::prune::{
    lemma_compact, lemma_compact_chain, lemma_compact_wf, lemma_keep_closed, lemma_rank,
    spec_compact, spec_fork, spec_keep, spec_on_path, spec_rank, spec_stays,
};
use crate::rules::{
    check_header, lemma_checked_is_ok, lemma_height_bound, spec_check_header, spec_header_ok,
    Checkpoint, TreeError,
};
use crate::store::{HeaderStore, StoreError};
use crate::uint256::U256;
use vstd::prelude::*;

verus! {

/// What an import did to the best chain.
#[derive(Debug)]
pub enum ImportOutcome {
    /// The best chain is what it was.
    Unchanged,
    /// The best chain grew at its tip.
    Advanced {
        /// Hash of the new tip.
        tip: U256,
        /// Height of the new tip.
        height: u64,
    },
    /// The best chain left its old tip for another branch.
    Reorg {
        /// Hash of the new tip.
        tip: U256,
        /// Height of the new tip.
        height: u64,
        /// The headers that left the best chain, highest first.
        reverted: Vec<Header>,
    },
}

/// What an import did: what became of the best chain, and the rule that
/// the first refused header broke, if one was refused.
#[derive(Debug)]
pub struct ImportReport {
    /// What became of the best chain.
    pub outcome: ImportOutcome,
    /// The rule that the first refused header broke.
    pub error: Option<TreeError>,
}

/// What became of a best chain, as a mathematical value.
pub enum Change {
    /// The chain is what it was.
    Unchanged,
    /// The chain grew at its tip.
    Advanced { tip: U256, height: nat },
    /// The chain left its old tip for another branch.
    Reorg { tip: U256, height: nat, reverted: Seq<Header> },
}

impl ImportOutcome {
    /// The height of the last header that the old and the new best chain
    /// have in common, where the outcome is a reorganisation of a chain
    /// that was `old_height` high.
    pub fn fork_height(&self, old_height: u64) -> (r: Option<u64>)
        ensures
            r == match self@ {
                Change::Reorg { tip, height, reverted } => if reverted.len() <= old_height {
                    Some((old_height - reverted.len()) as u64)
                } else {
                    None
                },
                _ => None,
            },
    {
        match self {
            ImportOutcome::Reorg { tip: _, height: _, reverted } => {
                let n: usize = reverted.len();
                if n as u64 <= old_height {
                    Some(old_height - n as u64)
                } else {
                    None
                }
            },
            _ => None,
        }
    }
}

impl View for ImportOutcome {
    type V = Change;

    open spec fn view(&self) -> Change {
        match *self {
            ImportOutcome::Unchanged => Change::Unchanged,
            ImportOutcome::Advanced { tip, height } => Change::Advanced {
                tip,
                height: height as nat,
            },
            ImportOutcome::Reorg { tip, height, reverted } => Change::Reorg {
                tip,
                height: height as nat,
                reverted: reverted@,
            },
        }
    }
}

/// The number of headers that two chains begin with in common.
pub open spec fn spec_common_len(a: Seq<Header>, b: Seq<Header>) -> nat
    decreases a.len(),
{
    if a.len() > 0 && b.len() > 0 && a[0] == b[0] {
        1 + spec_common_len(a.drop_first(), b.drop_first())
    } else {
        0
    }
}

/// What became of the best chain `old` when `new` took its place: nothing
/// where they are the same; growth where `new` extends `old`; else a
/// reorganisation, which reverts the headers of `old` above the last header
/// that the two have in common, highest first.
pub open spec fn spec_change(old: Seq<Header>, new: Seq<Header>) -> Change {
    let common = spec_common_len(old, new);
    if new == old {
        Change::Unchanged
    } else if common == old.len() {
        Change::Advanced { tip: new.last().spec_hash(), height: (new.len() - 1) as nat }
    } else {
        Change::Reorg {
            tip: new.last().spec_hash(),
            height: (new.len() - 1) as nat,
            reverted: old.subrange(common as int, old.len() as int).reverse(),
        }
    }
}

/// Two chains that agree on their first `n` headers, and not on the next,
/// have `n` headers in common.
pub proof fn lemma_common_len(a: Seq<Header>, b: Seq<Header>, n: int)
    requires
        0 <= n <= a.len(),
        n <= b.len(),
        a.take(n) == b.take(n),
        n == a.len() || n == b.len() || a[n] != b[n],
    ensures
        spec_common_len(a, b) == n,
    decreases n,
{
    if n > 0 {
        assert(a[0] == a.take(n)[0]);
        assert(b[0] == b.take(n)[0]);
        assert(a.drop_first().take(n - 1) =~= a.take(n).drop_first());
        assert(b.drop_first().take(n - 1) =~= b.take(n).drop_first());
        lemma_common_len(a.drop_first(), b.drop_first(), n - 1);
    }
}

/// Two chains agree on as many headers as they have in common.
pub proof fn lemma_common_prefix(a: Seq<Header>, b: Seq<Header>)
    ensures
        spec_common_len(a, b) <= a.len(),
        spec_common_len(a, b) <= b.len(),
        a.take(spec_common_len(a, b) as int) == b.take(spec_common_len(a, b) as int),
    decreases a.len(),
{
    let n = spec_common_len(a, b) as int;
    if a.len() > 0 && b.len() > 0 && a[0] == b[0] {
        lemma_common_prefix(a.drop_first(), b.drop_first());
        assert forall|i: int| 0 <= i < n implies a.take(n)[i] == b.take(n)[i] by {
            if i > 0 {
                assert(a.drop_first().take(n - 1)[i - 1] == b.drop_first().take(n - 1)[i - 1]);
            }
        }
        assert(a.take(n) =~= b.take(n));
    } else {
        assert(a.take(0) =~= b.take(0));
    }
}

/// Where two chains go on after what they have in common, they go on with
/// different headers.
pub proof fn lemma_common_max(a: Seq<Header>, b: Seq<Header>)
    requires
        spec_common_len(a, b) < a.len(),
        spec_common_len(a, b) < b.len(),
    ensures
        a[spec_common_len(a, b) as int] != b[spec_common_len(a, b) as int],
    decreases a.len(),
{
    if a[0] == b[0] {
        lemma_common_max(a.drop_first(), b.drop_first());
    }
}

/// Headers put on a chain that has already left another do not change
/// what the two have in common.
pub proof fn lemma_common_append(a: Seq<Header>, b: Seq<Header>, more: Seq<Header>)
    requires
        spec_common_len(a, b) < b.len(),
    ensures
        spec_common_len(a, b + more) == spec_common_len(a, b),
{
    let c = spec_common_len(a, b) as int;
    lemma_common_prefix(a, b);
    if c < a.len() {
        lemma_common_max(a, b);
    }
    assert((b + more).take(c) =~= b.take(c));
    lemma_common_len(a, b + more, c);
}

/// The known headers and the tip of the best chain among them.
pub struct TreeState {
    /// Every known header, in the order in which they came.
    pub nodes: Seq<Node>,
    /// Index of the tip of the best chain.
    pub tip: int,
}

/// No node has more work than node `tip`, and none that came before it has
/// as much.
pub open spec fn spec_best(nodes: Seq<Node>, tip: int) -> bool {
    forall|i: int|
        0 <= i < nodes.len() ==> (#[trigger] nodes[i]).work@ < nodes[tip].work@ || (nodes[i].work@
            == nodes[tip].work@ && tip <= i)
}

/// Node `i` met the rules when it was put after its parent.
pub open spec fn node_valid(nodes: Seq<Node>, params: Params, cps: Seq<Checkpoint>, i: int) -> bool {
    spec_header_ok(params, cps, spec_chain(nodes, nodes[i].parent as int), nodes[i].header)
}

/// Every node but genesis met the rules when it was put after its parent.
pub open spec fn arena_valid(nodes: Seq<Node>, params: Params, cps: Seq<Checkpoint>) -> bool {
    forall|i: int| 1 <= i < nodes.len() ==> #[trigger] node_valid(nodes, params, cps, i)
}

/// The number of headers that the store of a tree may hold when the tree
/// is made from a store with the given limit: that limit, but at least one.
pub open spec fn spec_load_limit(limit: nat) -> nat {
    if limit > 0 {
        limit
    } else {
        1
    }
}

/// The node of a genesis header.
pub open spec fn spec_genesis_node(genesis: Header) -> Node {
    Node {
        header: genesis,
        hash: genesis.spec_hash(),
        parent: 0,
        height: 0,
        work: U256::spec_from_nat(spec_add_work(0, genesis.bits)),
    }
}

/// The node that a header makes when it is put after node `parent`.
pub open spec fn spec_new_node(nodes: Seq<Node>, parent: int, header: Header) -> Node {
    Node {
        header,
        hash: header.spec_hash(),
        parent: parent as usize,
        height: (nodes[parent].height + 1) as u64,
        work: U256::spec_from_nat(spec_add_work(nodes[parent].work@, header.bits)),
    }
}

/// What one header does to the tree, at the time `now` and with a store
/// that holds at most `limit` headers.
///
/// A header that is known changes nothing. A header whose parent is not
/// known, or that breaks a rule, is refused. Any other header becomes a
/// node; where its chain has more work than the best chain, it becomes the
/// tip. It is refused where the arena cannot grow, or where it would become
/// the tip and the store cannot hold its chain.
pub open spec fn spec_step(
    s: TreeState,
    params: Params,
    cps: Seq<Checkpoint>,
    limit: nat,
    header: Header,
    now: u64,
) -> (TreeState, Option<TreeError>) {
    if spec_known(s.nodes, header.spec_hash()) {
        (s, None)
    } else if !spec_known(s.nodes, header.prev_blockhash) {
        (s, Some(TreeError::InvalidBlock))
    } else {
        let p = spec_index_of(s.nodes, header.prev_blockhash);
        match spec_check_header(params, cps, spec_chain(s.nodes, p), header, now) {
            Some(e) => (s, Some(e)),
            None => {
                let node = spec_new_node(s.nodes, p, header);
                if s.nodes.len() >= usize::MAX {
                    (s, Some(TreeError::Store(StoreError::Full)))
                } else if node.work@ > s.nodes[s.tip].work@ {
                    if node.height + 1 > limit {
                        (s, Some(TreeError::Store(StoreError::Full)))
                    } else {
                        (TreeState { nodes: s.nodes.push(node), tip: s.nodes.len() as int }, None)
                    }
                } else {
                    (TreeState { nodes: s.nodes.push(node), tip: s.tip }, None)
                }
            },
        }
    }
}

/// What a batch of headers does to the tree: each header in turn, up to the
/// first that is refused.
pub open spec fn spec_import(
    s: TreeState,
    params: Params,
    cps: Seq<Checkpoint>,
    limit: nat,
    headers: Seq<Header>,
    now: u64,
) -> (TreeState, Option<TreeError>)
    decreases headers.len(),
{
    if headers.len() == 0 {
        (s, None)
    } else {
        let next = spec_step(s, params, cps, limit, headers[0], now);
        if next.1 is Some {
            next
        } else {
            spec_import(next.0, params, cps, limit, headers.drop_first(), now)
        }
    }
}

/// The state is one that the tree can be in: the arena is linked, every
/// node met the rules, and the tip is the first node of greatest work.
pub open spec fn state_wf(s: TreeState, params: Params, cps: Seq<Checkpoint>) -> bool {
    &&& params.wf()
    &&& s.nodes.len() <= usize::MAX
    &&& arena_linked(s.nodes)
    &&& arena_valid(s.nodes, params, cps)
    &&& 0 <= s.tip < s.nodes.len()
    &&& spec_best(s.nodes, s.tip)
}

/// The arena `a` is the beginning of the arena `b`.
pub open spec fn spec_extends(a: Seq<Node>, b: Seq<Node>) -> bool {
    a.len() <= b.len() && b.take(a.len() as int) == a
}

/// Older nodes have the same walks in an arena that has grown.
pub proof fn lemma_extends_frame(a: Seq<Node>, b: Seq<Node>, i: int)
    requires
        spec_extends(a, b),
        0 <= i < a.len(),
    ensures
        spec_path(b, i) == spec_path(a, i),
        spec_chain(b, i) == spec_chain(a, i),
    decreases i,
{
    assert(b.take(a.len() as int)[i] == b[i]);
    if 0 < i && a[i].parent < i {
        lemma_extends_frame(a, b, a[i].parent as int);
    }
}

/// One header leaves the tree in a state that it can be in, and only ever
/// adds to the arena.
pub proof fn lemma_step_wf(
    s: TreeState,
    params: Params,
    cps: Seq<Checkpoint>,
    limit: nat,
    header: Header,
    now: u64,
)
    requires
        state_wf(s, params, cps),
    ensures
        state_wf(spec_step(s, params, cps, limit, header, now).0, params, cps),
        spec_extends(s.nodes, spec_step(s, params, cps, limit, header, now).0.nodes),
        spec_step(s, params, cps, limit, header, now).1 is Some ==> spec_step(
            s,
            params,
            cps,
            limit,
            header,
            now,
        ).0 == s,
{
    let next = spec_step(s, params, cps, limit, header, now);
    assert(s.nodes.take(s.nodes.len() as int) =~= s.nodes);
    if next.0 != s {
        let p = spec_index_of(s.nodes, header.prev_blockhash);
        let node = spec_new_node(s.nodes, p, header);
        let grown = s.nodes.push(node);
        assert(next.0.nodes == grown);
        assert(0 <= p < s.nodes.len() && s.nodes[p].hash == header.prev_blockhash);
        lemma_height_bound(s.nodes, p);
        lemma_new_node(s.nodes, p, header);
        lemma_push_linked(s.nodes, node);
        lemma_checked_is_ok(params, cps, spec_chain(s.nodes, p), header, now);
        assert forall|i: int| 1 <= i < grown.len() implies #[trigger] node_valid(
            grown,
            params,
            cps,
            i,
        ) by {
            if i < s.nodes.len() {
                assert(node_valid(s.nodes, params, cps, i));
                assert(node_linked(s.nodes, i));
                lemma_push_frame(s.nodes, node, s.nodes[i].parent as int);
            } else {
                lemma_push_frame(s.nodes, node, p);
            }
        }
        assert(grown.take(s.nodes.len() as int) =~= s.nodes);
        assert forall|i: int| 0 <= i < grown.len() implies (#[trigger] grown[i]).work@
            < grown[next.0.tip].work@ || (grown[i].work@ == grown[next.0.tip].work@ && next.0.tip
            <= i) by {
            if i < s.nodes.len() {
                assert(s.nodes[i].work@ < s.nodes[s.tip].work@ || (s.nodes[i].work@
                    == s.nodes[s.tip].work@ && s.tip <= i));
            }
        }
    }
}

/// The node that a header makes follows the node that it is put after.
pub proof fn lemma_new_node(nodes: Seq<Node>, p: int, header: Header)
    requires
        arena_linked(nodes),
        0 <= p < nodes.len(),
        nodes.len() <= usize::MAX,
        nodes[p].hash == header.prev_blockhash,
    ensures
        node_linked(nodes.push(spec_new_node(nodes, p, header)), nodes.len() as int),
        spec_new_node(nodes, p, header).work@ == spec_add_work(nodes[p].work@, header.bits),
        spec_new_node(nodes, p, header).height == nodes[p].height + 1,
        spec_new_node(nodes, p, header).parent == p,
{
    lemma_height_bound(nodes, p);
    let w = spec_add_work(nodes[p].work@, header.bits);
    lemma_nat_round_trip(w);
}

/// A number below `2^256` is the number of the value that stands for it.
pub proof fn lemma_nat_round_trip(n: nat)
    requires
        n <= U256::spec_max(),
    ensures
        U256::spec_from_nat(n)@ == n,
{
    vstd::arithmetic::div_mod::lemma_fundamental_div_mod(n as int, crate::uint256::two_pow_128());
    let q = n as int / crate::uint256::two_pow_128();
    assert(q < crate::uint256::two_pow_128()) by (nonlinear_arith)
        requires
            q == n as int / crate::uint256::two_pow_128(),
            n < crate::uint256::two_pow_128() * crate::uint256::two_pow_128(),
    ;
}

/// A batch of headers leaves the tree in a state that it can be in, and
/// only ever adds to the arena.
pub proof fn lemma_import_wf(
    s: TreeState,
    params: Params,
    cps: Seq<Checkpoint>,
    limit: nat,
    headers: Seq<Header>,
    now: u64,
)
    requires
        state_wf(s, params, cps),
    ensures
        state_wf(spec_import(s, params, cps, limit, headers, now).0, params, cps),
        spec_extends(s.nodes, spec_import(s, params, cps, limit, headers, now).0.nodes),
    decreases headers.len(),
{
    assert(s.nodes.take(s.nodes.len() as int) =~= s.nodes);
    if headers.len() > 0 {
        let next = spec_step(s, params, cps, limit, headers[0], now);
        lemma_step_wf(s, params, cps, limit, headers[0], now);
        if next.1 is None {
            lemma_import_wf(next.0, params, cps, limit, headers.drop_first(), now);
            let last = spec_import(next.0, params, cps, limit, headers.drop_first(), now).0;
            assert(last.nodes.take(s.nodes.len() as int) =~= next.0.nodes.take(
                s.nodes.len() as int,
            ));
        }
    }
}

/// The indices in `canon` are the walk `path`.
pub open spec fn canon_matches(canon: Seq<usize>, path: Seq<int>) -> bool {
    &&& canon.len() == path.len()
    &&& forall|k: int| 0 <= k < canon.len() ==> (#[trigger] canon[k]) as int == path[k]
}

/// `branch` holds the nodes from node `index` down to a child of node
/// `fork`, each followed by its parent.
pub open spec fn branch_ok(nodes: Seq<Node>, branch: Seq<usize>, fork: int, index: int) -> bool {
    &&& branch.len() >= 1
    &&& branch[0] == index
    &&& forall|k: int| 0 <= k < branch.len() ==> 1 <= (#[trigger] branch[k]) < nodes.len()
    &&& forall|k: int|
        0 <= k < branch.len() - 1 ==> nodes[(#[trigger] branch[k]) as int].parent == branch[k + 1]
    &&& nodes[branch.last() as int].parent == fork
    &&& 0 <= fork < nodes.len()
    &&& nodes[fork].height + branch.len() == nodes[index].height
}

/// A node of height zero is genesis.
pub proof fn lemma_height_zero(nodes: Seq<Node>, i: int)
    requires
        arena_linked(nodes),
        0 <= i < nodes.len(),
        nodes[i].height == 0,
    ensures
        i == 0,
{
    if i > 0 {
        assert(node_linked(nodes, i));
    }
}

/// The most headers off the best chain that the engine keeps before it
/// prunes.
pub const MAX_SIDE_HEADERS: usize = 1024;

/// How far below the tip of the best chain a branch may have left it and
/// still be kept when the engine prunes.
pub const MAX_FORK_DEPTH: u64 = 288;

/// The block tree: an arena of every known header, the best chain among
/// them, and the store that holds the best chain's headers.
pub struct BlockTree {
    nodes: Vec<Node>,
    index: HashIndex,
    canon: Vec<usize>,
    store: HeaderStore,
    params: Params,
    checkpoints: Vec<Checkpoint>,
}

impl BlockTree {
    /// Every known header, in the order in which they came.
    pub closed spec fn nodes(&self) -> Seq<Node> {
        self.nodes@
    }

    /// Index of the tip of the best chain.
    pub closed spec fn spec_tip(&self) -> int {
        self.canon@.last() as int
    }

    /// The store of the best chain's headers.
    pub closed spec fn spec_store(&self) -> HeaderStore {
        self.store
    }

    /// The network's rules.
    pub closed spec fn spec_params(&self) -> Params {
        self.params
    }

    /// The network's checkpoints.
    pub closed spec fn spec_checkpoints(&self) -> Seq<Checkpoint> {
        self.checkpoints@
    }

    /// The index that the tree keeps of the best chain is the walk to the
    /// tip.
    pub closed spec fn canon_wf(&self) -> bool {
        &&& self.canon@.len() >= 1
        &&& canon_matches(self.canon@, spec_path(self.nodes@, self.canon@.last() as int))
    }

    /// The index from hashes to nodes is that of the arena.
    pub closed spec fn index_wf(&self) -> bool {
        self.index.wf(self.nodes@)
    }

    /// The known headers and the tip.
    pub open spec fn state(&self) -> TreeState {
        TreeState { nodes: self.nodes(), tip: self.spec_tip() }
    }

    /// The number of headers that the store may hold.
    pub open spec fn spec_limit(&self) -> nat {
        self.spec_store().spec_limit()
    }

    /// The headers of the best chain, from genesis to the tip.
    pub open spec fn spec_best_chain(&self) -> Seq<Header> {
        spec_chain(self.nodes(), self.spec_tip())
    }

    /// The height of the tip.
    pub open spec fn spec_height(&self) -> nat {
        self.nodes()[self.spec_tip()].height as nat
    }

    /// The tree is sound: its state is one that it can be in, and the store
    /// is healthy and holds exactly the headers of the best chain.
    pub open spec fn wf(&self) -> bool {
        &&& self.canon_wf()
        &&& self.index_wf()
        &&& state_wf(self.state(), self.spec_params(), self.spec_checkpoints())
        &&& self.spec_store().wf()
        &&& self.spec_store().spec_healthy()
        &&& self.spec_store().spec_headers() == self.spec_best_chain()
    }

    /// In a sound tree the best chain is one longer than the tip is high,
    /// and ends with the tip's header.
    pub proof fn lemma_best_chain(&self)
        requires
            self.wf(),
        ensures
            self.spec_best_chain().len() == self.spec_height() + 1,
            self.spec_best_chain().last() == self.nodes()[self.spec_tip()].header,
            self.spec_store().spec_height() == self.spec_height(),
    {
        lemma_path(self.nodes(), self.spec_tip());
        self.spec_store().lemma_not_empty();
    }

    /// A tree that knows the genesis header alone, with a new store that
    /// holds it; `None` where the rules make no sense.
    pub fn new(genesis: Header, params: Params, checkpoints: Vec<Checkpoint>) -> (r: Option<
        BlockTree,
    >)
        ensures
            r is Some <==> params.wf(),
            r matches Some(t) ==> {
                &&& t.wf()
                &&& t.nodes() == seq![spec_genesis_node(genesis)]
                &&& t.spec_tip() == 0
                &&& t.spec_params() == params
                &&& t.spec_checkpoints() == checkpoints@
                &&& t.spec_best_chain() == seq![genesis]
                &&& t.spec_height() == 0
                &&& t.spec_limit() == usize::MAX
            },
    {
        if !params.is_valid() {
            return None;
        }
        let store: HeaderStore = HeaderStore::create(false, genesis).unwrap();
        let work: U256 = add_work(U256::zero(), genesis.bits);
        let node = Node { header: genesis, hash: genesis.hash(), parent: 0, height: 0, work };
        let mut nodes: Vec<Node> = Vec::new();
        nodes.push(node);
        let mut index: HashIndex = HashIndex::new();
        assert(nodes@.drop_last() =~= Seq::<Node>::empty());
        index.insert(&nodes);
        let mut canon: Vec<usize> = Vec::new();
        canon.push(0);
        proof {
            work.lemma_from_nat();
            assert(nodes@ =~= seq![spec_genesis_node(genesis)]);
            assert(canon_matches(canon@, spec_path(nodes@, 0)));
        }
        Some(BlockTree { nodes, index, canon, store, params, checkpoints })
    }

    /// The tree that a stored chain gives: the stored headers are imported
    /// anew, one after the other, into a tree that knows the store's first
    /// header as genesis.
    ///
    /// Fails with the store's `Corruption` where the store is not healthy,
    /// with the error of the first header that is refused, and with
    /// `InvalidBlock` where the stored headers are not the best chain of
    /// the tree that they give.
    pub fn from_store(
        store: &HeaderStore,
        params: Params,
        checkpoints: Vec<Checkpoint>,
        now: u64,
    ) -> (r: Result<BlockTree, TreeError>)
        requires
            store.wf(),
            params.wf(),
        ensures
            !store.spec_healthy() ==> exists|n: int|
                {
                    &&& #[trigger] crate::store::is_valid_count(store.bytes(), 80, n)
                    &&& r matches Err(e) && e == TreeError::Store(
                        StoreError::Corruption { offset: (n * 84) as usize },
                    )
                },
            store.spec_healthy() ==> ({
                let hs = store.spec_headers();
                let fin = spec_import(
                    TreeState { nodes: seq![spec_genesis_node(hs[0])], tip: 0 },
                    params,
                    checkpoints@,
                    spec_load_limit(store.spec_limit()),
                    hs.drop_first(),
                    now,
                );
                match r {
                    Ok(t) => {
                        &&& t.wf()
                        &&& fin.1 is None
                        &&& t.state() == fin.0
                        &&& t.spec_best_chain() == hs
                        &&& t.spec_params() == params
                        &&& t.spec_checkpoints() == checkpoints@
                        &&& t.spec_limit() == spec_load_limit(store.spec_limit())
                    },
                    Err(e) => if fin.1 is Some {
                        fin.1 == Some(e)
                    } else {
                        e == TreeError::InvalidBlock && spec_chain(fin.0.nodes, fin.0.tip) != hs
                    },
                }
            }),
    {
        match store.check() {
            Err(e) => {
                proof {
                    let n = choose|n: int|
                        {
                            &&& #[trigger] crate::store::is_valid_count(store.bytes(), 80, n)
                            &&& e == (StoreError::Corruption { offset: (n * 84) as usize })
                        };
                    assert(crate::store::is_valid_count(store.bytes(), 80, n));
                }
                return Err(TreeError::Store(e));
            },
            Ok(_) => {},
        }
        proof {
            store.lemma_not_empty();
        }
        let top: u64 = store.height();
        let genesis: Header = store.get(0).unwrap();
        let ghost cps = checkpoints@;
        let ghost fin = spec_import(
            TreeState { nodes: seq![spec_genesis_node(genesis)], tip: 0 },
            params,
            cps,
            spec_load_limit(store.spec_limit()),
            store.spec_headers().drop_first(),
            now,
        );
        let mut tree: BlockTree = BlockTree::new(genesis, params, checkpoints).unwrap();
        tree.set_store_limit(store.limit());
        let mut headers: Vec<Header> = Vec::new();
        let mut h: u64 = 0;
        while h < top
            invariant
                store.wf(),
                store.spec_healthy(),
                top == store.spec_height(),
                h <= top,
                headers@ == store.spec_headers().subrange(1, h + 1),
            decreases top - h,
        {
            h = h + 1;
            let next: Header = store.get(h).unwrap();
            headers.push(next);
            assert(headers@ =~= store.spec_headers().subrange(1, h + 1));
        }
        assert(headers@ =~= store.spec_headers().drop_first());
        match tree.import(&headers, now) {
            Err(e) => {
                return Err(e);
            },
            Ok(_) => {},
        }
        if tree.height() != top {
            proof {
                tree.lemma_best_chain();
            }
            return Err(TreeError::InvalidBlock);
        }
        proof {
            tree.lemma_best_chain();
        }
        let mut k: u64 = 0;
        while k <= top
            invariant
                store.wf(),
                store.spec_healthy(),
                tree.wf(),
                top == store.spec_height(),
                top == tree.spec_height(),
                genesis == store.spec_headers()[0],
                fin == spec_import(
                    TreeState { nodes: seq![spec_genesis_node(genesis)], tip: 0 },
                    params,
                    cps,
                    spec_load_limit(store.spec_limit()),
                    store.spec_headers().drop_first(),
                    now,
                ),
                fin.1 is None,
                cps == checkpoints@,
                tree.state() == fin.0,
                tree.spec_params() == params,
                tree.spec_checkpoints() == cps,
                tree.spec_limit() == spec_load_limit(store.spec_limit()),
                k <= top + 1,
                tree.spec_best_chain().len() == top + 1,
                store.spec_headers().len() == top + 1,
                forall|j: int| 0 <= j < k ==> tree.spec_best_chain()[j] == store.spec_headers()[j],
            decreases top + 1 - k,
        {
            let ours: Header = tree.get_header(k).unwrap();
            let theirs: Header = store.get(k).unwrap();
            assert(tree.spec_best_chain() == spec_chain(fin.0.nodes, fin.0.tip));
            if ours != theirs {
                assert(tree.spec_best_chain()[k as int] != store.spec_headers()[k as int]);
                return Err(TreeError::InvalidBlock);
            }
            if k == top {
                assert(tree.spec_best_chain() =~= store.spec_headers());
                return Ok(tree);
            }
            k = k + 1;
        }
        assert(tree.spec_best_chain() =~= store.spec_headers());
        Ok(tree)
    }

    /// The height of the tip of the best chain.
    pub fn height(&self) -> (r: u64)
        requires
            self.wf(),
        ensures
            r == self.spec_height(),
    {
        let tip: usize = self.tip_index();
        self.nodes[tip].height
    }

    /// The header at the tip of the best chain.
    pub fn get_tip(&self) -> (r: Header)
        requires
            self.wf(),
        ensures
            r == self.spec_best_chain().last(),
    {
        proof {
            self.lemma_best_chain();
        }
        let tip: usize = self.tip_index();
        self.nodes[tip].header
    }

    /// The hash of the tip of the best chain.
    pub fn tip_hash(&self) -> (r: U256)
        requires
            self.wf(),
        ensures
            r == self.spec_best_chain().last().spec_hash(),
    {
        proof {
            self.lemma_best_chain();
            if self.spec_tip() > 0 {
                assert(node_linked(self.nodes(), self.spec_tip()));
            }
        }
        let tip: usize = self.tip_index();
        self.nodes[tip].hash
    }

    /// The header of the best chain at `height`, read from the store;
    /// `None` above the tip.
    pub fn get_header(&self, height: u64) -> (r: Option<Header>)
        requires
            self.wf(),
        ensures
            r == if height <= self.spec_height() {
                Some(self.spec_best_chain()[height as int])
            } else {
                None
            },
    {
        proof {
            self.lemma_best_chain();
        }
        self.store.get(height)
    }

    /// The hash of the best chain's header at `height`; `None` above the
    /// tip.
    pub fn get_hash(&self, height: u64) -> (r: Option<U256>)
        requires
            self.wf(),
        ensures
            r == if height <= self.spec_height() {
                Some(self.spec_best_chain()[height as int].spec_hash())
            } else {
                None
            },
    {
        proof {
            self.lemma_best_chain();
            lemma_path(self.nodes@, self.spec_tip());
        }
        let n: usize = self.canon.len();
        if height >= n as u64 {
            return None;
        }
        let i: usize = self.canon[height as usize];
        proof {
            if i > 0 {
                assert(node_linked(self.nodes@, i as int));
            }
        }
        Some(self.nodes[i].hash)
    }

    /// Whether a header with the given hash is known.
    pub fn contains(&self, hash: &U256) -> (r: bool)
        requires
            self.wf(),
        ensures
            r == spec_known(self.nodes(), *hash),
    {
        self.index.find(&self.nodes, hash).is_some()
    }

    /// The store of the best chain's headers.
    pub fn store(&self) -> (r: &HeaderStore)
        ensures
            *r == self.spec_store(),
    {
        &self.store
    }

    /// The network's rules.
    pub fn params(&self) -> (r: Params)
        ensures
            r == self.spec_params(),
    {
        self.params
    }

    /// Changes the number of headers that the store may hold. A limit below
    /// the length of the best chain is raised to it.
    pub fn set_store_limit(&mut self, limit: usize)
        requires
            old(self).wf(),
        ensures
            final(self).wf(),
            final(self).state() == old(self).state(),
            final(self).spec_params() == old(self).spec_params(),
            final(self).spec_checkpoints() == old(self).spec_checkpoints(),
            final(self).spec_best_chain() == old(self).spec_best_chain(),
            final(self).spec_limit() == if limit > old(self).spec_height() {
                limit as nat
            } else {
                old(self).spec_height() + 1
            },
    {
        proof {
            self.lemma_best_chain();
        }
        let used: usize = self.store.len();
        if limit < used {
            self.store.set_limit(used);
        } else {
            self.store.set_limit(limit);
        }
    }

    /// The number of known headers that are not on the best chain.
    pub fn side_count(&self) -> (r: usize)
        requires
            self.wf(),
        ensures
            r == self.nodes().len() - self.spec_height() - 1,
    {
        proof {
            lemma_path(self.nodes@, self.spec_tip());
            lemma_height_bound(self.nodes@, self.spec_tip());
        }
        self.nodes.len() - self.canon.len()
    }

    /// Forgets the branches that left the best chain more than `depth`
    /// below its tip, and returns the number of headers dropped. What stays
    /// is `spec_keep`: the best chain, and every header whose branch left it
    /// no more than `depth` below the tip. The best chain and the store stay
    /// as they are; a header that was dropped is no longer known, and is
    /// checked anew when it comes again.
    pub fn prune(&mut self, depth: u64) -> (dropped: usize)
        requires
            old(self).wf(),
        ensures
            final(self).wf(),
            final(self).nodes() == spec_compact(
                old(self).nodes(),
                spec_keep(old(self).nodes(), old(self).spec_tip(), depth),
                old(self).nodes().len() as int,
            ),
            final(self).spec_tip() == spec_rank(
                spec_keep(old(self).nodes(), old(self).spec_tip(), depth),
                old(self).spec_tip(),
            ),
            final(self).spec_best_chain() == old(self).spec_best_chain(),
            final(self).spec_store() == old(self).spec_store(),
            final(self).spec_params() == old(self).spec_params(),
            final(self).spec_checkpoints() == old(self).spec_checkpoints(),
            dropped == old(self).nodes().len() - final(self).nodes().len(),
    {
        let ghost tip = self.spec_tip();
        let ghost path = spec_path(self.nodes@, tip);
        let ghost mask = spec_keep(self.nodes@, tip, depth);
        proof {
            lemma_path(self.nodes@, tip);
            lemma_height_bound(self.nodes@, tip);
            lemma_keep_closed(self.nodes@, tip, depth);
            lemma_compact_wf(self.state(), self.params, self.checkpoints@, mask);
            lemma_compact(self.nodes@, mask, self.nodes@.len() as int);
            lemma_compact_chain(self.nodes@, mask, tip);
        }
        let n: usize = self.nodes.len();
        let top: u64 = self.nodes[self.tip_index()].height;
        // where each branch left the best chain, and which nodes stay
        let mut forks: Vec<u64> = Vec::new();
        let mut keep: Vec<bool> = Vec::new();
        let mut i: usize = 0;
        while i < n
            invariant
                self.wf(),
                tip == self.spec_tip(),
                path == spec_path(self.nodes@, tip),
                path.len() == top + 1,
                top == self.nodes@[tip].height,
                n == self.nodes@.len(),
                i <= n,
                forks@.len() == i,
                keep@.len() == i,
                forall|j: int| 0 <= j < i ==> #[trigger] forks@[j] == spec_fork(self.nodes@, path, j),
                forall|j: int| 0 <= j < i ==> forks@[j] <= top,
                forall|j: int| 0 <= j < i ==> #[trigger] keep@[j] == spec_stays(self.nodes@, tip, depth, j),
            decreases n - i,
        {
            let on: bool = self.on_best_chain(i);
            proof {
                lemma_path(self.nodes@, tip);
                assert(on == spec_on_path(self.nodes@, path, i as int));
                if !on {
                    if i == 0 {
                        lemma_height_zero(self.nodes@, path[0]);
                    }
                    assert(node_linked(self.nodes@, i as int));
                }
            }
            let fork: u64 = if on {
                self.nodes[i].height
            } else {
                forks[self.nodes[i].parent]
            };
            forks.push(fork);
            keep.push(on || top - fork <= depth);
            i = i + 1;
        }
        assert(keep@ =~= mask);
        // the nodes that stay, each with its parent where the parent has moved to
        let mut kept: Vec<Node> = Vec::new();
        let mut index: HashIndex = HashIndex::new();
        let mut ranks: Vec<usize> = Vec::new();
        let mut i: usize = 0;
        while i < n
            invariant
                self.wf(),
                n == self.nodes@.len(),
                keep@ == mask,
                mask.len() == n,
                i <= n,
                ranks@.len() == i,
                forall|j: int| 0 <= j < i ==> #[trigger] ranks@[j] == spec_rank(mask, j),
                kept@.len() == spec_rank(mask, i as int),
                kept@ == spec_compact(self.nodes@, mask, i as int),
                index.wf(kept@),
            decreases n - i,
        {
            proof {
                lemma_rank(mask, i as int, i as int);
                if i > 0 {
                    assert(node_linked(self.nodes@, i as int));
                    lemma_rank(mask, self.nodes@[i as int].parent as int, i as int);
                }
            }
            ranks.push(kept.len());
            if keep[i] {
                let src: Node = self.nodes[i];
                let parent: usize = if src.parent < i {
                    ranks[src.parent]
                } else {
                    kept.len()
                };
                let ghost was = kept@;
                kept.push(
                    Node {
                        header: src.header,
                        hash: src.hash,
                        parent,
                        height: src.height,
                        work: src.work,
                    },
                );
                assert(kept@.drop_last() =~= was);
                index.insert(&kept);
            }
            i = i + 1;
        }
        // the best chain, with every node where it has moved to
        let mut canon: Vec<usize> = Vec::new();
        let mut k: usize = 0;
        let m: usize = self.canon.len();
        while k < m
            invariant
                self.wf(),
                tip == self.spec_tip(),
                path == spec_path(self.nodes@, tip),
                m == self.canon@.len(),
                m == path.len(),
                n == self.nodes@.len(),
                ranks@.len() == n,
                forall|j: int| 0 <= j < n ==> #[trigger] ranks@[j] == spec_rank(mask, j),
                k <= m,
                canon@.len() == k,
                forall|j: int| 0 <= j < k ==> #[trigger] canon@[j] == spec_rank(mask, path[j]),
            decreases m - k,
        {
            proof {
                lemma_path(self.nodes@, tip);
            }
            canon.push(ranks[self.canon[k]]);
            k = k + 1;
        }
        proof {
            let new = spec_compact(self.nodes@, mask, n as int);
            assert(kept@ == new);
            assert(canon@.last() == spec_rank(mask, tip));
            assert(canon_matches(canon@, spec_path(new, spec_rank(mask, tip))));
        }
        let left: usize = kept.len();
        proof {
            lemma_rank(mask, n as int, n as int);
        }
        self.nodes = kept;
        self.index = index;
        self.canon = canon;
        n - left
    }

    /// Takes one header; what it does is `spec_step`. Returns the rule that
    /// the header broke, if it broke one.
    pub fn import_one(&mut self, header: Header, now: u64) -> (r: Option<TreeError>)
        requires
            old(self).wf(),
        ensures
            final(self).wf(),
            final(self).spec_params() == old(self).spec_params(),
            final(self).spec_checkpoints() == old(self).spec_checkpoints(),
            final(self).spec_limit() == old(self).spec_limit(),
            (final(self).state(), r) == spec_step(
                old(self).state(),
                old(self).spec_params(),
                old(self).spec_checkpoints(),
                old(self).spec_limit(),
                header,
                now,
            ),
    {
        let hash: U256 = header.hash();
        if self.index.find(&self.nodes, &hash).is_some() {
            return None;
        }
        let parent: usize = match self.index.find(&self.nodes, &header.prev_blockhash) {
            None => {
                return Some(TreeError::InvalidBlock);
            },
            Some(p) => p,
        };
        proof {
            lemma_index_of(self.nodes@, parent as int);
        }
        match check_header(&self.nodes, &self.params, &self.checkpoints, parent, &header, &hash, now) {
            Some(e) => {
                return Some(e);
            },
            None => {},
        }
        if self.nodes.len() == usize::MAX {
            return Some(TreeError::Store(StoreError::Full));
        }
        proof {
            lemma_height_bound(self.nodes@, parent as int);
            lemma_new_node(self.nodes@, parent as int, header);
            lemma_step_wf(
                self.state(),
                self.params,
                self.checkpoints@,
                self.store.spec_limit(),
                header,
                now,
            );
            self.lemma_best_chain();
        }
        let node = Node {
            header,
            hash,
            parent,
            height: self.nodes[parent].height + 1,
            work: add_work(self.nodes[parent].work, header.bits),
        };
        proof {
            node.work.lemma_from_nat();
            assert(node == spec_new_node(self.nodes@, parent as int, header));
        }
        let tip: usize = self.tip_index();
        let ghost before = self.nodes@;
        if self.nodes[tip].work.lt(&node.work) {
            if node.height + 1 > self.store.limit() as u64 {
                return Some(TreeError::Store(StoreError::Full));
            }
            let newest: usize = self.nodes.len();
            self.nodes.push(node);
            assert(self.nodes@.drop_last() =~= before);
            self.index.insert(&self.nodes);
            proof {
                lemma_push_frame(before, node, tip as int);
                assert(canon_matches(self.canon@, spec_path(self.nodes@, tip as int)));
            }
            self.switch_to(newest);
        } else {
            self.nodes.push(node);
            assert(self.nodes@.drop_last() =~= before);
            self.index.insert(&self.nodes);
            proof {
                lemma_push_frame(before, node, tip as int);
                assert(canon_matches(self.canon@, spec_path(self.nodes@, tip as int)));
            }
        }
        None
    }

    /// What became of the best chain since node `old_tip` was its tip.
    fn outcome_since(&self, old_tip: usize) -> (r: ImportOutcome)
        requires
            self.wf(),
            old_tip < self.nodes@.len(),
        ensures
            r@ == spec_change(spec_chain(self.nodes@, old_tip as int), self.spec_best_chain()),
    {
        let tip: usize = self.tip_index();
        if tip == old_tip {
            return ImportOutcome::Unchanged;
        }
        let ghost a = spec_chain(self.nodes@, old_tip as int);
        let ghost b = spec_chain(self.nodes@, tip as int);
        let ghost h0 = self.nodes@[old_tip as int].height as int;
        let mut reverted: Vec<Header> = Vec::new();
        let mut cur: usize = old_tip;
        proof {
            lemma_path(self.nodes@, old_tip as int);
            lemma_path(self.nodes@, tip as int);
        }
        while !self.on_best_chain(cur)
            invariant
                self.wf(),
                tip == self.canon@.last(),
                old_tip < self.nodes@.len(),
                cur <= old_tip,
                a == spec_chain(self.nodes@, old_tip as int),
                h0 == self.nodes@[old_tip as int].height,
                a.len() == h0 + 1,
                self.nodes@[cur as int].height + reverted@.len() == h0,
                spec_path(self.nodes@, old_tip as int)[self.nodes@[cur as int].height as int] == cur,
                forall|k: int| 0 <= k < reverted@.len() ==> reverted@[k] == a[h0 - k],
                reverted@.len() > 0 ==> {
                    let up = self.nodes@[cur as int].height + 1;
                    !(up < self.canon@.len() && self.canon@[up] == spec_path(
                        self.nodes@,
                        old_tip as int,
                    )[up])
                },
            decreases cur,
        {
            proof {
                lemma_path(self.nodes@, old_tip as int);
                lemma_path(self.nodes@, tip as int);
                lemma_path(self.nodes@, cur as int);
                if cur == 0 {
                    lemma_height_zero(self.nodes@, spec_path(self.nodes@, tip as int)[0]);
                    assert(self.canon@[0] == 0);
                }
                assert(node_linked(self.nodes@, cur as int));
                let p = self.nodes@[cur as int].parent as int;
                lemma_path(self.nodes@, p);
                let h = self.nodes@[cur as int].height as int;
                assert(spec_path(self.nodes@, cur as int) == spec_path(self.nodes@, p).push(
                    cur as int,
                ));
                assert(spec_path(self.nodes@, old_tip as int).take(h + 1)[h - 1] == p);
            }
            reverted.push(self.nodes[cur].header);
            cur = self.nodes[cur].parent;
        }
        let top: Node = self.nodes[tip];
        proof {
            lemma_path(self.nodes@, old_tip as int);
            lemma_path(self.nodes@, tip as int);
            let n = self.nodes@[cur as int].height + 1;
            let pa = spec_path(self.nodes@, old_tip as int);
            let pb = spec_path(self.nodes@, tip as int);
            assert(pb[n - 1] == cur);
            assert(a.take(n) == spec_chain(self.nodes@, cur as int));
            assert(b.take(n) == spec_chain(self.nodes@, cur as int));
            if n < a.len() && n < b.len() {
                let x = pa[n];
                let y = pb[n];
                assert(self.canon@[n] == y);
                assert(x != y);
                assert(self.nodes@[x].hash == self.nodes@[x].header.spec_hash()) by {
                    if x > 0 {
                        assert(node_linked(self.nodes@, x));
                    }
                }
                assert(self.nodes@[y].hash == self.nodes@[y].header.spec_hash()) by {
                    if y > 0 {
                        assert(node_linked(self.nodes@, y));
                    }
                }
                if x < y {
                    assert(self.nodes@[x].hash != self.nodes@[y].hash);
                } else {
                    assert(self.nodes@[y].hash != self.nodes@[x].hash);
                }
            }
            lemma_common_len(a, b, n);
            if b == a {
                lemma_common_len(a, b, a.len() as int);
                assert(pb[n - 1] == tip);
            }
            if tip > 0 {
                assert(node_linked(self.nodes@, tip as int));
            }
            assert(reverted@ =~= a.subrange(n, a.len() as int).reverse());
        }
        if reverted.len() == 0 {
            ImportOutcome::Advanced { tip: top.hash, height: top.height }
        } else {
            ImportOutcome::Reorg { tip: top.hash, height: top.height, reverted }
        }
    }

    /// Takes a batch of headers in order, up to the first that is refused;
    /// what it does is `spec_import`. The headers before the refused one
    /// stay. The report says what became of the best chain, and which rule
    /// the refused header broke.
    pub fn import_report(&mut self, headers: &Vec<Header>, now: u64) -> (r: ImportReport)
        requires
            old(self).wf(),
        ensures
            final(self).wf(),
            final(self).spec_params() == old(self).spec_params(),
            final(self).spec_checkpoints() == old(self).spec_checkpoints(),
            final(self).spec_limit() == old(self).spec_limit(),
            (final(self).state(), r.error) == spec_import(
                old(self).state(),
                old(self).spec_params(),
                old(self).spec_checkpoints(),
                old(self).spec_limit(),
                headers@,
                now,
            ),
            r.outcome@ == spec_change(old(self).spec_best_chain(), final(self).spec_best_chain()),
    {
        let old_tip: usize = self.tip_index();
        let ghost s0 = self.state();
        let ghost params = self.params;
        let ghost cps = self.checkpoints@;
        let ghost limit = self.store.spec_limit();
        let mut error: Option<TreeError> = None;
        let mut failed: bool = false;
        let mut i: usize = 0;
        proof {
            assert(headers@.skip(0) =~= headers@);
            assert(s0.nodes.take(s0.nodes.len() as int) =~= s0.nodes);
        }
        while i < headers.len() && !failed
            invariant
                i <= headers@.len(),
                self.wf(),
                self.spec_params() == params,
                self.spec_checkpoints() == cps,
                self.spec_limit() == limit,
                spec_extends(s0.nodes, self.nodes()),
                failed == error is Some,
                !failed ==> spec_import(s0, params, cps, limit, headers@, now) == spec_import(
                    self.state(),
                    params,
                    cps,
                    limit,
                    headers@.skip(i as int),
                    now,
                ),
                failed ==> spec_import(s0, params, cps, limit, headers@, now) == (
                    self.state(),
                    error,
                ),
            decreases headers@.len() - i + (if failed { 0int } else { 1int }),
        {
            let ghost before = self.state();
            proof {
                lemma_step_wf(before, params, cps, limit, headers@[i as int], now);
                assert(headers@.skip(i as int)[0] == headers@[i as int]);
                assert(headers@.skip(i as int).drop_first() =~= headers@.skip(i + 1));
            }
            let refused: Option<TreeError> = self.import_one(headers[i], now);
            proof {
                assert(self.nodes().take(s0.nodes.len() as int) =~= before.nodes.take(
                    s0.nodes.len() as int,
                ));
            }
            match refused {
                Some(e) => {
                    error = Some(e);
                    failed = true;
                },
                None => {
                    i = i + 1;
                },
            }
        }
        proof {
            lemma_extends_frame(s0.nodes, self.nodes(), old_tip as int);
        }
        ImportReport { outcome: self.outcome_since(old_tip), error }
    }

    /// Takes a batch of headers in order, up to the first that is refused;
    /// what it does is `spec_import`. The headers before the refused one
    /// stay. On success it says what became of the best chain; else it
    /// names the rule that the refused header broke.
    pub fn import(&mut self, headers: &Vec<Header>, now: u64) -> (r: Result<
        ImportOutcome,
        TreeError,
    >)
        requires
            old(self).wf(),
        ensures
            final(self).wf(),
            final(self).spec_params() == old(self).spec_params(),
            final(self).spec_checkpoints() == old(self).spec_checkpoints(),
            final(self).spec_limit() == old(self).spec_limit(),
            final(self).state() == spec_import(
                old(self).state(),
                old(self).spec_params(),
                old(self).spec_checkpoints(),
                old(self).spec_limit(),
                headers@,
                now,
            ).0,
            match r {
                Ok(outcome) => {
                    &&& spec_import(
                        old(self).state(),
                        old(self).spec_params(),
                        old(self).spec_checkpoints(),
                        old(self).spec_limit(),
                        headers@,
                        now,
                    ).1 is None
                    &&& outcome@ == spec_change(
                        old(self).spec_best_chain(),
                        final(self).spec_best_chain(),
                    )
                },
                Err(e) => spec_import(
                    old(self).state(),
                    old(self).spec_params(),
                    old(self).spec_checkpoints(),
                    old(self).spec_limit(),
                    headers@,
                    now,
                ).1 == Some(e),
            },
    {
        let report: ImportReport = self.import_report(headers, now);
        match report.error {
            None => Ok(report.outcome),
            Some(e) => Err(e),
        }
    }

    /// The index of the tip.
    fn tip_index(&self) -> (r: usize)
        requires
            self.canon_wf(),
        ensures
            r == self.spec_tip(),
    {
        self.canon[self.canon.len() - 1]
    }

    /// Whether node `i` lies on the best chain.
    fn on_best_chain(&self, i: usize) -> (r: bool)
        requires
            i < self.nodes@.len(),
        ensures
            r == (self.nodes@[i as int].height < self.canon@.len() && self.canon@[self.nodes@[i as int].height as int]
                == i),
    {
        let h: u64 = self.nodes[i].height;
        let n: usize = self.canon.len();
        if h >= n as u64 {
            false
        } else {
            self.canon[h as usize] == i
        }
    }

    /// The nodes from node `index` down to the first that lies on the best
    /// chain, that one left out, and that one's index.
    fn collect_branch(&self, index: usize) -> (r: (Vec<usize>, usize))
        requires
            arena_linked(self.nodes@),
            self.canon_wf(),
            index < self.nodes@.len(),
            self.canon@.last() < self.nodes@.len(),
            self.canon@.last() < index,
        ensures
            branch_ok(self.nodes@, r.0@, r.1 as int, index as int),
            self.nodes@[r.1 as int].height < self.canon@.len(),
            self.canon@[self.nodes@[r.1 as int].height as int] == r.1,
    {
        let mut branch: Vec<usize> = Vec::new();
        let mut cur: usize = index;
        let ghost tip = self.canon@.last() as int;
        proof {
            lemma_path(self.nodes@, tip);
        }
        while !self.on_best_chain(cur)
            invariant
                arena_linked(self.nodes@),
                self.canon_wf(),
                tip == self.canon@.last(),
                0 <= tip < index,
                index < self.nodes@.len(),
                cur <= index,
                branch@.len() == 0 ==> cur == index,
                branch@.len() > 0 ==> branch@[0] == index && self.nodes@[branch@.last() as int].parent
                    == cur,
                forall|k: int| 0 <= k < branch@.len() ==> 1 <= (#[trigger] branch@[k]) < self.nodes@.len(),
                forall|k: int|
                    0 <= k < branch@.len() - 1 ==> self.nodes@[(#[trigger] branch@[k]) as int].parent
                        == branch@[k + 1],
                self.nodes@[cur as int].height + branch@.len() == self.nodes@[index as int].height,
            decreases cur,
        {
            proof {
                lemma_path(self.nodes@, tip);
                if cur == 0 {
                    lemma_height_zero(self.nodes@, spec_path(self.nodes@, tip)[0]);
                    assert(self.canon@[0] == 0);
                }
                assert(node_linked(self.nodes@, cur as int));
            }
            branch.push(cur);
            cur = self.nodes[cur].parent;
        }
        proof {
            lemma_path(self.nodes@, tip);
            if branch@.len() == 0 {
                let h = self.nodes@[index as int].height as int;
                assert(spec_path(self.nodes@, tip)[h] <= tip);
            }
        }
        (branch, cur)
    }

    /// Makes node `index`, the newest, the tip: the store and the index of
    /// the best chain are cut back to the fork and filled with the branch
    /// that leads to the node.
    fn switch_to(&mut self, index: usize)
        requires
            arena_linked(old(self).nodes@),
            old(self).canon_wf(),
            index < old(self).nodes@.len(),
            old(self).canon@.last() < index,
            old(self).store.wf(),
            old(self).store.spec_healthy(),
            old(self).store.spec_headers() == spec_chain(
                old(self).nodes@,
                old(self).canon@.last() as int,
            ),
            old(self).nodes@[index as int].height + 1 <= old(self).store.spec_limit(),
        ensures
            final(self).nodes@ == old(self).nodes@,
            final(self).index == old(self).index,
            final(self).params == old(self).params,
            final(self).checkpoints@ == old(self).checkpoints@,
            final(self).canon_wf(),
            final(self).canon@.last() == index,
            final(self).store.wf(),
            final(self).store.spec_healthy(),
            final(self).store.spec_limit() == old(self).store.spec_limit(),
            final(self).store.spec_headers() == spec_chain(old(self).nodes@, index as int),
    {
        let found: (Vec<usize>, usize) = self.collect_branch(index);
        let branch: Vec<usize> = found.0;
        let fork: usize = found.1;
        let fork_height: u64 = self.nodes[fork].height;
        let ghost tip = self.canon@.last() as int;
        proof {
            lemma_path(self.nodes@, tip);
            lemma_path(self.nodes@, fork as int);
            self.store.lemma_not_empty();
        }
        self.store.rollback(fork_height);
        self.canon.truncate((fork_height + 1) as usize);
        proof {
            let a = spec_path(self.nodes@, tip)[fork_height as int];
            assert(a == fork);
            assert(spec_chain(self.nodes@, tip).take(fork_height + 1) == spec_chain(
                self.nodes@,
                tip,
            ).subrange(0, fork_height + 1));
            assert(self.canon@.last() == fork);
        }
        let mut i: usize = branch.len();
        while i > 0
            invariant
                i <= branch@.len(),
                self.nodes@ == old(self).nodes@,
                self.index == old(self).index,
                self.params == old(self).params,
                self.checkpoints@ == old(self).checkpoints@,
                arena_linked(self.nodes@),
                branch_ok(self.nodes@, branch@, fork as int, index as int),
                self.canon_wf(),
                self.canon@.last() == (if i == branch@.len() {
                    fork
                } else {
                    branch@[i as int]
                }),
                self.store.wf(),
                self.store.spec_healthy(),
                self.store.spec_limit() == old(self).store.spec_limit(),
                self.store.spec_headers() == spec_chain(self.nodes@, self.canon@.last() as int),
                self.nodes@[self.canon@.last() as int].height + i == self.nodes@[index as int].height,
                self.nodes@[index as int].height + 1 <= self.store.spec_limit(),
            decreases i,
        {
            let ghost c = self.canon@.last() as int;
            let ghost before = self.canon@;
            i = i - 1;
            let idx: usize = branch[i];
            proof {
                assert(node_linked(self.nodes@, idx as int));
                assert(self.nodes@[idx as int].parent == c);
                lemma_path(self.nodes@, c);
                self.store.lemma_not_empty();
            }
            self.canon.push(idx);
            let done: Result<(), StoreError> = self.store.append(&self.nodes[idx].header);
            proof {
                assert(done is Ok);
                let path = spec_path(self.nodes@, idx as int);
                assert(path == spec_path(self.nodes@, c).push(idx as int));
                assert(self.canon@ == before.push(idx));
                assert(canon_matches(self.canon@, path));
            }
        }
    }
}

} // verus!
