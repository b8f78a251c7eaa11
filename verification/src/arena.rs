//! The arena of known headers: every header points at its parent by index,
//! and a chain is the walk from a header back to genesis.

use crate::header::Header;
use crate::pow::{spec_target_or_zero, spec_work, work_from_bits};
use crate::uint256::U256;
use vstd::prelude::*;

verus! {

/// A known header with what the tree has worked out about it.
#[derive(Clone, Copy, Debug, PartialEq, Eq, Structural)]
pub struct Node {
    /// The header.
    pub header: Header,
    /// The header's hash.
    pub hash: U256,
    /// Index of the parent's node; genesis is its own parent.
    pub parent: usize,
    /// Distance from genesis.
    pub height: u64,
    /// Work of the chain that ends at this header, genesis included.
    pub work: U256,
}

/// The work of a chain after a header with the given compact target is put
/// on a chain of work `prev`; it stops at `2^256 - 1`.
pub open spec fn spec_add_work(prev: nat, bits: u32) -> nat {
    let sum = prev + spec_work(spec_target_or_zero(bits));
    if sum <= U256::spec_max() {
        sum
    } else {
        U256::spec_max()
    }
}

/// The indices of the nodes from genesis to node `i`.
pub open spec fn spec_path(nodes: Seq<Node>, i: int) -> Seq<int>
    decreases i,
{
    if 0 < i < nodes.len() && nodes[i].parent < i {
        spec_path(nodes, nodes[i].parent as int).push(i)
    } else {
        seq![i]
    }
}

/// The headers from genesis to node `i`.
pub open spec fn spec_chain(nodes: Seq<Node>, i: int) -> Seq<Header>
    decreases i,
{
    if 0 < i < nodes.len() && nodes[i].parent < i {
        spec_chain(nodes, nodes[i].parent as int).push(nodes[i].header)
    } else {
        seq![nodes[i].header]
    }
}

/// Node `i` follows its parent: the parent came first, and height, previous
/// hash, work and hash are what the parent and the header give.
pub open spec fn node_linked(nodes: Seq<Node>, i: int) -> bool {
    let n = nodes[i];
    let p = nodes[n.parent as int];
    &&& n.parent < i
    &&& n.height == p.height + 1
    &&& n.header.prev_blockhash == p.hash
    &&& n.work@ == spec_add_work(p.work@, n.header.bits)
    &&& n.hash == n.header.spec_hash()
}

/// Node 0 is a genesis node.
pub open spec fn genesis_node(n: Node) -> bool {
    &&& n.parent == 0
    &&& n.height == 0
    &&& n.hash == n.header.spec_hash()
    &&& n.work@ == spec_add_work(0, n.header.bits)
}

/// The arena begins with genesis, every other node follows an earlier one,
/// and no hash occurs twice.
pub open spec fn arena_linked(nodes: Seq<Node>) -> bool {
    &&& nodes.len() >= 1
    &&& genesis_node(nodes[0])
    &&& forall|i: int| 1 <= i < nodes.len() ==> #[trigger] node_linked(nodes, i)
    &&& forall|i: int, j: int|
        #![trigger nodes[i], nodes[j]]
        0 <= i < j < nodes.len() ==> nodes[i].hash != nodes[j].hash
}

/// Some node has the given hash.
pub open spec fn spec_known(nodes: Seq<Node>, hash: U256) -> bool {
    exists|i: int| 0 <= i < nodes.len() && #[trigger] nodes[i].hash == hash
}

/// The index of the node with the given hash, where some node has it.
pub open spec fn spec_index_of(nodes: Seq<Node>, hash: U256) -> int {
    choose|i: int| 0 <= i < nodes.len() && #[trigger] nodes[i].hash == hash
}

/// In a linked arena the node with a given hash is the only one.
pub proof fn lemma_index_of(nodes: Seq<Node>, i: int)
    requires
        arena_linked(nodes),
        0 <= i < nodes.len(),
    ensures
        spec_known(nodes, nodes[i].hash),
        spec_index_of(nodes, nodes[i].hash) == i,
{
    let j = spec_index_of(nodes, nodes[i].hash);
    assert(0 <= j < nodes.len() && nodes[j].hash == nodes[i].hash);
    if j < i {
        assert(nodes[j].hash != nodes[i].hash);
    }
    if i < j {
        assert(nodes[i].hash != nodes[j].hash);
    }
}

/// What the walk to node `i` looks like: it is as long as the node is high,
/// and its entry at height `k` is a node of that height whose own walk is
/// the walk's first `k + 1` entries.
pub proof fn lemma_path(nodes: Seq<Node>, i: int)
    requires
        arena_linked(nodes),
        0 <= i < nodes.len(),
    ensures
        spec_path(nodes, i).len() == nodes[i].height + 1,
        spec_chain(nodes, i).len() == nodes[i].height + 1,
        spec_path(nodes, i)[nodes[i].height as int] == i,
        forall|k: int|
            0 <= k <= nodes[i].height ==> {
                let a = #[trigger] spec_path(nodes, i)[k];
                &&& 0 <= a <= i
                &&& nodes[a].height == k
                &&& spec_chain(nodes, i)[k] == nodes[a].header
                &&& spec_path(nodes, a) == spec_path(nodes, i).take(k + 1)
                &&& spec_chain(nodes, a) == spec_chain(nodes, i).take(k + 1)
            },
    decreases i,
{
    let path = spec_path(nodes, i);
    let chain = spec_chain(nodes, i);
    if i > 0 {
        assert(node_linked(nodes, i));
        let p = nodes[i].parent as int;
        lemma_path(nodes, p);
        let ppath = spec_path(nodes, p);
        let pchain = spec_chain(nodes, p);
        assert(path == ppath.push(i));
        assert(chain == pchain.push(nodes[i].header));
        assert forall|k: int| 0 <= k <= nodes[i].height implies {
            let a = #[trigger] spec_path(nodes, i)[k];
            &&& 0 <= a <= i
            &&& nodes[a].height == k
            &&& spec_chain(nodes, i)[k] == nodes[a].header
            &&& spec_path(nodes, a) == spec_path(nodes, i).take(k + 1)
            &&& spec_chain(nodes, a) == spec_chain(nodes, i).take(k + 1)
        } by {
            if k < nodes[i].height {
                let a = ppath[k];
                assert(path[k] == a);
                assert(ppath.take(k + 1) =~= path.take(k + 1));
                assert(pchain.take(k + 1) =~= chain.take(k + 1));
            } else {
                assert(path.take(k + 1) =~= path);
                assert(chain.take(k + 1) =~= chain);
            }
        }
    } else {
        assert(path.take(1) =~= path);
        assert(chain.take(1) =~= chain);
    }
}

/// A new node at the end of the arena changes no walk to an older node.
pub proof fn lemma_push_frame(nodes: Seq<Node>, x: Node, i: int)
    requires
        0 <= i < nodes.len(),
    ensures
        spec_path(nodes.push(x), i) == spec_path(nodes, i),
        spec_chain(nodes.push(x), i) == spec_chain(nodes, i),
    decreases i,
{
    let next = nodes.push(x);
    assert(next[i] == nodes[i]);
    if 0 < i && nodes[i].parent < i {
        lemma_push_frame(nodes, x, nodes[i].parent as int);
    }
}

/// A linked arena stays linked when a node is put at its end that follows
/// an older node and has a new hash.
pub proof fn lemma_push_linked(nodes: Seq<Node>, x: Node)
    requires
        arena_linked(nodes),
        node_linked(nodes.push(x), nodes.len() as int),
        !spec_known(nodes, x.hash),
    ensures
        arena_linked(nodes.push(x)),
{
    let next = nodes.push(x);
    assert forall|i: int| 1 <= i < next.len() implies #[trigger] node_linked(next, i) by {
        if i < nodes.len() {
            assert(node_linked(nodes, i));
            assert(next[i] == nodes[i]);
            assert(next[nodes[i].parent as int] == nodes[nodes[i].parent as int]);
        }
    }
    assert forall|i: int, j: int|
        #![trigger next[i], next[j]]
        0 <= i < j < next.len() implies next[i].hash != next[j].hash by {
        if j < nodes.len() {
            assert(nodes[i].hash != nodes[j].hash);
        } else {
            assert(nodes[i].hash != x.hash);
        }
    }
}

/// The node of the given height on the walk to node `idx`.
pub fn ancestor_at(nodes: &Vec<Node>, idx: usize, height: u64) -> (r: usize)
    requires
        arena_linked(nodes@),
        idx < nodes@.len(),
        height <= nodes@[idx as int].height,
    ensures
        r == spec_path(nodes@, idx as int)[height as int],
        r <= idx,
        nodes@[r as int].height == height,
        nodes@[r as int].header == spec_chain(nodes@, idx as int)[height as int],
{
    let mut cur: usize = idx;
    proof {
        lemma_path(nodes@, idx as int);
    }
    while nodes[cur].height > height
        invariant
            arena_linked(nodes@),
            idx < nodes@.len(),
            cur <= idx,
            height <= nodes@[cur as int].height <= nodes@[idx as int].height,
            spec_path(nodes@, idx as int)[nodes@[cur as int].height as int] == cur,
        decreases nodes@[cur as int].height,
    {
        proof {
            lemma_path(nodes@, idx as int);
            lemma_path(nodes@, cur as int);
            assert(node_linked(nodes@, cur as int));
            let p = nodes@[cur as int].parent as int;
            lemma_path(nodes@, p);
            let h = nodes@[cur as int].height as int;
            assert(spec_path(nodes@, cur as int) == spec_path(nodes@, p).push(cur as int));
            assert(spec_path(nodes@, idx as int).take(h + 1)[h - 1] == p);
        }
        cur = nodes[cur].parent;
    }
    proof {
        lemma_path(nodes@, idx as int);
    }
    cur
}

/// The work of a chain after a header with the given compact target is put
/// on a chain of work `prev`.
pub fn add_work(prev: U256, bits: u32) -> (r: U256)
    ensures
        r@ == spec_add_work(prev@, bits),
{
    prev.saturating_add(work_from_bits(bits))
}

} // verus!
