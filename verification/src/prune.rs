//! Dropping nodes from the arena: which nodes stay when branches that left
//! the best chain long ago are forgotten, and what the arena looks like
//! once the others are gone.

use crate::arena::{
    arena_linked, genesis_node, lemma_path, node_linked, spec_chain, spec_path, Node,
};
use crate::pow::Params;
use crate::rules::{lemma_height_bound, Checkpoint};
use crate::tree::{arena_valid, node_valid, spec_best, state_wf, TreeState};
use vstd::prelude::*;

verus! {

/// The number of nodes among the first `n` that stay.
pub open spec fn spec_rank(keep: Seq<bool>, n: int) -> int
    decreases n,
{
    if n <= 0 {
        0
    } else {
        spec_rank(keep, n - 1) + if keep[n - 1] {
            1int
        } else {
            0int
        }
    }
}

/// Node `i` as it stands in the arena once the others are gone: its parent
/// is where the parent has moved to.
pub open spec fn spec_moved(nodes: Seq<Node>, keep: Seq<bool>, i: int) -> Node {
    Node { parent: spec_rank(keep, nodes[i].parent as int) as usize, ..nodes[i] }
}

/// The first `n` nodes of the arena once those that do not stay are gone.
pub open spec fn spec_compact(nodes: Seq<Node>, keep: Seq<bool>, n: int) -> Seq<Node>
    decreases n,
{
    if n <= 0 {
        Seq::<Node>::empty()
    } else if keep[n - 1] {
        spec_compact(nodes, keep, n - 1).push(spec_moved(nodes, keep, n - 1))
    } else {
        spec_compact(nodes, keep, n - 1)
    }
}

/// Genesis stays, and with every node that stays its parent stays.
pub open spec fn keep_closed(nodes: Seq<Node>, keep: Seq<bool>) -> bool {
    &&& keep.len() == nodes.len()
    &&& nodes.len() >= 1
    &&& keep[0]
    &&& forall|i: int| 1 <= i < nodes.len() && #[trigger] keep[i] ==> keep[nodes[i].parent as int]
}

/// The rank grows with the index, and strictly past a node that stays.
pub proof fn lemma_rank(keep: Seq<bool>, i: int, n: int)
    requires
        0 <= i <= n <= keep.len(),
    ensures
        0 <= spec_rank(keep, i) <= spec_rank(keep, n) <= n,
        spec_rank(keep, i) <= i,
        i < n && keep[i] ==> spec_rank(keep, i) < spec_rank(keep, n),
    decreases n,
{
    if i < n {
        lemma_rank(keep, i, n - 1);
    } else {
        if n > 0 {
            lemma_rank(keep, n - 1, n - 1);
        }
    }
}

/// The compacted arena holds, at its rank, every node that stays, and
/// nothing else.
pub proof fn lemma_compact(nodes: Seq<Node>, keep: Seq<bool>, n: int)
    requires
        0 <= n <= nodes.len(),
        keep.len() == nodes.len(),
    ensures
        spec_compact(nodes, keep, n).len() == spec_rank(keep, n),
        forall|i: int|
            0 <= i < n && #[trigger] keep[i] ==> 0 <= spec_rank(keep, i) < spec_rank(keep, n)
                && spec_compact(nodes, keep, n)[spec_rank(keep, i)] == spec_moved(nodes, keep, i),
        forall|a: int| 0 <= a < spec_rank(keep, n) ==> #[trigger] spec_origin_ok(nodes, keep, n, a),
    decreases n,
{
    if n > 0 {
        lemma_compact(nodes, keep, n - 1);
        let prev = spec_compact(nodes, keep, n - 1);
        let cur = spec_compact(nodes, keep, n);
        assert forall|i: int| 0 <= i < n && #[trigger] keep[i] implies 0 <= spec_rank(keep, i)
            < spec_rank(keep, n) && cur[spec_rank(keep, i)] == spec_moved(nodes, keep, i) by {
            lemma_rank(keep, i, n - 1);
            lemma_rank(keep, i, n);
            if i < n - 1 {
                assert(prev[spec_rank(keep, i)] == spec_moved(nodes, keep, i));
            }
        }
        assert forall|a: int| 0 <= a < spec_rank(keep, n) implies #[trigger] spec_origin_ok(
            nodes,
            keep,
            n,
            a,
        ) by {
            lemma_rank(keep, n - 1, n - 1);
            if a < spec_rank(keep, n - 1) {
                let i = spec_origin(keep, n - 1, a);
                assert(spec_origin_ok(nodes, keep, n - 1, a));
                assert(prev[a] == spec_moved(nodes, keep, i));
                assert(spec_rank(keep, i) == a);
                assert(spec_origin(keep, n, a) == i);
            } else {
                assert(keep[n - 1]);
                assert(a == spec_rank(keep, n - 1));
                assert(spec_origin(keep, n, a) == n - 1);
            }
        }
    } else {
        assert(spec_rank(keep, n) == 0);
    }
}

/// Entry `a` of the compacted arena is the node that stays and has rank
/// `a`.
pub open spec fn spec_origin_ok(nodes: Seq<Node>, keep: Seq<bool>, n: int, a: int) -> bool {
    let i = spec_origin(keep, n, a);
    &&& 0 <= i < n
    &&& keep[i]
    &&& spec_rank(keep, i) == a
    &&& spec_compact(nodes, keep, n)[a] == spec_moved(nodes, keep, i)
}

/// The index, among the first `n` nodes, of the node that stays and has
/// rank `a`.
pub open spec fn spec_origin(keep: Seq<bool>, n: int, a: int) -> int
    decreases n,
{
    if n <= 0 {
        0
    } else if keep[n - 1] && spec_rank(keep, n - 1) == a {
        n - 1
    } else {
        spec_origin(keep, n - 1, a)
    }
}

/// A linked arena is linked once nodes are gone, where genesis stays and
/// with every node its parent.
pub proof fn lemma_compact_linked(nodes: Seq<Node>, keep: Seq<bool>)
    requires
        arena_linked(nodes),
        keep_closed(nodes, keep),
        nodes.len() <= usize::MAX,
    ensures
        arena_linked(spec_compact(nodes, keep, nodes.len() as int)),
{
    let n = nodes.len() as int;
    let new = spec_compact(nodes, keep, n);
    lemma_compact(nodes, keep, n);
    lemma_rank(keep, 0, n);
    assert(spec_rank(keep, 1) == 1);
    lemma_rank(keep, 1, n);
    assert(new[spec_rank(keep, 0)] == spec_moved(nodes, keep, 0));
    assert(genesis_node(new[0]));
    assert forall|a: int| 1 <= a < new.len() implies #[trigger] node_linked(new, a) by {
        let i = spec_origin(keep, n, a);
        assert(spec_origin_ok(nodes, keep, n, a));
        assert(new[a] == spec_moved(nodes, keep, i));
        assert(i >= 1) by {
            if i == 0 {
                assert(spec_rank(keep, 0) == 0);
            }
        }
        assert(node_linked(nodes, i));
        let p = nodes[i].parent as int;
        assert(keep[i]);
        assert(keep[p]);
        lemma_rank(keep, p, i);
        lemma_rank(keep, i, n);
        assert(new[spec_rank(keep, p)] == spec_moved(nodes, keep, p));
    }
    assert forall|a: int, b: int|
        #![trigger new[a], new[b]]
        0 <= a < b < new.len() implies new[a].hash != new[b].hash by {
        let i = spec_origin(keep, n, a);
        let j = spec_origin(keep, n, b);
        assert(spec_origin_ok(nodes, keep, n, a));
        assert(spec_origin_ok(nodes, keep, n, b));
        assert(new[a] == spec_moved(nodes, keep, i));
        assert(new[b] == spec_moved(nodes, keep, j));
        if i < j {
            assert(nodes[i].hash != nodes[j].hash);
        } else if j < i {
            assert(nodes[j].hash != nodes[i].hash);
        }
    }
}

/// A node that stays has, in the compacted arena, the chain that it had,
/// and its walk is the walk that it had with every node at its rank.
pub proof fn lemma_compact_chain(nodes: Seq<Node>, keep: Seq<bool>, i: int)
    requires
        arena_linked(nodes),
        keep_closed(nodes, keep),
        nodes.len() <= usize::MAX,
        0 <= i < nodes.len(),
        keep[i],
    ensures
        spec_chain(spec_compact(nodes, keep, nodes.len() as int), spec_rank(keep, i))
            == spec_chain(nodes, i),
        spec_path(spec_compact(nodes, keep, nodes.len() as int), spec_rank(keep, i)).len()
            == spec_path(nodes, i).len(),
        forall|k: int|
            0 <= k < spec_path(nodes, i).len() ==> #[trigger] spec_path(
                spec_compact(nodes, keep, nodes.len() as int),
                spec_rank(keep, i),
            )[k] == spec_rank(keep, spec_path(nodes, i)[k]),
    decreases i,
{
    let n = nodes.len() as int;
    let new = spec_compact(nodes, keep, n);
    lemma_compact(nodes, keep, n);
    lemma_rank(keep, i, n);
    let a = spec_rank(keep, i);
    assert(new[a] == spec_moved(nodes, keep, i));
    if i > 0 {
        assert(node_linked(nodes, i));
        let p = nodes[i].parent as int;
        assert(keep[p]);
        lemma_rank(keep, p, i);
        lemma_rank(keep, 0, i);
        lemma_compact_chain(nodes, keep, p);
        assert(new[a].parent == spec_rank(keep, p));
        assert(spec_chain(new, a) == spec_chain(new, spec_rank(keep, p)).push(new[a].header));
        assert(spec_path(new, a) == spec_path(new, spec_rank(keep, p)).push(a));
        assert(spec_path(nodes, i) == spec_path(nodes, p).push(i));
    } else {
        assert(a == 0);
    }
}

/// Dropping nodes leaves a state that the tree can be in, with the same
/// best chain, where genesis and the tip stay and with every node its
/// parent.
pub proof fn lemma_compact_wf(s: TreeState, params: Params, cps: Seq<Checkpoint>, keep: Seq<bool>)
    requires
        state_wf(s, params, cps),
        keep_closed(s.nodes, keep),
        keep[s.tip],
    ensures
        state_wf(
            TreeState {
                nodes: spec_compact(s.nodes, keep, s.nodes.len() as int),
                tip: spec_rank(keep, s.tip),
            },
            params,
            cps,
        ),
        spec_chain(spec_compact(s.nodes, keep, s.nodes.len() as int), spec_rank(keep, s.tip))
            == spec_chain(s.nodes, s.tip),
{
    let nodes = s.nodes;
    let n = nodes.len() as int;
    let new = spec_compact(nodes, keep, n);
    let tip = spec_rank(keep, s.tip);
    lemma_compact(nodes, keep, n);
    lemma_compact_linked(nodes, keep);
    lemma_compact_chain(nodes, keep, s.tip);
    lemma_rank(keep, s.tip, n);
    assert(new[tip] == spec_moved(nodes, keep, s.tip));
    assert forall|a: int| 1 <= a < new.len() implies #[trigger] node_valid(new, params, cps, a) by {
        let i = spec_origin(keep, n, a);
        assert(spec_origin_ok(nodes, keep, n, a));
        assert(new[a] == spec_moved(nodes, keep, i));
        assert(i >= 1) by {
            if i == 0 {
                assert(spec_rank(keep, 0) == 0);
            }
        }
        assert(node_linked(nodes, i));
        assert(node_valid(nodes, params, cps, i));
        let p = nodes[i].parent as int;
        assert(keep[i]);
        assert(keep[p]);
        lemma_rank(keep, p, i);
        lemma_rank(keep, i, n);
        lemma_compact_chain(nodes, keep, p);
        assert(new[a].parent as int == spec_rank(keep, p));
        assert(new[a].header == nodes[i].header);
    }
    assert forall|a: int| 0 <= a < new.len() implies (#[trigger] new[a]).work@ < new[tip].work@ || (
    new[a].work@ == new[tip].work@ && tip <= a) by {
        let i = spec_origin(keep, n, a);
        assert(spec_origin_ok(nodes, keep, n, a));
        assert(new[a] == spec_moved(nodes, keep, i));
        assert(nodes[i].work@ < nodes[s.tip].work@ || (nodes[i].work@ == nodes[s.tip].work@
            && s.tip <= i));
        if s.tip <= i {
            lemma_rank(keep, s.tip, i);
        }
    }
}

/// Whether node `i` lies on the walk `path`.
pub open spec fn spec_on_path(nodes: Seq<Node>, path: Seq<int>, i: int) -> bool {
    nodes[i].height < path.len() && path[nodes[i].height as int] == i
}

/// The height at which the branch of node `i` left the walk `path`: the
/// height of the node itself where it lies on the walk, else that of its
/// parent's branch.
pub open spec fn spec_fork(nodes: Seq<Node>, path: Seq<int>, i: int) -> int
    decreases i,
{
    if spec_on_path(nodes, path, i) {
        nodes[i].height as int
    } else if 0 < i < nodes.len() && nodes[i].parent < i {
        spec_fork(nodes, path, nodes[i].parent as int)
    } else {
        0
    }
}

/// Whether node `i` stays when branches that left the best chain more than
/// `depth` below its tip are dropped.
pub open spec fn spec_stays(nodes: Seq<Node>, tip: int, depth: u64, i: int) -> bool {
    spec_on_path(nodes, spec_path(nodes, tip), i) || spec_fork(nodes, spec_path(nodes, tip), i)
        + depth >= nodes[tip].height
}

/// Which nodes stay when branches that left the best chain more than
/// `depth` below its tip are dropped.
pub open spec fn spec_keep(nodes: Seq<Node>, tip: int, depth: u64) -> Seq<bool> {
    Seq::new(nodes.len(), |i: int| spec_stays(nodes, tip, depth, i))
}

/// Genesis and the tip stay, and with every node that stays its parent.
pub proof fn lemma_keep_closed(nodes: Seq<Node>, tip: int, depth: u64)
    requires
        arena_linked(nodes),
        0 <= tip < nodes.len(),
    ensures
        keep_closed(nodes, spec_keep(nodes, tip, depth)),
        spec_keep(nodes, tip, depth)[tip],
        forall|k: int|
            0 <= k < spec_path(nodes, tip).len() ==> spec_keep(nodes, tip, depth)[#[trigger] spec_path(
                nodes,
                tip,
            )[k]],
{
    let keep = spec_keep(nodes, tip, depth);
    let path = spec_path(nodes, tip);
    lemma_path(nodes, tip);
    crate::tree::lemma_height_zero(nodes, path[0]);
    assert(spec_on_path(nodes, path, 0));
    assert(spec_on_path(nodes, path, tip));
    assert forall|i: int| 1 <= i < nodes.len() && #[trigger] keep[i] implies keep[nodes[i].parent as int] by {
        assert(node_linked(nodes, i));
        let p = nodes[i].parent as int;
        if spec_on_path(nodes, path, i) {
            let h = nodes[i].height as int;
            lemma_path(nodes, i);
            assert(spec_path(nodes, i) == spec_path(nodes, p).push(i));
            assert(path.take(h + 1)[h - 1] == p);
            assert(spec_on_path(nodes, path, p));
        }
    }
}

} // verus!
