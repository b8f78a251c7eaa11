//! The rules that a header must meet to be put on a chain: proof of work,
//! the difficulty that its height calls for, its time, and the checkpoints.

use crate::arena::{ancestor_at, arena_linked, lemma_path, node_linked, spec_chain, Node};
use crate::header::Header;
use crate::pow::{check_proof_of_work, spec_pow_valid, Params};
use crate::store::StoreError;
use crate::uint256::U256;
use vstd::prelude::*;
use vstd::relations::{sorted_by, total_ordering};
use vstd::seq_lib::{lemma_sorted_unique, to_multiset_build, to_multiset_insert, to_multiset_len};

verus! {

/// Number of ancestors whose median time a header must pass.
pub const MEDIAN_WINDOW: usize = 11;

/// How far, in seconds, a header's time may lie ahead of the clock.
pub const MAX_FUTURE_DRIFT: u64 = 7200;

/// A height and the hash that the header there must have.
#[derive(Clone, Copy, Debug, PartialEq, Eq, Structural)]
pub struct Checkpoint {
    /// The height.
    pub height: u64,
    /// The hash of the header at that height.
    pub hash: U256,
}

/// Why a header was not taken.
#[derive(Clone, Copy, Debug, PartialEq, Eq, Structural)]
pub enum TreeError {
    /// The header's parent is not known.
    InvalidBlock,
    /// The header's hash does not meet its own target, or the target is not
    /// one that the network allows.
    InvalidProofOfWork,
    /// The header's target is not the one that its height calls for.
    InvalidDifficulty,
    /// The header's time is not after the median of its ancestors, or too
    /// far ahead of the clock.
    InvalidTimestamp,
    /// The header's hash is not the one that a checkpoint fixes for its
    /// height.
    InvalidCheckpoint,
    /// The store did not take the new chain.
    Store(StoreError),
}

/// The order of block times.
pub open spec fn time_leq() -> spec_fn(u32, u32) -> bool {
    |a: u32, b: u32| a <= b
}

/// The middle element of the times in ascending order.
pub open spec fn spec_median(times: Seq<u32>) -> u32 {
    times.sort_by(time_leq())[times.len() as int / 2]
}

/// The times of the last eleven headers of a chain, or of all where it has
/// fewer.
pub open spec fn spec_window(p: Seq<Header>) -> Seq<u32> {
    let from = if p.len() > MEDIAN_WINDOW {
        p.len() - MEDIAN_WINDOW
    } else {
        0
    };
    Seq::new((p.len() - from) as nat, |k: int| p[from + k].time)
}

/// The median time of the end of a chain.
pub open spec fn spec_median_time(p: Seq<Header>) -> u32 {
    spec_median(spec_window(p))
}

/// The compact target that the header after the chain `p` must carry: that
/// of the last header, but adjusted where a period ends.
pub open spec fn spec_expected_bits(params: Params, p: Seq<Header>) -> u32 {
    let h = p.len() as int;
    let n = params.retarget_interval as int;
    if params.no_retargeting || h % n != 0 || h < n {
        p.last().bits
    } else {
        params.spec_next_bits(p.last().bits, p[h - n].time, p.last().time)
    }
}

/// A checkpoint fixes another hash for the height.
pub open spec fn spec_checkpoint_conflict(cps: Seq<Checkpoint>, height: int, hash: U256) -> bool {
    exists|k: int| 0 <= k < cps.len() && (#[trigger] cps[k]).height == height && cps[k].hash != hash
}

/// The first rule that the header breaks when put after the chain `p`, at
/// the time `now`; `None` where it breaks none.
pub open spec fn spec_check_header(
    params: Params,
    cps: Seq<Checkpoint>,
    p: Seq<Header>,
    header: Header,
    now: u64,
) -> Option<TreeError> {
    if !spec_pow_valid(header.spec_hash()@, header.bits, params.spec_pow_limit()) {
        Some(TreeError::InvalidProofOfWork)
    } else if header.bits != spec_expected_bits(params, p) {
        Some(TreeError::InvalidDifficulty)
    } else if header.time <= spec_median_time(p) || header.time > now + MAX_FUTURE_DRIFT {
        Some(TreeError::InvalidTimestamp)
    } else if spec_checkpoint_conflict(cps, p.len() as int, header.spec_hash()) {
        Some(TreeError::InvalidCheckpoint)
    } else {
        None
    }
}

/// The header meets every rule that does not depend on the clock.
pub open spec fn spec_header_ok(
    params: Params,
    cps: Seq<Checkpoint>,
    p: Seq<Header>,
    header: Header,
) -> bool {
    &&& spec_pow_valid(header.spec_hash()@, header.bits, params.spec_pow_limit())
    &&& header.bits == spec_expected_bits(params, p)
    &&& header.time > spec_median_time(p)
    &&& !spec_checkpoint_conflict(cps, p.len() as int, header.spec_hash())
}

/// A header that breaks no rule meets every rule that does not depend on
/// the clock.
pub proof fn lemma_checked_is_ok(
    params: Params,
    cps: Seq<Checkpoint>,
    p: Seq<Header>,
    header: Header,
    now: u64,
)
    requires
        spec_check_header(params, cps, p, header, now) is None,
    ensures
        spec_header_ok(params, cps, p, header),
{
}

/// Block times are totally ordered.
pub proof fn lemma_time_order()
    ensures
        total_ordering(time_leq()),
{
    let r = time_leq();
    assert(vstd::relations::reflexive(r));
    assert(vstd::relations::antisymmetric(r));
    assert(vstd::relations::transitive(r));
    assert(vstd::relations::strongly_connected(r));
}

/// The median does not depend on the order of the times.
pub proof fn lemma_median_permutation(a: Seq<u32>, b: Seq<u32>)
    requires
        a.to_multiset() == b.to_multiset(),
    ensures
        spec_median(a) == spec_median(b),
        a.len() == b.len(),
{
    lemma_time_order();
    a.lemma_sort_by_ensures(time_leq());
    b.lemma_sort_by_ensures(time_leq());
    lemma_sorted_unique(a.sort_by(time_leq()), b.sort_by(time_leq()), time_leq());
    to_multiset_len(a);
    to_multiset_len(b);
}

/// The middle element of the times in ascending order.
pub fn median(times: &Vec<u32>) -> (m: u32)
    requires
        times@.len() >= 1,
    ensures
        m == spec_median(times@),
{
    let mut sorted: Vec<u32> = Vec::new();
    let mut i: usize = 0;
    assert(times@.take(0) =~= Seq::<u32>::empty());
    while i < times.len()
        invariant
            i <= times@.len(),
            sorted@.len() == i,
            sorted_by(sorted@, time_leq()),
            sorted@.to_multiset() == times@.take(i as int).to_multiset(),
        decreases times@.len() - i,
    {
        let x: u32 = times[i];
        let mut j: usize = 0;
        while j < sorted.len() && sorted[j] <= x
            invariant
                j <= sorted@.len(),
                forall|k: int| 0 <= k < j ==> sorted@[k] <= x,
            decreases sorted@.len() - j,
        {
            j = j + 1;
        }
        let ghost before = sorted@;
        sorted.insert(j, x);
        proof {
            to_multiset_insert(before, j as int, x);
            to_multiset_build(times@.take(i as int), x);
            assert(times@.take(i + 1) =~= times@.take(i as int).push(x));
            assert forall|a: int, b: int| 0 <= a < b < sorted@.len() implies #[trigger] time_leq()(
                sorted@[a],
                sorted@[b],
            ) by {
                if b < j {
                    assert(time_leq()(before[a], before[b]));
                } else if b == j {
                } else if a < j {
                    assert(time_leq()(before[a], before[b - 1]));
                } else if a == j {
                    assert(x < before[j as int]);
                    if j as int != b - 1 {
                        assert(time_leq()(before[j as int], before[b - 1]));
                    }
                } else {
                    assert(time_leq()(before[a - 1], before[b - 1]));
                }
            }
        }
        i = i + 1;
    }
    proof {
        assert(times@.take(times@.len() as int) =~= times@);
        lemma_time_order();
        times@.lemma_sort_by_ensures(time_leq());
        lemma_sorted_unique(sorted@, times@.sort_by(time_leq()), time_leq());
    }
    sorted[times.len() / 2]
}

/// The height of a node is at most its index.
pub proof fn lemma_height_bound(nodes: Seq<Node>, i: int)
    requires
        arena_linked(nodes),
        0 <= i < nodes.len(),
    ensures
        nodes[i].height <= i,
    decreases i,
{
    if i > 0 {
        assert(node_linked(nodes, i));
        lemma_height_bound(nodes, nodes[i].parent as int);
    }
}

/// The median time of the end of the chain to node `idx`.
pub fn median_time(nodes: &Vec<Node>, idx: usize) -> (m: u32)
    requires
        arena_linked(nodes@),
        idx < nodes@.len(),
    ensures
        m == spec_median_time(spec_chain(nodes@, idx as int)),
{
    let ghost chain = spec_chain(nodes@, idx as int);
    let ghost h = nodes@[idx as int].height as int;
    let mut times: Vec<u32> = Vec::new();
    let mut cur: usize = idx;
    let mut more: bool = true;
    proof {
        lemma_path(nodes@, idx as int);
    }
    while more
        invariant
            arena_linked(nodes@),
            idx < nodes@.len(),
            cur <= idx,
            chain == spec_chain(nodes@, idx as int),
            h == nodes@[idx as int].height,
            chain.len() == h + 1,
            times@.len() <= MEDIAN_WINDOW,
            more ==> nodes@[cur as int].height == h - times@.len(),
            more ==> crate::arena::spec_path(nodes@, idx as int)[h - times@.len()] == cur,
            more ==> times@.len() < MEDIAN_WINDOW,
            !more ==> times@.len() == MEDIAN_WINDOW || times@.len() == h + 1,
            times@.len() <= h + 1,
            forall|k: int| 0 <= k < times@.len() ==> times@[k] == chain[h - k].time,
        decreases MEDIAN_WINDOW - times@.len() + (if more { 1int } else { 0int }),
    {
        proof {
            lemma_path(nodes@, idx as int);
        }
        times.push(nodes[cur].header.time);
        if times.len() == MEDIAN_WINDOW || nodes[cur].height == 0 {
            more = false;
        } else {
            proof {
                lemma_path(nodes@, idx as int);
                lemma_path(nodes@, cur as int);
                assert(node_linked(nodes@, cur as int));
                let p = nodes@[cur as int].parent as int;
                lemma_path(nodes@, p);
                let hc = nodes@[cur as int].height as int;
                assert(crate::arena::spec_path(nodes@, cur as int) == crate::arena::spec_path(
                    nodes@,
                    p,
                ).push(cur as int));
                assert(crate::arena::spec_path(nodes@, idx as int).take(hc + 1)[hc - 1] == p);
            }
            cur = nodes[cur].parent;
        }
    }
    proof {
        let w = spec_window(chain);
        assert(times@ =~= w.reverse());
        w.lemma_reverse_to_multiset();
        lemma_median_permutation(times@, w);
    }
    median(&times)
}

/// The compact target that the header after node `parent` must carry.
pub fn expected_bits(nodes: &Vec<Node>, params: &Params, parent: usize) -> (bits: u32)
    requires
        arena_linked(nodes@),
        parent < nodes@.len(),
        params.wf(),
    ensures
        bits == spec_expected_bits(*params, spec_chain(nodes@, parent as int)),
{
    proof {
        lemma_path(nodes@, parent as int);
        lemma_height_bound(nodes@, parent as int);
    }
    // the length of the arena bounds every height in it
    let count: usize = nodes.len();
    let last: Header = nodes[parent].header;
    let height: u64 = nodes[parent].height + 1;
    let interval: u64 = params.retarget_interval as u64;
    if params.no_retargeting || height % interval != 0 || height < interval {
        last.bits
    } else {
        let first: usize = ancestor_at(nodes, parent, height - interval);
        params.next_bits(last.bits, nodes[first].header.time, last.time)
    }
}

/// Whether a checkpoint fixes another hash for the height.
pub fn checkpoint_conflict(cps: &Vec<Checkpoint>, height: u64, hash: &U256) -> (r: bool)
    ensures
        r == spec_checkpoint_conflict(cps@, height as int, *hash),
{
    let mut i: usize = 0;
    while i < cps.len()
        invariant
            i <= cps@.len(),
            forall|k: int| 0 <= k < i ==> !((#[trigger] cps@[k]).height == height && cps@[k].hash != *hash),
        decreases cps@.len() - i,
    {
        if cps[i].height == height && cps[i].hash != *hash {
            return true;
        }
        i = i + 1;
    }
    false
}

/// The first rule that `header`, whose hash is `hash`, breaks when put after
/// node `parent` at the time `now`; `None` where it breaks none.
pub fn check_header(
    nodes: &Vec<Node>,
    params: &Params,
    cps: &Vec<Checkpoint>,
    parent: usize,
    header: &Header,
    hash: &U256,
    now: u64,
) -> (r: Option<TreeError>)
    requires
        arena_linked(nodes@),
        parent < nodes@.len(),
        params.wf(),
        *hash == header.spec_hash(),
    ensures
        r == spec_check_header(*params, cps@, spec_chain(nodes@, parent as int), *header, now),
{
    proof {
        lemma_path(nodes@, parent as int);
        lemma_height_bound(nodes@, parent as int);
    }
    // the length of the arena bounds every height in it
    let count: usize = nodes.len();
    let limit: U256 = params.pow_limit();
    if !check_proof_of_work(hash, header.bits, &limit) {
        return Some(TreeError::InvalidProofOfWork);
    }
    if header.bits != expected_bits(nodes, params, parent) {
        return Some(TreeError::InvalidDifficulty);
    }
    let time: u64 = header.time as u64;
    if header.time <= median_time(nodes, parent) || (time > now && time - now > MAX_FUTURE_DRIFT) {
        return Some(TreeError::InvalidTimestamp);
    }
    if checkpoint_conflict(cps, nodes[parent].height + 1, hash) {
        return Some(TreeError::InvalidCheckpoint);
    }
    None
}

} // verus!
