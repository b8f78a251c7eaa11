//! What holds of every import, stated over the tree's mathematical model.

use crate::arena::{
    arena_linked, lemma_index_of, lemma_path, lemma_push_frame, node_linked, spec_chain,
    spec_index_of, spec_known, spec_path, Node,
};
use crate::header::Header;
use crate::pow::{spec_pow_valid, spec_target, spec_target_or_zero, spec_work, Params};
use crate::rules::{
    lemma_height_bound, spec_check_header, spec_checkpoint_conflict, spec_expected_bits,
    spec_median_time, Checkpoint, TreeError, MAX_FUTURE_DRIFT,
};
use crate::tree::{
    lemma_common_append, lemma_common_len, lemma_common_prefix, lemma_new_node, lemma_step_wf,
    node_valid, spec_change, spec_common_len, spec_extends, spec_import, spec_new_node, spec_step,
    state_wf, Change, TreeState,
};
use crate::uint256::{two_pow_256, U256};
use vstd::prelude::*;

verus! {

/// The work that a sequence of headers adds to a chain.
pub open spec fn spec_total_work(headers: Seq<Header>) -> nat
    decreases headers.len(),
{
    if headers.len() == 0 {
        0
    } else {
        spec_work(spec_target_or_zero(headers[0].bits)) + spec_total_work(headers.drop_first())
    }
}

/// Each header but the first names the one before it as its parent.
pub open spec fn spec_linked_headers(headers: Seq<Header>) -> bool {
    forall|i: int|
        1 <= i < headers.len() ==> (#[trigger] headers[i]).prev_blockhash == headers[i
            - 1].spec_hash()
}

/// No header of the sequence is known, and no two of them have the same
/// hash.
pub open spec fn spec_fresh(nodes: Seq<Node>, headers: Seq<Header>) -> bool {
    &&& forall|i: int|
        0 <= i < headers.len() ==> !spec_known(nodes, (#[trigger] headers[i]).spec_hash())
    &&& forall|i: int, j: int|
        #![trigger headers[i], headers[j]]
        0 <= i < j < headers.len() ==> headers[i].spec_hash() != headers[j].spec_hash()
}

/// Each header of the sequence breaks no rule when it is put after the
/// chain `base` and the headers before it.
pub open spec fn spec_all_valid(
    params: Params,
    cps: Seq<Checkpoint>,
    base: Seq<Header>,
    headers: Seq<Header>,
    now: u64,
) -> bool {
    forall|i: int|
        0 <= i < headers.len() ==> spec_check_header(
            params,
            cps,
            base + headers.take(i),
            #[trigger] headers[i],
            now,
        ) is None
}

/// The headers are a branch that can be put on node `p`: they follow one
/// another from `p` on, none is known, each meets the rules in its place,
/// and neither the arena, the store nor the count of work runs out.
pub open spec fn spec_branch(
    s: TreeState,
    params: Params,
    cps: Seq<Checkpoint>,
    limit: nat,
    p: int,
    headers: Seq<Header>,
    now: u64,
) -> bool {
    &&& 0 <= p < s.nodes.len()
    &&& headers.len() >= 1
    &&& headers[0].prev_blockhash == s.nodes[p].hash
    &&& spec_linked_headers(headers)
    &&& spec_fresh(s.nodes, headers)
    &&& spec_all_valid(params, cps, spec_chain(s.nodes, p), headers, now)
    &&& s.nodes.len() + headers.len() <= usize::MAX
    &&& s.nodes[p].height + headers.len() + 1 <= limit
    &&& s.nodes[p].work@ + spec_total_work(headers) <= U256::spec_max()
}

/// A header that meets the proof-of-work rule adds work to its chain.
pub proof fn lemma_work_positive(header: Header, limit: nat)
    requires
        spec_pow_valid(header.spec_hash()@, header.bits, limit),
    ensures
        spec_work(spec_target_or_zero(header.bits)) >= 1,
{
    let t = spec_target(header.bits)->Some_0 as int;
    assert(0 < t < two_pow_256());
    assert(two_pow_256() / (t + 1) >= 1) by (nonlinear_arith)
        requires
            0 < t + 1 <= two_pow_256(),
    ;
}

/// A hash is known after a node was added exactly where it was known
/// before or is the node's.
pub proof fn lemma_known_push(nodes: Seq<Node>, x: Node, hash: U256)
    ensures
        spec_known(nodes.push(x), hash) <==> spec_known(nodes, hash) || x.hash == hash,
{
    let next = nodes.push(x);
    if spec_known(nodes, hash) {
        let i = spec_index_of(nodes, hash);
        assert(next[i].hash == hash);
    }
    if x.hash == hash {
        assert(next[nodes.len() as int].hash == hash);
    }
    if spec_known(next, hash) {
        let i = spec_index_of(next, hash);
        if i < nodes.len() {
            assert(nodes[i].hash == hash);
        }
    }
}

/// The first header of a branch is taken: it becomes a node after `p`, and
/// that node becomes the tip where it has more work than the tip had.
pub proof fn lemma_branch_first(
    s: TreeState,
    params: Params,
    cps: Seq<Checkpoint>,
    limit: nat,
    p: int,
    headers: Seq<Header>,
    now: u64,
)
    requires
        state_wf(s, params, cps),
        spec_branch(s, params, cps, limit, p, headers, now),
    ensures
        ({
            let next = spec_step(s, params, cps, limit, headers[0], now);
            let node = spec_new_node(s.nodes, p, headers[0]);
            &&& next.1 is None
            &&& state_wf(next.0, params, cps)
            &&& next.0.nodes == s.nodes.push(node)
            &&& next.0.tip == if node.work@ > s.nodes[s.tip].work@ {
                s.nodes.len() as int
            } else {
                s.tip
            }
            &&& node.hash == headers[0].spec_hash()
            &&& node.height == s.nodes[p].height + 1
            &&& node.work@ == s.nodes[p].work@ + spec_work(spec_target_or_zero(headers[0].bits))
            &&& node.work@ > s.nodes[p].work@
            &&& spec_total_work(headers) == spec_work(spec_target_or_zero(headers[0].bits))
                + spec_total_work(headers.drop_first())
            &&& spec_chain(next.0.nodes, s.nodes.len() as int) == spec_chain(s.nodes, p).push(
                headers[0],
            )
        }),
{
    let h = headers[0];
    let base = spec_chain(s.nodes, p);
    let node = spec_new_node(s.nodes, p, h);
    lemma_index_of(s.nodes, p);
    assert(base + headers.take(0) =~= base);
    assert(spec_check_header(params, cps, base, h, now) is None);
    lemma_new_node(s.nodes, p, h);
    lemma_work_positive(h, params.spec_pow_limit());
    lemma_height_bound(s.nodes, p);
    lemma_step_wf(s, params, cps, limit, h, now);
    lemma_push_frame(s.nodes, node, p);
}

/// Headers that follow one another still do when the first is left out.
pub proof fn lemma_rest_linked(headers: Seq<Header>)
    requires
        spec_linked_headers(headers),
        headers.len() >= 2,
    ensures
        spec_linked_headers(headers.drop_first()),
        headers.drop_first()[0].prev_blockhash == headers[0].spec_hash(),
{
    let rest = headers.drop_first();
    assert(rest[0] == headers[1]);
    assert forall|i: int| 1 <= i < rest.len() implies (#[trigger] rest[i]).prev_blockhash == rest[i
        - 1].spec_hash() by {
        assert(rest[i] == headers[i + 1]);
        assert(rest[i - 1] == headers[i]);
    }
}

/// Headers that are new are still new, but for the first, when the first
/// has become a node.
pub proof fn lemma_rest_fresh(nodes: Seq<Node>, node: Node, headers: Seq<Header>)
    requires
        spec_fresh(nodes, headers),
        headers.len() >= 1,
        node.hash == headers[0].spec_hash(),
    ensures
        spec_fresh(nodes.push(node), headers.drop_first()),
{
    let rest = headers.drop_first();
    assert forall|i: int| 0 <= i < rest.len() implies !spec_known(
        nodes.push(node),
        (#[trigger] rest[i]).spec_hash(),
    ) by {
        assert(rest[i] == headers[i + 1]);
        assert(headers[0].spec_hash() != headers[i + 1].spec_hash());
        lemma_known_push(nodes, node, rest[i].spec_hash());
    }
    assert forall|i: int, j: int|
        #![trigger rest[i], rest[j]]
        0 <= i < j < rest.len() implies rest[i].spec_hash() != rest[j].spec_hash() by {
        assert(rest[i] == headers[i + 1]);
        assert(rest[j] == headers[j + 1]);
    }
}

/// Headers that meet the rules after a chain meet them, but for the first,
/// after the chain with the first put on it.
pub proof fn lemma_rest_valid(
    params: Params,
    cps: Seq<Checkpoint>,
    base: Seq<Header>,
    headers: Seq<Header>,
    now: u64,
)
    requires
        spec_all_valid(params, cps, base, headers, now),
        headers.len() >= 1,
    ensures
        spec_all_valid(params, cps, base.push(headers[0]), headers.drop_first(), now),
{
    let rest = headers.drop_first();
    assert forall|i: int| 0 <= i < rest.len() implies spec_check_header(
        params,
        cps,
        base.push(headers[0]) + rest.take(i),
        #[trigger] rest[i],
        now,
    ) is None by {
        assert(rest[i] == headers[i + 1]);
        assert(base.push(headers[0]) + rest.take(i) =~= base + headers.take(i + 1));
    }
}

/// What follows the first header of a branch is a branch on the node that
/// the first header made.
pub proof fn lemma_branch_rest(
    s: TreeState,
    params: Params,
    cps: Seq<Checkpoint>,
    limit: nat,
    p: int,
    headers: Seq<Header>,
    now: u64,
)
    requires
        state_wf(s, params, cps),
        spec_branch(s, params, cps, limit, p, headers, now),
        headers.len() >= 2,
    ensures
        spec_branch(
            spec_step(s, params, cps, limit, headers[0], now).0,
            params,
            cps,
            limit,
            s.nodes.len() as int,
            headers.drop_first(),
            now,
        ),
{
    lemma_branch_first(s, params, cps, limit, p, headers, now);
    lemma_rest_linked(headers);
    lemma_rest_fresh(s.nodes, spec_new_node(s.nodes, p, headers[0]), headers);
    lemma_rest_valid(params, cps, spec_chain(s.nodes, p), headers, now);
}

/// Importing a branch adds one node for each of its headers. The last of
/// them ends the chain that runs through `p` and the branch, and it is the
/// new tip exactly where that chain has more work than the best chain had.
pub proof fn lemma_import_branch(
    s: TreeState,
    params: Params,
    cps: Seq<Checkpoint>,
    limit: nat,
    p: int,
    headers: Seq<Header>,
    now: u64,
)
    requires
        state_wf(s, params, cps),
        spec_branch(s, params, cps, limit, p, headers, now),
    ensures
        ({
            let fin = spec_import(s, params, cps, limit, headers, now);
            let last = fin.0.nodes.len() - 1;
            &&& fin.1 is None
            &&& state_wf(fin.0, params, cps)
            &&& fin.0.nodes.len() == s.nodes.len() + headers.len()
            &&& spec_extends(s.nodes, fin.0.nodes)
            &&& spec_chain(fin.0.nodes, last) == spec_chain(s.nodes, p) + headers
            &&& fin.0.nodes[last].work@ == s.nodes[p].work@ + spec_total_work(headers)
            &&& fin.0.nodes[last].work@ > s.nodes[p].work@
            &&& fin.0.tip == if fin.0.nodes[last].work@ > s.nodes[s.tip].work@ {
                last
            } else {
                s.tip
            }
        }),
    decreases headers.len(),
{
    let h = headers[0];
    let rest = headers.drop_first();
    let base = spec_chain(s.nodes, p);
    let idx = s.nodes.len() as int;
    lemma_branch_first(s, params, cps, limit, p, headers, now);
    let s1 = spec_step(s, params, cps, limit, h, now).0;
    assert(s1.nodes.take(s.nodes.len() as int) =~= s.nodes);
    if rest.len() == 0 {
        assert(base.push(h) =~= base + headers);
        assert(spec_import(s1, params, cps, limit, rest, now) == (s1, None::<TreeError>));
    } else {
        lemma_branch_rest(s, params, cps, limit, p, headers, now);
        lemma_import_branch(s1, params, cps, limit, idx, rest, now);
        let fin = spec_import(s1, params, cps, limit, rest, now);
        assert(fin == spec_import(s, params, cps, limit, headers, now));
        assert(base.push(h) + rest =~= base + headers);
        assert(fin.0.nodes.take(s.nodes.len() as int) =~= s1.nodes.take(s.nodes.len() as int));
    }
}

/// Headers that meet the rules and extend the tip of the best chain are
/// all taken, and become the end of the best chain: its tip is the last of
/// them and its height grows by their number.
pub proof fn lemma_extend_tip(
    s: TreeState,
    params: Params,
    cps: Seq<Checkpoint>,
    limit: nat,
    headers: Seq<Header>,
    now: u64,
)
    requires
        state_wf(s, params, cps),
        spec_branch(s, params, cps, limit, s.tip, headers, now),
    ensures
        ({
            let fin = spec_import(s, params, cps, limit, headers, now);
            let old = spec_chain(s.nodes, s.tip);
            let new = spec_chain(fin.0.nodes, fin.0.tip);
            &&& fin.1 is None
            &&& new == old + headers
            &&& new.last() == headers.last()
            &&& fin.0.nodes[fin.0.tip].height == s.nodes[s.tip].height + headers.len()
            &&& spec_change(old, new) == Change::Advanced {
                tip: headers.last().spec_hash(),
                height: (s.nodes[s.tip].height + headers.len()) as nat,
            }
        }),
{
    lemma_import_branch(s, params, cps, limit, s.tip, headers, now);
    let fin = spec_import(s, params, cps, limit, headers, now);
    let old = spec_chain(s.nodes, s.tip);
    let new = spec_chain(fin.0.nodes, fin.0.tip);
    lemma_path(s.nodes, s.tip);
    lemma_path(fin.0.nodes, fin.0.tip);
    assert(new.take(old.len() as int) =~= old);
    assert(old.take(old.len() as int) =~= old);
    lemma_common_len(old, new, old.len() as int);
}

/// Importing headers that are all on the best chain changes nothing.
pub proof fn lemma_reimport(
    s: TreeState,
    params: Params,
    cps: Seq<Checkpoint>,
    limit: nat,
    headers: Seq<Header>,
    now: u64,
)
    requires
        state_wf(s, params, cps),
        forall|i: int|
            0 <= i < headers.len() ==> spec_chain(s.nodes, s.tip).contains(#[trigger] headers[i]),
    ensures
        spec_import(s, params, cps, limit, headers, now) == (s, None::<TreeError>),
        spec_change(spec_chain(s.nodes, s.tip), spec_chain(s.nodes, s.tip)) == Change::Unchanged,
    decreases headers.len(),
{
    if headers.len() > 0 {
        let h = headers[0];
        let chain = spec_chain(s.nodes, s.tip);
        assert(chain.contains(h));
        let k = choose|k: int| 0 <= k < chain.len() && chain[k] == h;
        lemma_path(s.nodes, s.tip);
        let a = spec_path(s.nodes, s.tip)[k];
        assert(s.nodes[a].header == h);
        assert(s.nodes[a].hash == h.spec_hash()) by {
            if a > 0 {
                assert(node_linked(s.nodes, a));
            }
        }
        assert(spec_known(s.nodes, h.spec_hash()));
        let rest = headers.drop_first();
        assert forall|i: int| 0 <= i < rest.len() implies chain.contains(#[trigger] rest[i]) by {
            assert(rest[i] == headers[i + 1]);
        }
        lemma_reimport(s, params, cps, limit, rest, now);
    }
}

/// A branch that leaves the best chain below its tip and has more work
/// than the best chain takes its place. The change is a reorganisation to
/// the branch's last header, and it reverts exactly the headers of the old
/// best chain above the fork, highest first.
pub proof fn lemma_reorg(
    s: TreeState,
    params: Params,
    cps: Seq<Checkpoint>,
    limit: nat,
    fork_height: int,
    headers: Seq<Header>,
    now: u64,
)
    requires
        state_wf(s, params, cps),
        0 <= fork_height < s.nodes[s.tip].height,
        spec_branch(
            s,
            params,
            cps,
            limit,
            spec_path(s.nodes, s.tip)[fork_height],
            headers,
            now,
        ),
        s.nodes[spec_path(s.nodes, s.tip)[fork_height]].work@ + spec_total_work(headers)
            > s.nodes[s.tip].work@,
    ensures
        ({
            let fin = spec_import(s, params, cps, limit, headers, now);
            let old = spec_chain(s.nodes, s.tip);
            let new = spec_chain(fin.0.nodes, fin.0.tip);
            let reverted = old.subrange(fork_height + 1, old.len() as int).reverse();
            &&& fin.1 is None
            &&& new == old.take(fork_height + 1) + headers
            &&& new.last() == headers.last()
            &&& spec_change(old, new) == Change::Reorg {
                tip: headers.last().spec_hash(),
                height: (fork_height + headers.len()) as nat,
                reverted,
            }
            &&& reverted.len() == s.nodes[s.tip].height - fork_height
            &&& reverted.len() >= 1
            &&& forall|i: int|
                0 <= i < reverted.len() ==> #[trigger] reverted[i] == old[s.nodes[s.tip].height
                    - i]
            &&& forall|k: int| 0 <= k <= fork_height ==> #[trigger] new[k] == old[k]
            &&& forall|i: int|
                0 <= i < headers.len() ==> #[trigger] new[fork_height + 1 + i] == headers[i]
        }),
{
    lemma_path(s.nodes, s.tip);
    let p = spec_path(s.nodes, s.tip)[fork_height];
    lemma_import_branch(s, params, cps, limit, p, headers, now);
    let fin = spec_import(s, params, cps, limit, headers, now);
    let old = spec_chain(s.nodes, s.tip);
    let new = spec_chain(fin.0.nodes, fin.0.tip);
    let n = fork_height + 1;
    assert(new == old.take(n) + headers);
    assert(new.take(n) =~= old.take(n));
    // the old chain goes on with a known header, the new one with a new one
    let x = spec_path(s.nodes, s.tip)[n];
    assert(old[n] == s.nodes[x].header);
    assert(node_linked(s.nodes, x)) by {
        lemma_height_zero_below(s.nodes, x);
    }
    assert(new[n] == headers[0]);
    if old[n] == new[n] {
        assert(s.nodes[x].hash == headers[0].spec_hash());
        assert(spec_known(s.nodes, headers[0].spec_hash()));
    }
    lemma_common_len(old, new, n);
    if new == old {
        lemma_common_len(old, new, old.len() as int);
    }
}

/// The chain of a node that is not on the best chain leaves the best chain
/// before its end.
pub proof fn lemma_side_chain(nodes: Seq<Node>, tip: int, p: int)
    requires
        arena_linked(nodes),
        0 <= tip < nodes.len(),
        0 <= p < nodes.len(),
        !(nodes[p].height <= nodes[tip].height && spec_path(nodes, tip)[nodes[p].height as int]
            == p),
    ensures
        spec_common_len(spec_chain(nodes, tip), spec_chain(nodes, p)) < spec_chain(nodes, p).len(),
{
    let old = spec_chain(nodes, tip);
    let side = spec_chain(nodes, p);
    let c = spec_common_len(old, side) as int;
    lemma_common_prefix(old, side);
    lemma_path(nodes, tip);
    lemma_path(nodes, p);
    if c == side.len() {
        let h = nodes[p].height as int;
        let q = spec_path(nodes, tip)[h];
        assert(old.take(c)[h] == side.take(c)[h]);
        assert(nodes[q].header == nodes[p].header);
        assert(nodes[q].hash == nodes[q].header.spec_hash()) by {
            if q > 0 {
                assert(node_linked(nodes, q));
            }
        }
        assert(nodes[p].hash == nodes[p].header.spec_hash()) by {
            if p > 0 {
                assert(node_linked(nodes, p));
            }
        }
        if q < p {
            assert(nodes[q].hash != nodes[p].hash);
        }
        if p < q {
            assert(nodes[p].hash != nodes[q].hash);
        }
    }
}

/// A branch that goes on from a known header off the best chain, and has
/// more work than the best chain, takes its place. The new best chain is
/// the chain of that header and the branch, and the change reverts exactly
/// the headers of the old best chain above the last header that the two
/// have in common, highest first.
pub proof fn lemma_reorg_side(
    s: TreeState,
    params: Params,
    cps: Seq<Checkpoint>,
    limit: nat,
    p: int,
    headers: Seq<Header>,
    now: u64,
)
    requires
        state_wf(s, params, cps),
        spec_branch(s, params, cps, limit, p, headers, now),
        !(s.nodes[p].height <= s.nodes[s.tip].height && spec_path(
            s.nodes,
            s.tip,
        )[s.nodes[p].height as int] == p),
        s.nodes[p].work@ + spec_total_work(headers) > s.nodes[s.tip].work@,
    ensures
        ({
            let fin = spec_import(s, params, cps, limit, headers, now);
            let old = spec_chain(s.nodes, s.tip);
            let new = spec_chain(fin.0.nodes, fin.0.tip);
            let common = spec_common_len(old, spec_chain(s.nodes, p));
            &&& fin.1 is None
            &&& new == spec_chain(s.nodes, p) + headers
            &&& new.last() == headers.last()
            &&& spec_change(old, new) == if common == old.len() {
                Change::Advanced {
                    tip: headers.last().spec_hash(),
                    height: (s.nodes[p].height + headers.len()) as nat,
                }
            } else {
                Change::Reorg {
                    tip: headers.last().spec_hash(),
                    height: (s.nodes[p].height + headers.len()) as nat,
                    reverted: old.subrange(common as int, old.len() as int).reverse(),
                }
            }
        }),
{
    lemma_import_branch(s, params, cps, limit, p, headers, now);
    let fin = spec_import(s, params, cps, limit, headers, now);
    let old = spec_chain(s.nodes, s.tip);
    let side = spec_chain(s.nodes, p);
    let new = spec_chain(fin.0.nodes, fin.0.tip);
    lemma_path(s.nodes, s.tip);
    lemma_path(s.nodes, p);
    lemma_side_chain(s.nodes, s.tip, p);
    lemma_common_append(old, side, headers);
    lemma_common_prefix(old, side);
    if new == old {
        lemma_common_len(old, new, old.len() as int);
    }
}

/// A node above height zero is not genesis.
pub proof fn lemma_height_zero_below(nodes: Seq<Node>, i: int)
    requires
        arena_linked(nodes),
        0 <= i < nodes.len(),
        nodes[i].height > 0,
    ensures
        i >= 1,
{
}

/// A header that is not known, whose parent is known, and whose hash is not
/// the one that a checkpoint fixes for its height, is refused, whatever its
/// proof of work: the tree stays as it is, and the error names the
/// checkpoint or a rule that is checked before it. Where the header meets
/// the rules on proof of work, difficulty and time, the error is
/// `InvalidCheckpoint`.
pub proof fn lemma_checkpoint_refused(
    s: TreeState,
    params: Params,
    cps: Seq<Checkpoint>,
    limit: nat,
    header: Header,
    now: u64,
)
    requires
        state_wf(s, params, cps),
        !spec_known(s.nodes, header.spec_hash()),
        spec_known(s.nodes, header.prev_blockhash),
        spec_checkpoint_conflict(
            cps,
            s.nodes[spec_index_of(s.nodes, header.prev_blockhash)].height + 1,
            header.spec_hash(),
        ),
    ensures
        ({
            let next = spec_step(s, params, cps, limit, header, now);
            let chain = spec_chain(s.nodes, spec_index_of(s.nodes, header.prev_blockhash));
            &&& next.0 == s
            &&& next.1 is Some
            &&& next.1 != Some(TreeError::InvalidBlock)
            &&& !(next.1 matches Some(TreeError::Store(_)))
            &&& spec_pow_valid(header.spec_hash()@, header.bits, params.spec_pow_limit())
                ==> next.1 != Some(TreeError::InvalidProofOfWork)
            &&& spec_rules_before_checkpoint(params, chain, header, now) ==> next.1 == Some(
                TreeError::InvalidCheckpoint,
            )
        }),
{
    let p = spec_index_of(s.nodes, header.prev_blockhash);
    lemma_path(s.nodes, p);
}

/// The header meets the rules that are checked before the checkpoints:
/// proof of work, difficulty and time.
pub open spec fn spec_rules_before_checkpoint(
    params: Params,
    chain: Seq<Header>,
    header: Header,
    now: u64,
) -> bool {
    &&& spec_pow_valid(header.spec_hash()@, header.bits, params.spec_pow_limit())
    &&& header.bits == spec_expected_bits(params, chain)
    &&& header.time > spec_median_time(chain)
    &&& header.time <= now + MAX_FUTURE_DRIFT
}

/// Importing one batch after another is importing the two as one, up to
/// the first header that is refused.
pub proof fn lemma_import_concat(
    s: TreeState,
    params: Params,
    cps: Seq<Checkpoint>,
    limit: nat,
    first: Seq<Header>,
    second: Seq<Header>,
    now: u64,
)
    ensures
        spec_import(s, params, cps, limit, first + second, now) == if spec_import(
            s,
            params,
            cps,
            limit,
            first,
            now,
        ).1 is Some {
            spec_import(s, params, cps, limit, first, now)
        } else {
            spec_import(
                spec_import(s, params, cps, limit, first, now).0,
                params,
                cps,
                limit,
                second,
                now,
            )
        },
    decreases first.len(),
{
    if first.len() == 0 {
        assert(first + second =~= second);
    } else {
        let both = first + second;
        assert(both[0] == first[0]);
        assert(both.drop_first() =~= first.drop_first() + second);
        let next = spec_step(s, params, cps, limit, first[0], now);
        if next.1 is None {
            lemma_import_concat(next.0, params, cps, limit, first.drop_first(), second, now);
        }
    }
}

/// A batch stops at a header whose hash is not the one that a checkpoint
/// fixes for its height: the headers before it are taken, the header and
/// all after it are not, and the import ends with an error, whatever work
/// the batch carries. Where the header meets the rules on proof of work,
/// difficulty and time, the error is `InvalidCheckpoint`.
pub proof fn lemma_checkpoint_batch(
    s: TreeState,
    params: Params,
    cps: Seq<Checkpoint>,
    limit: nat,
    before: Seq<Header>,
    header: Header,
    after: Seq<Header>,
    now: u64,
)
    requires
        state_wf(s, params, cps),
        spec_import(s, params, cps, limit, before, now).1 is None,
        !spec_known(spec_import(s, params, cps, limit, before, now).0.nodes, header.spec_hash()),
        spec_known(
            spec_import(s, params, cps, limit, before, now).0.nodes,
            header.prev_blockhash,
        ),
        ({
            let mid = spec_import(s, params, cps, limit, before, now).0;
            spec_checkpoint_conflict(
                cps,
                mid.nodes[spec_index_of(mid.nodes, header.prev_blockhash)].height + 1,
                header.spec_hash(),
            )
        }),
    ensures
        ({
            let mid = spec_import(s, params, cps, limit, before, now).0;
            let fin = spec_import(s, params, cps, limit, before.push(header) + after, now);
            let chain = spec_chain(mid.nodes, spec_index_of(mid.nodes, header.prev_blockhash));
            &&& fin.0 == mid
            &&& fin.1 is Some
            &&& !spec_known(fin.0.nodes, header.spec_hash())
            &&& spec_rules_before_checkpoint(params, chain, header, now) ==> fin.1 == Some(
                TreeError::InvalidCheckpoint,
            )
        }),
{
    let mid = spec_import(s, params, cps, limit, before, now).0;
    let rest = seq![header] + after;
    crate::tree::lemma_import_wf(s, params, cps, limit, before, now);
    lemma_checkpoint_refused(mid, params, cps, limit, header, now);
    assert(before.push(header) + after =~= before + rest);
    lemma_import_concat(s, params, cps, limit, before, rest, now);
    assert(rest[0] == header);
}

/// No header in the tree has a hash other than the one that a checkpoint
/// fixes for its height.
pub proof fn lemma_checkpoints_hold(s: TreeState, params: Params, cps: Seq<Checkpoint>, i: int)
    requires
        state_wf(s, params, cps),
        1 <= i < s.nodes.len(),
    ensures
        !spec_checkpoint_conflict(cps, s.nodes[i].height as int, s.nodes[i].hash),
{
    assert(node_valid(s.nodes, params, cps, i));
    assert(node_linked(s.nodes, i));
    lemma_path(s.nodes, s.nodes[i].parent as int);
}

} // verus!
