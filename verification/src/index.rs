//! An index from hashes to the nodes of the arena: a hash table keyed by
//! the low 64 bits of the hash, with the nodes of one key chained from the
//! newest to the oldest.

use crate::arena::{spec_known, Node};
use crate::uint256::U256;
use std::collections::HashMap;
use vstd::prelude::*;

verus! {

broadcast use vstd::std_specs::hash::group_hash_axioms;

/// The key of a hash: its low 64 bits.
pub open spec fn spec_key(hash: U256) -> u64 {
    (hash.lo % 0x1_0000_0000_0000_0000) as u64
}

/// The key of a hash: its low 64 bits.
pub fn key_of(hash: &U256) -> (k: u64)
    ensures
        k == spec_key(*hash),
{
    (hash.lo % 0x1_0000_0000_0000_0000u128) as u64
}

/// The link of node `i` leads to the newest older node with the same key,
/// or to the node itself where there is none.
pub open spec fn link_ok(nodes: Seq<Node>, links: Seq<usize>, i: int) -> bool {
    let j = links[i] as int;
    let k = spec_key(nodes[i].hash);
    if j == i {
        forall|m: int| 0 <= m < i ==> spec_key((#[trigger] nodes[m]).hash) != k
    } else {
        &&& 0 <= j < i
        &&& spec_key(nodes[j].hash) == k
        &&& forall|m: int| j < m < i ==> spec_key((#[trigger] nodes[m]).hash) != k
    }
}

/// The head of key `k` is the newest node with that key.
pub open spec fn head_ok(nodes: Seq<Node>, k: u64, h: int) -> bool {
    &&& 0 <= h < nodes.len()
    &&& spec_key(nodes[h].hash) == k
    &&& forall|m: int| h < m < nodes.len() ==> spec_key((#[trigger] nodes[m]).hash) != k
}

/// The heads and links index every node of the arena.
pub open spec fn index_ok(nodes: Seq<Node>, heads: Map<u64, usize>, links: Seq<usize>) -> bool {
    &&& links.len() == nodes.len()
    &&& forall|i: int| 0 <= i < nodes.len() ==> #[trigger] link_ok(nodes, links, i)
    &&& forall|k: u64| #[trigger] heads.contains_key(k) ==> head_ok(nodes, k, heads[k] as int)
    &&& forall|i: int|
        0 <= i < nodes.len() ==> heads.contains_key(spec_key((#[trigger] nodes[i]).hash))
}

/// The index of an arena.
pub struct HashIndex {
    heads: HashMap<u64, usize>,
    links: Vec<usize>,
}

impl HashIndex {
    /// The index is that of the given arena.
    pub closed spec fn wf(&self, nodes: Seq<Node>) -> bool {
        index_ok(nodes, self.heads@, self.links@)
    }

    /// The index of the empty arena.
    pub fn new() -> (r: HashIndex)
        ensures
            r.wf(Seq::<Node>::empty()),
    {
        HashIndex { heads: HashMap::new(), links: Vec::new() }
    }

    /// Takes the last node of the arena into the index.
    pub fn insert(&mut self, nodes: &Vec<Node>)
        requires
            nodes@.len() >= 1,
            old(self).wf(nodes@.drop_last()),
        ensures
            final(self).wf(nodes@),
    {
        let ghost prev = nodes@.drop_last();
        let n: usize = nodes.len() - 1;
        let k: u64 = key_of(&nodes[n].hash);
        let link: usize = match self.heads.get(&k) {
            Some(h) => *h,
            None => n,
        };
        let ghost heads = self.heads@;
        let ghost links = self.links@;
        self.links.push(link);
        self.heads.insert(k, n);
        proof {
            assert forall|i: int| 0 <= i < nodes@.len() implies #[trigger] link_ok(
                nodes@,
                self.links@,
                i,
            ) by {
                if i < n {
                    assert(link_ok(prev, links, i));
                    assert(self.links@[i] == links[i]);
                    assert(prev[i] == nodes@[i]);
                    let j = links[i] as int;
                    let q = spec_key(nodes@[i].hash);
                    if j == i {
                        assert forall|m: int| 0 <= m < i implies spec_key(
                            (#[trigger] nodes@[m]).hash,
                        ) != q by {
                            assert(prev[m] == nodes@[m]);
                        }
                    } else {
                        assert(prev[j] == nodes@[j]);
                        assert forall|m: int| j < m < i implies spec_key(
                            (#[trigger] nodes@[m]).hash,
                        ) != q by {
                            assert(prev[m] == nodes@[m]);
                        }
                    }
                } else {
                    assert(self.links@[n as int] == link);
                    if heads.contains_key(k) {
                        assert(link == heads[k]);
                        assert(head_ok(prev, k, heads[k] as int));
                        assert(prev[link as int] == nodes@[link as int]);
                        assert forall|m: int| link < m < n implies spec_key(
                            (#[trigger] nodes@[m]).hash,
                        ) != k by {
                            assert(prev[m] == nodes@[m]);
                        }
                    } else {
                        assert(link == n);
                        assert forall|m: int| 0 <= m < n implies spec_key(
                            (#[trigger] nodes@[m]).hash,
                        ) != k by {
                            assert(prev[m] == nodes@[m]);
                            assert(heads.contains_key(spec_key(prev[m].hash)));
                        }
                    }
                }
            }
            assert forall|q: u64| #[trigger] self.heads@.contains_key(q) implies head_ok(
                nodes@,
                q,
                self.heads@[q] as int,
            ) by {
                if q != k {
                    assert(heads.contains_key(q));
                    assert(head_ok(prev, q, heads[q] as int));
                    assert forall|m: int| (heads[q] as int) < m < nodes@.len() implies spec_key(
                        (#[trigger] nodes@[m]).hash,
                    ) != q by {
                        if m < n {
                            assert(prev[m] == nodes@[m]);
                        }
                    }
                }
            }
            assert forall|i: int| 0 <= i < nodes@.len() implies self.heads@.contains_key(
                spec_key((#[trigger] nodes@[i]).hash),
            ) by {
                if i < n {
                    assert(prev[i] == nodes@[i]);
                    assert(heads.contains_key(spec_key(prev[i].hash)));
                }
            }
        }
    }

    /// The index of the node with the given hash, if there is one.
    pub fn find(&self, nodes: &Vec<Node>, hash: &U256) -> (r: Option<usize>)
        requires
            self.wf(nodes@),
        ensures
            r is Some <==> spec_known(nodes@, *hash),
            r matches Some(i) ==> i < nodes@.len() && nodes@[i as int].hash == *hash,
    {
        let k: u64 = key_of(hash);
        let mut cur: usize = match self.heads.get(&k) {
            Some(h) => *h,
            None => {
                proof {
                    if spec_known(nodes@, *hash) {
                        let i = crate::arena::spec_index_of(nodes@, *hash);
                        assert(self.heads@.contains_key(spec_key(nodes@[i].hash)));
                    }
                }
                return None;
            },
        };
        assert(head_ok(nodes@, k, cur as int));
        loop
            invariant
                self.wf(nodes@),
                k == spec_key(*hash),
                cur < nodes@.len(),
                spec_key(nodes@[cur as int].hash) == k,
                forall|m: int| cur < m < nodes@.len() ==> (#[trigger] nodes@[m]).hash != *hash,
            decreases cur,
        {
            if nodes[cur].hash == *hash {
                return Some(cur);
            }
            assert(link_ok(nodes@, self.links@, cur as int));
            let next: usize = self.links[cur];
            if next == cur {
                proof {
                    if spec_known(nodes@, *hash) {
                        let i = crate::arena::spec_index_of(nodes@, *hash);
                        assert(nodes@[i].hash == *hash);
                    }
                }
                return None;
            }
            cur = next;
        }
    }
}

} // verus!
