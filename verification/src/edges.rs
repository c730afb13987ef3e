//! A weighted neighbor map: the adjacency entries of one node, each neighbor
//! paired with the multiplicity of the edge to it. Stored as an association
//! vector whose keys are distinct, in insertion order.

use vstd::prelude::*;
use vstd::pervasive::VecAdditionalExecFns;

use crate::node::{Node, NodeV};

verus! {

/// Adjacency entries of a single node: each neighbor with the edge weight.
#[derive(Debug)]
pub struct Edges(Vec<(Node, u32)>);

impl View for Edges {
    type V = Seq<(NodeV, u32)>;

    closed spec fn view(&self) -> Seq<(NodeV, u32)> {
        Seq::new(self.0@.len(), |i: int| (self.0@[i].0@, self.0@[i].1))
    }
}

impl Edges {
    /// The neighbors, in insertion order.
    pub open spec fn key_seq(self) -> Seq<NodeV> {
        Seq::new(self@.len(), |i: int| self@[i].0)
    }

    /// Whether an entry for this neighbor exists.
    pub open spec fn contains_key(self, v: NodeV) -> bool {
        exists|i: int| 0 <= i < self@.len() && (#[trigger] self@[i]).0 == v
    }

    /// The index of this neighbor's entry (unique under `wf`).
    pub open spec fn idx_of(self, v: NodeV) -> int {
        choose|i: int| 0 <= i < self@.len() && (#[trigger] self@[i]).0 == v
    }

    /// The recorded weight of the edge to this neighbor (meaningful only when
    /// an entry exists).
    pub open spec fn weight_of(self, v: NodeV) -> u32 {
        self@[self.idx_of(v)].1
    }

    /// Well-formed: neighbors are distinct and every recorded weight is at
    /// least one (an entry exists only once an edge has been added).
    pub open spec fn wf(self) -> bool {
        &&& forall|i: int, j: int|
            0 <= i < self@.len() && 0 <= j < self@.len() && i != j ==> (#[trigger] self@[i]).0 != (
            #[trigger] self@[j]).0
        &&& forall|i: int| 0 <= i < self@.len() ==> (#[trigger] self@[i]).1 >= 1
    }

    /// Under distinct keys, a concrete index holding `v` is the index of `v`.
    pub proof fn lemma_idx_unique(self, v: NodeV, i: int)
        requires
            forall|k: int, l: int|
                0 <= k < self@.len() && 0 <= l < self@.len() && k != l ==> (#[trigger] self@[k]).0
                    != (#[trigger] self@[l]).0,
            0 <= i < self@.len(),
            self@[i].0 == v,
        ensures
            self.idx_of(v) == i,
            self.contains_key(v),
    {
        let j = self.idx_of(v);
        assert(0 <= j < self@.len() && self@[j].0 == v);
    }

    pub fn new() -> (r: Self)
        ensures
            r@ == Seq::<(NodeV, u32)>::empty(),
            r.wf(),
    {
        let r = Edges(Vec::new());
        proof {
            assert(r@ =~= Seq::<(NodeV, u32)>::empty());
        }
        r
    }

    /// The index of the entry for `node`, if one exists.
    fn position_of(&self, node: &Node) -> (r: Option<usize>)
        ensures
            match r {
                Some(i) => i < self@.len() && self@[i as int].0 == node@,
                None => !self.contains_key(node@),
            },
    {
        let n = self.0.len();
        let mut i: usize = 0;
        while i < n
            invariant
                0 <= i <= n,
                n == self@.len(),
                forall|j: int| 0 <= j < i ==> (#[trigger] self@[j]).0 != node@,
            decreases n - i,
        {
            if self.0[i].0 == *node {
                return Some(i);
            }
            i += 1;
        }
        None
    }

    /// Records one more co-occurrence with this neighbor: a new entry starts
    /// at weight one, an existing entry's weight grows by one.
    pub fn add_or_increment(&mut self, node: Node)
        requires
            old(self).wf(),
            old(self).contains_key(node@) ==> old(self).weight_of(node@) < u32::MAX,
        ensures
            final(self).wf(),
            old(self).contains_key(node@) ==> final(self)@ == old(self)@.update(
                old(self).idx_of(node@),
                (node@, (old(self).weight_of(node@) + 1) as u32),
            ),
            !old(self).contains_key(node@) ==> final(self)@ == old(self)@.push((node@, 1u32)),
    {
        let ghost nv = node@;
        let pos = self.position_of(&node);
        match pos {
            Some(i) => {
                proof {
                    old(self).lemma_idx_unique(nv, i as int);
                }
                let w = self.0[i].1;
                self.0.set(i, (node, w + 1));
                proof {
                    assert(self@ =~= old(self)@.update(
                        old(self).idx_of(nv),
                        (nv, (old(self).weight_of(nv) + 1) as u32),
                    ));
                }
            },
            None => {
                self.0.push((node, 1));
                proof {
                    assert(self@ =~= old(self)@.push((nv, 1u32)));
                }
            },
        }
    }

    /// The weight of the edge to this neighbor, if an entry exists.
    pub fn get_weight(&self, node: &Node) -> (r: Option<&u32>)
        requires
            self.wf(),
        ensures
            match r {
                Some(w) => self.contains_key(node@) && *w == self.weight_of(node@),
                None => !self.contains_key(node@),
            },
    {
        let pos = self.position_of(node);
        match pos {
            Some(i) => {
                proof {
                    self.lemma_idx_unique(node@, i as int);
                }
                Some(&self.0[i].1)
            },
            None => None,
        }
    }

    /// Deletes the entry for this neighbor, if one exists.
    pub fn remove_edge(&mut self, node: &Node)
        requires
            old(self).wf(),
        ensures
            final(self).wf(),
            old(self).contains_key(node@) ==> final(self)@ == old(self)@.remove(
                old(self).idx_of(node@),
            ),
            !old(self).contains_key(node@) ==> final(self)@ == old(self)@,
    {
        let pos = self.position_of(node);
        match pos {
            Some(i) => {
                proof {
                    old(self).lemma_idx_unique(node@, i as int);
                }
                self.0.remove(i);
                proof {
                    assert(self@ =~= old(self)@.remove(i as int));
                }
            },
            None => {
                proof {
                    assert(self@ =~= old(self)@);
                }
            },
        }
    }

    /// The neighbors with a recorded edge, in insertion order.
    pub fn nodes(&self) -> (r: Vec<Node>)
        ensures
            r@.len() == self.key_seq().len(),
            forall|i: int| 0 <= i < r@.len() ==> (#[trigger] r@[i])@ == self.key_seq()[i],
    {
        let n = self.0.len();
        let mut r: Vec<Node> = Vec::new();
        let mut i: usize = 0;
        while i < n
            invariant
                0 <= i <= n,
                n == self@.len(),
                r@.len() == i,
                forall|j: int| 0 <= j < i ==> (#[trigger] r@[j])@ == self.key_seq()[j],
            decreases n - i,
        {
            r.push(self.0[i].0.clone());
            i += 1;
        }
        r
    }

    /// Lifts the entry-level effect of `add_or_increment` to keys and
    /// weights: the touched neighbor's weight grows (or starts at one), and
    /// every other neighbor keeps its entry and weight.
    pub proof fn lemma_after_increment(pre: Edges, post: Edges, v: NodeV)
        requires
            pre.wf(),
            pre.contains_key(v) ==> pre.weight_of(v) < u32::MAX,
            pre.contains_key(v) ==> post@ == pre@.update(
                pre.idx_of(v),
                (v, (pre.weight_of(v) + 1) as u32),
            ),
            !pre.contains_key(v) ==> post@ == pre@.push((v, 1u32)),
        ensures
            post.contains_key(v),
            pre.contains_key(v) ==> post.weight_of(v) == pre.weight_of(v) + 1,
            !pre.contains_key(v) ==> post.weight_of(v) == 1,
            forall|u: NodeV| u != v ==> post.contains_key(u) == pre.contains_key(u),
            forall|u: NodeV|
                u != v && pre.contains_key(u) ==> post.weight_of(u) == pre.weight_of(u),
            pre.contains_key(v) ==> post.key_seq() == pre.key_seq(),
            !pre.contains_key(v) ==> post.key_seq() == pre.key_seq().push(v),
    {
        if pre.contains_key(v) {
            let i = pre.idx_of(v);
            assert(0 <= i < pre@.len() && pre@[i].0 == v);
            assert(post@[i] == (v, (pre.weight_of(v) + 1) as u32));
            assert(forall|j: int| 0 <= j < post@.len() && j != i ==> post@[j] == pre@[j]);
            assert forall|j: int, k: int|
                0 <= j < post@.len() && 0 <= k < post@.len() && j != k implies (
            #[trigger] post@[j]).0 != (#[trigger] post@[k]).0 by {
                assert(post@[j].0 == pre@[j].0);
                assert(post@[k].0 == pre@[k].0);
            }
            post.lemma_idx_unique(v, i);
            assert forall|u: NodeV| u != v implies post.contains_key(u) == pre.contains_key(u) by {
                if pre.contains_key(u) {
                    let j = pre.idx_of(u);
                    assert(post@[j].0 == u);
                }
                if post.contains_key(u) {
                    let j = post.idx_of(u);
                    assert(pre@[j].0 == u);
                }
            }
            assert forall|u: NodeV| u != v && pre.contains_key(u) implies post.weight_of(u)
                == pre.weight_of(u) by {
                let j = pre.idx_of(u);
                assert(pre@[j].0 == u);
                assert(post@[j] == pre@[j]);
                post.lemma_idx_unique(u, j);
            }
            assert(post.key_seq() =~= pre.key_seq());
        } else {
            let i = pre@.len() as int;
            assert(post@[i] == (v, 1u32));
            assert(forall|j: int| 0 <= j < i ==> post@[j] == pre@[j]);
            assert forall|j: int, k: int|
                0 <= j < post@.len() && 0 <= k < post@.len() && j != k implies (
            #[trigger] post@[j]).0 != (#[trigger] post@[k]).0 by {
                if j < i && k < i {
                    assert(post@[j].0 == pre@[j].0);
                    assert(post@[k].0 == pre@[k].0);
                } else if j == i && k < i {
                    assert(post@[k].0 == pre@[k].0);
                    assert(pre@[k].0 != v);
                } else if k == i && j < i {
                    assert(post@[j].0 == pre@[j].0);
                }
            }
            post.lemma_idx_unique(v, i);
            assert forall|u: NodeV| u != v implies post.contains_key(u) == pre.contains_key(u) by {
                if pre.contains_key(u) {
                    let j = pre.idx_of(u);
                    assert(post@[j].0 == u);
                }
                if post.contains_key(u) {
                    let j = post.idx_of(u);
                    assert(j != i);
                    assert(pre@[j].0 == u);
                }
            }
            assert forall|u: NodeV| u != v && pre.contains_key(u) implies post.weight_of(u)
                == pre.weight_of(u) by {
                let j = pre.idx_of(u);
                assert(pre@[j].0 == u);
                assert(post@[j] == pre@[j]);
                post.lemma_idx_unique(u, j);
            }
            assert(post.key_seq() =~= pre.key_seq().push(v));
        }
    }

    /// Lifts the entry-level effect of `remove_edge` to keys and weights:
    /// the removed neighbor is gone and every other neighbor keeps its entry
    /// and weight.
    pub proof fn lemma_after_remove(pre: Edges, post: Edges, v: NodeV)
        requires
            pre.wf(),
            pre.contains_key(v) ==> post@ == pre@.remove(pre.idx_of(v)),
            !pre.contains_key(v) ==> post@ == pre@,
        ensures
            !post.contains_key(v),
            forall|u: NodeV| u != v ==> post.contains_key(u) == pre.contains_key(u),
            forall|u: NodeV|
                u != v && pre.contains_key(u) ==> post.weight_of(u) == pre.weight_of(u),
            pre.contains_key(v) ==> post.key_seq().len() == pre.key_seq().len() - 1,
            !pre.contains_key(v) ==> post.key_seq() == pre.key_seq(),
    {
        if pre.contains_key(v) {
            let i = pre.idx_of(v);
            assert(0 <= i < pre@.len() && pre@[i].0 == v);
            assert(post@.len() == pre@.len() - 1);
            assert(forall|j: int| 0 <= j < i ==> post@[j] == pre@[j]);
            assert(forall|j: int| i <= j < post@.len() ==> post@[j] == pre@[j + 1]);
            assert forall|j: int| 0 <= j < post@.len() implies (#[trigger] post@[j]).0 != v by {
                if j < i {
                    assert(post@[j] == pre@[j]);
                } else {
                    assert(post@[j] == pre@[j + 1]);
                }
            }
            assert forall|u: NodeV| u != v implies post.contains_key(u) == pre.contains_key(u) by {
                if pre.contains_key(u) {
                    let j = pre.idx_of(u);
                    assert(pre@[j].0 == u);
                    assert(j != i);
                    if j < i {
                        assert(post@[j] == pre@[j]);
                    } else {
                        assert(post@[j - 1] == pre@[j]);
                    }
                }
                if post.contains_key(u) {
                    let j = post.idx_of(u);
                    if j < i {
                        assert(pre@[j].0 == u);
                    } else {
                        assert(pre@[j + 1].0 == u);
                    }
                }
            }
            assert forall|u: NodeV| u != v && pre.contains_key(u) implies post.weight_of(u)
                == pre.weight_of(u) by {
                let j = pre.idx_of(u);
                assert(pre@[j].0 == u);
                assert(j != i);
                let j2 = if j < i {
                    j
                } else {
                    j - 1
                };
                assert(post@[j2] == pre@[j]);
                assert forall|k: int, l: int|
                    0 <= k < post@.len() && 0 <= l < post@.len() && k != l implies (
                #[trigger] post@[k]).0 != (#[trigger] post@[l]).0 by {
                    let k1 = if k < i {
                        k
                    } else {
                        k + 1
                    };
                    let l1 = if l < i {
                        l
                    } else {
                        l + 1
                    };
                    assert(post@[k].0 == pre@[k1].0);
                    assert(post@[l].0 == pre@[l1].0);
                }
                post.lemma_idx_unique(u, j2);
            }
        } else {
            assert(post.key_seq() =~= pre.key_seq());
            assert forall|j: int| 0 <= j < post@.len() implies (#[trigger] post@[j]).0 != v by {}
        }
    }
}

} // verus!
