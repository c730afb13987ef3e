//! The linkage graph: an undirected multigraph over identity nodes with
//! per-edge multiplicity, stored as directed adjacency (both directions are
//! maintained together by construction), plus a union-find structure over the
//! same node set used to count connected components.
//!
//! The mathematical model is index-free: contracts speak of node values
//! (`NodeV`), the weight between two node values, the degree of a node value,
//! and the partition of node values into union-find classes.

use vstd::prelude::*;
use vstd::pervasive::VecAdditionalExecFns;

use crate::bridge_finder::{abs_of, bridges_spec, count_trues, initial_search_state, lemma_count_trues_le, lemma_count_trues_lt, lemma_count_trues_update, search_forest, search_neighbors, search_visit, Bridge, BridgeFinderState, SearchState};
use crate::edges::Edges;
use crate::node::{Node, NodeV};

verus! {

/// How many of the sequence's elements equal `v`.
pub open spec fn count_of(s: Seq<NodeV>, v: NodeV) -> nat
    decreases s.len(),
{
    if s.len() == 0 {
        0
    } else {
        count_of(s.drop_last(), v) + if s.last() == v {
            1nat
        } else {
            0nat
        }
    }
}

/// The node values of a sequence of nodes.
pub open spec fn seq_views(s: Seq<Node>) -> Seq<NodeV> {
    Seq::new(s.len(), |i: int| s[i]@)
}

/// The linkage graph together with its union-find state.
///
/// A node becomes a *key* once it has been named in any group; it is *in the
/// graph* (reported by `nodes`) once it has an adjacency entry, that is, once
/// it has been an edge source. The union-find parent forest lives in `parent`
/// and `size`; `rep`, `dist` and `dist_bound` are ghost bookkeeping: `rep`
/// maps each key index to the index of the root its parent chain reaches, and
/// `dist` is a strictly increasing measure along parent links that makes the
/// chains provably acyclic, bounded by `dist_bound`.
pub struct Graph {
    pub keys: Vec<Node>,
    pub in_graph: Vec<bool>,
    pub adj: Vec<Edges>,
    pub parent: Vec<usize>,
    pub size: Vec<usize>,
    /// The running count of connected components, maintained by `union`;
    /// the caller seeds it from the node count of the graph being unioned.
    pub components: usize,
    pub rep: Ghost<Map<int, int>>,
    pub dist: Ghost<Map<int, nat>>,
    pub dist_bound: Ghost<nat>,
}

impl Graph {
    /// The number of keys.
    pub closed spec fn n(self) -> int {
        self.keys@.len() as int
    }

    /// The node value of the key at an index.
    pub closed spec fn key_at(self, i: int) -> NodeV {
        self.keys@[i]@
    }

    /// Whether the key at an index has an adjacency entry.
    pub closed spec fn in_graph_at(self, i: int) -> bool {
        self.in_graph@[i]
    }

    /// The adjacency entries of the key at an index.
    pub closed spec fn adj_at(self, i: int) -> Edges {
        self.adj@[i]
    }

    /// Whether this node value has been named in any group.
    pub open spec fn has_key(self, v: NodeV) -> bool {
        exists|i: int| 0 <= i < self.n() && self.key_at(i) == v
    }

    /// The key index of a node value (unique under `wf`).
    pub open spec fn idx(self, v: NodeV) -> int {
        choose|i: int| 0 <= i < self.n() && self.key_at(i) == v
    }

    /// Whether this node value is in the graph: it has an adjacency entry,
    /// even an empty one left behind by edge removal.
    pub open spec fn contains_node(self, v: NodeV) -> bool {
        self.has_key(v) && self.in_graph_at(self.idx(v))
    }

    /// The adjacency entries of a node value (meaningful when it has a key).
    pub open spec fn adj_of(self, v: NodeV) -> Edges {
        self.adj_at(self.idx(v))
    }

    /// The multiplicity of the directed edge between two node values; zero
    /// when no edge is recorded.
    pub open spec fn weight(self, u: NodeV, v: NodeV) -> nat {
        if self.has_key(u) && self.adj_of(u).contains_key(v) {
            self.adj_of(u).weight_of(v) as nat
        } else {
            0
        }
    }

    /// The number of distinct neighbors of a node value.
    pub open spec fn degree(self, u: NodeV) -> nat {
        if self.has_key(u) {
            self.adj_of(u).key_seq().len()
        } else {
            0
        }
    }

    /// The neighbors of a node value, in adjacency order.
    pub open spec fn adj_seq(self, u: NodeV) -> Seq<NodeV> {
        if self.has_key(u) {
            self.adj_of(u).key_seq()
        } else {
            Seq::empty()
        }
    }

    /// The union-find parent of a key index.
    pub closed spec fn pnt(self, i: int) -> int {
        self.parent@[i] as int
    }

    /// The root that the parent chain of a key index resolves to.
    pub closed spec fn rep_of(self, i: int) -> int {
        self.rep@[i]
    }

    /// The acyclicity measure of a key index.
    pub closed spec fn dist_of(self, i: int) -> nat {
        self.dist@[i]
    }

    /// The recorded tree size of a key index (meaningful at roots).
    pub closed spec fn size_at(self, i: int) -> int {
        self.size@[i] as int
    }

    /// The key indices whose parent chains resolve to this root.
    pub open spec fn class_of(self, r: int) -> Set<int> {
        Set::new(|j: int| 0 <= j < self.n() && self.rep_of(j) == r)
    }

    /// Whether two key node values are in the same union-find class.
    pub open spec fn same_class(self, u: NodeV, v: NodeV) -> bool {
        self.rep_of(self.idx(u)) == self.rep_of(self.idx(v))
    }

    /// Well-formedness of the graph part: parallel arrays, distinct keys,
    /// well-formed adjacency whose neighbors are themselves keys in the graph,
    /// and no adjacency behind a node that was never an edge source.
    pub closed spec fn wf_graph(self) -> bool {
        &&& self.in_graph@.len() == self.n()
        &&& self.adj@.len() == self.n()
        &&& forall|i: int, j: int|
            0 <= i < self.n() && 0 <= j < self.n() && i != j ==> self.key_at(i) != self.key_at(j)
        &&& forall|i: int| 0 <= i < self.n() ==> (#[trigger] self.adj_at(i)).wf()
        &&& forall|i: int|
            0 <= i < self.n() && !self.in_graph_at(i) ==> (#[trigger] self.adj_at(i))@.len() == 0
        &&& forall|i: int, k: int|
            0 <= i < self.n() && 0 <= k < self.adj_at(i)@.len() ==> self.has_key(
                (#[trigger] self.adj_at(i)@[k]).0,
            ) && self.in_graph_at(self.idx(self.adj_at(i)@[k].0))
    }

    /// Well-formedness of the union-find part: parent links stay in range,
    /// `rep` is constant along parent links and self-stable at roots, and
    /// `dist` increases strictly along parent links, stays below the class
    /// root's measure, and is bounded; at roots, `size` is the class size.
    pub closed spec fn wf_uf(self) -> bool {
        &&& self.parent@.len() == self.n()
        &&& self.size@.len() == self.n()
        &&& forall|i: int| 0 <= i < self.n() ==> self.rep@.contains_key(i)
        &&& forall|i: int| 0 <= i < self.n() ==> self.dist@.contains_key(i)
        &&& forall|i: int| 0 <= i < self.n() ==> 0 <= #[trigger] self.pnt(i) < self.n()
        &&& forall|i: int| 0 <= i < self.n() ==> 0 <= #[trigger] self.rep_of(i) < self.n()
        &&& forall|i: int| 0 <= i < self.n() && self.pnt(i) == i ==> #[trigger] self.rep_of(i) == i
        &&& forall|i: int|
            0 <= i < self.n() ==> self.rep_of(#[trigger] self.pnt(i)) == self.rep_of(i)
        &&& forall|i: int|
            0 <= i < self.n() ==> self.pnt(#[trigger] self.rep_of(i)) == self.rep_of(i)
        &&& forall|i: int|
            0 <= i < self.n() && #[trigger] self.pnt(i) != i ==> self.dist_of(self.pnt(i))
                > self.dist_of(i)
        &&& forall|i: int|
            0 <= i < self.n() && #[trigger] self.pnt(i) != i ==> self.dist_of(i) < self.dist_of(
                self.rep_of(i),
            )
        &&& forall|i: int| 0 <= i < self.n() ==> #[trigger] self.dist_of(i) <= self.dist_bound@
        &&& forall|r: int|
            0 <= r < self.n() && #[trigger] self.rep_of(r) == r ==> self.size_at(r)
                == self.class_of(r).len()
    }

    /// Well-formedness of the whole structure.
    pub open spec fn wf(self) -> bool {
        self.wf_graph() && self.wf_uf()
    }

    /// Under distinct keys, a concrete index holding `v` is the index of `v`.
    proof fn lemma_key_idx(self, v: NodeV, i: int)
        requires
            forall|k: int, l: int|
                0 <= k < self.n() && 0 <= l < self.n() && k != l ==> self.key_at(k) != self.key_at(
                    l,
                ),
            0 <= i < self.n(),
            self.key_at(i) == v,
        ensures
            self.idx(v) == i,
            self.has_key(v),
    {
        let j = self.idx(v);
        assert(0 <= j < self.n() && self.key_at(j) == v);
    }

    /// Creates an empty graph; the capacity hint does not affect the result.
    pub fn new(size: usize) -> (g: Graph)
        ensures
            g.wf(),
            g.n() == 0,
            g.components == 0,
    {
        let mut keys: Vec<Node> = Vec::new();
        keys.reserve(size);
        Graph {
            keys,
            in_graph: Vec::new(),
            adj: Vec::new(),
            parent: Vec::new(),
            size: Vec::new(),
            components: 0,
            rep: Ghost(Map::empty()),
            dist: Ghost(Map::empty()),
            dist_bound: Ghost(0),
        }
    }

    /// The key index of a node, if it has one.
    fn key_index_of(&self, node: &Node) -> (r: Option<usize>)
        requires
            self.wf_graph(),
        ensures
            match r {
                Some(i) => i < self.n() && self.key_at(i as int) == node@ && self.idx(node@)
                    == i as int && self.has_key(node@),
                None => !self.has_key(node@),
            },
    {
        let n = self.keys.len();
        let mut i: usize = 0;
        while i < n
            invariant
                0 <= i <= n,
                n == self.n(),
                self.wf_graph(),
                forall|j: int| 0 <= j < i ==> self.key_at(j) != node@,
            decreases n - i,
        {
            if self.keys[i] == *node {
                proof {
                    self.lemma_key_idx(node@, i as int);
                }
                return Some(i);
            }
            i += 1;
        }
        None
    }

    /// Registers a node as a key if it is not one yet: self-rooted, size one,
    /// no adjacency. Returns the node's key index.
    fn ensure_key(&mut self, node: &Node) -> (i: usize)
        requires
            old(self).wf(),
        ensures
            final(self).wf(),
            final(self).components == old(self).components,
            (i as int) < final(self).n(),
            final(self).key_at(i as int) == node@,
            final(self).idx(node@) == i as int,
            final(self).has_key(node@),
            old(self).has_key(node@) ==> *final(self) == *old(self),
            !old(self).has_key(node@) ==> final(self).n() == old(self).n() + 1,
            !old(self).has_key(node@) ==> i as int == old(self).n(),
            !old(self).has_key(node@) ==> forall|j: int|
                0 <= j < old(self).n() ==> final(self).key_at(j) == old(self).key_at(j)
                    && final(self).in_graph_at(j) == old(self).in_graph_at(j)
                    && final(self).adj_at(j) == old(self).adj_at(j),
            !old(self).has_key(node@) ==> forall|j: int|
                0 <= j < old(self).n() ==> final(self).pnt(j) == old(self).pnt(j)
                    && final(self).rep_of(j) == old(self).rep_of(j)
                    && final(self).dist_of(j) == old(self).dist_of(j)
                    && final(self).size_at(j) == old(self).size_at(j),
            !old(self).has_key(node@) ==> !final(self).in_graph_at(old(self).n())
                && final(self).adj_at(old(self).n())@.len() == 0
                && final(self).pnt(old(self).n()) == old(self).n()
                && final(self).rep_of(old(self).n()) == old(self).n()
                && final(self).size_at(old(self).n()) == 1,
            final(self).dist_bound@ == old(self).dist_bound@,
    {
        let pos = self.key_index_of(node);
        match pos {
            Some(i) => i,
            None => {
                let i = self.keys.len();
                self.keys.push(node.clone());
                self.in_graph.push(false);
                self.adj.push(Edges::new());
                self.parent.push(i);
                self.size.push(1);
                proof {
                    self.rep@ = self.rep@.insert(i as int, i as int);
                    self.dist@ = self.dist@.insert(i as int, 0nat);
                }
                proof {
                    let pre = *old(self);
                    let post = *self;
                    assert(post.n() == pre.n() + 1);
                    assert(post.key_at(i as int) == node@);
                    assert(forall|j: int| 0 <= j < pre.n() ==> post.key_at(j) == pre.key_at(j));
                    assert forall|j: int, k: int|
                        0 <= j < post.n() && 0 <= k < post.n() && j != k implies post.key_at(j)
                        != post.key_at(k) by {
                        if j < pre.n() && k < pre.n() {
                        } else if j == pre.n() as int {
                            assert(post.key_at(k) == pre.key_at(k));
                            assert(!pre.has_key(node@));
                        } else if k == pre.n() as int {
                            assert(post.key_at(j) == pre.key_at(j));
                            assert(!pre.has_key(node@));
                        }
                    }
                    self.lemma_key_idx(node@, i as int);
                    // adjacency invariants: the new key has no entries, old
                    // entries refer to old keys whose indices are unchanged
                    assert forall|j: int, k: int|
                        0 <= j < post.n() && 0 <= k < post.adj_at(j)@.len() implies post.has_key(
                        (#[trigger] post.adj_at(j)@[k]).0,
                    ) && post.in_graph_at(post.idx(post.adj_at(j)@[k].0)) by {
                        assert(j < pre.n());
                        assert(post.adj_at(j) == pre.adj_at(j));
                        let v = pre.adj_at(j)@[k].0;
                        assert(pre.has_key(v) && pre.in_graph_at(pre.idx(v)));
                        let jj = pre.idx(v);
                        assert(post.key_at(jj) == v);
                        post.lemma_key_idx(v, jj);
                    }
                    assert(forall|j: int|
                        0 <= j < pre.n() ==> post.pnt(j) == pre.pnt(j) && post.size_at(j)
                            == pre.size_at(j) && post.in_graph_at(j) == pre.in_graph_at(j)
                            && post.adj_at(j) == pre.adj_at(j));
                    assert(post.pnt(i as int) == i as int);
                    assert(post.size_at(i as int) == 1);
                    assert(post.adj_at(i as int).wf());
                    assert(post.adj_at(i as int)@.len() == 0);
                    assert forall|j: int| 0 <= j < post.n() implies (#[trigger] post.adj_at(
                        j,
                    )).wf() by {
                        if j < pre.n() {
                            assert(pre.adj_at(j).wf());
                        }
                    }
                    assert forall|j: int|
                        0 <= j < post.n() && !post.in_graph_at(j) implies (#[trigger] post.adj_at(
                        j,
                    ))@.len() == 0 by {
                        if j < pre.n() {
                            assert(pre.adj_at(j)@.len() == 0);
                        }
                    }
                    assert(post.wf_graph());
                    // union-find invariants for the extended index range
                    assert(post.rep_of(i as int) == i as int);
                    assert(forall|j: int| 0 <= j < pre.n() ==> post.rep_of(j) == pre.rep_of(j));
                    assert(forall|j: int| 0 <= j < pre.n() ==> post.dist_of(j) == pre.dist_of(j));
                    assert forall|r: int|
                        0 <= r < post.n() && #[trigger] post.rep_of(r) == r implies post.size_at(r)
                        == post.class_of(r).len() by {
                        if r < pre.n() {
                            assert(pre.rep_of(r) == r);
                            assert(pre.size_at(r) == pre.class_of(r).len());
                            assert(post.class_of(r) =~= pre.class_of(r));
                            assert(post.size_at(r) == pre.size_at(r));
                        } else {
                            assert(r == i as int);
                            assert forall|j: int|
                                0 <= j < post.n() && j != i as int implies #[trigger] post.rep_of(j)
                                != i as int by {
                                assert(post.rep_of(j) == pre.rep_of(j));
                                assert(0 <= pre.rep_of(j) < pre.n());
                            }
                            assert(post.class_of(r) =~= Set::<int>::empty().insert(i as int));
                            assert(post.class_of(r).len() == 1);
                            assert(post.size_at(r) == 1);
                        }
                    }
                    assert(post.wf_uf());
                }
                i
            },
        }
    }
}

/// Keys never change under an adjacency-only mutation, so neither do the
/// index and presence of any node value.
proof fn lemma_same_keys(pre: Graph, post: Graph)
    requires
        forall|k: int, l: int|
            0 <= k < pre.n() && 0 <= l < pre.n() && k != l ==> pre.key_at(k) != pre.key_at(l),
        post.n() == pre.n(),
        forall|j: int| 0 <= j < pre.n() ==> post.key_at(j) == pre.key_at(j),
    ensures
        forall|v: NodeV| post.has_key(v) == pre.has_key(v),
        forall|v: NodeV| pre.has_key(v) ==> post.idx(v) == pre.idx(v),
{
    assert forall|v: NodeV| post.has_key(v) == pre.has_key(v) by {
        if pre.has_key(v) {
            let j = pre.idx(v);
            assert(post.key_at(j) == v);
        }
        if post.has_key(v) {
            let j = post.idx(v);
            assert(pre.key_at(j) == v);
        }
    }
    assert forall|v: NodeV| pre.has_key(v) implies post.idx(v) == pre.idx(v) by {
        let j = pre.idx(v);
        assert(post.key_at(j) == v);
        post.lemma_key_idx(v, j);
    }
}

impl Graph {
    /// Adds one unit of weight to the directed edge between two distinct,
    /// already-registered nodes, both of which are already edge sources.
    fn add_edge(&mut self, from: &Node, to: &Node)
        requires
            old(self).wf(),
            old(self).contains_node(from@),
            old(self).contains_node(to@),
            from@ != to@,
            old(self).weight(from@, to@) < u32::MAX,
        ensures
            final(self).wf(),
            final(self).weight(from@, to@) == old(self).weight(from@, to@) + 1,
            forall|u: NodeV, v: NodeV|
                !(u == from@ && v == to@) ==> final(self).weight(u, v) == old(self).weight(u, v),
            final(self).n() == old(self).n(),
            forall|j: int|
                0 <= j < old(self).n() ==> final(self).key_at(j) == old(self).key_at(j)
                    && final(self).in_graph_at(j) == old(self).in_graph_at(j),
            forall|j: int|
                0 <= j < old(self).n() ==> final(self).pnt(j) == old(self).pnt(j)
                    && final(self).rep_of(j) == old(self).rep_of(j)
                    && final(self).dist_of(j) == old(self).dist_of(j)
                    && final(self).size_at(j) == old(self).size_at(j),
            final(self).dist_bound@ == old(self).dist_bound@,
            final(self).components == old(self).components,
            forall|u: NodeV| u != from@ ==> final(self).degree(u) == old(self).degree(u),
            old(self).weight(from@, to@) > 0 ==> final(self).degree(from@) == old(self).degree(
                from@,
            ),
            old(self).weight(from@, to@) == 0 ==> final(self).degree(from@) == old(self).degree(
                from@,
            ) + 1,
    {
        let pos = self.key_index_of(from);
        let i = match pos {
            Some(i) => i,
            None => {
                proof {
                    assert(false);
                }
                0
            },
        };
        let ghost pre = *old(self);
        let ghost pre_adj = self.adj@[i as int];
        proof {
            assert(pre.adj_of(from@) == pre_adj);
            if pre_adj.contains_key(to@) {
                assert(pre.weight(from@, to@) == pre_adj.weight_of(to@));
            }
        }
        self.adj[i].add_or_increment(to.clone());
        proof {
            let post = *self;
            Edges::lemma_after_increment(pre_adj, post.adj@[i as int], to@);
            lemma_same_keys(pre, post);
            let post_adj = post.adj_at(i as int);
            assert(forall|j: int|
                0 <= j < post.n() && j != i as int ==> post.adj_at(j) == pre.adj_at(j));
            assert(post.idx(from@) == i as int);
            assert(post.adj_of(from@) == post_adj);
            // graph well-formedness
            assert forall|j: int| 0 <= j < post.n() implies (#[trigger] post.adj_at(
                j,
            )).wf() by {
                if j != i as int {
                    assert(pre.adj_at(j).wf());
                }
            }
            assert forall|j: int|
                0 <= j < post.n() && !post.in_graph_at(j) implies (#[trigger] post.adj_at(
                j,
            ))@.len() == 0 by {
                assert(j != i as int);
                assert(pre.adj_at(j)@.len() == 0);
            }
            assert forall|j: int, k: int|
                0 <= j < post.n() && 0 <= k < post.adj_at(j)@.len() implies post.has_key(
                (#[trigger] post.adj_at(j)@[k]).0,
            ) && post.in_graph_at(post.idx(post.adj_at(j)@[k].0)) by {
                let v = post.adj_at(j)@[k].0;
                if j != i as int {
                    assert(pre.adj_at(j)@[k] == post.adj_at(j)@[k]);
                    assert(pre.has_key(v) && pre.in_graph_at(pre.idx(v)));
                } else {
                    if pre_adj.contains_key(to@) {
                        assert(post.adj_at(j)@ == pre_adj@.update(
                            pre_adj.idx_of(to@),
                            (to@, (pre_adj.weight_of(to@) + 1) as u32),
                        ));
                        if k == pre_adj.idx_of(to@) {
                            assert(v == to@);
                            assert(pre.has_key(v) && pre.in_graph_at(pre.idx(v)));
                        } else {
                            assert(post.adj_at(j)@[k] == pre_adj@[k]);
                            assert(pre.has_key(v) && pre.in_graph_at(pre.idx(v)));
                        }
                    } else {
                        assert(post.adj_at(j)@ == pre_adj@.push((to@, 1u32)));
                        if k == pre_adj@.len() as int {
                            assert(v == to@);
                            assert(pre.has_key(v) && pre.in_graph_at(pre.idx(v)));
                        } else {
                            assert(post.adj_at(j)@[k] == pre_adj@[k]);
                            assert(pre.has_key(v) && pre.in_graph_at(pre.idx(v)));
                        }
                    }
                }
            }
            assert forall|k: int, l: int|
                0 <= k < post.n() && 0 <= l < post.n() && k != l implies post.key_at(k)
                != post.key_at(l) by {
                assert(post.key_at(k) == pre.key_at(k));
                assert(post.key_at(l) == pre.key_at(l));
            }
            assert(post.wf_graph());
            assert forall|j: int| 0 <= j < post.n() implies #[trigger] post.pnt(j) == pre.pnt(j)
                && 0 <= post.pnt(j) < post.n() by {
                assert(pre.pnt(j) == post.parent@[j] as int);
                assert(0 <= pre.pnt(j) < pre.n());
            }
            assert forall|j: int| 0 <= j < post.n() implies #[trigger] post.rep_of(j) == pre.rep_of(
                j,
            ) && 0 <= post.rep_of(j) < post.n() && post.rep@.contains_key(j) by {
                assert(pre.rep_of(j) == post.rep@[j]);
                assert(0 <= pre.rep_of(j) < pre.n());
            }
            assert forall|j: int| 0 <= j < post.n() implies #[trigger] post.dist_of(j)
                == pre.dist_of(j) && post.dist_of(j) <= post.dist_bound@ && post.dist@.contains_key(
                j,
            ) by {
                assert(pre.dist_of(j) == post.dist@[j]);
                assert(pre.dist_of(j) <= pre.dist_bound@);
            }
            assert forall|j: int| 0 <= j < post.n() implies #[trigger] post.size_at(j)
                == pre.size_at(j) by {
                assert(pre.size_at(j) == post.size@[j] as int);
            }
            // union-find state is untouched; classes keep their sizes
            assert forall|r: int|
                0 <= r < post.n() && #[trigger] post.rep_of(r) == r implies post.size_at(r)
                == post.class_of(r).len() by {
                assert(pre.rep_of(r) == r);
                assert(post.class_of(r) =~= pre.class_of(r));
            }
            assert(post.wf_uf());
            // weight bookkeeping
            assert(post.weight(from@, to@) == pre.weight(from@, to@) + 1);
            assert forall|u: NodeV, v: NodeV| !(u == from@ && v == to@) implies post.weight(u, v)
                == pre.weight(u, v) by {
                if post.has_key(u) {
                    if u == from@ {
                        assert(v != to@);
                        assert(post.adj_of(u) == post_adj);
                        assert(post_adj.contains_key(v) == pre_adj.contains_key(v));
                        if pre_adj.contains_key(v) {
                            assert(post_adj.weight_of(v) == pre_adj.weight_of(v));
                        }
                    } else {
                        assert(post.idx(u) == pre.idx(u));
                        assert(pre.idx(u) != i as int);
                        assert(post.adj_of(u) == pre.adj_of(u));
                    }
                }
            }
            assert forall|u: NodeV| u != from@ implies post.degree(u) == pre.degree(u) by {
                if post.has_key(u) {
                    assert(post.idx(u) == pre.idx(u));
                    assert(pre.idx(u) != i as int);
                    assert(post.adj_of(u) == pre.adj_of(u));
                }
            }
        }
    }
}

/// How many ordered pairs drawn from the first `a` full rows of the group,
/// plus the first `b` entries of row `a`, have sources equal to `u` and
/// targets equal to `v`: the part of the clique walk already performed.
pub open spec fn pair_progress(s: Seq<NodeV>, u: NodeV, v: NodeV, a: int, b: int) -> nat {
    count_of(s.subrange(0, a), u) * count_of(s, v) + if 0 <= a < s.len() && s[a] == u {
        count_of(s.subrange(0, b), v)
    } else {
        0nat
    }
}

/// Counting over a concatenation splits.
proof fn lemma_count_concat(x: Seq<NodeV>, y: Seq<NodeV>, v: NodeV)
    ensures
        count_of(x + y, v) == count_of(x, v) + count_of(y, v),
    decreases y.len(),
{
    if y.len() == 0 {
        assert(x + y =~= x);
    } else {
        lemma_count_concat(x, y.drop_last(), v);
        assert((x + y).drop_last() =~= x + y.drop_last());
    }
}

/// Extending a prefix by one element adjusts its count by that element.
proof fn lemma_count_step(s: Seq<NodeV>, k: int, v: NodeV)
    requires
        0 <= k < s.len(),
    ensures
        count_of(s.subrange(0, k + 1), v) == count_of(s.subrange(0, k), v) + if s[k] == v {
            1nat
        } else {
            0nat
        },
{
    assert(s.subrange(0, k + 1).drop_last() =~= s.subrange(0, k));
    assert(s.subrange(0, k + 1).last() == s[k]);
}

/// Counts grow with the prefix.
proof fn lemma_count_prefix_mono(s: Seq<NodeV>, k1: int, k2: int, v: NodeV)
    requires
        0 <= k1 <= k2 <= s.len(),
    ensures
        count_of(s.subrange(0, k1), v) <= count_of(s.subrange(0, k2), v),
    decreases k2 - k1,
{
    if k1 < k2 {
        lemma_count_step(s, k2 - 1, v);
        lemma_count_prefix_mono(s, k1, k2 - 1, v);
    }
}

/// A prefix stopping before an occurrence undercounts the whole sequence.
proof fn lemma_count_prefix_strict(s: Seq<NodeV>, b: int, v: NodeV)
    requires
        0 <= b < s.len(),
        s[b] == v,
    ensures
        count_of(s.subrange(0, b), v) + 1 <= count_of(s, v),
{
    lemma_count_step(s, b, v);
    lemma_count_prefix_mono(s, b + 1, s.len() as int, v);
    assert(s.subrange(0, s.len() as int) =~= s);
}

/// A value occurs iff its count is positive.
proof fn lemma_count_contains(s: Seq<NodeV>, v: NodeV)
    ensures
        (count_of(s, v) > 0) == exists|k: int| 0 <= k < s.len() && s[k] == v,
    decreases s.len(),
{
    if s.len() > 0 {
        lemma_count_contains(s.drop_last(), v);
        if s.last() == v {
            assert(s[s.len() - 1] == v);
        } else {
            if exists|k: int| 0 <= k < s.len() && s[k] == v {
                let k = choose|k: int| 0 <= k < s.len() && s[k] == v;
                assert(k < s.len() - 1 && s.drop_last()[k] == v);
            }
        }
    }
}

/// A skipped pair of equal values leaves the clique progress unchanged.
proof fn lemma_progress_skip(s: Seq<NodeV>, a: int, b: int)
    requires
        0 <= a < s.len(),
        0 <= b < s.len(),
        s[b] == s[a],
    ensures
        forall|u: NodeV, v: NodeV|
            u != v ==> pair_progress(s, u, v, a, b + 1) == pair_progress(s, u, v, a, b),
{
    assert forall|u: NodeV, v: NodeV| u != v implies pair_progress(s, u, v, a, b + 1)
        == pair_progress(s, u, v, a, b) by {
        lemma_count_step(s, b, v);
    }
}

/// Recording the pair at the walk position advances its progress by one and
/// leaves every other ordered pair's progress unchanged.
proof fn lemma_progress_edge(s: Seq<NodeV>, a: int, b: int)
    requires
        0 <= a < s.len(),
        0 <= b < s.len(),
        s[b] != s[a],
    ensures
        pair_progress(s, s[a], s[b], a, b + 1) == pair_progress(s, s[a], s[b], a, b) + 1,
        forall|u: NodeV, v: NodeV|
            u != v && !(u == s[a] && v == s[b]) ==> pair_progress(s, u, v, a, b + 1)
                == pair_progress(s, u, v, a, b),
{
    lemma_count_step(s, b, s[b]);
    assert forall|u: NodeV, v: NodeV|
        u != v && !(u == s[a] && v == s[b]) implies pair_progress(s, u, v, a, b + 1)
        == pair_progress(s, u, v, a, b) by {
        lemma_count_step(s, b, v);
    }
}

/// Finishing a row of the clique walk equals starting the next row.
proof fn lemma_progress_row(s: Seq<NodeV>, a: int)
    requires
        0 <= a < s.len(),
    ensures
        forall|u: NodeV, v: NodeV|
            u != v ==> pair_progress(s, u, v, a + 1, 0) == pair_progress(
                s,
                u,
                v,
                a,
                s.len() as int,
            ),
{
    assert forall|u: NodeV, v: NodeV| u != v implies pair_progress(s, u, v, a + 1, 0)
        == pair_progress(s, u, v, a, s.len() as int) by {
        lemma_count_step(s, a, u);
        assert(s.subrange(0, s.len() as int) =~= s);
        let cu = count_of(s.subrange(0, a), u);
        let ov = count_of(s, v);
        if s[a] == u {
            assert((cu + 1) * ov == cu * ov + ov) by (nonlinear_arith);
        }
    }
}

/// The progress of a pair about to be recorded stays strictly below the
/// pair's total contribution to the clique.
proof fn lemma_progress_bound(s: Seq<NodeV>, a: int, b: int)
    requires
        0 <= a < s.len(),
        0 <= b < s.len(),
        s[a] != s[b],
    ensures
        pair_progress(s, s[a], s[b], a, b) + 1 <= count_of(s, s[a]) * count_of(s, s[b]),
{
    let u = s[a];
    let v = s[b];
    let cu = count_of(s.subrange(0, a), u);
    let cb = count_of(s.subrange(0, b), v);
    let ou = count_of(s, u);
    let ov = count_of(s, v);
    lemma_count_prefix_strict(s, a, u);
    lemma_count_prefix_strict(s, b, v);
    assert(cu + 1 <= ou);
    assert(cb + 1 <= ov);
    assert((cu + 1) * ov == cu * ov + ov) by (nonlinear_arith);
    assert((cu + 1) * ov <= ou * ov) by (nonlinear_arith)
        requires
            cu + 1 <= ou,
            0 <= ov,
    ;
    assert(pair_progress(s, u, v, a, b) == cu * ov + cb);
}

/// Whether the group member at `a` has a group member with a different value.
fn has_distinct_partner(nodes: &[Node], a: usize) -> (r: bool)
    requires
        a < nodes@.len(),
    ensures
        r == exists|l: int|
            0 <= l < nodes@.len() && seq_views(nodes@)[l] != seq_views(nodes@)[a as int],
{
    let len = nodes.len();
    let mut b: usize = 0;
    while b < len
        invariant
            0 <= b <= len,
            a < len,
            len == nodes@.len(),
            forall|l: int| 0 <= l < b ==> seq_views(nodes@)[l] == seq_views(nodes@)[a as int],
        decreases len - b,
    {
        if !(nodes[b] == nodes[a]) {
            proof {
                assert(seq_views(nodes@)[b as int] == nodes@[b as int]@);
                assert(seq_views(nodes@)[a as int] == nodes@[a as int]@);
            }
            return true;
        }
        b += 1;
    }
    false
}

/// Marking more nodes as edge sources (and changing nothing else) keeps the
/// graph part well-formed and preserves keys.
proof fn lemma_mark_wf(pre: Graph, post: Graph)
    requires
        pre.wf_graph(),
        post.n() == pre.n(),
        post.keys@ == pre.keys@,
        post.adj@ == pre.adj@,
        post.in_graph@.len() == pre.in_graph@.len(),
        forall|j: int| 0 <= j < post.n() && pre.in_graph_at(j) ==> post.in_graph_at(j),
    ensures
        post.wf_graph(),
        forall|v: NodeV| #[trigger] post.has_key(v) == pre.has_key(v),
        forall|v: NodeV| pre.has_key(v) ==> #[trigger] post.idx(v) == pre.idx(v),
{
    assert forall|j: int| 0 <= j < post.n() implies post.key_at(j) == pre.key_at(j)
        && post.adj_at(j) == pre.adj_at(j) by {
        assert(pre.key_at(j) == pre.keys@[j]@);
        assert(pre.adj_at(j) == pre.adj@[j]);
    }
    assert forall|k: int, l: int|
        0 <= k < post.n() && 0 <= l < post.n() && k != l implies post.key_at(k) != post.key_at(
        l,
    ) by {
        assert(post.key_at(k) == pre.key_at(k));
        assert(post.key_at(l) == pre.key_at(l));
    }
    lemma_same_keys(pre, post);
    assert forall|j: int| 0 <= j < post.n() implies (#[trigger] post.adj_at(j)).wf() by {
        assert(pre.adj_at(j).wf());
    }
    assert forall|j: int|
        0 <= j < post.n() && !post.in_graph_at(j) implies (#[trigger] post.adj_at(j))@.len()
        == 0 by {
        assert(!pre.in_graph_at(j));
        assert(pre.adj_at(j)@.len() == 0);
    }
    assert forall|j: int, k: int|
        0 <= j < post.n() && 0 <= k < post.adj_at(j)@.len() implies post.has_key(
        (#[trigger] post.adj_at(j)@[k]).0,
    ) && post.in_graph_at(post.idx(post.adj_at(j)@[k].0)) by {
        assert(post.adj_at(j) == pre.adj_at(j));
        let v = pre.adj_at(j)@[k].0;
        assert(pre.has_key(v) && pre.in_graph_at(pre.idx(v)));
    }
}

/// An unchanged union-find state stays well-formed and keeps all its
/// observable values.
proof fn lemma_same_uf(pre: Graph, post: Graph)
    requires
        pre.wf_uf(),
        post.n() == pre.n(),
        post.parent@ == pre.parent@,
        post.size@ == pre.size@,
        post.rep@ == pre.rep@,
        post.dist@ == pre.dist@,
        post.dist_bound@ == pre.dist_bound@,
    ensures
        post.wf_uf(),
        forall|j: int| 0 <= j < post.n() ==> #[trigger] post.pnt(j) == pre.pnt(j),
        forall|j: int| 0 <= j < post.n() ==> #[trigger] post.rep_of(j) == pre.rep_of(j),
        forall|j: int| 0 <= j < post.n() ==> #[trigger] post.dist_of(j) == pre.dist_of(j),
        forall|j: int| 0 <= j < post.n() ==> #[trigger] post.size_at(j) == pre.size_at(j),
{
    assert forall|j: int| 0 <= j < post.n() implies #[trigger] post.pnt(j) == pre.pnt(j) && 0
        <= post.pnt(j) < post.n() by {
        assert(pre.pnt(j) == pre.parent@[j] as int);
    }
    assert forall|j: int| 0 <= j < post.n() implies #[trigger] post.rep_of(j) == pre.rep_of(j) && 0
        <= post.rep_of(j) < post.n() && post.rep@.contains_key(j) by {
        assert(pre.rep_of(j) == pre.rep@[j]);
    }
    assert forall|j: int| 0 <= j < post.n() implies #[trigger] post.dist_of(j) == pre.dist_of(j)
        && post.dist_of(j) <= post.dist_bound@ && post.dist@.contains_key(j) by {
        assert(pre.dist_of(j) == pre.dist@[j]);
    }
    assert forall|j: int| 0 <= j < post.n() implies #[trigger] post.size_at(j) == pre.size_at(
        j,
    ) by {
        assert(pre.size_at(j) == pre.size@[j] as int);
    }
    assert forall|r: int|
        0 <= r < post.n() && #[trigger] post.rep_of(r) == r implies post.size_at(r)
        == post.class_of(r).len() by {
        assert(pre.rep_of(r) == r);
        assert(post.class_of(r) =~= pre.class_of(r));
    }
}

/// Identical keys and adjacency give identical weights, degrees, neighbor
/// sequences and presence, even when extra isolated keys were appended.
proof fn lemma_same_weights(pre: Graph, post: Graph)
    requires
        forall|k: int, l: int|
            0 <= k < pre.n() && 0 <= l < pre.n() && k != l ==> pre.key_at(k) != pre.key_at(l),
        forall|k: int, l: int|
            0 <= k < post.n() && 0 <= l < post.n() && k != l ==> post.key_at(k) != post.key_at(l),
        pre.n() <= post.n(),
        forall|j: int| 0 <= j < pre.n() ==> post.key_at(j) == pre.key_at(j),
        forall|j: int| 0 <= j < pre.n() ==> post.adj_at(j) == pre.adj_at(j),
        forall|j: int| pre.n() <= j < post.n() ==> (#[trigger] post.adj_at(j))@.len() == 0,
    ensures
        forall|u: NodeV, v: NodeV| #[trigger] post.weight(u, v) == pre.weight(u, v),
        forall|u: NodeV| #[trigger] post.degree(u) == pre.degree(u),
        forall|u: NodeV| #[trigger] post.adj_seq(u) == pre.adj_seq(u),
{
    assert forall|u: NodeV, v: NodeV| #[trigger] post.weight(u, v) == pre.weight(u, v) by {
        if pre.has_key(u) {
            let j = pre.idx(u);
            assert(post.key_at(j) == u);
            post.lemma_key_idx(u, j);
            assert(post.adj_of(u) == pre.adj_of(u));
        } else if post.has_key(u) {
            let j = post.idx(u);
            assert(j >= pre.n() || pre.key_at(j) == u);
            assert(post.adj_of(u)@.len() == 0);
            assert(!post.adj_of(u).contains_key(v));
        }
    }
    assert forall|u: NodeV| #[trigger] post.degree(u) == pre.degree(u) && #[trigger] post.adj_seq(
        u,
    ) == pre.adj_seq(u) by {
        if pre.has_key(u) {
            let j = pre.idx(u);
            assert(post.key_at(j) == u);
            post.lemma_key_idx(u, j);
            assert(post.adj_of(u) == pre.adj_of(u));
        } else if post.has_key(u) {
            let j = post.idx(u);
            assert(j >= pre.n() || pre.key_at(j) == u);
            assert(post.adj_of(u)@.len() == 0);
            assert(post.adj_of(u).key_seq() =~= Seq::<NodeV>::empty());
        }
    }
}


impl Graph {
    /// Registers every group member as a key; everything else is unchanged.
    #[verifier::loop_isolation(false)]
    fn register_group(&mut self, nodes: &[Node])
        requires
            old(self).wf(),
        ensures
            final(self).wf(),
            final(self).components == old(self).components,
            old(self).n() <= final(self).n(),
            forall|j: int|
                0 <= j < old(self).n() ==> final(self).key_at(j) == old(self).key_at(j)
                    && final(self).in_graph_at(j) == old(self).in_graph_at(j)
                    && final(self).adj_at(j) == old(self).adj_at(j),
            forall|j: int|
                0 <= j < old(self).n() ==> final(self).pnt(j) == old(self).pnt(j) && #[trigger] final(self).rep_of(j) == old(self).rep_of(j)
                    && final(self).size_at(j) == old(self).size_at(j),
            forall|j: int|
                #![trigger final(self).adj_at(j)]
                #![trigger final(self).in_graph_at(j)]
                #![trigger final(self).rep_of(j)]
                old(self).n() <= j < final(self).n() ==> !final(self).in_graph_at(j)
                    && final(self).adj_at(j)@.len() == 0 && final(self).pnt(j) == j
                    && final(self).rep_of(j) == j,
            forall|v: NodeV|
                #[trigger] final(self).has_key(v) == (old(self).has_key(v) || count_of(
                    seq_views(nodes@),
                    v,
                ) > 0),
    {
        let ghost pre = *old(self);
        let ghost sv = seq_views(nodes@);
        let len = nodes.len();
        let mut a: usize = 0;
        while a < len
            invariant
                self.wf(),
                0 <= a <= len,
                self.components == pre.components,
                pre.n() <= self.n(),
                forall|j: int|
                    0 <= j < pre.n() ==> self.key_at(j) == pre.key_at(j) && self.in_graph_at(j)
                        == pre.in_graph_at(j) && self.adj_at(j) == pre.adj_at(j),
                forall|j: int|
                    0 <= j < pre.n() ==> self.pnt(j) == pre.pnt(j) && #[trigger] self.rep_of(j) == pre.rep_of(j) && self.size_at(j) == pre.size_at(j),
                forall|j: int|
                    #![trigger self.adj_at(j)]
                    #![trigger self.in_graph_at(j)]
                    #![trigger self.rep_of(j)]
                    pre.n() <= j < self.n() ==> !self.in_graph_at(j) && self.adj_at(j)@.len() == 0
                        && self.pnt(j) == j && self.rep_of(j) == j,
                forall|v: NodeV|
                    #[trigger] self.has_key(v) == (pre.has_key(v) || exists|k: int|
                        0 <= k < a && sv[k] == v),
            decreases len - a,
        {
            let ghost s0 = *self;
            self.ensure_key(&nodes[a]);
            proof {
                let nv = nodes@[a as int]@;
                assert(sv[a as int] == nv);
                if !s0.has_key(nv) {
                    assert forall|j: int| 0 <= j < pre.n() implies self.key_at(j) == pre.key_at(j)
                        && self.in_graph_at(j) == pre.in_graph_at(j) && self.adj_at(j)
                        == pre.adj_at(j) && self.pnt(j) == pre.pnt(j) && #[trigger] self.rep_of(j)
                        == pre.rep_of(j) && self.size_at(j) == pre.size_at(j) by {
                        assert(s0.key_at(j) == pre.key_at(j) && s0.in_graph_at(j)
                            == pre.in_graph_at(j) && s0.adj_at(j) == pre.adj_at(j));
                        assert(s0.pnt(j) == pre.pnt(j) && s0.rep_of(j) == pre.rep_of(j)
                            && s0.size_at(j) == pre.size_at(j));
                    }
                    assert forall|j: int|
                        #![trigger self.adj_at(j)]
                        #![trigger self.in_graph_at(j)]
                        #![trigger self.rep_of(j)]
                        pre.n() <= j < self.n() implies !self.in_graph_at(j) && self.adj_at(
                        j,
                    )@.len() == 0 && self.pnt(j) == j && self.rep_of(j) == j by {
                        if j < s0.n() {
                            assert(!s0.in_graph_at(j) && s0.adj_at(j)@.len() == 0 && s0.pnt(j) == j
                                && s0.rep_of(j) == j);
                            assert(self.in_graph_at(j) == s0.in_graph_at(j));
                        } else {
                            assert(j == s0.n());
                            assert(!self.in_graph_at(j));
                        }
                    }
                } else {
                    assert(*self == s0);
                    assert forall|j: int|
                        #![trigger self.adj_at(j)]
                        #![trigger self.in_graph_at(j)]
                        #![trigger self.rep_of(j)]
                        pre.n() <= j < self.n() implies !self.in_graph_at(j) && self.adj_at(
                        j,
                    )@.len() == 0 && self.pnt(j) == j && self.rep_of(j) == j by {
                        assert(!s0.in_graph_at(j) && s0.adj_at(j)@.len() == 0 && s0.pnt(j) == j
                            && s0.rep_of(j) == j);
                        assert(self.in_graph_at(j) == s0.in_graph_at(j));
                    }
                }
                assert forall|v: NodeV|
                    #[trigger] self.has_key(v) == (pre.has_key(v) || exists|k: int|
                        0 <= k < a + 1 && sv[k] == v) by {
                    if v == nv {
                        assert(self.has_key(v));
                        assert(sv[a as int] == v);
                    } else {
                        if self.has_key(v) {
                            let j = self.idx(v);
                            assert(0 <= j < self.n() && self.key_at(j) == v);
                            if !s0.has_key(nv) {
                                assert(j != s0.n());
                            }
                            assert(s0.key_at(j) == v);
                            assert(s0.has_key(v));
                        }
                        if s0.has_key(v) {
                            let j = s0.idx(v);
                            assert(0 <= j < s0.n() && s0.key_at(j) == v);
                            assert(self.key_at(j) == v);
                            assert(self.has_key(v));
                        }
                        if exists|k: int| 0 <= k < a + 1 && sv[k] == v {
                            let k = choose|k: int| 0 <= k < a + 1 && sv[k] == v;
                            assert(k < a);
                        }
                    }
                }
            }
            a += 1;
        }
        proof {
            assert forall|v: NodeV|
                #[trigger] self.has_key(v) == (pre.has_key(v) || count_of(sv, v) > 0) by {
                lemma_count_contains(sv, v);
            }
        }
    }

    /// Marks every group member that has a differently-valued group partner
    /// as an edge source; everything else is unchanged.
    #[verifier::loop_isolation(false)]
    fn mark_sources(&mut self, nodes: &[Node])
        requires
            old(self).wf(),
            forall|k: int|
                0 <= k < nodes@.len() ==> old(self).has_key(#[trigger] seq_views(nodes@)[k]),
        ensures
            final(self).wf(),
            final(self).components == old(self).components,
            final(self).n() == old(self).n(),
            final(self).keys@ == old(self).keys@,
            final(self).adj@ == old(self).adj@,
            final(self).parent@ == old(self).parent@,
            final(self).size@ == old(self).size@,
            final(self).rep@ == old(self).rep@,
            final(self).dist@ == old(self).dist@,
            final(self).dist_bound@ == old(self).dist_bound@,
            forall|j: int|
                0 <= j < final(self).n() ==> #[trigger] final(self).in_graph_at(j) == (old(
                    self,
                ).in_graph_at(j) || ((exists|k: int|
                    0 <= k < nodes@.len() && seq_views(nodes@)[k] == old(self).key_at(j)) && (
                exists|l: int|
                    0 <= l < nodes@.len() && seq_views(nodes@)[l] != old(self).key_at(j)))),
    {
        let ghost pre = *old(self);
        let ghost sv = seq_views(nodes@);
        let len = nodes.len();
        proof {
            assert forall|u: NodeV, v: NodeV| u != v implies pair_progress(sv, u, v, 0, 0)
                == 0 by {
                assert(sv.subrange(0, 0) =~= Seq::<NodeV>::empty());
                assert(count_of(sv.subrange(0, 0), u) == 0);
            }
        }
        let mut a: usize = 0;
        while a < len
            invariant
                self.wf(),
                0 <= a <= len,
                self.components == pre.components,
                self.n() == pre.n(),
                self.keys@ == pre.keys@,
                self.adj@ == pre.adj@,
                self.parent@ == pre.parent@,
                self.size@ == pre.size@,
                self.rep@ == pre.rep@,
                self.dist@ == pre.dist@,
                self.dist_bound@ == pre.dist_bound@,
                self.in_graph@.len() == pre.in_graph@.len(),
                forall|v: NodeV| #[trigger] self.has_key(v) == pre.has_key(v),
                forall|v: NodeV| pre.has_key(v) ==> #[trigger] self.idx(v) == pre.idx(v),
                forall|j: int|
                    0 <= j < self.n() ==> #[trigger] self.in_graph_at(j) == (pre.in_graph_at(j) || (
                    (exists|k: int| 0 <= k < a && sv[k] == pre.key_at(j)) && (exists|l: int|
                        0 <= l < len && sv[l] != pre.key_at(j)))),
            decreases len - a,
        {
            let ghost s0 = *self;
            let has_partner = has_distinct_partner(nodes, a);
            if has_partner {
                let pos = self.key_index_of(&nodes[a]);
                let i = match pos {
                    Some(i) => i,
                    None => {
                        proof {
                            assert(pre.has_key(sv[a as int]));
                            assert(false);
                        }
                        0
                    },
                };
                self.in_graph.set(i, true);
                proof {
                    lemma_mark_wf(s0, *self);
                    lemma_same_uf(s0, *self);
                    assert(self.wf());
                    assert(s0.key_at(i as int) == sv[a as int]);
                    assert forall|j: int|
                        0 <= j < self.n() implies #[trigger] self.in_graph_at(j) == (
                    pre.in_graph_at(j) || ((exists|k: int|
                        0 <= k < a + 1 && sv[k] == pre.key_at(j)) && (exists|l: int|
                        0 <= l < len && sv[l] != pre.key_at(j)))) by {
                        assert(pre.key_at(j) == s0.key_at(j));
                        if j == i as int {
                            assert(self.in_graph_at(j));
                            assert(sv[a as int] == pre.key_at(j));
                        } else {
                            assert(self.in_graph_at(j) == s0.in_graph_at(j));
                            assert(pre.key_at(j) != sv[a as int]);
                            if exists|k: int| 0 <= k < a + 1 && sv[k] == pre.key_at(j) {
                                let k = choose|k: int| 0 <= k < a + 1 && sv[k] == pre.key_at(j);
                                assert(k < a);
                            }
                        }
                    }
                }
            } else {
                proof {
                    assert forall|j: int|
                        0 <= j < self.n() implies #[trigger] self.in_graph_at(j) == (
                    pre.in_graph_at(j) || ((exists|k: int|
                        0 <= k < a + 1 && sv[k] == pre.key_at(j)) && (exists|l: int|
                        0 <= l < len && sv[l] != pre.key_at(j)))) by {
                        if exists|k: int| 0 <= k < a + 1 && sv[k] == pre.key_at(j) {
                            let k = choose|k: int| 0 <= k < a + 1 && sv[k] == pre.key_at(j);
                            if k == a {
                                assert(forall|l: int| 0 <= l < len ==> sv[l] == sv[a as int]);
                            }
                        }
                    }
                }
            }
            a += 1;
        }
    }

    /// Walks every ordered pair of group members and adds one unit of edge
    /// weight for each pair with distinct values.
    #[verifier::rlimit(100)]
    #[verifier::loop_isolation(false)]
    fn weave_clique(&mut self, nodes: &[Node])
        requires
            old(self).wf(),
            forall|k: int|
                0 <= k < nodes@.len() ==> old(self).has_key(#[trigger] seq_views(nodes@)[k]),
            forall|k: int|
                0 <= k < nodes@.len() && (exists|l: int|
                    0 <= l < nodes@.len() && seq_views(nodes@)[l] != seq_views(nodes@)[k])
                    ==> old(self).contains_node(#[trigger] seq_views(nodes@)[k]),
            forall|u: NodeV, v: NodeV|
                u != v ==> old(self).weight(u, v) + count_of(seq_views(nodes@), u) * count_of(
                    seq_views(nodes@),
                    v,
                ) <= u32::MAX,
        ensures
            final(self).wf(),
            final(self).components == old(self).components,
            final(self).n() == old(self).n(),
            forall|j: int|
                0 <= j < old(self).n() ==> final(self).key_at(j) == old(self).key_at(j)
                    && final(self).in_graph_at(j) == old(self).in_graph_at(j),
            forall|j: int|
                0 <= j < old(self).n() ==> final(self).pnt(j) == old(self).pnt(j)
                    && final(self).rep_of(j) == old(self).rep_of(j)
                    && final(self).size_at(j) == old(self).size_at(j),
            forall|u: NodeV, v: NodeV|
                u != v ==> final(self).weight(u, v) == old(self).weight(u, v) + count_of(
                    seq_views(nodes@),
                    u,
                ) * count_of(seq_views(nodes@), v),
            forall|u: NodeV| final(self).weight(u, u) == old(self).weight(u, u),
            forall|v: NodeV| #[trigger] final(self).contains_node(v) == old(self).contains_node(v),
            forall|v: NodeV| #[trigger] final(self).has_key(v) == old(self).has_key(v),
    {
        let ghost pre = *old(self);
        let ghost sv = seq_views(nodes@);
        let len = nodes.len();
        proof {
            assert forall|u: NodeV, v: NodeV| u != v implies pair_progress(sv, u, v, 0, 0)
                == 0 by {
                assert(sv.subrange(0, 0) =~= Seq::<NodeV>::empty());
                assert(count_of(sv.subrange(0, 0), u) == 0);
            }
        }
        let mut a: usize = 0;
        while a < len
            invariant
                self.wf(),
                0 <= a <= len,
                self.components == pre.components,
                self.n() == pre.n(),
                forall|j: int|
                    0 <= j < self.n() ==> self.key_at(j) == pre.key_at(j) && self.in_graph_at(j)
                        == pre.in_graph_at(j),
                forall|j: int|
                    0 <= j < self.n() ==> self.pnt(j) == pre.pnt(j) && self.rep_of(j) == pre.rep_of(
                        j,
                    ) && self.size_at(j) == pre.size_at(j),
                forall|v: NodeV| #[trigger] self.has_key(v) == pre.has_key(v),
                forall|v: NodeV| pre.has_key(v) ==> #[trigger] self.idx(v) == pre.idx(v),
                forall|v: NodeV| #[trigger] self.contains_node(v) == pre.contains_node(v),
                forall|u: NodeV, v: NodeV|
                    u != v ==> #[trigger] self.weight(u, v) == pre.weight(u, v) + pair_progress(
                        sv,
                        u,
                        v,
                        a as int,
                        0,
                    ),
                forall|u: NodeV| #[trigger] self.weight(u, u) == pre.weight(u, u),
            decreases len - a,
        {
            let mut b: usize = 0;
            while b < len
                invariant
                    self.wf(),
                    0 <= b <= len,
                    a < len,
                    self.components == pre.components,
                    self.n() == pre.n(),
                    forall|j: int|
                        0 <= j < self.n() ==> self.key_at(j) == pre.key_at(j) && self.in_graph_at(j)
                            == pre.in_graph_at(j),
                    forall|j: int|
                        0 <= j < self.n() ==> self.pnt(j) == pre.pnt(j) && self.rep_of(j)
                            == pre.rep_of(j) && self.size_at(j) == pre.size_at(j),
                    forall|v: NodeV| #[trigger] self.has_key(v) == pre.has_key(v),
                    forall|v: NodeV| pre.has_key(v) ==> #[trigger] self.idx(v) == pre.idx(v),
                    forall|v: NodeV| #[trigger] self.contains_node(v) == pre.contains_node(v),
                    forall|u: NodeV, v: NodeV|
                        u != v ==> #[trigger] self.weight(u, v) == pre.weight(u, v) + pair_progress(
                            sv,
                            u,
                            v,
                            a as int,
                            b as int,
                        ),
                    forall|u: NodeV| #[trigger] self.weight(u, u) == pre.weight(u, u),
                decreases len - b,
            {
                if !(nodes[a] == nodes[b]) {
                    proof {
                        let ua = sv[a as int];
                        let vb = sv[b as int];
                        assert(ua == nodes@[a as int]@ && vb == nodes@[b as int]@);
                        assert(ua != vb);
                        assert(pre.contains_node(ua)) by {
                            assert(seq_views(nodes@)[b as int] != seq_views(nodes@)[a as int]);
                        }
                        assert(pre.contains_node(vb)) by {
                            assert(seq_views(nodes@)[a as int] != seq_views(nodes@)[b as int]);
                        }
                        lemma_progress_bound(sv, a as int, b as int);
                        assert(pre.weight(ua, vb) + count_of(sv, ua) * count_of(sv, vb)
                            <= u32::MAX);
                        assert(self.weight(ua, vb) < u32::MAX);
                    }
                    let ghost s0 = *self;
                    self.add_edge(&nodes[a], &nodes[b]);
                    proof {
                        let ua = sv[a as int];
                        let vb = sv[b as int];
                        lemma_progress_edge(sv, a as int, b as int);
                        lemma_same_keys(s0, *self);
                        assert forall|v: NodeV| #[trigger] self.contains_node(v)
                            == s0.contains_node(v) by {
                            if s0.has_key(v) {
                                assert(self.idx(v) == s0.idx(v));
                                assert(self.in_graph_at(s0.idx(v)) == s0.in_graph_at(s0.idx(v)));
                            }
                        }
                        assert forall|u: NodeV, v: NodeV| u != v implies #[trigger] self.weight(
                            u,
                            v,
                        ) == pre.weight(u, v) + pair_progress(sv, u, v, a as int, b as int + 1) by {
                            if u == ua && v == vb {
                            } else {
                                assert(self.weight(u, v) == s0.weight(u, v));
                            }
                        }
                    }
                } else {
                    proof {
                        lemma_progress_skip(sv, a as int, b as int);
                        assert(sv[b as int] == sv[a as int]);
                    }
                }
                b += 1;
            }
            proof {
                lemma_progress_row(sv, a as int);
            }
            a += 1;
        }
        proof {
            assert(sv.subrange(0, len as int) =~= sv);
            assert forall|u: NodeV, v: NodeV| u != v implies self.weight(u, v) == pre.weight(u, v)
                + count_of(sv, u) * count_of(sv, v) by {
                assert(self.weight(u, v) == pre.weight(u, v) + pair_progress(
                    sv,
                    u,
                    v,
                    len as int,
                    0,
                ));
            }
        }
    }

    /// Builds a clique over the group: for every ordered pair of distinct
    /// nodes in it, the directed edge weight between them grows by one (so a
    /// pair occurring `p` and `q` times gains `p * q` on each direction).
    /// Every group member becomes a registered key; members with at least one
    /// differently-valued partner enter the graph. Union-find classes of
    /// already-registered nodes are untouched; new nodes form singleton
    /// classes. The component counter is untouched.
    #[verifier::rlimit(100)]
    pub fn add_connected_component(&mut self, nodes: &[Node])
        requires
            old(self).wf(),
            forall|u: NodeV, v: NodeV|
                u != v ==> old(self).weight(u, v) + count_of(seq_views(nodes@), u) * count_of(
                    seq_views(nodes@),
                    v,
                ) <= u32::MAX,
        ensures
            final(self).wf(),
            final(self).components == old(self).components,
            forall|u: NodeV, v: NodeV|
                u != v ==> final(self).weight(u, v) == old(self).weight(u, v) + count_of(
                    seq_views(nodes@),
                    u,
                ) * count_of(seq_views(nodes@), v),
            forall|u: NodeV| final(self).weight(u, u) == old(self).weight(u, u),
            forall|v: NodeV|
                final(self).has_key(v) == (old(self).has_key(v) || count_of(seq_views(nodes@), v)
                    > 0),
            forall|v: NodeV|
                final(self).contains_node(v) == (old(self).contains_node(v) || (count_of(
                    seq_views(nodes@),
                    v,
                ) > 0 && exists|w: NodeV|
                    count_of(seq_views(nodes@), w) > 0 && w != v)),
            forall|u: NodeV, v: NodeV|
                final(self).has_key(u) && final(self).has_key(v) ==> final(self).same_class(u, v)
                    == (if old(self).has_key(u) && old(self).has_key(v) {
                    old(self).same_class(u, v)
                } else {
                    u == v
                }),
    {
        let ghost pre = *old(self);
        let ghost sv = seq_views(nodes@);
        let ghost len = nodes@.len() as int;
        self.register_group(nodes);
        let ghost reg = *self;
        proof {
            lemma_same_weights(pre, reg);
            assert forall|k: int| 0 <= k < len implies reg.has_key(#[trigger] sv[k]) by {
                lemma_count_contains(sv, sv[k]);
            }
        }
        self.mark_sources(nodes);
        let ghost mrk = *self;
        proof {
            assert forall|j: int| 0 <= j < mrk.n() implies mrk.key_at(j) == reg.key_at(j)
                && mrk.adj_at(j) == reg.adj_at(j) by {
                assert(reg.key_at(j) == reg.keys@[j]@);
                assert(reg.adj_at(j) == reg.adj@[j]);
            }
            lemma_same_keys(reg, mrk);
            lemma_same_weights(reg, mrk);
            lemma_same_uf(reg, mrk);
            // every member with a distinct partner is now an edge source
            assert forall|k: int|
                0 <= k < len && (exists|l: int| 0 <= l < len && sv[l] != sv[k]) implies
                mrk.contains_node(#[trigger] sv[k]) by {
                let j = reg.idx(sv[k]);
                assert(0 <= j < reg.n() && reg.key_at(j) == sv[k]);
                assert(mrk.key_at(j) == sv[k]);
                assert(mrk.in_graph_at(j)) by {
                    assert(sv[k] == reg.key_at(j));
                    let l = choose|l: int| 0 <= l < len && sv[l] != sv[k];
                    assert(sv[l] != reg.key_at(j));
                }
                mrk.lemma_key_idx(sv[k], j);
            }
            // weights are untouched so far, so the bound still holds
            assert forall|u: NodeV, v: NodeV| u != v implies mrk.weight(u, v) + count_of(sv, u)
                * count_of(sv, v) <= u32::MAX by {
                assert(mrk.weight(u, v) == reg.weight(u, v));
                assert(reg.weight(u, v) == pre.weight(u, v));
            }
        }
        self.weave_clique(nodes);
        proof {
            let post = *self;
            // weights
            assert forall|u: NodeV, v: NodeV| u != v implies post.weight(u, v) == pre.weight(u, v)
                + count_of(sv, u) * count_of(sv, v) by {
                assert(post.weight(u, v) == mrk.weight(u, v) + count_of(sv, u) * count_of(sv, v));
                assert(mrk.weight(u, v) == reg.weight(u, v));
                assert(reg.weight(u, v) == pre.weight(u, v));
            }
            assert forall|u: NodeV| post.weight(u, u) == pre.weight(u, u) by {
                assert(post.weight(u, u) == mrk.weight(u, u));
                assert(mrk.weight(u, u) == reg.weight(u, u));
                assert(reg.weight(u, u) == pre.weight(u, u));
            }
            // key presence
            assert forall|v: NodeV| post.has_key(v) == (pre.has_key(v) || count_of(sv, v) > 0) by {
                assert(post.has_key(v) == mrk.has_key(v));
                assert(mrk.has_key(v) == reg.has_key(v));
            }
            // graph presence
            assert forall|v: NodeV| post.contains_node(v) == (pre.contains_node(v) || (count_of(
                sv,
                v,
            ) > 0 && exists|w: NodeV|
                count_of(sv, w) > 0 && w != v)) by {
                lemma_count_contains(sv, v);
                assert(post.contains_node(v) == mrk.contains_node(v));
                if mrk.has_key(v) {
                    let j = mrk.idx(v);
                    assert(0 <= j < mrk.n() && mrk.key_at(j) == v);
                    assert(mrk.contains_node(v) == mrk.in_graph_at(j));
                    assert(reg.key_at(j) == v);
                    assert(mrk.in_graph_at(j) == (reg.in_graph_at(j) || ((exists|k: int|
                        0 <= k < len && sv[k] == v) && (exists|l: int|
                        0 <= l < len && sv[l] != v))));
                    if j < pre.n() {
                        assert(reg.in_graph_at(j) == pre.in_graph_at(j));
                        assert(pre.key_at(j) == v);
                        pre.lemma_key_idx(v, j);
                        assert(reg.in_graph_at(j) == pre.contains_node(v));
                    } else {
                        assert(!reg.in_graph_at(j));
                        assert(!pre.has_key(v)) by {
                            if pre.has_key(v) {
                                let jj = pre.idx(v);
                                assert(reg.key_at(jj) == v);
                                assert(mrk.key_at(jj) == v);
                                mrk.lemma_key_idx(v, jj);
                            }
                        }
                        assert(!pre.contains_node(v));
                    }
                    if exists|l: int| 0 <= l < len && sv[l] != v {
                        let l = choose|l: int| 0 <= l < len && sv[l] != v;
                        lemma_count_contains(sv, sv[l]);
                        assert(count_of(sv, sv[l]) > 0);
                    }
                    if exists|w: NodeV| count_of(sv, w) > 0 && w != v {
                        let w = choose|w: NodeV| count_of(sv, w) > 0 && w != v;
                        lemma_count_contains(sv, w);
                        let l = choose|l: int| 0 <= l < sv.len() && sv[l] == w;
                        assert(0 <= l < len && sv[l] != v);
                    }
                } else {
                    assert(!post.contains_node(v));
                    assert(!pre.has_key(v)) by {
                        if pre.has_key(v) {
                            let jj = pre.idx(v);
                            assert(reg.key_at(jj) == v);
                            assert(reg.has_key(v));
                        }
                    }
                    assert(!pre.contains_node(v));
                    assert(count_of(sv, v) == 0) by {
                        if count_of(sv, v) > 0 {
                            assert(reg.has_key(v));
                            assert(mrk.has_key(v));
                        }
                    }
                }
            }
            // union-find classes
            assert forall|u: NodeV, v: NodeV|
                post.has_key(u) && post.has_key(v) implies post.same_class(u, v) == (if pre.has_key(
                u,
            ) && pre.has_key(v) {
                pre.same_class(u, v)
            } else {
                u == v
            }) by {
                assert(mrk.has_key(u) && mrk.has_key(v));
                assert(reg.has_key(u) && reg.has_key(v));
                let ju = mrk.idx(u);
                let jv = mrk.idx(v);
                assert(0 <= ju < mrk.n() && mrk.key_at(ju) == u);
                assert(0 <= jv < mrk.n() && mrk.key_at(jv) == v);
                post.lemma_key_idx(u, ju);
                post.lemma_key_idx(v, jv);
                assert(post.rep_of(ju) == mrk.rep_of(ju) && post.rep_of(jv) == mrk.rep_of(jv));
                assert(mrk.rep_of(ju) == reg.rep_of(ju) && mrk.rep_of(jv) == reg.rep_of(jv));
                assert(reg.key_at(ju) == u && reg.key_at(jv) == v);
                if pre.has_key(u) && pre.has_key(v) {
                    pre.lemma_key_idx(u, ju);
                    pre.lemma_key_idx(v, jv);
                    assert(reg.rep_of(ju) == pre.rep_of(ju) && reg.rep_of(jv) == pre.rep_of(jv));
                } else if pre.has_key(u) {
                    assert(jv >= pre.n()) by {
                        if jv < pre.n() {
                            assert(pre.key_at(jv) == v);
                        }
                    }
                    pre.lemma_key_idx(u, ju);
                    assert(ju < pre.n());
                    assert(reg.rep_of(jv) == jv);
                    assert(reg.rep_of(ju) == pre.rep_of(ju));
                    assert(0 <= pre.rep_of(ju) < pre.n());
                    assert(u != v);
                } else if pre.has_key(v) {
                    assert(ju >= pre.n()) by {
                        if ju < pre.n() {
                            assert(pre.key_at(ju) == u);
                        }
                    }
                    pre.lemma_key_idx(v, jv);
                    assert(jv < pre.n());
                    assert(reg.rep_of(ju) == ju);
                    assert(reg.rep_of(jv) == pre.rep_of(jv));
                    assert(0 <= pre.rep_of(jv) < pre.n());
                    assert(u != v);
                } else {
                    assert(ju >= pre.n()) by {
                        if ju < pre.n() {
                            assert(pre.key_at(ju) == u);
                        }
                    }
                    assert(jv >= pre.n()) by {
                        if jv < pre.n() {
                            assert(pre.key_at(jv) == v);
                        }
                    }
                    assert(reg.rep_of(ju) == ju && reg.rep_of(jv) == jv);
                    assert((ju == jv) == (u == v)) by {
                        if u == v {
                            assert(mrk.key_at(ju) == u && mrk.key_at(jv) == v);
                        }
                    }
                }
            }
        }
    }
}



impl Graph {
    /// The node values reported by `nodes`: each key with an adjacency entry,
    /// considering the first `k` keys.
    pub closed spec fn node_seq_up_to(self, k: int) -> Seq<NodeV>
        decreases k,
    {
        if k <= 0 {
            Seq::empty()
        } else {
            self.node_seq_up_to(k - 1) + if self.in_graph_at(k - 1) {
                seq![self.key_at(k - 1)]
            } else {
                Seq::empty()
            }
        }
    }

    /// The node values in the graph, in registration order.
    pub open spec fn node_seq(self) -> Seq<NodeV> {
        self.node_seq_up_to(self.n())
    }

    /// Deletes the directed adjacency entry between two nodes. The caller is
    /// responsible for removing the symmetric counterpart; the node must be
    /// in the graph.
    pub fn remove_edge(&mut self, from: &Node, to: &Node)
        requires
            old(self).wf(),
            old(self).contains_node(from@),
        ensures
            final(self).wf(),
            final(self).components == old(self).components,
            final(self).n() == old(self).n(),
            final(self).keys@ == old(self).keys@,
            final(self).in_graph@ == old(self).in_graph@,
            final(self).parent@ == old(self).parent@,
            final(self).size@ == old(self).size@,
            final(self).rep@ == old(self).rep@,
            final(self).dist@ == old(self).dist@,
            final(self).dist_bound@ == old(self).dist_bound@,
            final(self).weight(from@, to@) == 0,
            forall|u: NodeV, v: NodeV|
                !(u == from@ && v == to@) ==> final(self).weight(u, v) == old(self).weight(u, v),
            forall|v: NodeV| #[trigger] final(self).has_key(v) == old(self).has_key(v),
            forall|v: NodeV| #[trigger] final(self).contains_node(v) == old(self).contains_node(v),
            forall|u: NodeV|
                u != from@ ==> #[trigger] final(self).degree(u) == old(self).degree(u)
                    && final(self).adj_seq(u) == old(self).adj_seq(u),
            forall|u: NodeV, v: NodeV|
                old(self).has_key(u) && old(self).has_key(v) ==> #[trigger] final(self).same_class(
                    u,
                    v,
                ) == old(self).same_class(u, v),
            old(self).weight(from@, to@) == 0 ==> final(self).degree(from@) == old(self).degree(
                from@,
            ),
            old(self).weight(from@, to@) > 0 ==> final(self).degree(from@) == old(self).degree(
                from@,
            ) - 1,
    {
        let pos = self.key_index_of(from);
        let i: usize;
        match pos {
            Some(j) => {
                i = j;
            },
            None => {
                proof {
                    assert(false);
                }
                return ;
            },
        }
        let ghost pre = *old(self);
        let ghost pre_adj = self.adj@[i as int];
        proof {
            assert(self.adj@.len() == self.n());
            assert(self.adj_at(i as int).wf());
            assert(pre_adj.wf());
        }
        self.adj[i].remove_edge(to);
        proof {
            let post = *self;
            Edges::lemma_after_remove(pre_adj, post.adj@[i as int], to@);
            let post_adj = post.adj_at(i as int);
            assert(forall|j: int|
                0 <= j < post.n() && j != i as int ==> post.adj_at(j) == pre.adj_at(j));
            assert forall|k: int, l: int|
                0 <= k < post.n() && 0 <= l < post.n() && k != l implies post.key_at(k)
                != post.key_at(l) by {
                assert(post.key_at(k) == pre.key_at(k));
                assert(post.key_at(l) == pre.key_at(l));
            }
            lemma_same_keys(pre, post);
            lemma_same_uf(pre, post);
            assert(post.idx(from@) == i as int);
            assert(post.adj_of(from@) == post_adj);
            assert forall|j: int| 0 <= j < post.n() implies (#[trigger] post.adj_at(
                j,
            )).wf() by {
                if j != i as int {
                    assert(pre.adj_at(j).wf());
                }
            }
            assert forall|j: int|
                0 <= j < post.n() && !post.in_graph_at(j) implies (#[trigger] post.adj_at(
                j,
            ))@.len() == 0 by {
                assert(j != i as int);
                assert(pre.adj_at(j)@.len() == 0);
            }
            assert forall|j: int, k: int|
                0 <= j < post.n() && 0 <= k < post.adj_at(j)@.len() implies post.has_key(
                (#[trigger] post.adj_at(j)@[k]).0,
            ) && post.in_graph_at(post.idx(post.adj_at(j)@[k].0)) by {
                let v = post.adj_at(j)@[k].0;
                if j != i as int {
                    assert(pre.adj_at(j)@[k] == post.adj_at(j)@[k]);
                    assert(pre.has_key(v) && pre.in_graph_at(pre.idx(v)));
                } else {
                    assert(post_adj.contains_key(v));
                    assert(v != to@);
                    assert(pre_adj.contains_key(v));
                    let kk = pre_adj.idx_of(v);
                    assert(pre.adj_at(i as int)@[kk].0 == v);
                    assert(pre.has_key(v) && pre.in_graph_at(pre.idx(v)));
                }
            }
            assert(post.wf_graph());
            assert(!post_adj.contains_key(to@));
            assert(post.weight(from@, to@) == 0);
            assert forall|u: NodeV, v: NodeV| !(u == from@ && v == to@) implies post.weight(u, v)
                == pre.weight(u, v) by {
                if post.has_key(u) {
                    if u == from@ {
                        assert(v != to@);
                        assert(post.adj_of(u) == post_adj);
                        assert(post_adj.contains_key(v) == pre_adj.contains_key(v));
                        if pre_adj.contains_key(v) {
                            assert(post_adj.weight_of(v) == pre_adj.weight_of(v));
                        }
                    } else {
                        assert(post.idx(u) == pre.idx(u));
                        assert(pre.idx(u) != i as int);
                        assert(post.adj_of(u) == pre.adj_of(u));
                    }
                }
            }
            assert forall|v: NodeV| #[trigger] post.contains_node(v) == pre.contains_node(v) by {
                if pre.has_key(v) {
                    assert(post.idx(v) == pre.idx(v));
                    assert(post.in_graph_at(pre.idx(v)) == pre.in_graph_at(pre.idx(v)));
                }
            }
            assert forall|u: NodeV| u != from@ implies #[trigger] post.degree(u) == pre.degree(u)
                && post.adj_seq(u) == pre.adj_seq(u) by {
                if post.has_key(u) {
                    assert(post.idx(u) == pre.idx(u));
                    assert(pre.idx(u) != i as int);
                    assert(post.adj_of(u) == pre.adj_of(u));
                }
            }
            if pre.weight(from@, to@) > 0 {
                assert(pre_adj.contains_key(to@));
                assert(post.degree(from@) == pre.degree(from@) - 1);
            } else {
                assert(!pre_adj.contains_key(to@));
                assert(post_adj.key_seq() == pre_adj.key_seq());
            }
            assert forall|u: NodeV, v: NodeV|
                pre.has_key(u) && pre.has_key(v) implies #[trigger] post.same_class(u, v)
                == pre.same_class(u, v) by {
                assert(post.idx(u) == pre.idx(u) && post.idx(v) == pre.idx(v));
                assert(post.rep_of(pre.idx(u)) == pre.rep_of(pre.idx(u)));
                assert(post.rep_of(pre.idx(v)) == pre.rep_of(pre.idx(v)));
            }
        }
    }

    /// All nodes in the graph: every node with an adjacency entry, in
    /// registration order; a node whose entries were all removed still
    /// appears.
    pub fn nodes(&self) -> (r: Vec<Node>)
        requires
            self.wf(),
        ensures
            r@.len() == self.node_seq().len(),
            forall|i: int| 0 <= i < r@.len() ==> (#[trigger] r@[i])@ == self.node_seq()[i],
            forall|i: int| 0 <= i < r@.len() ==> self.contains_node((#[trigger] r@[i])@),
            forall|i: int, j: int| 0 <= i < j < r@.len() ==> r@[i]@ != r@[j]@,
    {
        let n = self.keys.len();
        let mut r: Vec<Node> = Vec::new();
        let ghost mut srcs: Seq<int> = Seq::empty();
        let mut i: usize = 0;
        while i < n
            invariant
                0 <= i <= n,
                n == self.n(),
                self.wf(),
                r@.len() == self.node_seq_up_to(i as int).len(),
                forall|k: int|
                    0 <= k < r@.len() ==> (#[trigger] r@[k])@ == self.node_seq_up_to(i as int)[k],
                forall|k: int| 0 <= k < r@.len() ==> self.contains_node((#[trigger] r@[k])@),
                srcs.len() == r@.len(),
                forall|k: int|
                    0 <= k < r@.len() ==> 0 <= #[trigger] srcs[k] < i && r@[k]@ == self.key_at(
                        srcs[k],
                    ),
                forall|k1: int, k2: int| 0 <= k1 < k2 < srcs.len() ==> srcs[k1] < srcs[k2],
            decreases n - i,
        {
            if self.in_graph[i] {
                r.push(self.keys[i].clone());
                proof {
                    srcs = srcs.push(i as int);
                    self.lemma_key_idx(self.key_at(i as int), i as int);
                    assert(self.node_seq_up_to(i as int + 1) == self.node_seq_up_to(i as int)
                        + seq![self.key_at(i as int)]);
                }
            } else {
                proof {
                    assert(self.node_seq_up_to(i as int + 1) =~= self.node_seq_up_to(i as int));
                }
            }
            i += 1;
        }
        proof {
            assert forall|k1: int, k2: int|
                0 <= k1 < k2 < r@.len() implies r@[k1]@ != r@[k2]@ by {
                assert(r@[k1]@ == self.key_at(srcs[k1]));
                assert(r@[k2]@ == self.key_at(srcs[k2]));
                assert(srcs[k1] < srcs[k2]);
            }
        }
        r
    }

    /// The nodes one edge away from this node, in adjacency order; empty for
    /// a node with no adjacency entry.
    pub fn adjacent_nodes(&self, node: &Node) -> (r: Vec<Node>)
        requires
            self.wf(),
        ensures
            r@.len() == self.adj_seq(node@).len(),
            r@.len() == self.degree(node@),
            forall|i: int| 0 <= i < r@.len() ==> (#[trigger] r@[i])@ == self.adj_seq(node@)[i],
            forall|i: int|
                0 <= i < r@.len() ==> self.contains_node((#[trigger] r@[i])@) && self.weight(
                    node@,
                    r@[i]@,
                ) >= 1,
            forall|i: int, j: int| 0 <= i < j < r@.len() ==> r@[i]@ != r@[j]@,
    {
        let pos = self.key_index_of(node);
        match pos {
            Some(i) => {
                let r = self.adj[i].nodes();
                proof {
                    let e = self.adj_at(i as int);
                    assert(self.adj_of(node@) == e);
                    assert forall|k: int|
                        0 <= k < r@.len() implies self.contains_node((#[trigger] r@[k])@)
                        && self.weight(node@, r@[k]@) >= 1 by {
                        let v = r@[k]@;
                        assert(v == e.key_seq()[k]);
                        assert(e@[k].0 == v);
                        assert(self.has_key(v) && self.in_graph_at(self.idx(v)));
                        e.lemma_idx_unique(v, k);
                        assert(e.weight_of(v) == e@[k].1);
                        assert(e@[k].1 >= 1);
                    }
                    assert forall|k1: int, k2: int|
                        0 <= k1 < k2 < r@.len() implies r@[k1]@ != r@[k2]@ by {
                        assert(r@[k1]@ == e@[k1].0);
                        assert(r@[k2]@ == e@[k2].0);
                    }
                }
                r
            },
            None => {
                let r: Vec<Node> = Vec::new();
                r
            },
        }
    }

    /// The recorded multiplicity of the directed edge between two nodes, if
    /// an entry exists.
    pub fn edge_weight(&self, from: &Node, to: &Node) -> (r: Option<u32>)
        requires
            self.wf(),
        ensures
            match r {
                Some(w) => self.weight(from@, to@) == w && w >= 1,
                None => self.weight(from@, to@) == 0,
            },
    {
        let pos = self.key_index_of(from);
        match pos {
            Some(i) => {
                proof {
                    assert(self.adj@.len() == self.n());
                    assert(self.adj_at(i as int).wf());
                }
                let w = self.adj[i].get_weight(to);
                proof {
                    assert(self.adj_of(from@) == self.adj_at(i as int));
                    if self.adj_at(i as int).contains_key(to@) {
                        let e = self.adj_at(i as int);
                        let k = e.idx_of(to@);
                        assert(e@[k].1 >= 1);
                    }
                }
                match w {
                    Some(w) => Some(*w),
                    None => None,
                }
            },
            None => None,
        }
    }
}


impl Graph {
    /// Re-establishes the union-find invariants after a single parent link
    /// is rewritten to point directly at the class root (path compression).
    proof fn lemma_compress(pre: Graph, post: Graph, c: int, r: int)
        requires
            pre.wf(),
            0 <= c < pre.n(),
            0 <= r < pre.n(),
            pre.rep_of(c) == r,
            c != r,
            post.n() == pre.n(),
            post.keys@ == pre.keys@,
            post.in_graph@ == pre.in_graph@,
            post.adj@ == pre.adj@,
            post.size@ == pre.size@,
            post.rep@ == pre.rep@,
            post.dist@ == pre.dist@,
            post.dist_bound@ == pre.dist_bound@,
            post.parent@ == pre.parent@.update(c, r as usize),
        ensures
            post.wf(),
    {
        assert(pre.wf_graph());
        assert forall|k: int, l: int|
            0 <= k < post.n() && 0 <= l < post.n() && k != l implies post.key_at(k) != post.key_at(
            l,
        ) by {
            assert(post.key_at(k) == pre.key_at(k));
            assert(post.key_at(l) == pre.key_at(l));
        }
        assert forall|j: int| 0 <= j < post.n() implies (#[trigger] post.adj_at(j)).wf() by {
            assert(post.adj_at(j) == pre.adj_at(j));
            assert(pre.adj_at(j).wf());
        }
        assert forall|j: int|
            0 <= j < post.n() && !post.in_graph_at(j) implies (#[trigger] post.adj_at(j))@.len()
            == 0 by {
            assert(post.adj_at(j) == pre.adj_at(j));
            assert(!pre.in_graph_at(j));
            assert(pre.adj_at(j)@.len() == 0);
        }
        assert forall|j: int, k: int|
            0 <= j < post.n() && 0 <= k < post.adj_at(j)@.len() implies post.has_key(
            (#[trigger] post.adj_at(j)@[k]).0,
        ) && post.in_graph_at(post.idx(post.adj_at(j)@[k].0)) by {
            assert(post.adj_at(j) == pre.adj_at(j));
            let v = pre.adj_at(j)@[k].0;
            assert(pre.has_key(v) && pre.in_graph_at(pre.idx(v)));
            lemma_same_keys(pre, post);
        }
        assert(post.wf_graph());
        // the root keeps itself as parent, and `rep` still matches
        assert(pre.pnt(r) == r) by {
            assert(pre.rep_of(c) == r);
            assert(pre.pnt(pre.rep_of(c)) == pre.rep_of(c));
        }
        assert(pre.rep_of(r) == r);
        assert(pre.pnt(c) != c) by {
            if pre.pnt(c) == c {
                assert(pre.rep_of(c) == c);
            }
        }
        assert(pre.dist_of(c) < pre.dist_of(r)) by {
            assert(pre.dist_of(c) < pre.dist_of(pre.rep_of(c)));
        }
        assert forall|j: int| 0 <= j < post.n() implies #[trigger] post.rep_of(j) == pre.rep_of(j)
            && 0 <= post.rep_of(j) < post.n() && post.rep@.contains_key(j) by {
            assert(pre.rep_of(j) == pre.rep@[j]);
        }
        assert forall|j: int| 0 <= j < post.n() implies #[trigger] post.dist_of(j) == pre.dist_of(
            j,
        ) && post.dist_of(j) <= post.dist_bound@ && post.dist@.contains_key(j) by {
            assert(pre.dist_of(j) == pre.dist@[j]);
        }
        assert forall|j: int| 0 <= j < post.n() implies #[trigger] post.size_at(j) == pre.size_at(
            j,
        ) by {
            assert(pre.size_at(j) == pre.size@[j] as int);
        }
        assert forall|j: int| 0 <= j < post.n() implies 0 <= #[trigger] post.pnt(j) < post.n() by {
            if j != c {
                assert(post.pnt(j) == pre.pnt(j));
            }
        }
        assert forall|j: int|
            0 <= j < post.n() && post.pnt(j) == j implies #[trigger] post.rep_of(j) == j by {
            if j != c {
                assert(post.pnt(j) == pre.pnt(j));
            }
        }
        assert forall|j: int|
            0 <= j < post.n() implies post.rep_of(#[trigger] post.pnt(j)) == post.rep_of(j) by {
            if j == c {
                assert(post.pnt(c) == r);
            } else {
                assert(post.pnt(j) == pre.pnt(j));
                assert(pre.rep_of(pre.pnt(j)) == pre.rep_of(j));
            }
        }
        assert forall|j: int|
            0 <= j < post.n() implies post.pnt(#[trigger] post.rep_of(j)) == post.rep_of(j) by {
            assert(pre.pnt(pre.rep_of(j)) == pre.rep_of(j));
            assert(pre.rep_of(j) != c) by {
                if pre.rep_of(j) == c {
                    assert(pre.pnt(c) == c);
                }
            }
            assert(post.pnt(pre.rep_of(j)) == pre.pnt(pre.rep_of(j)));
        }
        assert forall|j: int|
            0 <= j < post.n() && #[trigger] post.pnt(j) != j implies post.dist_of(post.pnt(j))
            > post.dist_of(j) by {
            if j == c {
            } else {
                assert(post.pnt(j) == pre.pnt(j));
                assert(pre.dist_of(pre.pnt(j)) > pre.dist_of(j));
            }
        }
        assert forall|j: int|
            0 <= j < post.n() && #[trigger] post.pnt(j) != j implies post.dist_of(j) < post.dist_of(
                post.rep_of(j),
            ) by {
            if j == c {
            } else {
                assert(post.pnt(j) == pre.pnt(j));
                assert(pre.dist_of(j) < pre.dist_of(pre.rep_of(j)));
            }
        }
        assert forall|rr: int|
            0 <= rr < post.n() && #[trigger] post.rep_of(rr) == rr implies post.size_at(rr)
            == post.class_of(rr).len() by {
            assert(pre.rep_of(rr) == rr);
            assert(pre.size_at(rr) == pre.class_of(rr).len());
            assert(post.class_of(rr) =~= pre.class_of(rr));
        }
        assert(post.wf_uf());
    }

    /// Resolves a node to the root of its union-find class, compressing the
    /// walked path so every visited node points directly at the root. Which
    /// root a node resolves to is unchanged, for this node and all others.
    #[verifier::loop_isolation(false)]
    pub fn find(&mut self, node: &Node) -> (r: Node)
        requires
            old(self).wf(),
            old(self).has_key(node@),
        ensures
            final(self).wf(),
            final(self).components == old(self).components,
            final(self).n() == old(self).n(),
            final(self).keys@ == old(self).keys@,
            final(self).in_graph@ == old(self).in_graph@,
            final(self).adj@ == old(self).adj@,
            final(self).size@ == old(self).size@,
            final(self).rep@ == old(self).rep@,
            final(self).dist@ == old(self).dist@,
            final(self).dist_bound@ == old(self).dist_bound@,
            r@ == old(self).key_at(old(self).rep_of(old(self).idx(node@))),
            forall|j: int|
                0 <= j < old(self).n() && !on_chain(*old(self), old(self).idx(node@), j)
                    ==> #[trigger] final(self).pnt(j) == old(self).pnt(j),
            forall|j: int|
                0 <= j < old(self).n() && on_chain(*old(self), old(self).idx(node@), j)
                    ==> #[trigger] final(self).pnt(j) == old(self).rep_of(old(self).idx(node@)),
    {
        let pos = self.key_index_of(node);
        let i = match pos {
            Some(i) => i,
            None => {
                proof {
                    assert(false);
                }
                0
            },
        };
        let ghost i0 = i as int;
        let ghost r_idx = self.rep_of(i as int);
        // walk up to the root
        let mut root: usize = i;
        while self.parent[root] != root
            invariant
                self.wf(),
                *self == *old(self),
                0 <= root < self.n(),
                i < self.n(),
                self.rep_of(root as int) == r_idx,
                r_idx == self.rep_of(i as int),
            decreases self.dist_bound@ - self.dist_of(root as int),
        {
            proof {
                assert(self.pnt(root as int) != root as int);
                assert(self.dist_of(self.pnt(root as int)) > self.dist_of(root as int));
                assert(self.rep_of(self.pnt(root as int)) == self.rep_of(root as int));
            }
            root = self.parent[root];
        }
        proof {
            assert(self.pnt(root as int) == root as int);
            assert(self.rep_of(root as int) == root as int);
            assert(root as int == r_idx);
        }
        // compress the walked path
        let mut cur: usize = i;
        while cur != root
            invariant
                self.wf(),
                self.components == old(self).components,
                self.n() == old(self).n(),
                self.keys@ == old(self).keys@,
                self.in_graph@ == old(self).in_graph@,
                self.adj@ == old(self).adj@,
                self.size@ == old(self).size@,
                self.rep@ == old(self).rep@,
                self.dist@ == old(self).dist@,
                self.dist_bound@ == old(self).dist_bound@,
                0 <= cur < self.n(),
                0 <= root < self.n(),
                root as int == r_idx,
                self.rep_of(cur as int) == r_idx,
                self.pnt(root as int) == root as int,
                r_idx == old(self).rep_of(old(self).idx(node@)),
                i0 == old(self).idx(node@),
                0 <= i0 < self.n(),
                on_chain(*old(self), i0, cur as int),
                forall|j: int|
                    0 <= j < self.n() && on_chain(*old(self), i0, j) && !on_chain(
                        *old(self),
                        cur as int,
                        j,
                    ) ==> #[trigger] self.pnt(j) == r_idx,
                forall|j: int|
                    0 <= j < self.n() && !(on_chain(*old(self), i0, j) && !on_chain(
                        *old(self),
                        cur as int,
                        j,
                    )) ==> #[trigger] self.pnt(j) == old(self).pnt(j),
            decreases self.dist_bound@ - self.dist_of(cur as int),
        {
            let next = self.parent[cur];
            let ghost s0 = *self;
            proof {
                assert(self.pnt(cur as int) != cur as int) by {
                    if self.pnt(cur as int) == cur as int {
                        assert(self.rep_of(cur as int) == cur as int);
                    }
                }
                assert(next as int == s0.pnt(cur as int));
                assert(s0.dist_of(next as int) > s0.dist_of(cur as int));
                assert(s0.rep_of(next as int) == s0.rep_of(cur as int));
            }
            let ghost pre = *old(self);
            proof {
                // the node being rewritten still carries its original link
                assert(on_chain(pre, cur as int, cur as int));
                assert(s0.pnt(cur as int) == pre.pnt(cur as int));
                assert(next as int == pre.pnt(cur as int));
                assert(pre.pnt(cur as int) != cur as int);
            }
            self.parent.set(cur, root);
            proof {
                Graph::lemma_compress(s0, *self, cur as int, r_idx);
                assert forall|j: int| 0 <= j < self.n() implies #[trigger] self.rep_of(j)
                    == s0.rep_of(j) && #[trigger] self.dist_of(j) == s0.dist_of(j) by {
                    assert(s0.rep_of(j) == s0.rep@[j]);
                    assert(s0.dist_of(j) == s0.dist@[j]);
                }
                // the chain walked so far extends by the rewritten node
                assert(on_chain(pre, cur as int, next as int)) by {
                    assert(on_chain(pre, next as int, next as int));
                }
                lemma_on_chain_trans(pre, i0, cur as int, next as int);
                assert(!on_chain(pre, next as int, cur as int)) by {
                    if on_chain(pre, next as int, cur as int) {
                        lemma_on_chain_dist(pre, next as int, cur as int);
                        assert(pre.dist_of(next as int) > pre.dist_of(cur as int));
                    }
                }
                assert forall|j: int|
                    0 <= j < self.n() && on_chain(pre, i0, j) && !on_chain(
                        pre,
                        next as int,
                        j,
                    ) implies #[trigger] self.pnt(j) == r_idx by {
                    if j == cur as int {
                    } else {
                        assert(!on_chain(pre, cur as int, j));
                        assert(s0.pnt(j) == r_idx);
                        assert(self.pnt(j) == s0.pnt(j));
                    }
                }
                assert forall|j: int|
                    0 <= j < self.n() && !(on_chain(pre, i0, j) && !on_chain(
                        pre,
                        next as int,
                        j,
                    )) implies #[trigger] self.pnt(j) == pre.pnt(j) by {
                    assert(j != cur as int);
                    if on_chain(pre, i0, j) && !on_chain(pre, cur as int, j) {
                        assert(on_chain(pre, cur as int, j));
                    }
                    assert(s0.pnt(j) == pre.pnt(j));
                    assert(self.pnt(j) == s0.pnt(j));
                }
            }
            cur = next;
        }
        let r = self.keys[root].clone();
        proof {
            assert(self.keys@[r_idx]@ == old(self).key_at(r_idx));
            let pre = *old(self);
            assert(pre.pnt(r_idx) == r_idx);
            assert forall|j: int|
                0 <= j < pre.n() && on_chain(pre, i0, j) implies #[trigger] self.pnt(j)
                == r_idx by {
                if j == r_idx {
                    assert(self.pnt(j) == pre.pnt(j));
                } else {
                    assert(!on_chain(pre, root as int, j));
                }
            }
            assert forall|j: int|
                0 <= j < pre.n() && !on_chain(pre, i0, j) implies #[trigger] self.pnt(j)
                == pre.pnt(j) by {
                assert(!(on_chain(pre, i0, j) && !on_chain(pre, root as int, j)));
            }
        }
        r
    }
}


impl Graph {
    /// Re-establishes the union-find invariants after the root `r1` is
    /// attached beneath the root `r2`, `r2`'s recorded size becomes the sum,
    /// the ghost `rep` redirects `r1`'s class to `r2`, and `r2`'s measure is
    /// lifted above every member of both classes.
    proof fn lemma_attach(pre: Graph, post: Graph, r1: int, r2: int)
        requires
            pre.wf(),
            0 <= r1 < pre.n(),
            0 <= r2 < pre.n(),
            r1 != r2,
            pre.rep_of(r1) == r1,
            pre.rep_of(r2) == r2,
            pre.size_at(r1) + pre.size_at(r2) <= usize::MAX,
            post.n() == pre.n(),
            post.keys@ == pre.keys@,
            post.in_graph@ == pre.in_graph@,
            post.adj@ == pre.adj@,
            post.parent@ == pre.parent@.update(r1, r2 as usize),
            post.size@ == pre.size@.update(
                r2,
                (pre.size_at(r1) + pre.size_at(r2)) as usize,
            ),
            post.rep@ == Map::<int, int>::new(
                |j: int| pre.rep@.dom().contains(j),
                |j: int|
                    if pre.rep@[j] == r1 {
                        r2
                    } else {
                        pre.rep@[j]
                    },
            ),
            post.dist@ == pre.dist@.insert(r2, pre.dist_bound@ + 1),
            post.dist_bound@ == pre.dist_bound@ + 1,
        ensures
            post.wf(),
            forall|j: int|
                0 <= j < post.n() ==> #[trigger] post.rep_of(j) == (if pre.rep_of(j) == r1 {
                    r2
                } else {
                    pre.rep_of(j)
                }),
    {
        assert forall|k: int, l: int|
            0 <= k < post.n() && 0 <= l < post.n() && k != l implies post.key_at(k) != post.key_at(
            l,
        ) by {
            assert(post.key_at(k) == pre.key_at(k));
            assert(post.key_at(l) == pre.key_at(l));
        }
        assert forall|j: int| 0 <= j < post.n() implies (#[trigger] post.adj_at(j)).wf() by {
            assert(post.adj_at(j) == pre.adj_at(j));
            assert(pre.adj_at(j).wf());
        }
        assert forall|j: int|
            0 <= j < post.n() && !post.in_graph_at(j) implies (#[trigger] post.adj_at(j))@.len()
            == 0 by {
            assert(post.adj_at(j) == pre.adj_at(j));
            assert(!pre.in_graph_at(j));
            assert(pre.adj_at(j)@.len() == 0);
        }
        assert forall|j: int, k: int|
            0 <= j < post.n() && 0 <= k < post.adj_at(j)@.len() implies post.has_key(
            (#[trigger] post.adj_at(j)@[k]).0,
        ) && post.in_graph_at(post.idx(post.adj_at(j)@[k].0)) by {
            assert(post.adj_at(j) == pre.adj_at(j));
            let v = pre.adj_at(j)@[k].0;
            assert(pre.has_key(v) && pre.in_graph_at(pre.idx(v)));
            lemma_same_keys(pre, post);
        }
        assert(post.wf_graph());
        assert(pre.pnt(r1) == r1 && pre.pnt(r2) == r2);
        assert forall|j: int| 0 <= j < post.n() implies #[trigger] post.rep_of(j) == (if pre.rep_of(
            j,
        ) == r1 {
            r2
        } else {
            pre.rep_of(j)
        }) && post.rep@.contains_key(j) && 0 <= post.rep_of(j) < post.n() by {
            assert(pre.rep@.contains_key(j));
            assert(pre.rep_of(j) == pre.rep@[j]);
            assert(0 <= pre.rep_of(j) < pre.n());
        }
        assert forall|j: int| 0 <= j < post.n() implies #[trigger] post.dist_of(j) == (if j == r2 {
            pre.dist_bound@ + 1
        } else {
            pre.dist_of(j)
        }) && post.dist@.contains_key(j) && post.dist_of(j) <= post.dist_bound@ by {
            assert(pre.dist@.contains_key(j));
            assert(pre.dist_of(j) == pre.dist@[j]);
            assert(pre.dist_of(j) <= pre.dist_bound@);
        }
        assert forall|j: int| 0 <= j < post.n() implies 0 <= #[trigger] post.pnt(j) < post.n() by {
            if j != r1 {
                assert(post.pnt(j) == pre.pnt(j));
                assert(0 <= pre.pnt(j) < pre.n());
            }
        }
        assert forall|j: int| 0 <= j < post.n() implies #[trigger] post.size_at(j) == (if j == r2 {
            pre.size_at(r1) + pre.size_at(r2)
        } else {
            pre.size_at(j)
        }) by {
            assert(pre.size_at(j) == pre.size@[j] as int);
        }
        assert forall|j: int|
            0 <= j < post.n() && post.pnt(j) == j implies #[trigger] post.rep_of(j) == j by {
            if j != r1 {
                assert(post.pnt(j) == pre.pnt(j));
                assert(pre.rep_of(j) == j);
                assert(pre.rep_of(j) != r1 || j == r1);
            }
        }
        assert forall|j: int|
            0 <= j < post.n() implies post.rep_of(#[trigger] post.pnt(j)) == post.rep_of(j) by {
            if j == r1 {
                assert(post.pnt(r1) == r2);
                assert(pre.rep_of(r2) == r2);
            } else {
                assert(post.pnt(j) == pre.pnt(j));
                assert(pre.rep_of(pre.pnt(j)) == pre.rep_of(j));
            }
        }
        assert forall|j: int|
            0 <= j < post.n() implies post.pnt(#[trigger] post.rep_of(j)) == post.rep_of(j) by {
            if pre.rep_of(j) == r1 {
                assert(post.rep_of(j) == r2);
                assert(post.pnt(r2) == pre.pnt(r2));
            } else {
                assert(post.rep_of(j) == pre.rep_of(j));
                assert(pre.rep_of(j) != r1);
                assert(post.pnt(pre.rep_of(j)) == pre.pnt(pre.rep_of(j)));
                assert(pre.pnt(pre.rep_of(j)) == pre.rep_of(j));
            }
        }
        assert forall|j: int|
            0 <= j < post.n() && #[trigger] post.pnt(j) != j implies post.dist_of(post.pnt(j))
            > post.dist_of(j) by {
            if j == r1 {
                assert(post.pnt(r1) == r2);
                assert(post.dist_of(r2) == pre.dist_bound@ + 1);
                assert(post.dist_of(r1) == pre.dist_of(r1));
                assert(pre.dist_of(r1) <= pre.dist_bound@);
            } else {
                assert(post.pnt(j) == pre.pnt(j));
                assert(pre.pnt(j) != j);
                assert(pre.dist_of(pre.pnt(j)) > pre.dist_of(j));
                assert(j != r2) by {
                    if j == r2 {
                        assert(pre.pnt(r2) == r2);
                    }
                }
                if pre.pnt(j) == r2 {
                    assert(post.dist_of(r2) > pre.dist_of(r2));
                } else {
                    assert(post.dist_of(post.pnt(j)) == pre.dist_of(pre.pnt(j)));
                }
            }
        }
        assert forall|j: int|
            0 <= j < post.n() && #[trigger] post.pnt(j) != j implies post.dist_of(j) < post.dist_of(
                post.rep_of(j),
            ) by {
            if j == r1 {
                assert(post.rep_of(r1) == r2);
                assert(post.dist_of(r2) == pre.dist_bound@ + 1);
                assert(post.dist_of(r1) <= pre.dist_bound@);
            } else {
                assert(post.pnt(j) == pre.pnt(j));
                assert(pre.pnt(j) != j);
                assert(j != r2) by {
                    if j == r2 {
                        assert(pre.pnt(r2) == r2);
                    }
                }
                assert(post.dist_of(j) == pre.dist_of(j));
                assert(pre.dist_of(j) < pre.dist_of(pre.rep_of(j)));
                assert(pre.dist_of(pre.rep_of(j)) <= pre.dist_bound@);
                if pre.rep_of(j) == r1 {
                    assert(post.rep_of(j) == r2);
                    assert(post.dist_of(r2) == pre.dist_bound@ + 1);
                } else {
                    assert(post.rep_of(j) == pre.rep_of(j));
                    if pre.rep_of(j) == r2 {
                        assert(post.dist_of(r2) == pre.dist_bound@ + 1);
                    } else {
                        assert(post.dist_of(pre.rep_of(j)) == pre.dist_of(pre.rep_of(j)));
                    }
                }
            }
        }
        // class sizes: the merged class is the disjoint union of the two
        // original classes; every other class is untouched
        assert forall|rr: int|
            0 <= rr < post.n() && #[trigger] post.rep_of(rr) == rr implies post.size_at(rr)
            == post.class_of(rr).len() by {
            vstd::set_lib::lemma_int_range(0, pre.n());
            assert(rr != r1);
            if rr == r2 {
                let c1 = pre.class_of(r1);
                let c2 = pre.class_of(r2);
                assert(c1.subset_of(vstd::set_lib::set_int_range(0, pre.n())));
                assert(c2.subset_of(vstd::set_lib::set_int_range(0, pre.n())));
                vstd::set_lib::lemma_len_subset(c1, vstd::set_lib::set_int_range(0, pre.n()));
                vstd::set_lib::lemma_len_subset(c2, vstd::set_lib::set_int_range(0, pre.n()));
                assert(c1.disjoint(c2));
                vstd::set_lib::lemma_set_disjoint_lens(c1, c2);
                assert((c1 + c2).len() == c1.len() + c2.len());
                assert(post.class_of(r2) =~= c1 + c2);
                assert(pre.size_at(r1) == c1.len());
                assert(pre.size_at(r2) == c2.len());
            } else {
                assert(pre.rep_of(rr) == rr);
                assert(pre.size_at(rr) == pre.class_of(rr).len());
                assert(post.class_of(rr) =~= pre.class_of(rr));
                assert(post.size_at(rr) == pre.size_at(rr));
            }
        }
        assert(post.wf_uf());
    }

    /// The pair of roots a merge of these two nodes' classes would pick:
    /// first the root to be attached, then the surviving root. The smaller
    /// tree is attached beneath the larger; a tie attaches the first
    /// argument's root beneath the second's.
    pub open spec fn union_roots(self, u: NodeV, v: NodeV) -> (int, int) {
        let r1 = self.rep_of(self.idx(u));
        let r2 = self.rep_of(self.idx(v));
        if self.size_at(r1) <= self.size_at(r2) {
            (r1, r2)
        } else {
            (r2, r1)
        }
    }

    /// Merges the classes of two nodes: the root of the smaller tree is
    /// attached beneath the root of the larger (ties attach the first
    /// argument's root beneath the second's), the surviving root's recorded
    /// size becomes the sum, and the component counter drops by exactly one.
    /// When the nodes already share a root nothing changes.
    #[verifier::rlimit(100)]
    pub fn union(&mut self, node1: &Node, node2: &Node)
        requires
            old(self).wf(),
            old(self).has_key(node1@),
            old(self).has_key(node2@),
            old(self).same_class(node1@, node2@) || old(self).components >= 1,
        ensures
            final(self).wf(),
            final(self).n() == old(self).n(),
            final(self).keys@ == old(self).keys@,
            final(self).in_graph@ == old(self).in_graph@,
            final(self).adj@ == old(self).adj@,
            old(self).same_class(node1@, node2@) ==> final(self).components == old(self).components
                && final(self).rep@ == old(self).rep@ && final(self).size@ == old(self).size@,
            !old(self).same_class(node1@, node2@) ==> final(self).components == old(
                self,
            ).components - 1,
            !old(self).same_class(node1@, node2@) ==> forall|j: int|
                0 <= j < old(self).n() ==> #[trigger] final(self).rep_of(j) == (if old(
                    self,
                ).rep_of(j) == old(self).union_roots(node1@, node2@).0 {
                    old(self).union_roots(node1@, node2@).1
                } else {
                    old(self).rep_of(j)
                }),
            !old(self).same_class(node1@, node2@) ==> final(self).size_at(
                old(self).union_roots(node1@, node2@).1,
            ) == old(self).size_at(old(self).union_roots(node1@, node2@).0) + old(self).size_at(
                old(self).union_roots(node1@, node2@).1,
            ),
            forall|u: NodeV, v: NodeV|
                old(self).has_key(u) && old(self).has_key(v) ==> (#[trigger] final(self).same_class(
                    u,
                    v,
                ) <==> (old(self).same_class(u, v) || (old(self).same_class(u, node1@) && old(
                    self,
                ).same_class(v, node2@)) || (old(self).same_class(u, node2@) && old(
                    self,
                ).same_class(v, node1@)))),
    {
        let ghost pre = *old(self);
        let root1 = self.find(node1);
        let ghost s1 = *self;
        proof {
            assert forall|j: int| 0 <= j < s1.n() implies #[trigger] s1.key_at(j) == pre.key_at(
                j,
            ) && #[trigger] s1.rep_of(j) == pre.rep_of(j) by {
                assert(pre.key_at(j) == pre.keys@[j]@);
                assert(pre.rep_of(j) == pre.rep@[j]);
            }
            lemma_same_keys(pre, s1);
        }
        let root2 = self.find(node2);
        let ghost i1g = pre.rep_of(pre.idx(node1@));
        let ghost i2g = pre.rep_of(pre.idx(node2@));
        proof {
            assert(root1@ == pre.key_at(i1g));
            assert(root2@ == s1.key_at(s1.rep_of(s1.idx(node2@))));
            assert(s1.idx(node2@) == pre.idx(node2@));
            assert(root2@ == pre.key_at(i2g));
            assert(self.keys@ == pre.keys@);
            assert forall|j: int| 0 <= j < self.n() implies #[trigger] self.key_at(j)
                == pre.key_at(j) && #[trigger] self.rep_of(j) == pre.rep_of(j) && #[trigger]
            self.size_at(j) == pre.size_at(j) by {
                assert(pre.key_at(j) == pre.keys@[j]@);
                assert(pre.rep_of(j) == pre.rep@[j]);
                assert(pre.size_at(j) == pre.size@[j] as int);
            }
        }
        if root1 == root2 {
            proof {
                assert(pre.key_at(i1g) == pre.key_at(i2g));
                assert(i1g == i2g);
                assert forall|u: NodeV, v: NodeV|
                    pre.has_key(u) && pre.has_key(v) implies (#[trigger] self.same_class(u, v) <==>
                (pre.same_class(u, v) || (pre.same_class(u, node1@) && pre.same_class(v, node2@))
                    || (pre.same_class(u, node2@) && pre.same_class(v, node1@)))) by {
                    lemma_same_keys(pre, *self);
                    assert(self.idx(u) == pre.idx(u) && self.idx(v) == pre.idx(v));
                    assert(self.rep_of(pre.idx(u)) == pre.rep_of(pre.idx(u)));
                    assert(self.rep_of(pre.idx(v)) == pre.rep_of(pre.idx(v)));
                }
            }
            return ;
        }
        proof {
            assert(i1g != i2g) by {
                if i1g == i2g {
                    assert(root1@ == root2@);
                }
            }
            assert(!pre.same_class(node1@, node2@));
            assert(self.components >= 1);
            assert(0 <= i1g < self.n() && 0 <= i2g < self.n());
            assert(self.rep_of(i1g) == i1g) by {
                assert(pre.rep_of(pre.rep_of(pre.idx(node1@))) == pre.rep_of(pre.idx(node1@)))
                    by {
                    let k = pre.idx(node1@);
                    assert(pre.pnt(pre.rep_of(k)) == pre.rep_of(k));
                }
            }
            assert(self.rep_of(i2g) == i2g) by {
                assert(pre.rep_of(pre.rep_of(pre.idx(node2@))) == pre.rep_of(pre.idx(node2@)))
                    by {
                    let k = pre.idx(node2@);
                    assert(pre.pnt(pre.rep_of(k)) == pre.rep_of(k));
                }
            }
        }
        let pos1 = self.key_index_of(&root1);
        let i1 = match pos1 {
            Some(i) => i,
            None => {
                proof {
                    assert(self.key_at(i1g) == root1@);
                    assert(false);
                }
                0
            },
        };
        let pos2 = self.key_index_of(&root2);
        let i2 = match pos2 {
            Some(i) => i,
            None => {
                proof {
                    assert(self.key_at(i2g) == root2@);
                    assert(false);
                }
                0
            },
        };
        proof {
            assert(self.key_at(i1g) == root1@);
            self.lemma_key_idx(root1@, i1g);
            assert(i1 as int == i1g);
            assert(self.key_at(i2g) == root2@);
            self.lemma_key_idx(root2@, i2g);
            assert(i2 as int == i2g);
            // the recorded sizes are the class cardinalities, whose sum fits
            vstd::set_lib::lemma_int_range(0, self.n());
            let c1 = self.class_of(i1g);
            let c2 = self.class_of(i2g);
            assert(self.size_at(i1g) == c1.len());
            assert(self.size_at(i2g) == c2.len());
            assert(c1.subset_of(vstd::set_lib::set_int_range(0, self.n())));
            assert(c2.subset_of(vstd::set_lib::set_int_range(0, self.n())));
            vstd::set_lib::lemma_len_subset(c1, vstd::set_lib::set_int_range(0, self.n()));
            vstd::set_lib::lemma_len_subset(c2, vstd::set_lib::set_int_range(0, self.n()));
            assert forall|x: int| c1.contains(x) implies !c2.contains(x) by {
                assert(self.rep_of(x) == i1g);
            }
            assert(c1.disjoint(c2));
            vstd::set_lib::lemma_set_disjoint_lens(c1, c2);
            assert((c1 + c2).subset_of(vstd::set_lib::set_int_range(0, self.n())));
            vstd::set_lib::lemma_len_subset(c1 + c2, vstd::set_lib::set_int_range(0, self.n()));
            assert(self.size_at(i1g) + self.size_at(i2g) <= self.n());
            vstd::std_specs::vec::axiom_spec_len(&self.keys);
            assert(self.n() <= usize::MAX);
        }
        let root1_size = self.size[i1];
        let root2_size = self.size[i2];
        let new_size = root1_size + root2_size;
        let ghost mid = *self;
        let ghost ra: int = if root1_size <= root2_size { i1g } else { i2g };
        let ghost rb: int = if root1_size <= root2_size { i2g } else { i1g };
        if root1_size <= root2_size {
            self.parent.set(i1, i2);
            self.size.set(i2, new_size);
        } else {
            self.parent.set(i2, i1);
            self.size.set(i1, new_size);
        }
        proof {
            self.rep@ = Map::<int, int>::new(
                |j: int| mid.rep@.dom().contains(j),
                |j: int|
                    if mid.rep@[j] == ra {
                        rb
                    } else {
                        mid.rep@[j]
                    },
            );
            self.dist@ = mid.dist@.insert(rb, mid.dist_bound@ + 1);
            self.dist_bound@ = mid.dist_bound@ + 1;
        }
        self.components = self.components - 1;
        proof {
            Graph::lemma_attach(mid, *self, ra, rb);
            lemma_same_keys(pre, *self);
            assert(pre.union_roots(node1@, node2@) == (ra, rb)) by {
                assert(pre.size_at(i1g) == mid.size_at(i1g) && pre.size_at(i2g) == mid.size_at(
                    i2g,
                ));
                assert(root1_size as int == mid.size_at(i1g));
                assert(root2_size as int == mid.size_at(i2g));
            }
            assert forall|j: int| 0 <= j < pre.n() implies #[trigger] self.rep_of(j) == (
            if pre.rep_of(j) == ra {
                rb
            } else {
                pre.rep_of(j)
            }) by {
                assert(mid.rep_of(j) == pre.rep_of(j));
            }
            assert(self.size_at(rb) == pre.size_at(ra) + pre.size_at(rb)) by {
                assert(self.size_at(rb) == mid.size_at(ra) + mid.size_at(rb));
                assert(mid.size_at(ra) == pre.size_at(ra) && mid.size_at(rb) == pre.size_at(rb));
            }
            assert forall|u: NodeV, v: NodeV|
                pre.has_key(u) && pre.has_key(v) implies (#[trigger] self.same_class(u, v) <==> (
            pre.same_class(u, v) || (pre.same_class(u, node1@) && pre.same_class(v, node2@)) || (
            pre.same_class(u, node2@) && pre.same_class(v, node1@)))) by {
                let ju = pre.idx(u);
                let jv = pre.idx(v);
                assert(self.idx(u) == ju && self.idx(v) == jv);
                assert(0 <= ju < pre.n() && 0 <= jv < pre.n());
                assert(0 <= pre.rep_of(ju) < pre.n() && 0 <= pre.rep_of(jv) < pre.n());
                assert(mid.rep_of(ju) == pre.rep_of(ju) && mid.rep_of(jv) == pre.rep_of(jv));
                assert(self.rep_of(ju) == (if mid.rep_of(ju) == ra {
                    rb
                } else {
                    mid.rep_of(ju)
                }));
                assert(self.rep_of(jv) == (if mid.rep_of(jv) == ra {
                    rb
                } else {
                    mid.rep_of(jv)
                }));
                assert(pre.same_class(u, node1@) == (pre.rep_of(ju) == i1g));
                assert(pre.same_class(u, node2@) == (pre.rep_of(ju) == i2g));
                assert(pre.same_class(v, node1@) == (pre.rep_of(jv) == i1g));
                assert(pre.same_class(v, node2@) == (pre.rep_of(jv) == i2g));
            }
        }
    }
}


impl Graph {
    /// A raw bridge candidate passes the validity filter when the edge
    /// weight between its endpoints is exactly one and both endpoints have
    /// more than one neighbor.
    pub open spec fn valid_bridge_spec(self, u: NodeV, v: NodeV) -> bool {
        self.weight(u, v) == 1 && self.degree(u) > 1 && self.degree(v) > 1
    }

    /// Whether a candidate passes the validity filter: its edge weight is
    /// exactly one (a single corroborating record) and neither endpoint is a
    /// leaf. The candidate's edge must exist and its target must be in the
    /// graph, which holds of every edge the search itself walked.
    pub fn is_valid_bridge(&self, bridge: &Bridge) -> (r: bool)
        requires
            self.wf(),
            self.weight(bridge.from@, bridge.to@) >= 1,
            self.contains_node(bridge.to@),
        ensures
            r == self.valid_bridge_spec(bridge.from@, bridge.to@),
    {
        let wopt = self.edge_weight(&bridge.from, &bridge.to);
        let w = match wopt {
            Some(w) => w,
            None => {
                proof {
                    assert(false);
                }
                1
            },
        };
        let from_adjacent = self.adjacent_nodes(&bridge.from);
        let to_adjacent = self.adjacent_nodes(&bridge.to);
        w == 1 && from_adjacent.len() > 1 && to_adjacent.len() > 1
    }

    /// One DFS low-link visit: marks `current`, stamps its discovery time,
    /// walks its neighbors (skipping the tree parent), recurses into the
    /// unvisited ones, and records every candidate `(current, next)` with
    /// `low[next] > discovery[current]` that passes the validity filter.
    /// Returns the advanced discovery clock; every bridge it appends passes
    /// the filter.
    #[verifier::rlimit(100)]
    #[verifier::loop_isolation(false)]
    fn dfs(&self, current: usize, parent: usize, time: usize, state: &mut BridgeFinderState) -> (t2:
        usize)
        requires
            self.wf(),
            old(state).wf(self.n()),
            current < self.n(),
            self.in_graph_at(current as int),
            !old(state).visited@[current as int],
            parent < self.n(),
            time == count_trues(old(state).visited@, self.n()),
        ensures
            final(state).wf(self.n()),
            forall|j: int|
                0 <= j < self.n() && old(state).visited@[j] ==> final(state).visited@[j],
            final(state).visited@[current as int],
            t2 == count_trues(final(state).visited@, self.n()),
            t2 >= time + 1,
            final(state).bridges@.len() >= old(state).bridges@.len(),
            forall|i: int|
                0 <= i < old(state).bridges@.len() ==> final(state).bridges@[i] == old(
                    state,
                ).bridges@[i],
            forall|i: int|
                old(state).bridges@.len() <= i < final(state).bridges@.len()
                    ==> self.valid_bridge_spec(
                    (#[trigger] final(state).bridges@[i])@.0,
                    final(state).bridges@[i]@.1,
                ),
            forall|f: nat|
                f >= self.n() - count_trues(old(state).visited@, self.n())
                    ==> abs_of(*final(state), t2) == search_visit(
                    *self,
                    current as int,
                    parent as int,
                    abs_of(*old(state), time),
                    f,
                ),
        decreases self.n() - count_trues(state.visited@, self.n()),
    {
        let n = self.keys.len();
        let ghost g = *self;
        let ghost c = current as int;
        let ghost p = parent as int;
        let ghost st_entry = abs_of(*state, time);
        let ghost u0 = self.n() - count_trues(old(state).visited@, self.n());
        proof {
            lemma_count_trues_lt(state.visited@, current as int, self.n());
        }
        state.visited.set(current, true);
        state.discovery.set(current, time);
        state.low.set(current, time);
        proof {
            lemma_count_trues_update(old(state).visited@, current as int, self.n());
        }
        let mut t: usize = time + 1;
        let ghost base = state.visited@;
        let ghost base_bridges = state.bridges@;
        let neighbors = self.adjacent_nodes(&self.keys[current]);
        let ghost cv = self.key_at(current as int);
        proof {
            // marking corresponds to the first step of the ghost visit
            let marked = SearchState {
                visited: st_entry.visited.update(c, true),
                discovery: st_entry.discovery.update(c, st_entry.time),
                low: st_entry.low.update(c, st_entry.time),
                bridges: st_entry.bridges,
                time: st_entry.time + 1,
            };
            assert(abs_of(*state, t).visited =~= marked.visited);
            assert(abs_of(*state, t).low =~= marked.low);
            assert(abs_of(*state, t).discovery =~= marked.discovery);
            assert(abs_of(*state, t).bridges =~= marked.bridges);
            assert(abs_of(*state, t) == marked);
        }
        let num = neighbors.len();
        let mut k: usize = 0;
        while k < num
            invariant
                state.wf(self.n()),
                0 <= k <= num,
                num == self.adj_seq(cv).len(),
                forall|j: int| 0 <= j < self.n() && base[j] ==> state.visited@[j],
                state.visited@[current as int],
                t == count_trues(state.visited@, self.n()),
                t >= time + 1,
                state.bridges@.len() >= base_bridges.len(),
                forall|i: int|
                    0 <= i < base_bridges.len() ==> state.bridges@[i] == base_bridges[i],
                forall|i: int|
                    base_bridges.len() <= i < state.bridges@.len() ==> self.valid_bridge_spec(
                        (#[trigger] state.bridges@[i])@.0,
                        state.bridges@[i]@.1,
                    ),
                forall|f: nat|
                    f >= u0 ==> search_neighbors(g, c, p, k as int, abs_of(*state, t), f)
                        == search_visit(g, c, p, st_entry, f),
            decreases num - k,
        {
            let ghost it_state = *state;
            let ghost it_t = t;
            let nb = &neighbors[k];
            let pos = self.key_index_of(nb);
            let j = match pos {
                Some(j) => j,
                None => {
                    proof {
                        assert(self.contains_node(nb@));
                        assert(false);
                    }
                    0
                },
            };
            proof {
                assert(self.adj_seq(cv)[k as int] == nb@);
                assert(g.idx(g.adj_seq(g.key_at(c))[k as int]) == j as int);
            }
            if !(j == parent) {
                if !state.visited[j] {
                    let ghost before = *state;
                    proof {
                        lemma_count_trues_le(state.visited@, self.n());
                        lemma_count_trues_le(old(state).visited@, self.n());
                    }
                    t = self.dfs(j, current, t, state);
                    let ghost after_rec = *state;
                    let ghost t_after = t;
                    proof {
                        assert(state.visited@[current as int]);
                        assert forall|jj: int|
                            0 <= jj < self.n() && base[jj] implies state.visited@[jj] by {
                            assert(before.visited@[jj]);
                        }
                        assert(j as int != c);
                    }
                    let lc = state.low[current];
                    let lj = state.low[j];
                    state.low.set(current, if lj < lc { lj } else { lc });
                    let ghost after_low = *state;
                    let mut pushed: bool = false;
                    if state.low[j] > state.discovery[current] {
                        let bridge = Bridge { from: self.keys[current].clone(), to: nb.clone() };
                        proof {
                            assert(bridge.from@ == cv);
                            assert(bridge.to@ == self.adj_seq(cv)[k as int]);
                            assert(self.weight(cv, bridge.to@) >= 1);
                            assert(self.contains_node(bridge.to@));
                        }
                        if self.is_valid_bridge(&bridge) {
                            state.bridges.push(bridge);
                            pushed = true;
                            proof {
                                assert(bridge@ == (cv, nb@));
                            }
                        }
                    }
                    proof {
                        assert forall|f: nat|
                            f >= u0 implies search_neighbors(
                            g,
                            c,
                            p,
                            k as int + 1,
                            abs_of(*state, t),
                            f,
                        ) == search_visit(g, c, p, st_entry, f) by {
                            assert(search_neighbors(g, c, p, k as int, abs_of(it_state, it_t), f)
                                == search_visit(g, c, p, st_entry, f));
                            // the recursive visit corresponds at fuel f - 1
                            assert(f >= 1);
                            assert(f - 1 >= g.n() - count_trues(before.visited@, g.n()));
                            let st1 = search_visit(
                                g,
                                j as int,
                                c,
                                abs_of(before, it_t),
                                (f - 1) as nat,
                            );
                            assert(st1 == abs_of(after_rec, t_after));
                            let lowered = if st1.low[j as int] < st1.low[c] {
                                st1.low[j as int]
                            } else {
                                st1.low[c]
                            };
                            let st2 = SearchState { low: st1.low.update(c, lowered), ..st1 };
                            assert(abs_of(after_low, t).visited =~= st2.visited);
                            assert(abs_of(after_low, t).low =~= st2.low);
                            assert(abs_of(after_low, t).discovery =~= st2.discovery);
                            assert(abs_of(after_low, t).bridges =~= st2.bridges);
                            assert(abs_of(after_low, t) == st2);
                            let cond = st1.low[j as int] > st1.discovery[c]
                                && g.valid_bridge_spec(g.key_at(c), g.adj_seq(g.key_at(c))[k as int]);
                            assert(pushed == cond);
                            let st3 = if cond {
                                SearchState {
                                    bridges: st2.bridges.push(
                                        (g.key_at(c), g.adj_seq(g.key_at(c))[k as int]),
                                    ),
                                    ..st2
                                }
                            } else {
                                st2
                            };
                            if cond {
                                assert(abs_of(*state, t).visited =~= st3.visited);
                                assert(abs_of(*state, t).low =~= st3.low);
                                assert(abs_of(*state, t).discovery =~= st3.discovery);
                                assert(abs_of(*state, t).bridges =~= st3.bridges);
                            }
                            assert(abs_of(*state, t) == st3);
                        }
                    }
                } else {
                    let lc = state.low[current];
                    let dj = state.discovery[j];
                    state.low.set(current, if dj < lc { dj } else { lc });
                    proof {
                        assert forall|f: nat|
                            f >= u0 implies search_neighbors(
                            g,
                            c,
                            p,
                            k as int + 1,
                            abs_of(*state, t),
                            f,
                        ) == search_visit(g, c, p, st_entry, f) by {
                            assert(search_neighbors(g, c, p, k as int, abs_of(it_state, it_t), f)
                                == search_visit(g, c, p, st_entry, f));
                            let st0 = abs_of(it_state, it_t);
                            let lowered = if st0.discovery[j as int] < st0.low[c] {
                                st0.discovery[j as int]
                            } else {
                                st0.low[c]
                            };
                            let st1 = SearchState { low: st0.low.update(c, lowered), ..st0 };
                            assert(abs_of(*state, t).visited =~= st1.visited);
                            assert(abs_of(*state, t).low =~= st1.low);
                            assert(abs_of(*state, t).discovery =~= st1.discovery);
                            assert(abs_of(*state, t).bridges =~= st1.bridges);
                            assert(abs_of(*state, t) == st1);
                        }
                    }
                }
            } else {
                proof {
                    assert forall|f: nat|
                        f >= u0 implies search_neighbors(
                        g,
                        c,
                        p,
                        k as int + 1,
                        abs_of(*state, t),
                        f,
                    ) == search_visit(g, c, p, st_entry, f) by {
                        assert(search_neighbors(g, c, p, k as int, abs_of(it_state, it_t), f)
                            == search_visit(g, c, p, st_entry, f));
                    }
                }
            }
            k += 1;
        }
        proof {
            assert forall|j: int|
                0 <= j < self.n() && old(state).visited@[j] implies state.visited@[j] by {
                assert(base[j]);
            }
            assert forall|f: nat|
                f >= u0 implies abs_of(*state, t) == search_visit(g, c, p, st_entry, f) by {
                assert(search_neighbors(g, c, p, num as int, abs_of(*state, t), f)
                    == search_visit(g, c, p, st_entry, f));
                assert(search_neighbors(g, c, p, num as int, abs_of(*state, t), f)
                    == abs_of(*state, t));
            }
        }
        t
    }

    /// Runs the DFS low-link bridge search over the whole graph as a forest:
    /// every unvisited node in the graph becomes a new root, with the
    /// discovery clock carried across roots. The result equals `bridges_spec`
    /// of this graph — the low-link search as a mathematical function, so the
    /// reported bridges and their order are pinned by the graph alone — and
    /// every returned bridge passes the validity filter against this graph.
    #[verifier::loop_isolation(false)]
    pub fn find_bridges(&self) -> (r: Vec<Bridge>)
        requires
            self.wf(),
        ensures
            forall|i: int|
                0 <= i < r@.len() ==> self.valid_bridge_spec(
                    (#[trigger] r@[i])@.0,
                    r@[i]@.1,
                ),
            r@.len() == bridges_spec(*self).len(),
            forall|i: int| 0 <= i < r@.len() ==> (#[trigger] r@[i])@ == bridges_spec(*self)[i],
    {
        let ghost g = *self;
        let n = self.keys.len();
        let mut key_refs: Vec<&Node> = Vec::new();
        let mut i: usize = 0;
        while i < n
            invariant
                0 <= i <= n,
                n == self.n(),
                key_refs@.len() == i,
            decreases n - i,
        {
            key_refs.push(&self.keys[i]);
            i += 1;
        }
        let mut state = BridgeFinderState::new(key_refs);
        let mut t: usize = 0;
        let mut i: usize = 0;
        proof {
            assert(count_trues(state.visited@, 0) == 0);
            assert forall|k: int| 0 <= k <= self.n() implies count_trues(state.visited@, k)
                == 0 by {
                lemma_count_trues_le(state.visited@, k);
                if count_trues(state.visited@, k) > 0 {
                    lemma_count_zero_all_false(state.visited@, k);
                }
            }
            assert(abs_of(state, 0).visited =~= initial_search_state(g).visited);
            assert(abs_of(state, 0).low =~= initial_search_state(g).low);
            assert(abs_of(state, 0).discovery =~= initial_search_state(g).discovery);
            assert(abs_of(state, 0).bridges =~= initial_search_state(g).bridges);
            assert(abs_of(state, 0) == initial_search_state(g));
        }
        while i < n
            invariant
                0 <= i <= n,
                n == self.n(),
                state.wf(self.n()),
                t == count_trues(state.visited@, self.n()),
                forall|k: int|
                    0 <= k < state.bridges@.len() ==> self.valid_bridge_spec(
                        (#[trigger] state.bridges@[k])@.0,
                        state.bridges@[k]@.1,
                    ),
                search_forest(g, i as int, abs_of(state, t)) == search_forest(
                    g,
                    0,
                    initial_search_state(g),
                ),
            decreases n - i,
        {
            let ghost it_state = state;
            let ghost it_t = t;
            if self.in_graph[i] {
                if !state.visited[i] {
                    proof {
                        lemma_count_trues_le(state.visited@, self.n());
                    }
                    t = self.dfs(i, i, t, &mut state);
                    proof {
                        assert((g.n() + 1) as nat >= g.n() - count_trues(
                            it_state.visited@,
                            g.n(),
                        ));
                        assert(abs_of(state, t) == search_visit(
                            g,
                            i as int,
                            i as int,
                            abs_of(it_state, it_t),
                            (g.n() + 1) as nat,
                        ));
                        assert(search_forest(g, i as int, abs_of(it_state, it_t))
                            == search_forest(g, i as int + 1, abs_of(state, t)));
                    }
                } else {
                    proof {
                        assert(search_forest(g, i as int, abs_of(it_state, it_t))
                            == search_forest(g, i as int + 1, abs_of(state, t)));
                    }
                }
            } else {
                proof {
                    assert(search_forest(g, i as int, abs_of(it_state, it_t)) == search_forest(
                        g,
                        i as int + 1,
                        abs_of(state, t),
                    ));
                }
            }
            i += 1;
        }
        proof {
            assert(search_forest(g, n as int, abs_of(state, t)) == abs_of(state, t));
            assert(abs_of(state, t).bridges == bridges_spec(g));
        }
        state.bridges
    }
}

/// A window with a positive count holds a set mark.
proof fn lemma_count_zero_all_false(s: Seq<bool>, k: int)
    requires
        0 <= k <= s.len(),
        count_trues(s, k) > 0,
    ensures
        exists|i: int| 0 <= i < k && s[i],
    decreases k,
{
    if k > 0 {
        if s[k - 1] {
        } else {
            lemma_count_zero_all_false(s, k - 1);
        }
    }
}


impl Graph {
    /// Whether the directed storage currently describes an undirected
    /// relation: every ordered pair carries the same weight as its reverse.
    pub open spec fn undirected(self) -> bool {
        forall|u: NodeV, v: NodeV| #[trigger] self.weight(u, v) == self.weight(v, u)
    }
}

/// A graph with no keys is undirected: no pair carries any weight.
pub proof fn lemma_empty_undirected(g: Graph)
    requires
        g.n() == 0,
    ensures
        g.undirected(),
{
    assert forall|u: NodeV, v: NodeV| #[trigger] g.weight(u, v) == g.weight(v, u) by {
        assert(!g.has_key(u));
        assert(!g.has_key(v));
    }
}

/// Clique construction keeps the undirected symmetry invariant: the
/// contribution of a group to an ordered pair equals its contribution to the
/// reversed pair.
pub proof fn lemma_clique_preserves_undirected(pre: Graph, post: Graph, group: Seq<NodeV>)
    requires
        pre.undirected(),
        forall|u: NodeV, v: NodeV|
            u != v ==> post.weight(u, v) == pre.weight(u, v) + count_of(group, u) * count_of(
                group,
                v,
            ),
        forall|u: NodeV| post.weight(u, u) == pre.weight(u, u),
    ensures
        post.undirected(),
{
    assert forall|u: NodeV, v: NodeV| #[trigger] post.weight(u, v) == post.weight(v, u) by {
        if u != v {
            assert(pre.weight(u, v) == pre.weight(v, u));
        }
    }
}

/// Removing an edge and then its symmetric counterpart keeps the undirected
/// symmetry invariant.
pub proof fn lemma_remove_pair_preserves_undirected(
    g0: Graph,
    g1: Graph,
    g2: Graph,
    a: NodeV,
    b: NodeV,
)
    requires
        g0.undirected(),
        g1.weight(a, b) == 0,
        forall|u: NodeV, v: NodeV|
            !(u == a && v == b) ==> g1.weight(u, v) == g0.weight(u, v),
        g2.weight(b, a) == 0,
        forall|u: NodeV, v: NodeV|
            !(u == b && v == a) ==> g2.weight(u, v) == g1.weight(u, v),
    ensures
        g2.undirected(),
{
    assert forall|u: NodeV, v: NodeV| #[trigger] g2.weight(u, v) == g2.weight(v, u) by {
        if (u == a && v == b) || (u == b && v == a) {
            if a == b {
            } else {
                assert(g2.weight(a, b) == g1.weight(a, b));
            }
        } else {
            assert(g2.weight(u, v) == g0.weight(u, v));
            assert(g2.weight(v, u) == g0.weight(v, u));
            assert(g0.weight(u, v) == g0.weight(v, u));
        }
    }
}

/// Building the same clique twice moves every ordered pair's weight by
/// exactly twice what building it once does, and moves no other pair.
pub proof fn lemma_clique_idempotent(g0: Graph, g1: Graph, g2: Graph, group: Seq<NodeV>)
    requires
        forall|u: NodeV, v: NodeV|
            u != v ==> g1.weight(u, v) == g0.weight(u, v) + count_of(group, u) * count_of(
                group,
                v,
            ),
        forall|u: NodeV, v: NodeV|
            u != v ==> g2.weight(u, v) == g1.weight(u, v) + count_of(group, u) * count_of(
                group,
                v,
            ),
    ensures
        forall|u: NodeV, v: NodeV|
            u != v ==> g2.weight(u, v) - g0.weight(u, v) == 2 * (g1.weight(u, v) - g0.weight(
                u,
                v,
            )),
        forall|u: NodeV, v: NodeV|
            u != v && (count_of(group, u) == 0 || count_of(group, v) == 0) ==> g2.weight(u, v)
                == g0.weight(u, v) && g1.weight(u, v) == g0.weight(u, v),
{
}

/// The root that following the parent chain from a key index reaches,
/// without any compression.
pub open spec fn chain_root(g: Graph, i: int) -> int
    decreases g.dist_bound@ - g.dist_of(i)
        when g.wf() && 0 <= i < g.n()
{
    if g.pnt(i) == i {
        i
    } else {
        chain_root(g, g.pnt(i))
    }
}

/// Whether `j` lies on the parent chain from `i` (inclusive of both ends).
pub open spec fn on_chain(g: Graph, i: int, j: int) -> bool
    decreases g.dist_bound@ - g.dist_of(i)
        when g.wf() && 0 <= i < g.n()
{
    i == j || (g.pnt(i) != i && on_chain(g, g.pnt(i), j))
}

/// Parent chains compose: what lies on the chain from a chain member lies on
/// the whole chain.
pub proof fn lemma_on_chain_trans(g: Graph, a: int, b: int, c: int)
    requires
        g.wf(),
        0 <= a < g.n(),
        0 <= b < g.n(),
        on_chain(g, a, b),
        on_chain(g, b, c),
    ensures
        on_chain(g, a, c),
    decreases g.dist_bound@ - g.dist_of(a),
{
    if a == b {
    } else {
        lemma_on_chain_trans(g, g.pnt(a), b, c);
    }
}

/// The acyclicity measure never falls along a parent chain.
pub proof fn lemma_on_chain_dist(g: Graph, a: int, b: int)
    requires
        g.wf(),
        0 <= a < g.n(),
        on_chain(g, a, b),
    ensures
        g.dist_of(b) >= g.dist_of(a),
    decreases g.dist_bound@ - g.dist_of(a),
{
    if a == b {
    } else {
        lemma_on_chain_dist(g, g.pnt(a), b);
    }
}

/// Path compression never changes which root a node resolves to: in any
/// well-formed state, following the uncompressed parent chain from a node
/// reaches exactly the root that `find` reports for it.
pub proof fn lemma_chain_root_is_rep(g: Graph, i: int)
    requires
        g.wf(),
        0 <= i < g.n(),
    ensures
        chain_root(g, i) == g.rep_of(i),
    decreases g.dist_bound@ - g.dist_of(i),
{
    if g.pnt(i) == i {
    } else {
        lemma_chain_root_is_rep(g, g.pnt(i));
    }
}

} // verus!
