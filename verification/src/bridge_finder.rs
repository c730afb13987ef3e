//! Bookkeeping for the DFS low-link bridge search: the candidate bridge
//! record and the traversal state (visit marks, discovery times, low values,
//! collected bridges), indexed by the graph's key indices.

use vstd::prelude::*;

use crate::graph::Graph;
use crate::node::{Node, NodeV};

verus! {

/// A directed traversal edge reported as a cut edge, from the node closer to
/// the DFS root to the node whose subtree it separates.
#[derive(Debug)]
pub struct Bridge {
    pub from: Node,
    pub to: Node,
}

impl View for Bridge {
    type V = (NodeV, NodeV);

    open spec fn view(&self) -> (NodeV, NodeV) {
        (self.from@, self.to@)
    }
}

/// How many of the first `k` marks are set.
pub open spec fn count_trues(s: Seq<bool>, k: int) -> nat
    decreases k,
{
    if k <= 0 {
        0
    } else {
        count_trues(s, k - 1) + if s[k - 1] {
            1nat
        } else {
            0nat
        }
    }
}

/// Setting one unset mark raises the count of any window containing it by
/// one and leaves shorter windows unchanged.
pub proof fn lemma_count_trues_update(s: Seq<bool>, i: int, k: int)
    requires
        0 <= i < s.len(),
        !s[i],
        0 <= k <= s.len(),
    ensures
        count_trues(s.update(i, true), k) == count_trues(s, k) + if i < k {
            1nat
        } else {
            0nat
        },
    decreases k,
{
    if k > 0 {
        lemma_count_trues_update(s, i, k - 1);
    }
}

/// A count of marks never exceeds the window.
pub proof fn lemma_count_trues_le(s: Seq<bool>, k: int)
    requires
        0 <= k <= s.len(),
    ensures
        count_trues(s, k) <= k,
    decreases k,
{
    if k > 0 {
        lemma_count_trues_le(s, k - 1);
    }
}

/// A window containing an unset mark counts strictly below its length.
pub proof fn lemma_count_trues_lt(s: Seq<bool>, i: int, k: int)
    requires
        0 <= i < k <= s.len(),
        !s[i],
    ensures
        count_trues(s, k) < k,
    decreases k,
{
    if i == k - 1 {
        lemma_count_trues_le(s, k - 1);
    } else {
        lemma_count_trues_lt(s, i, k - 1);
    }
}

/// The traversal state of the bridge search, indexed by key index: visit
/// marks, discovery times, low-link values, and the bridges found so far.
pub struct BridgeFinderState {
    pub visited: Vec<bool>,
    pub low: Vec<usize>,
    pub discovery: Vec<usize>,
    pub bridges: Vec<Bridge>,
}

impl BridgeFinderState {
    /// The arrays cover one slot per node.
    pub open spec fn wf(self, n: int) -> bool {
        self.visited@.len() == n && self.low@.len() == n && self.discovery@.len() == n
    }

    /// Fresh state sized for the given nodes: nothing visited, no bridges.
    pub fn new(nodes: Vec<&Node>) -> (r: BridgeFinderState)
        ensures
            r.wf(nodes@.len() as int),
            forall|i: int| 0 <= i < nodes@.len() ==> !(#[trigger] r.visited@[i]),
            forall|i: int| 0 <= i < nodes@.len() ==> (#[trigger] r.low@[i]) == 0,
            forall|i: int| 0 <= i < nodes@.len() ==> (#[trigger] r.discovery@[i]) == 0,
            r.bridges@.len() == 0,
    {
        let num_nodes = nodes.len();
        let mut visited: Vec<bool> = Vec::new();
        let mut low: Vec<usize> = Vec::new();
        let mut discovery: Vec<usize> = Vec::new();
        let mut i: usize = 0;
        while i < num_nodes
            invariant
                0 <= i <= num_nodes,
                visited@.len() == i,
                low@.len() == i,
                discovery@.len() == i,
                forall|j: int| 0 <= j < i ==> !(#[trigger] visited@[j]),
                forall|j: int| 0 <= j < i ==> (#[trigger] low@[j]) == 0,
                forall|j: int| 0 <= j < i ==> (#[trigger] discovery@[j]) == 0,
            decreases num_nodes - i,
        {
            visited.push(false);
            low.push(0);
            discovery.push(0);
            i += 1;
        }
        BridgeFinderState { visited, low, discovery, bridges: Vec::new() }
    }
}


/// The mathematical value of the traversal state: visit marks, low-link
/// values and discovery times per key index, the bridges found so far, and
/// the discovery clock.
pub struct SearchState {
    pub visited: Seq<bool>,
    pub low: Seq<int>,
    pub discovery: Seq<int>,
    pub bridges: Seq<(NodeV, NodeV)>,
    pub time: int,
}

/// The mathematical value of an executable traversal state and clock.
pub open spec fn abs_of(s: BridgeFinderState, t: usize) -> SearchState {
    SearchState {
        visited: s.visited@,
        low: Seq::new(s.low@.len(), |i: int| s.low@[i] as int),
        discovery: Seq::new(s.discovery@.len(), |i: int| s.discovery@[i] as int),
        bridges: Seq::new(s.bridges@.len(), |i: int| s.bridges@[i]@),
        time: t as int,
    }
}

/// One DFS visit of the low-link search, as a mathematical function: marks
/// the node, stamps its discovery time and initial low value, advances the
/// clock, and walks its neighbors. `fuel` bounds the recursion depth; the
/// executable search is proved to match this function at every fuel value at
/// least the number of unvisited nodes.
pub open spec fn search_visit(g: Graph, current: int, parent: int, st: SearchState, fuel: nat)
    -> SearchState
    decreases fuel, 1int, 0int,
{
    let st1 = SearchState {
        visited: st.visited.update(current, true),
        discovery: st.discovery.update(current, st.time),
        low: st.low.update(current, st.time),
        bridges: st.bridges,
        time: st.time + 1,
    };
    search_neighbors(g, current, parent, 0, st1, fuel)
}

/// The walk over `current`'s neighbors from position `k` on: the tree-parent
/// entry is skipped; a visited neighbor lowers `low[current]` to its
/// discovery time; an unvisited neighbor is visited recursively, lowers
/// `low[current]` to its low value, and becomes a bridge `(current, next)`
/// exactly when `low[next] > discovery[current]` and the pair passes the
/// validity filter.
pub open spec fn search_neighbors(
    g: Graph,
    current: int,
    parent: int,
    k: int,
    st: SearchState,
    fuel: nat,
) -> SearchState
    decreases fuel, 0int, g.adj_seq(g.key_at(current)).len() - k,
        when 0 <= k <= g.adj_seq(g.key_at(current)).len()
{
    let nbrs = g.adj_seq(g.key_at(current));
    if k >= nbrs.len() {
        st
    } else {
        let j = g.idx(nbrs[k]);
        if j == parent {
            search_neighbors(g, current, parent, k + 1, st, fuel)
        } else if st.visited[j] {
            let lowered = if st.discovery[j] < st.low[current] {
                st.discovery[j]
            } else {
                st.low[current]
            };
            let st1 = SearchState { low: st.low.update(current, lowered), ..st };
            search_neighbors(g, current, parent, k + 1, st1, fuel)
        } else if fuel == 0 {
            st
        } else {
            let st1 = search_visit(g, j, current, st, (fuel - 1) as nat);
            let lowered = if st1.low[j] < st1.low[current] {
                st1.low[j]
            } else {
                st1.low[current]
            };
            let st2 = SearchState { low: st1.low.update(current, lowered), ..st1 };
            let st3 = if st1.low[j] > st1.discovery[current] && g.valid_bridge_spec(
                g.key_at(current),
                nbrs[k],
            ) {
                SearchState { bridges: st2.bridges.push((g.key_at(current), nbrs[k])), ..st2 }
            } else {
                st2
            };
            search_neighbors(g, current, parent, k + 1, st3, fuel)
        }
    }
}

/// The whole-forest search from key index `i` on: every node in the graph
/// that is still unvisited becomes a new DFS root (its own parent), with the
/// clock carried across roots.
pub open spec fn search_forest(g: Graph, i: int, st: SearchState) -> SearchState
    decreases g.n() - i,
        when 0 <= i <= g.n()
{
    if i >= g.n() {
        st
    } else {
        let st1 = if g.in_graph_at(i) && !st.visited[i] {
            search_visit(g, i, i, st, (g.n() + 1) as nat)
        } else {
            st
        };
        search_forest(g, i + 1, st1)
    }
}

/// The traversal state before any visit: nothing visited, all times zero,
/// no bridges, the clock at zero.
pub open spec fn initial_search_state(g: Graph) -> SearchState {
    SearchState {
        visited: Seq::new(g.n() as nat, |i: int| false),
        low: Seq::new(g.n() as nat, |i: int| 0),
        discovery: Seq::new(g.n() as nat, |i: int| 0),
        bridges: Seq::empty(),
        time: 0,
    }
}

/// The bridges the DFS low-link search reports for this graph, in discovery
/// order: a function of the graph alone.
pub open spec fn bridges_spec(g: Graph) -> Seq<(NodeV, NodeV)> {
    search_forest(g, 0, initial_search_state(g)).bridges
}

} // verus!
