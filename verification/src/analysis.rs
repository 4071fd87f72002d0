//! The graph of what is made from what.
//!
//! The graph itself comes from the `petgraph` crate. What is stated of it
//! here is taken on trust from that crate's source; the bookkeeping around
//! it is proved from these statements.

use petgraph::graphmap::GraphMap;
use petgraph::Directed;
use std::collections::hash_map::RandomState;
use std::collections::HashMap;
use std::hash::BuildHasher;
use vstd::prelude::*;

verus! {

broadcast use vstd::std_specs::hash::group_hash_axioms;

/// `petgraph::Directed`, the mark of a graph whose edges have a direction.
#[verifier::external_type_specification]
#[verifier::external_body]
pub struct ExDirected(Directed);

/// `petgraph::graphmap::GraphMap`, as a type that verified code can hold
/// and hand on. Nothing is known of what a graph holds but what is stated
/// over `graph_nodes` and `graph_out`.
#[verifier::external_type_specification]
#[verifier::external_body]
#[verifier::reject_recursive_types(N)]
#[verifier::reject_recursive_types(E)]
#[verifier::reject_recursive_types(Ty)]
#[verifier::reject_recursive_types(S)]
pub struct ExGraphMap<N, E, Ty, S: BuildHasher>(GraphMap<N, E, Ty, S>);

/// The nodes of the graph, in its iteration order: the order in which they
/// were first added.
pub uninterp spec fn graph_nodes(g: &GraphMap<u64, u32, Directed, RandomState>) -> Seq<u64>;

/// The edges that leave the node `a`, each as its target and its weight, in
/// the order in which the graph lists them: the order in which they were
/// first added. A node that is not in the graph has none.
pub uninterp spec fn graph_out(g: &GraphMap<u64, u32, Directed, RandomState>, a: u64) -> Seq<
    (u64, u32),
>;

/// `nodes` with `n` as their last, if it is not among them.
pub open spec fn with_node(nodes: Seq<u64>, n: u64) -> Seq<u64> {
    if nodes.contains(n) {
        nodes
    } else {
        nodes.push(n)
    }
}

/// Where an edge to `b` stands among `out`, if there is one.
pub open spec fn edge_to(out: Seq<(u64, u32)>, b: u64) -> Option<int> {
    if exists|i: int| 0 <= i < out.len() && (#[trigger] out[i]).0 == b {
        Some(choose|i: int| 0 <= i < out.len() && (#[trigger] out[i]).0 == b)
    } else {
        None
    }
}

/// Whether no two of the edges `out` have the same target.
pub open spec fn distinct_targets(out: Seq<(u64, u32)>) -> bool {
    forall|i: int, j: int|
        0 <= i < j < out.len() ==> (#[trigger] out[i]).0 != (#[trigger] out[j]).0
}

/// `GraphMap::new`: a graph without nodes or edges.
#[verifier::external_body]
fn graph_new() -> (g: GraphMap<u64, u32, Directed, RandomState>)
    ensures
        graph_nodes(&g).len() == 0,
        forall|a: u64| (#[trigger] graph_out(&g, a)).len() == 0,
{
    GraphMap::new()
}

/// `GraphMap::add_edge`: an edge from `a` to `b` that is there gets the
/// new weight, and the old one is returned. Else the edge is added, last
/// among the edges that leave `a`, and `a` and `b` are added to the nodes,
/// in that order, so far as they are not there.
#[verifier::external_body]
fn graph_add_edge(g: &mut GraphMap<u64, u32, Directed, RandomState>, a: u64, b: u64, weight: u32) -> (r:
    Option<u32>)
    ensures
        forall|x: u64| x != a ==> #[trigger] graph_out(final(g), x) == graph_out(old(g), x),
        match r {
            Some(prev) => exists|i: int|
                0 <= i < graph_out(old(g), a).len() && #[trigger] graph_out(old(g), a)[i]
                    == (b, prev)
                    && graph_out(final(g), a) == graph_out(old(g), a).update(i, (b, weight))
                    && graph_nodes(final(g)) == graph_nodes(old(g)),
            None => edge_to(graph_out(old(g), a), b) is None && graph_out(final(g), a) == graph_out(
                old(g),
                a,
            ).push((b, weight)) && graph_nodes(final(g)) == with_node(
                with_node(graph_nodes(old(g)), a),
                b,
            ),
        },
{
    g.add_edge(a, b, weight)
}

/// `GraphMap::nodes`: the nodes, in their order.
#[verifier::external_body]
fn graph_node_list(g: &GraphMap<u64, u32, Directed, RandomState>) -> (r: Vec<u64>)
    ensures
        r@ == graph_nodes(g),
{
    g.nodes().collect()
}

/// `GraphMap::edges`: the edges that leave `a`, in their order, each as its
/// target and its weight.
#[verifier::external_body]
fn graph_out_list(g: &GraphMap<u64, u32, Directed, RandomState>, a: u64) -> (r: Vec<(u64, u32)>)
    ensures
        r@ == graph_out(g, a),
{
    g.edges(a).map(|(_, b, w)| (b, *w)).collect()
}

/// A node of the resource graph: a thing that is made, or made from.
#[derive(Debug, Clone, Copy, PartialEq, Eq, Hash, Structural)]
pub struct GraphNode(pub u64);

/// One line of the graph: what a node is called, and what is taken to make
/// it, each with its weight and its name.
pub struct GraphRow {
    /// The name of the node.
    pub name: String,
    /// The weight and the name of each thing that the node is made from.
    pub takes: Vec<(u32, String)>,
}

/// Resource dependency graph: what each thing is made from, and how much of
/// it. A weight is kept as the number that stands for it.
pub struct ResourceGraph {
    name_map: HashMap<u64, String>,
    graph: GraphMap<u64, u32, Directed, RandomState>,
}

impl ResourceGraph {
    /// The names of the nodes that were added.
    pub closed spec fn names(&self) -> Map<u64, String> {
        self.name_map@
    }

    /// The nodes that have an edge, in the order in which they got one.
    pub closed spec fn nodes(&self) -> Seq<u64> {
        graph_nodes(&self.graph)
    }

    /// The edges that leave `node`, each as its target and its weight, in
    /// the order in which they were added.
    pub closed spec fn out(&self, node: u64) -> Seq<(u64, u32)> {
        graph_out(&self.graph, node)
    }

    /// Every node that has an edge, and every target of an edge, has a
    /// name, and no two edges that leave a node have the same target.
    pub open spec fn wf(&self) -> bool {
        &&& forall|i: int|
            0 <= i < self.nodes().len() ==> self.names().contains_key(#[trigger] self.nodes()[i])
        &&& forall|a: u64, j: int|
            0 <= j < self.out(a).len() ==> self.names().contains_key((#[trigger] self.out(a)[j]).0)
        &&& forall|a: u64| distinct_targets(#[trigger] self.out(a))
    }

    /// A graph without nodes.
    pub fn new() -> (r: Self)
        ensures
            r.wf(),
            r.names() == Map::<u64, String>::empty(),
            r.nodes().len() == 0,
            forall|a: u64| (#[trigger] r.out(a)).len() == 0,
    {
        ResourceGraph { name_map: HashMap::new(), graph: graph_new() }
    }

    /// Adds the node to the graph under the name `name`, and returns it if
    /// that was the first time the node was added. A node that is there
    /// keeps its name.
    pub fn add_node(&mut self, node: GraphNode, name: String) -> (r: Option<GraphNode>)
        requires
            old(self).wf(),
        ensures
            final(self).wf(),
            final(self).nodes() == old(self).nodes(),
            forall|a: u64| #[trigger] final(self).out(a) == old(self).out(a),
            match r {
                Some(n) => n == node && !old(self).names().contains_key(node.0)
                    && final(self).names() == old(self).names().insert(node.0, name),
                None => old(self).names().contains_key(node.0) && final(self).names() == old(
                    self,
                ).names(),
            },
    {
        if self.name_map.contains_key(&node.0) {
            None
        } else {
            let _ = self.name_map.insert(node.0, name);
            proof {
                assert forall|i: int| 0 <= i < self.nodes().len() implies self.names().contains_key(
                    #[trigger] self.nodes()[i],
                ) by {
                    assert(old(self).names().contains_key(old(self).nodes()[i]));
                }
                assert forall|a: u64, j: int|
                    0 <= j < self.out(a).len() implies self.names().contains_key(
                    (#[trigger] self.out(a)[j]).0,
                ) by {
                    assert(old(self).names().contains_key(old(self).out(a)[j].0));
                }
                assert forall|a: u64| distinct_targets(#[trigger] self.out(a)) by {
                    assert(distinct_targets(old(self).out(a)));
                }
            }
            Some(node)
        }
    }

    /// Adds an edge from `start` to `to` with the given weight, or gives
    /// the edge that is there the new weight.
    pub fn add_edge_to(&mut self, start: GraphNode, to: GraphNode, weight: u32)
        requires
            old(self).wf(),
            old(self).names().contains_key(start.0),
            old(self).names().contains_key(to.0),
        ensures
            final(self).wf(),
            final(self).names() == old(self).names(),
            forall|x: u64| x != start.0 ==> #[trigger] final(self).out(x) == old(self).out(x),
            match edge_to(old(self).out(start.0), to.0) {
                Some(i) => final(self).out(start.0) == old(self).out(start.0).update(
                    i,
                    (to.0, weight),
                ) && final(self).nodes() == old(self).nodes(),
                None => final(self).out(start.0) == old(self).out(start.0).push((to.0, weight))
                    && final(self).nodes() == with_node(
                    with_node(old(self).nodes(), start.0),
                    to.0,
                ),
            },
    {
        let prev = graph_add_edge(&mut self.graph, start.0, to.0, weight);
        proof {
            let before = old(self).out(start.0);
            let after = self.out(start.0);
            assert(distinct_targets(before));
            if let Some(p) = prev {
                let i = choose|i: int|
                    0 <= i < before.len() && #[trigger] before[i] == (to.0, p) && after
                        == before.update(i, (to.0, weight));
                assert(before[i].0 == to.0);
                let at = edge_to(before, to.0)->0;
                assert(before[at].0 == to.0);
                if at < i {
                    assert(before[at].0 != before[i].0);
                } else if i < at {
                    assert(before[i].0 != before[at].0);
                }
                assert forall|x: int, y: int| 0 <= x < y < after.len()
                    implies (#[trigger] after[x]).0
                    != (#[trigger] after[y]).0 by {
                    assert(after[x].0 == before[x].0);
                    assert(after[y].0 == before[y].0);
                }
            } else {
                assert forall|x: int, y: int| 0 <= x < y < after.len()
                    implies (#[trigger] after[x]).0
                    != (#[trigger] after[y]).0 by {
                    assert(after[x] == before[x]);
                    if y < before.len() {
                        assert(after[y] == before[y]);
                    } else {
                        assert(before[x].0 != to.0);
                    }
                }
            }
            assert forall|a: u64| distinct_targets(#[trigger] self.out(a)) by {
                if a != start.0 {
                    assert(self.out(a) == old(self).out(a));
                    assert(distinct_targets(old(self).out(a)));
                }
            }
            assert forall|k: int| 0 <= k < self.nodes().len() implies self.names().contains_key(
                #[trigger] self.nodes()[k],
            ) by {
                let n = self.nodes()[k];
                if k < old(self).nodes().len() {
                    assert(n == old(self).nodes()[k]);
                }
            }
            assert forall|a: u64, j: int| 0 <= j < self.out(a).len()
                implies self.names().contains_key(
                (#[trigger] self.out(a)[j]).0,
            ) by {
                if a != start.0 {
                    assert(self.out(a) == old(self).out(a));
                    assert(old(self).names().contains_key(old(self).out(a)[j].0));
                } else if j < before.len() {
                    if after[j] != before[j] {
                        assert(after[j].0 == to.0);
                    } else {
                        assert(old(self).names().contains_key(old(self).out(a)[j].0));
                    }
                }
            }
        }
    }

    /// The graph line by line: for each node that has an edge, in order,
    /// its name, and the weight and the name of each thing that it takes.
    pub fn rows(&self) -> (r: Vec<GraphRow>)
        requires
            self.wf(),
        ensures
            r@.len() == self.nodes().len(),
            forall|i: int|
                0 <= i < r@.len() ==> self.is_row_of(#[trigger] r@[i], self.nodes()[i]),
    {
        let nodes = graph_node_list(&self.graph);
        let mut rows: Vec<GraphRow> = Vec::new();
        let mut i: usize = 0;
        while i < nodes.len()
            invariant
                self.wf(),
                nodes@ == self.nodes(),
                i <= nodes@.len(),
                rows@.len() == i,
                forall|k: int| 0 <= k < i ==> self.is_row_of(#[trigger] rows@[k], self.nodes()[k]),
            decreases nodes@.len() - i,
        {
            let node = nodes[i];
            let out = graph_out_list(&self.graph, node);
            let mut takes: Vec<(u32, String)> = Vec::new();
            let mut j: usize = 0;
            while j < out.len()
                invariant
                    self.wf(),
                    out@ == self.out(node),
                    j <= out@.len(),
                    takes@.len() == j,
                    forall|k: int|
                        0 <= k < j ==> (#[trigger] takes@[k]).0 == out@[k].1 && takes@[k].1
                            == self.names()[out@[k].0],
                decreases out@.len() - j,
            {
                let (target, weight) = out[j];
                assert(self.names().contains_key(self.out(node)[j as int].0));
                let name = match self.name_map.get(&target) {
                    Some(s) => s.clone(),
                    None => String::new(),
                };
                takes.push((weight, name));
                j += 1;
            }
            assert(self.names().contains_key(self.nodes()[i as int]));
            let name = match self.name_map.get(&node) {
                Some(s) => s.clone(),
                None => String::new(),
            };
            rows.push(GraphRow { name, takes });
            i += 1;
        }
        rows
    }

    /// Whether `row` is the line of `node`.
    pub open spec fn is_row_of(&self, row: GraphRow, node: u64) -> bool {
        &&& row.name == self.names()[node]
        &&& row.takes@.len() == self.out(node).len()
        &&& forall|k: int|
            0 <= k < row.takes@.len() ==> (#[trigger] row.takes@[k]).0 == self.out(node)[k].1
                && row.takes@[k].1 == self.names()[self.out(node)[k].0]
    }
}

} // verus!
