//! The dependency graph, kept in a petgraph `GraphMap`.

use vstd::prelude::*;
use petgraph::graphmap::GraphMap;
use petgraph::Directed;
use std::hash::BuildHasher;

verus! {

#[verifier::external_type_specification]
#[verifier::external_body]
#[verifier::reject_recursive_types(N)]
#[verifier::reject_recursive_types(E)]
#[verifier::reject_recursive_types(Ty)]
#[verifier::reject_recursive_types(S)]
pub struct ExGraphMap<N, E, Ty, S>(GraphMap<N, E, Ty, S>) where S: BuildHasher;

#[verifier::external_type_specification]
#[verifier::external_body]
pub struct ExDirected(Directed);

/// The dependency graph: node `i` is the cell with handle `i`; an edge
/// `a -> b` says that the formula at `a` counts cell `b`.
pub type DepGraph = GraphMap<u32, (), Directed>;

/// The nodes that a dependency graph holds.
pub uninterp spec fn graph_nodes(g: DepGraph) -> Set<u32>;

/// The directed edges that a dependency graph holds; `GraphMap` keeps at
/// most one edge per ordered pair.
pub uninterp spec fn graph_edges(g: DepGraph) -> Set<(u32, u32)>;

/// A walk of at least one edge that returns to `n`.
pub open spec fn on_cycle(edges: Set<(u32, u32)>, n: u32) -> bool {
    exists|p: Seq<u32>|
        #![trigger p.len(), p[0]]
        p.len() >= 2 && p[0] == n && p.last() == n && forall|i: int|
            0 <= i < p.len() - 1 ==> #[trigger] edges.contains((p[i], p[i + 1]))
}

/// Relies on `GraphMap::new`: an empty graph.
#[verifier::external_body]
pub(crate) fn graph_new() -> (r: DepGraph)
    ensures
        graph_nodes(r) == Set::<u32>::empty(),
        graph_edges(r) == Set::<(u32, u32)>::empty(),
{
    GraphMap::new()
}

/// Relies on `GraphMap::add_node`: inserts `n` as a node, edges untouched.
#[verifier::external_body]
pub(crate) fn graph_add_node(g: &mut DepGraph, n: u32)
    ensures
        graph_nodes(*final(g)) == graph_nodes(*old(g)).insert(n),
        graph_edges(*final(g)) == graph_edges(*old(g)),
{
    g.add_node(n);
}

/// Relies on `GraphMap::add_edge`: inserts the edge `a -> b` (and its ends as
/// nodes); an edge already present stays single.
#[verifier::external_body]
pub(crate) fn graph_add_edge(g: &mut DepGraph, a: u32, b: u32)
    ensures
        graph_nodes(*final(g)) == graph_nodes(*old(g)).insert(a).insert(b),
        graph_edges(*final(g)) == graph_edges(*old(g)).insert((a, b)),
{
    g.add_edge(a, b, ());
}

/// Relies on `GraphMap::remove_edge`: removes the edge `a -> b`, nodes untouched.
#[verifier::external_body]
pub(crate) fn graph_remove_edge(g: &mut DepGraph, a: u32, b: u32)
    ensures
        graph_nodes(*final(g)) == graph_nodes(*old(g)),
        graph_edges(*final(g)) == graph_edges(*old(g)).remove((a, b)),
{
    g.remove_edge(a, b);
}

/// Relies on `GraphMap::neighbors_directed`: the nodes at the other end of
/// the edges leaving `a` (or, with `incoming`, entering `a`), each once.
#[verifier::external_body]
pub(crate) fn graph_neighbors(g: &DepGraph, a: u32, incoming: bool) -> (r: Vec<u32>)
    ensures
        r@.no_duplicates(),
        forall|x: u32|
            r@.contains(x) <==> graph_edges(*g).contains(if incoming { (x, a) } else { (a, x) }),
{
    let dir = if incoming { petgraph::Direction::Incoming } else { petgraph::Direction::Outgoing };
    g.neighbors_directed(a, dir).collect()
}

/// Relies on `petgraph::algo::toposort`: either every node once, each before
/// its successors, or (through `Cycle::node_id`) a node that lies on a cycle.
#[verifier::external_body]
pub(crate) fn graph_toposort(g: &DepGraph) -> (r: Result<Vec<u32>, u32>)
    ensures
        r matches Ok(order) ==> {
            &&& order@.no_duplicates()
            &&& forall|x: u32| order@.contains(x) <==> graph_nodes(*g).contains(x)
            &&& forall|i: int, j: int|
                0 <= i < order@.len() && 0 <= j < order@.len() && graph_edges(*g).contains(
                    (#[trigger] order@[i], #[trigger] order@[j]),
                ) ==> i < j
        },
        r matches Err(n) ==> graph_nodes(*g).contains(n) && on_cycle(graph_edges(*g), n),
{
    match petgraph::algo::toposort(g, None) {
        Ok(order) => Ok(order),
        Err(cycle) => Err(cycle.node_id()),
    }
}

} // verus!
