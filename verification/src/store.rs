//! The directed graph of `petgraph`, with `usize` node weights and `u8` edge weights.
//!
//! Nodes and edges are numbered from zero in the order in which they were added. The two names
//! below stand for what a graph holds; everything else about it is stated through them.
use petgraph::graph::node_index;
use petgraph::graph::Graph as PetGraph;
use petgraph::visit::Walker;
use vstd::prelude::*;

use crate::reach::reaches;

verus! {

/// The graph type of `petgraph`, opaque here.
#[verifier::external_type_specification]
#[verifier::external_body]
#[verifier::reject_recursive_types(N)]
#[verifier::reject_recursive_types(E)]
#[verifier::reject_recursive_types(Ty)]
#[verifier::reject_recursive_types(Ix)]
pub struct ExGraph<N, E, Ty, Ix>(PetGraph<N, E, Ty, Ix>);

/// The marker that `petgraph` gives to directed graphs.
#[verifier::external_type_specification]
#[verifier::external_body]
pub struct ExDirected(petgraph::Directed);

/// The graphs that this library keeps.
pub type Store = PetGraph<usize, u8>;

/// The weights of a graph's nodes, in node order.
pub uninterp spec fn store_nodes(store: PetGraph<usize, u8>) -> Seq<usize>;

/// A graph's edges, in edge order: the node that each leaves, the node that it enters, its weight.
pub uninterp spec fn store_edges(store: PetGraph<usize, u8>) -> Seq<(usize, usize, u8)>;

/// Which way the edges at a node are followed.
#[derive(Clone, Copy, Debug, PartialEq, Eq, Structural)]
pub enum Direction {
    /// From a node along the edges that leave it.
    Outgoing,
    /// From a node against the edges that enter it.
    Incoming,
}

/// The end of an edge at which one stands when following it in a direction.
pub open spec fn near_end<A, W>(edge: (A, A, W), direction: Direction) -> A {
    match direction {
        Direction::Outgoing => edge.0,
        Direction::Incoming => edge.1,
    }
}

/// The end of an edge that one gets to when following it in a direction.
pub open spec fn far_end<A, W>(edge: (A, A, W), direction: Direction) -> A {
    match direction {
        Direction::Outgoing => edge.1,
        Direction::Incoming => edge.0,
    }
}

/// The far ends of the edges at a node, the edge that was added last coming first.
pub open spec fn neighbors<A, W>(
    edges: Seq<(A, A, W)>,
    node: A,
    direction: Direction,
) -> Seq<A>
    decreases edges.len(),
{
    if edges.len() == 0 {
        Seq::empty()
    } else {
        let rest = neighbors(edges.drop_last(), node, direction);
        if near_end(edges.last(), direction) == node {
            seq![far_end(edges.last(), direction)] + rest
        } else {
            rest
        }
    }
}

/// Some edge leads from `a` to `b`.
pub open spec fn has_edge<A, W>(edges: Seq<(A, A, W)>, a: A, b: A) -> bool {
    exists|i: int| 0 <= i < edges.len() && (#[trigger] edges[i]).0 == a && edges[i].1 == b
}

/// `has_edge` as a relation.
pub open spec fn edge_step<A, W>(edges: Seq<(A, A, W)>) -> spec_fn(A, A) -> bool {
    |a: A, b: A| has_edge(edges, a, b)
}

/// `petgraph::Graph::new`: the graph without nodes and edges.
#[verifier::external_body]
pub(crate) fn new_store() -> (store: Store)
    ensures
        store_nodes(store) == Seq::<usize>::empty(),
        store_edges(store) == Seq::<(usize, usize, u8)>::empty(),
{
    PetGraph::new()
}

/// `petgraph::Graph::add_node`: appends a node and returns its number. It panics where the new
/// number would be `u32::MAX`.
#[verifier::external_body]
pub(crate) fn add_node(store: &mut Store, weight: usize) -> (node: usize)
    requires
        store_nodes(*old(store)).len() < u32::MAX,
    ensures
        node == store_nodes(*old(store)).len(),
        store_nodes(*final(store)) == store_nodes(*old(store)).push(weight),
        store_edges(*final(store)) == store_edges(*old(store)),
{
    store.add_node(weight).index()
}

/// `petgraph::Graph::add_edge`: appends an edge, also beside an equal one. It panics where one of
/// the nodes does not exist, and where the new edge's number would be `u32::MAX`.
#[verifier::external_body]
pub(crate) fn add_edge(store: &mut Store, from: usize, to: usize, weight: u8)
    requires
        from < store_nodes(*old(store)).len(),
        to < store_nodes(*old(store)).len(),
        store_edges(*old(store)).len() < u32::MAX,
    ensures
        store_nodes(*final(store)) == store_nodes(*old(store)),
        store_edges(*final(store)) == store_edges(*old(store)).push((from, to, weight)),
{
    store.add_edge(node_index(from), node_index(to), weight);
}

/// `petgraph::Graph::node_weight`: the weight of an existing node.
#[verifier::external_body]
pub(crate) fn node_weight(store: &Store, node: usize) -> (weight: Option<usize>)
    requires
        node < store_nodes(*store).len(),
    ensures
        weight == Some(store_nodes(*store)[node as int]),
{
    store.node_weight(node_index(node)).copied()
}

/// `petgraph::Graph::neighbors_directed` on an existing node: each edge at the node gives its far
/// end once, and the edge that was added last comes first.
#[verifier::external_body]
pub(crate) fn neighbors_directed(store: &Store, node: usize, direction: Direction) -> (nodes: Vec<
    usize,
>)
    requires
        node < store_nodes(*store).len(),
    ensures
        nodes@ == neighbors(store_edges(*store), node, direction),
{
    let direction = match direction {
        Direction::Outgoing => petgraph::Direction::Outgoing,
        Direction::Incoming => petgraph::Direction::Incoming,
    };
    store.neighbors_directed(node_index(node), direction).map(|n| n.index()).collect()
}

/// `petgraph::Graph::reverse`: turns every edge round and keeps their order.
#[verifier::external_body]
pub(crate) fn reverse(store: &mut Store)
    ensures
        store_nodes(*final(store)) == store_nodes(*old(store)),
        store_edges(*final(store)) == store_edges(*old(store)).map_values(
            |edge: (usize, usize, u8)| (edge.1, edge.0, edge.2),
        ),
{
    store.reverse();
}

/// `petgraph::visit::Bfs`, walked to its end from an existing node: the nodes that edges lead to
/// from there, each once, and the start first. The order of the others is left unsaid.
#[verifier::external_body]
pub(crate) fn breadth_first(store: &Store, start: usize) -> (nodes: Vec<usize>)
    requires
        start < store_nodes(*store).len(),
    ensures
        nodes@.no_duplicates(),
        nodes@.len() > 0 && nodes@[0] == start,
        forall|node: usize| #[trigger]
            nodes@.contains(node) <==> reaches(edge_step(store_edges(*store)), start, node),
{
    petgraph::visit::Bfs::new(store, node_index(start)).iter(store).map(|n| n.index()).collect()
}

} // verus!
