//! Directed graphs over numbered nodes, held in a `petgraph` graph map. The
//! functions of this module are the only ones that touch the map; what they
//! state of it is taken on trust from `petgraph`.
use petgraph::graphmap::GraphMap;
use petgraph::visit::DfsPostOrder;
use petgraph::visit::Walker;
use petgraph::Directed;
use petgraph::Direction;
use std::collections::hash_map::RandomState;
use std::hash::BuildHasher;
use vstd::prelude::*;

verus! {

/// `petgraph::graphmap::GraphMap`, taken as it is: what a graph holds is
/// known only through `graph_nodes` and `graph_edges`.
#[verifier::external_type_specification]
#[verifier::external_body]
#[verifier::reject_recursive_types(N)]
#[verifier::reject_recursive_types(E)]
#[verifier::reject_recursive_types(Ty)]
#[verifier::reject_recursive_types(S)]
pub struct ExGraphMap<N, E, Ty, S: BuildHasher>(GraphMap<N, E, Ty, S>);

/// `petgraph::Directed`, the marker of graphs whose edges have a direction.
#[verifier::external_type_specification]
#[verifier::external_body]
pub struct ExDirected(Directed);

/// A directed graph whose nodes are numbers and whose edges carry a small
/// number as their weight.
pub type Graph = GraphMap<usize, u8, Directed, RandomState>;

/// The nodes of the graph.
pub uninterp spec fn graph_nodes(g: GraphMap<usize, u8, Directed, RandomState>) -> Set<usize>;

/// The edges of the graph, each with its weight. There is at most one edge
/// from one node to another.
pub uninterp spec fn graph_edges(g: GraphMap<usize, u8, Directed, RandomState>) -> Map<
    (usize, usize),
    u8,
>;

/// The empty edge map.
pub open spec fn no_edges() -> Map<(usize, usize), u8> {
    Map::empty()
}

/// An edge joins the node at position `i` of `w` to the next.
pub open spec fn linked(edges: Set<(usize, usize)>, w: Seq<usize>, i: int) -> bool {
    edges.contains((w[i], w[i + 1]))
}

/// A walk: a non-empty sequence of nodes, each joined to the next by an edge.
pub open spec fn is_walk(edges: Set<(usize, usize)>, w: Seq<usize>) -> bool {
    &&& w.len() > 0
    &&& forall|i: int| 0 <= i < w.len() - 1 ==> #[trigger] linked(edges, w, i)
}

/// Whether some walk leads from `a` to `b`. Every node reaches itself.
pub open spec fn reaches(edges: Set<(usize, usize)>, a: usize, b: usize) -> bool {
    exists|w: Seq<usize>| is_walk(edges, w) && w.first() == a && w.last() == b
}

/// `GraphMap::new`: a graph without nodes and edges.
#[verifier::external_body]
pub(crate) fn graph_new() -> (g: Graph)
    ensures
        graph_nodes(g) == Set::<usize>::empty(),
        graph_edges(g) == no_edges(),
{
    GraphMap::new()
}

/// `GraphMap::clone`: a graph with the same nodes, edges and weights.
#[verifier::external_body]
pub(crate) fn graph_clone(g: &Graph) -> (r: Graph)
    ensures
        graph_nodes(r) == graph_nodes(*g),
        graph_edges(r) == graph_edges(*g),
{
    g.clone()
}

/// `GraphMap::add_node`: the node is added if it was not there; the edges
/// stay.
#[verifier::external_body]
pub(crate) fn graph_add_node(g: &mut Graph, n: usize)
    ensures
        graph_nodes(*final(g)) == graph_nodes(*old(g)).insert(n),
        graph_edges(*final(g)) == graph_edges(*old(g)),
{
    g.add_node(n);
}

/// `GraphMap::add_edge`: the edge from `a` to `b` is added with the given
/// weight, or gets that weight if it was there; both ends become nodes.
#[verifier::external_body]
pub(crate) fn graph_add_edge(g: &mut Graph, a: usize, b: usize, weight: u8)
    ensures
        graph_nodes(*final(g)) == graph_nodes(*old(g)).insert(a).insert(b),
        graph_edges(*final(g)) == graph_edges(*old(g)).insert((a, b), weight),
{
    g.add_edge(a, b, weight);
}

/// `GraphMap::nodes`: every node of the graph, once.
#[verifier::external_body]
pub(crate) fn graph_node_list(g: &Graph) -> (r: Vec<usize>)
    ensures
        r@.no_duplicates(),
        forall|n: usize| #[trigger] r@.contains(n) <==> graph_nodes(*g).contains(n),
{
    g.nodes().collect()
}

/// `GraphMap::neighbors_directed` with `Outgoing`: every node that an edge
/// from `a` leads to, once.
#[verifier::external_body]
pub(crate) fn graph_successors(g: &Graph, a: usize) -> (r: Vec<usize>)
    ensures
        r@.no_duplicates(),
        forall|b: usize| #[trigger] r@.contains(b) <==> graph_edges(*g).contains_key((a, b)),
{
    g.neighbors_directed(a, Direction::Outgoing).collect()
}

/// `GraphMap::neighbors_directed` with `Incoming`: every node from which an
/// edge leads to `b`, once.
#[verifier::external_body]
pub(crate) fn graph_predecessors(g: &Graph, b: usize) -> (r: Vec<usize>)
    ensures
        r@.no_duplicates(),
        forall|a: usize| #[trigger] r@.contains(a) <==> graph_edges(*g).contains_key((a, b)),
{
    g.neighbors_directed(b, Direction::Incoming).collect()
}

/// `GraphMap::edge_weight`: the weight of the edge from `a` to `b`, if there
/// is one.
#[verifier::external_body]
pub(crate) fn graph_edge_weight(g: &Graph, a: usize, b: usize) -> (r: Option<u8>)
    ensures
        r == if graph_edges(*g).contains_key((a, b)) {
            Some(graph_edges(*g)[(a, b)])
        } else {
            None
        },
{
    g.edge_weight(a, b).copied()
}

/// `DfsPostOrder`: a depth-first walk from `start` that emits each node
/// after the nodes found through it. The nodes emitted are those that
/// `start` reaches, each once; `start` itself comes last.
#[verifier::external_body]
pub(crate) fn graph_post_order(g: &Graph, start: usize) -> (r: Vec<usize>)
    ensures
        r@.no_duplicates(),
        r@.len() > 0,
        r@.last() == start,
        forall|n: usize| #[trigger] r@.contains(n) <==> reaches(graph_edges(*g).dom(), start, n),
{
    DfsPostOrder::new(g, start).iter(g).collect()
}

} // verus!
