//! The node and edge store. The graph itself is a `petgraph` graph; this
//! module declares it to the verifier, names what it holds, and gives each
//! `petgraph` call that the library makes a contract over those names.

use vstd::prelude::*;
use petgraph::graph::Graph;
use petgraph::graph::NodeIndex;
use petgraph::Undirected;
use crate::model::neighbor_order;
use crate::model::Network;

verus! {

/// `petgraph::graph::Graph`, taken as it stands: of a graph nothing is
/// known but what the functions below say of it.
#[verifier::external_type_specification]
#[verifier::external_body]
#[verifier::reject_recursive_types(N)]
#[verifier::reject_recursive_types(E)]
#[verifier::reject_recursive_types(Ty)]
#[verifier::reject_recursive_types(Ix)]
pub struct ExGraph<N, E, Ty, Ix>(petgraph::graph::Graph<N, E, Ty, Ix>);

/// `petgraph::Undirected`, the marker of a graph whose edges have no
/// direction.
#[verifier::external_type_specification]
#[verifier::external_body]
pub struct ExUndirected(petgraph::Undirected);

/// The external identifiers carried by the nodes of a graph, by node index.
pub uninterp spec fn node_ids(g: Graph<u32, (), Undirected, u32>) -> Seq<u32>;

/// The endpoints of the edges of a graph as node indices, in the order in
/// which the edges were added.
pub uninterp spec fn edge_ends(g: Graph<u32, (), Undirected, u32>) -> Seq<(usize, usize)>;

/// The network that a graph holds.
pub open spec fn network(g: Graph<u32, (), Undirected, u32>) -> Network {
    Network { ids: node_ids(g), links: edge_ends(g) }
}

/// `Graph::new_undirected`: a graph without nodes and without edges.
#[verifier::external_body]
pub(crate) fn empty_graph() -> (g: Graph<u32, (), Undirected, u32>)
    ensures
        node_ids(g) == Seq::<u32>::empty(),
        edge_ends(g) == Seq::<(usize, usize)>::empty(),
{
    Graph::new_undirected()
}

/// `Graph::node_count`: the number of nodes. A graph indexed by `u32` never
/// holds more than `u32::MAX` nodes, since `add_node` refuses the next one.
#[verifier::external_body]
pub(crate) fn node_count(g: &Graph<u32, (), Undirected, u32>) -> (n: usize)
    ensures
        n == node_ids(*g).len(),
        n <= u32::MAX,
{
    g.node_count()
}

/// `Graph::add_node`: appends a node that carries `id` and returns its
/// index, the former node count; the edges stay as they are. The call
/// panics on a graph that already holds `u32::MAX` nodes.
#[verifier::external_body]
pub(crate) fn add_node(g: &mut Graph<u32, (), Undirected, u32>, id: u32) -> (index: usize)
    requires
        node_ids(*old(g)).len() < u32::MAX,
    ensures
        node_ids(*final(g)) == node_ids(*old(g)).push(id),
        edge_ends(*final(g)) == edge_ends(*old(g)),
        index == node_ids(*old(g)).len(),
{
    g.add_node(id).index()
}

/// `Graph::add_edge`: appends an edge between the nodes `a` and `b`; the
/// nodes stay as they are. The call panics where one of the two nodes does
/// not exist, and on a graph that already holds `u32::MAX` edges.
#[verifier::external_body]
pub(crate) fn add_edge(g: &mut Graph<u32, (), Undirected, u32>, a: usize, b: usize)
    requires
        a < node_ids(*old(g)).len(),
        b < node_ids(*old(g)).len(),
        edge_ends(*old(g)).len() < u32::MAX,
    ensures
        node_ids(*final(g)) == node_ids(*old(g)),
        edge_ends(*final(g)) == edge_ends(*old(g)).push((a, b)),
{
    g.add_edge(NodeIndex::new(a), NodeIndex::new(b), ());
}

/// Indexing a graph by a node index: the identifier that node `a` carries.
/// The call panics where the node does not exist.
#[verifier::external_body]
pub(crate) fn node_id(g: &Graph<u32, (), Undirected, u32>, a: usize) -> (id: u32)
    requires
        a < node_ids(*g).len(),
    ensures
        id == node_ids(*g)[a as int],
{
    g[NodeIndex::new(a)]
}

/// `Graph::neighbors`, collected: the nodes at the far end of the edges of
/// node `a`, each of them a node of the graph. As documented for undirected
/// graphs, the edges that were added with `a` as first endpoint come first
/// and those with `a` as second endpoint after them, each group latest edge
/// first, and an edge from `a` to itself is listed once.
#[verifier::external_body]
pub(crate) fn neighbors(g: &Graph<u32, (), Undirected, u32>, a: usize) -> (out: Vec<usize>)
    requires
        a < node_ids(*g).len(),
    ensures
        out@ == neighbor_order(edge_ends(*g), a as int),
        forall|i: int| 0 <= i < out@.len() ==> out@[i] < node_ids(*g).len(),
{
    g.neighbors(NodeIndex::new(a)).map(|v| v.index()).collect()
}

} // verus!
