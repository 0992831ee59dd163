//! The network of participants: a graph whose nodes carry the participants'
//! identifiers, and the queries on it by identifier.

use vstd::prelude::*;
use std::collections::HashMap;
use petgraph::graph::Graph;
use petgraph::Undirected;
use crate::algorithms::closeness_centrality;
use crate::algorithms::connected_components;
use crate::algorithms::find_node;
use crate::algorithms::search;
use crate::centrality::central_finder;
use crate::centrality::fault;
use crate::centrality::faultless;
use crate::centrality::first_fault;
use crate::centrality::least_central_finder;
use crate::centrality::picked;
use crate::error::GraphError;
use crate::model::distinct;
use crate::model::lemma_node_of;
use crate::model::lemma_traversal_len;
use crate::model::rows;
use crate::model::Network;
use crate::parse::edges_of;
use crate::parse::read_edges;
use crate::parse::ParseError;
use crate::score::Score;
use crate::store::add_edge;
use crate::store::add_node;
use crate::store::edge_ends;
use crate::store::empty_graph;
use crate::store::network;
use crate::store::node_ids;
use crate::traversal::explore;

verus! {

/// An undirected graph of participants, each node carrying a participant's
/// identifier.
pub struct Graphs {
    pub graph: Graph<u32, (), Undirected>,
}

/// The reach of the most and of the least central participants of a list
/// of components: the sum over the components of the number of
/// participants that each of the two reaches, and the number of components.
/// The mean reach of a group is its total over the number of components.
#[derive(Clone, Copy, Debug)]
pub struct ReachComparison {
    pub most_central_total: u128,
    pub least_central_total: u128,
    pub components: usize,
}

/// The identifiers `ids` with `id` added at the end unless it is among
/// them.
pub open spec fn noted(ids: Seq<u32>, id: u32) -> Seq<u32> {
    if ids.contains(id) {
        ids
    } else {
        ids.push(id)
    }
}

/// The identifiers that a list of connections names, each once, in the
/// order in which they first occur.
pub open spec fn seen_ids(edges: Seq<(u32, u32)>) -> Seq<u32>
    decreases edges.len(),
{
    if edges.len() == 0 {
        Seq::empty()
    } else {
        noted(noted(seen_ids(edges.drop_last()), edges.last().0), edges.last().1)
    }
}

/// `net` is the network of the connections `edges`: one node for each
/// identifier, in the order in which the identifiers first occur, and one
/// edge for each connection, in their order, between the nodes of its two
/// participants.
pub open spec fn is_network_of(net: Network, edges: Seq<(u32, u32)>) -> bool {
    &&& net.ids == seen_ids(edges)
    &&& net.distinct_ids()
    &&& net.links.len() == edges.len()
    &&& forall|k: int|
        0 <= k < edges.len() ==> {
            let link = #[trigger] net.links[k];
            &&& link.0 < net.ids.len() && net.ids[link.0 as int] == edges[k].0
            &&& link.1 < net.ids.len() && net.ids[link.1 as int] == edges[k].1
        }
}

/// The map `index` gives for each identifier among `ids`, and for no
/// other, a position at which it stands.
pub open spec fn registers(ids: Seq<u32>, index: Map<u32, usize>) -> bool {
    &&& forall|id: u32| index.contains_key(id) <==> ids.contains(id)
    &&& forall|id: u32| #[trigger]
        index.contains_key(id) ==> index[id] < ids.len() && ids[index[id] as int] == id
}

/// The sum, over the first `upto` components, of the number of
/// participants that the pick of the component reaches within `steps`.
pub open spec fn reach_total(
    net: Network,
    components: Seq<Seq<u32>>,
    scores: Map<u32, Score>,
    most: bool,
    steps: u32,
    upto: nat,
) -> nat
    decreases upto,
{
    if upto == 0 {
        0
    } else {
        reach_total(net, components, scores, most, steps, (upto - 1) as nat) + net.spread(
            net.node_of(picked(components[upto - 1], scores, most)),
            Some(steps),
        )
    }
}

/// The graph carries the pick of every component, the most central and the
/// least central one.
pub open spec fn picks_carried(
    net: Network,
    components: Seq<Seq<u32>>,
    scores: Map<u32, Score>,
) -> bool {
    forall|c: int|
        0 <= c < components.len() ==> net.carries(picked(#[trigger] components[c], scores, true))
            && net.carries(picked(components[c], scores, false))
}

/// The node that carries `id`: the one that `index` knows, or a new one.
fn intern(g: &mut Graph<u32, (), Undirected, u32>, index: &mut HashMap<u32, usize>, id: u32) -> (at:
    usize)
    requires
        registers(node_ids(*old(g)), old(index)@),
        distinct(node_ids(*old(g))),
        node_ids(*old(g)).len() < u32::MAX,
    ensures
        node_ids(*final(g)) == noted(node_ids(*old(g)), id),
        edge_ends(*final(g)) == edge_ends(*old(g)),
        registers(node_ids(*final(g)), final(index)@),
        distinct(node_ids(*final(g))),
        at < node_ids(*final(g)).len(),
        node_ids(*final(g))[at as int] == id,
{
    broadcast use vstd::std_specs::hash::group_hash_axioms;

    let ghost ids = node_ids(*g);
    match index.get(&id) {
        Some(at) => *at,
        None => {
            let at = add_node(g, id);
            index.insert(id, at);
            proof {
                let ids2 = node_ids(*g);
                assert forall|other: u32| index@.contains_key(other) <==> ids2.contains(other) by {
                    if ids2.contains(other) {
                        let i = ids2.index_of(other);
                        if i < ids.len() {
                            assert(ids[i] == other);
                            assert(ids.contains(other));
                        }
                    }
                    if index@.contains_key(other) {
                        if other == id {
                            assert(ids2[at as int] == id);
                        } else {
                            let i = ids.index_of(other);
                            assert(ids2[i] == other);
                        }
                    }
                }
                assert forall|i: int, j: int|
                    0 <= i < ids2.len() && 0 <= j < ids2.len() && i != j implies ids2[i] != ids2[j] by {
                    if i < ids.len() {
                        assert(ids.contains(ids[i]));
                    }
                    if j < ids.len() {
                        assert(ids.contains(ids[j]));
                    }
                }
            }
            at
        },
    }
}

/// The number of connections that `read_graph` reads at most.
pub const MAX_RECORDS: usize = 1000;

/// Reads the graph of a text of connections: one connection on a line, as
/// two decimal identifiers with a comma between them, under a header line.
/// Blank lines are skipped, and no more than `MAX_RECORDS` connections are
/// read. Fails on the first line that writes no connection.
pub fn read_graph(text: &[u8]) -> (out: Result<Graph<u32, (), Undirected>, ParseError>)
    ensures
        match out {
            Ok(graph) => edges_of(text@, MAX_RECORDS as nat) is Ok && is_network_of(
                network(graph),
                edges_of(text@, MAX_RECORDS as nat)->Ok_0,
            ),
            Err(e) => edges_of(text@, MAX_RECORDS as nat) == Err::<Seq<(u32, u32)>, ParseError>(e),
        },
{
    match read_edges(text, MAX_RECORDS) {
        Ok(edges) => Ok(Graphs::build(&edges).graph),
        Err(e) => Err(e),
    }
}

impl Graphs {
    /// The network that the graph holds.
    pub open spec fn view(&self) -> Network {
        network(self.graph)
    }

    /// Takes the graph as the network to analyse.
    pub fn new(graph: Graph<u32, (), Undirected>) -> (out: Graphs)
        ensures
            out.graph == graph,
    {
        Graphs { graph: graph }
    }

    /// Builds the network of a list of connections between participants.
    /// Each identifier gets one node, in the order in which the identifiers
    /// first occur, and each connection one edge between the nodes of its
    /// two participants, in the order of the connections.
    pub fn build(edges: &Vec<(u32, u32)>) -> (out: Graphs)
        requires
            edges@.len() <= 0x7fff_ffff,
        ensures
            is_network_of(out@, edges@),
    {
        let mut graph = empty_graph();
        let mut index: HashMap<u32, usize> = HashMap::new();
        let mut k: usize = 0;
        proof {
            assert(edges@.take(0) =~= Seq::empty());
        }
        while k < edges.len()
            invariant
                k <= edges@.len(),
                edges@.len() <= 0x7fff_ffff,
                node_ids(graph) == seen_ids(edges@.take(k as int)),
                node_ids(graph).len() <= 2 * k,
                registers(node_ids(graph), index@),
                distinct(node_ids(graph)),
                edge_ends(graph).len() == k,
                forall|e: int|
                    0 <= e < k ==> {
                        let link = #[trigger] edge_ends(graph)[e];
                        &&& link.0 < node_ids(graph).len() && node_ids(graph)[link.0 as int]
                            == edges@[e].0
                        &&& link.1 < node_ids(graph).len() && node_ids(graph)[link.1 as int]
                            == edges@[e].1
                    },
            decreases edges@.len() - k,
        {
            let ghost ids0 = node_ids(graph);
            let ghost links0 = edge_ends(graph);
            let pair = edges[k];
            let a = intern(&mut graph, &mut index, pair.0);
            let ghost ids1 = node_ids(graph);
            let b = intern(&mut graph, &mut index, pair.1);
            add_edge(&mut graph, a, b);
            proof {
                let ids2 = node_ids(graph);
                assert(edges@.take(k + 1).drop_last() =~= edges@.take(k as int));
                assert(edges@.take(k + 1).last() == edges@[k as int]);
                assert(ids1[a as int] == ids2[a as int]);
                assert forall|e: int| 0 <= e < k + 1 implies {
                    let link = #[trigger] edge_ends(graph)[e];
                    &&& link.0 < ids2.len() && ids2[link.0 as int] == edges@[e].0
                    &&& link.1 < ids2.len() && ids2[link.1 as int] == edges@[e].1
                } by {
                    if e < k {
                        let link = links0[e];
                        assert(edge_ends(graph)[e] == link);
                        assert(ids0[link.0 as int] == ids1[link.0 as int]);
                        assert(ids0[link.1 as int] == ids1[link.1 as int]);
                        assert(ids1[link.0 as int] == ids2[link.0 as int]);
                        assert(ids1[link.1 as int] == ids2[link.1 as int]);
                    }
                }
            }
            k += 1;
        }
        proof {
            assert(edges@.take(k as int) =~= edges@);
        }
        Graphs { graph: graph }
    }

    /// The breadth-first search from the participant `num_begin` that goes
    /// no further than `steps` edges from it: the identifiers of the nodes
    /// found, in the order of their discovery. Fails with `InvalidSource`
    /// exactly if no node carries `num_begin`.
    pub fn bfs(&self, num_begin: u32, steps: u32) -> (out: Result<Vec<u32>, GraphError>)
        ensures
            match out {
                Ok(ids) => self@.carries(num_begin) && exists|order: Seq<usize>|
                    #[trigger] self@.is_traversal(self@.node_of(num_begin), Some(steps), order)
                        && ids@ == self@.ids_along(order),
                Err(e) => e == GraphError::InvalidSource && !self@.carries(num_begin),
            },
    {
        search(&self.graph, num_begin, Some(steps))
    }

    /// The closeness of every participant, by identifier.
    pub fn closeness_centrality(&self) -> (scores: HashMap<u32, Score>)
        ensures
            forall|id: u32| scores@.contains_key(id) <==> self@.carries(id),
            forall|i: int| #[trigger]
                self@.is_last_of_id(i) ==> self@.is_closeness(i, scores@[self@.ids[i]]),
    {
        closeness_centrality(&self.graph)
    }

    /// The connected groups of the network, each as the identifiers of its
    /// nodes in the order of a full search from its first node, in the
    /// order of their first nodes.
    pub fn connected_components(&self) -> (out: Vec<Vec<u32>>)
        ensures
            exists|parts: Seq<Seq<usize>>| #[trigger]
                self@.is_partition(parts) && rows(out@) == self@.ids_of_parts(parts),
    {
        let out = connected_components(&self.graph);
        proof {
            let parts = choose|parts: Seq<Seq<usize>>| #[trigger]
                network(self.graph).is_partition(parts) && rows(out@) == network(
                    self.graph,
                ).ids_of_parts(parts);
            assert(self@.is_partition(parts) && rows(out@) == self@.ids_of_parts(parts));
        }
        out
    }

    /// The number of participants that `person` reaches over at most
    /// `steps` edges, itself included. Fails with `InvalidSource` exactly
    /// if no node carries `person`.
    pub fn person_spread(&self, person: u32, steps: u32) -> (out: Result<usize, GraphError>)
        ensures
            match out {
                Ok(count) => self@.carries(person) && count == self@.spread(
                    self@.node_of(person),
                    Some(steps),
                ),
                Err(e) => e == GraphError::InvalidSource && !self@.carries(person),
            },
    {
        match find_node(&self.graph, person) {
            Some(start) => {
                let found = explore(&self.graph, start, Some(steps));
                proof {
                    lemma_node_of(self@, person, start as int);
                    assert(self@.ids.len() == found.depth.len());
                    lemma_traversal_len(self@, start as int, Some(steps), found.order@);
                }
                Ok(found.order.len())
            },
            None => Err(GraphError::InvalidSource),
        }
    }

    /// Compares the reach within `steps` edges of the most central and of
    /// the least central participant of each component. Fails with
    /// `NoComponents` on an empty list; else with the fault of the first
    /// component that has one; else with `InvalidSource` where the graph
    /// does not carry one of the participants picked.
    pub fn high_vs_low_reach(
        &self,
        components: &Vec<Vec<u32>>,
        closeness_map: &HashMap<u32, Score>,
        steps: u32,
    ) -> (out: Result<ReachComparison, GraphError>)
        ensures
            match out {
                Ok(reach) => {
                    &&& components@.len() > 0
                    &&& faultless(rows(components@), closeness_map@)
                    &&& picks_carried(self@, rows(components@), closeness_map@)
                    &&& reach.components == components@.len()
                    &&& reach.most_central_total == reach_total(
                        self@,
                        rows(components@),
                        closeness_map@,
                        true,
                        steps,
                        components@.len(),
                    )
                    &&& reach.least_central_total == reach_total(
                        self@,
                        rows(components@),
                        closeness_map@,
                        false,
                        steps,
                        components@.len(),
                    )
                },
                Err(e) => if components@.len() == 0 {
                    e == GraphError::NoComponents
                } else if !faultless(rows(components@), closeness_map@) {
                    exists|c: int| #[trigger]
                        first_fault(rows(components@), closeness_map@, c) && fault(
                            components@[c]@,
                            closeness_map@,
                        ) == Some(e)
                } else {
                    e == GraphError::InvalidSource && !picks_carried(
                        self@,
                        rows(components@),
                        closeness_map@,
                    )
                },
            },
    {
        if components.len() == 0 {
            return Err(GraphError::NoComponents);
        }
        let most_central = match central_finder(components, closeness_map) {
            Ok(picks) => picks,
            Err(e) => {
                return Err(e);
            },
        };
        let least_central = match least_central_finder(components, closeness_map) {
            Ok(picks) => picks,
            Err(e) => {
                return Err(e);
            },
        };
        let ghost comps = rows(components@);
        let mut most_sum: u128 = 0;
        let mut least_sum: u128 = 0;
        let mut i: usize = 0;
        while i < components.len()
            invariant
                i <= components@.len(),
                comps == rows(components@),
                components@.len() > 0,
                faultless(comps, closeness_map@),
                most_central@.len() == components@.len(),
                least_central@.len() == components@.len(),
                forall|c: int|
                    0 <= c < components@.len() ==> #[trigger] most_central@[c] == picked(
                        components@[c]@,
                        closeness_map@,
                        true,
                    ),
                forall|c: int|
                    0 <= c < components@.len() ==> #[trigger] least_central@[c] == picked(
                        components@[c]@,
                        closeness_map@,
                        false,
                    ),
                forall|c: int|
                    0 <= c < i ==> self@.carries(picked(#[trigger] comps[c], closeness_map@, true))
                        && self@.carries(picked(comps[c], closeness_map@, false)),
                most_sum == reach_total(self@, comps, closeness_map@, true, steps, i as nat),
                least_sum == reach_total(self@, comps, closeness_map@, false, steps, i as nat),
                most_sum <= i * 0xffff_ffff_ffff_ffff,
                least_sum <= i * 0xffff_ffff_ffff_ffff,
            decreases components@.len() - i,
        {
            assert(comps[i as int] == components@[i as int]@);
            let most_reach = match self.person_spread(most_central[i], steps) {
                Ok(count) => count,
                Err(e) => {
                    assert(!self@.carries(picked(comps[i as int], closeness_map@, true)));
                    return Err(e);
                },
            };
            let least_reach = match self.person_spread(least_central[i], steps) {
                Ok(count) => count,
                Err(e) => {
                    assert(!self@.carries(picked(comps[i as int], closeness_map@, false)));
                    return Err(e);
                },
            };
            most_sum = most_sum + most_reach as u128;
            least_sum = least_sum + least_reach as u128;
            i += 1;
        }
        Ok(
            ReachComparison {
                most_central_total: most_sum,
                least_central_total: least_sum,
                components: components.len(),
            },
        )
    }
}

} // verus!
