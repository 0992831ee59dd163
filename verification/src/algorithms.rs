//! The traversals of a network by node index: the full search from one
//! participant, and the partition into connected groups.

use vstd::prelude::*;
use std::collections::HashMap;
use petgraph::graph::Graph;
use petgraph::Undirected;
use crate::error::GraphError;
use crate::model::lemma_connected_symmetric;
use crate::model::lemma_connected_transitive;
use crate::model::holds;
use crate::model::lemma_node_of;
use crate::model::rows;
use crate::model::lemma_traversal_len;
use crate::model::lemma_traversal_nodes;
use crate::model::lemma_within_nodes;
use crate::score::Score;
use crate::store::network;
use crate::store::node_count;
use crate::store::node_id;
use crate::store::node_ids;
use crate::traversal::explore;

verus! {

/// Looks for the first node that carries the identifier `id`.
pub fn find_node(g: &Graph<u32, (), Undirected, u32>, id: u32) -> (found: Option<usize>)
    ensures
        match found {
            Some(i) => network(*g).is_node_of(id, i as int),
            None => !network(*g).carries(id),
        },
{
    let n = node_count(g);
    let mut i: usize = 0;
    while i < n
        invariant
            i <= n,
            n == node_ids(*g).len(),
            forall|j: int| 0 <= j < i ==> node_ids(*g)[j] != id,
        decreases n - i,
    {
        if node_id(g, i) == id {
            return Some(i);
        }
        i += 1;
    }
    None
}

/// The identifiers of the nodes that `order` lists.
pub fn ids_of(g: &Graph<u32, (), Undirected, u32>, order: &Vec<usize>) -> (ids: Vec<u32>)
    requires
        forall|i: int| 0 <= i < order@.len() ==> (#[trigger] order@[i]) < node_ids(*g).len(),
    ensures
        ids@ == network(*g).ids_along(order@),
{
    let mut ids: Vec<u32> = Vec::new();
    let mut i: usize = 0;
    while i < order.len()
        invariant
            i <= order@.len(),
            forall|i: int| 0 <= i < order@.len() ==> (#[trigger] order@[i]) < node_ids(*g).len(),
            ids@.len() == i,
            forall|k: int| 0 <= k < i ==> ids@[k] == node_ids(*g)[order@[k] as int],
        decreases order@.len() - i,
    {
        ids.push(node_id(g, order[i]));
        i += 1;
    }
    assert(ids@ =~= network(*g).ids_along(order@));
    ids
}

/// The search from the participant `source` that goes on from a node only
/// where it lies fewer than `limit` edges from `source`, or from every
/// node found where there is no limit: the identifiers of the nodes found,
/// in the order of their discovery. Fails with `InvalidSource` exactly if
/// no node carries `source`.
pub fn search(g: &Graph<u32, (), Undirected, u32>, source: u32, limit: Option<u32>) -> (found:
    Result<Vec<u32>, GraphError>)
    ensures
        match found {
            Ok(ids) => network(*g).carries(source) && exists|order: Seq<usize>|
                #[trigger] network(*g).is_traversal(network(*g).node_of(source), limit, order)
                    && ids@ == network(*g).ids_along(order),
            Err(e) => e == GraphError::InvalidSource && !network(*g).carries(source),
        },
{
    match find_node(g, source) {
        Some(start) => {
            let found = explore(g, start, limit);
            proof {
                lemma_node_of(network(*g), source, start as int);
                lemma_traversal_nodes(network(*g), start as int, limit, found.order@);
            }
            Ok(ids_of(g, &found.order))
        },
        None => Err(GraphError::InvalidSource),
    }
}

/// The full breadth-first search from the participant `num_begin`: the
/// identifiers of all participants that it reaches, in the order of their
/// discovery. Fails with `InvalidSource` exactly if no node carries
/// `num_begin`.
pub fn bfs(g: &Graph<u32, (), Undirected, u32>, num_begin: u32) -> (found: Result<
    Vec<u32>,
    GraphError,
>)
    ensures
        match found {
            Ok(ids) => network(*g).carries(num_begin) && exists|order: Seq<usize>|
                #[trigger] network(*g).is_traversal(network(*g).node_of(num_begin), None, order)
                    && ids@ == network(*g).ids_along(order),
            Err(e) => e == GraphError::InvalidSource && !network(*g).carries(num_begin),
        },
{
    search(g, num_begin, None)
}

/// The closeness of the node `v`, from one full search.
pub fn closeness_of(g: &Graph<u32, (), Undirected, u32>, v: usize) -> (score: Score)
    requires
        v < node_ids(*g).len(),
    ensures
        network(*g).is_closeness(v as int, score),
{
    let ghost net = network(*g);
    let n = node_count(g);
    let found = explore(g, v, None);
    proof {
        lemma_traversal_len(net, v as int, None, found.order@);
    }
    let mut total: u64 = 0;
    let mut t: usize = 0;
    while t < n
        invariant
            net == network(*g),
            n == net.ids.len(),
            n <= u32::MAX,
            t <= n,
            found.depth@.len() == n,
            found.order@.len() <= n,
            forall|t: int|
                0 <= t < found.depth@.len() ==> match #[trigger] found.depth@[t] {
                    Some(d) => net.reaches(v as int, t, None) && net.distance(v as int, t) == d && d
                        < found.order@.len(),
                    None => !net.reaches(v as int, t, None),
                },
            total == net.distance_sum(v as int, t as nat),
            total <= t * 0xffff_ffff,
        decreases n - t,
    {
        match found.depth[t] {
            Some(d) => {
                total = total + d as u64;
            },
            None => {},
        }
        t += 1;
    }
    Score::new((found.order.len() - 1) as u64, total)
}

/// The closeness of every participant, by identifier. Where several nodes
/// carry one identifier, the entry is that of the last of them.
pub fn closeness_centrality(g: &Graph<u32, (), Undirected, u32>) -> (scores: HashMap<u32, Score>)
    ensures
        forall|id: u32| scores@.contains_key(id) <==> network(*g).carries(id),
        forall|i: int| #[trigger]
            network(*g).is_last_of_id(i) ==> network(*g).is_closeness(
                i,
                scores@[network(*g).ids[i]],
            ),
{
    broadcast use vstd::std_specs::hash::group_hash_axioms;

    let ghost net = network(*g);
    let n = node_count(g);
    let mut scores: HashMap<u32, Score> = HashMap::new();
    let mut v: usize = 0;
    while v < n
        invariant
            net == network(*g),
            n == net.ids.len(),
            v <= n,
            forall|id: u32|
                scores@.contains_key(id) <==> exists|i: int| 0 <= i < v && net.ids[i] == id,
            forall|i: int|
                0 <= i < v && (forall|j: int| i < j < v ==> net.ids[j] != net.ids[i])
                    ==> net.is_closeness(i, #[trigger] scores@[net.ids[i]]),
        decreases n - v,
    {
        let score = closeness_of(g, v);
        let id = node_id(g, v);
        scores.insert(id, score);
        v += 1;
    }
    scores
}

/// The connected groups of the graph, each as the node indices of the full
/// search from its first node, in the order of their first nodes.
pub fn component_indices(g: &Graph<u32, (), Undirected, u32>) -> (parts: Vec<Vec<usize>>)
    ensures
        network(*g).is_partition(rows(parts@)),
{
    let ghost net = network(*g);
    let n = node_count(g);
    let mut seen: Vec<bool> = Vec::new();
    let mut i: usize = 0;
    while i < n
        invariant
            i <= n,
            seen@.len() == i,
            forall|t: int| 0 <= t < i ==> !(#[trigger] seen@[t]),
        decreases n - i,
    {
        seen.push(false);
        i += 1;
    }
    let mut parts: Vec<Vec<usize>> = Vec::new();
    let mut v: usize = 0;
    while v < n
        invariant
            net == network(*g),
            n == net.ids.len(),
            v <= n,
            seen@.len() == n,
            forall|t: int|
                0 <= t < n ==> ((#[trigger] seen@[t]) <==> exists|c: int|
                    0 <= c < parts@.len() && #[trigger] parts@[c]@.contains(t as usize)),
            forall|t: int| 0 <= t < v ==> #[trigger] seen@[t],
            forall|c: int|
                0 <= c < parts@.len() ==> (#[trigger] parts@[c])@.len() > 0 && parts@[c]@[0] < v
                    && net.is_traversal(parts@[c]@[0] as int, None, parts@[c]@),
            forall|c: int, t: usize|
                0 <= c < parts@.len() && #[trigger] parts@[c]@.contains(t) ==> parts@[c]@[0] <= t,
            forall|c: int, e: int|
                0 <= c < e < parts@.len() ==> (#[trigger] parts@[c])@[0] < (#[trigger] parts@[e])@[0],
            forall|c: int, e: int, t: usize|
                0 <= c < parts@.len() && 0 <= e < parts@.len() && #[trigger] parts@[c]@.contains(t)
                    && #[trigger] parts@[e]@.contains(t) ==> c == e,
        decreases n - v,
    {
        if !seen[v] {
            let found = explore(g, v, None);
            let order = found.order;
            let ghost before = seen@;
            assert(forall|t: int|
                0 <= t < n ==> ((#[trigger] before[t]) <==> exists|c: int|
                    0 <= c < parts@.len() && #[trigger] parts@[c]@.contains(t as usize)));
            let mut k: usize = 0;
            while k < order.len()
                invariant
                    net == network(*g),
                    n == net.ids.len(),
                    k <= order@.len(),
                    seen@.len() == n,
                    before.len() == n,
                    net.is_traversal(v as int, None, order@),
                    forall|t: int|
                        0 <= t < n ==> ((#[trigger] seen@[t]) <==> before[t] || exists|j: int|
                            0 <= j < k && order@[j] == t),
                decreases order@.len() - k,
            {
                let t = order[k];
                proof {
                    assert(order@.contains(t));
                    assert(net.reaches(v as int, t as int, None));
                    let d = choose|d: nat| net.within(v as int, t as int, d);
                    lemma_within_nodes(net, v as int, t as int, d);
                }
                seen.set(t, true);
                k += 1;
            }
            proof {
                let old_parts = parts@;
                let new_parts = parts@.push(order);
                assert forall|c: int, t: usize|
                    0 <= c < old_parts.len() && #[trigger] old_parts[c]@.contains(t)
                    implies !order@.contains(t) by {
                    if order@.contains(t) {
                        let seed = old_parts[c]@[0] as int;
                        assert(net.reaches(v as int, t as int, None));
                        assert(net.reaches(seed, t as int, None));
                        lemma_connected_symmetric(net, v as int, t as int);
                        lemma_connected_transitive(net, seed, t as int, v as int);
                        assert(net.reaches(seed, v as int, None));
                        assert(old_parts[c]@.contains(v));
                        assert(old_parts[c]@.contains((v as int) as usize));
                        assert(before[v as int]);
                    }
                }
                assert forall|t: usize| order@.contains(t) implies v <= t by {
                    if t < v {
                        assert(before[t as int]);
                        let c = choose|c: int|
                            0 <= c < old_parts.len() && #[trigger] old_parts[c]@.contains(t);
                        assert(old_parts[c]@.contains(t));
                    }
                }
                assert forall|t: int| 0 <= t < n implies ((#[trigger] seen@[t]) <==> exists|c: int|
                    0 <= c < new_parts.len() && #[trigger] new_parts[c]@.contains(t as usize)) by {
                    if seen@[t] {
                        if before[t] {
                            let c = choose|c: int|
                                0 <= c < old_parts.len() && #[trigger] old_parts[c]@.contains(
                                    t as usize,
                                );
                            assert(new_parts[c] == old_parts[c]);
                        } else {
                            let j = choose|j: int| 0 <= j < order@.len() && order@[j] == t;
                            assert(order@.contains(t as usize));
                            assert(new_parts[old_parts.len() as int]@.contains(t as usize));
                        }
                    }
                    if exists|c: int|
                        0 <= c < new_parts.len() && #[trigger] new_parts[c]@.contains(t as usize) {
                        let c = choose|c: int|
                            0 <= c < new_parts.len() && #[trigger] new_parts[c]@.contains(
                                t as usize,
                            );
                        if c < old_parts.len() {
                            assert(old_parts[c]@.contains(t as usize));
                            assert(before[t]);
                        } else {
                            let j = order@.index_of(t as usize);
                            assert(order@[j] == t);
                        }
                    }
                }
                assert(seen@[v as int]) by {
                    assert(order@[0] == v);
                }
            }
            parts.push(order);
        }
        v += 1;
    }
    proof {
        let view = rows(parts@);
        assert forall|t: usize| t < net.ids.len() implies #[trigger] holds(view, t) by {
            assert(seen@[t as int]);
            let c = choose|c: int| 0 <= c < parts@.len() && #[trigger] parts@[c]@.contains(t);
            assert(view[c].contains(t));
        }
    }
    parts
}

/// The connected groups of the graph, each as the identifiers of its
/// participants in the order of a full search from its first node, in the
/// order of their first nodes.
pub fn connected_components(g: &Graph<u32, (), Undirected, u32>) -> (out: Vec<Vec<u32>>)
    ensures
        exists|parts: Seq<Seq<usize>>| #[trigger]
            network(*g).is_partition(parts) && rows(out@) == network(*g).ids_of_parts(parts),
{
    let ghost net = network(*g);
    let parts = component_indices(g);
    let mut out: Vec<Vec<u32>> = Vec::new();
    let mut c: usize = 0;
    while c < parts.len()
        invariant
            c <= parts@.len(),
            net == network(*g),
            net.is_partition(rows(parts@)),
            out@.len() == c,
            forall|k: int| 0 <= k < c ==> (#[trigger] out@[k])@ == net.ids_along(parts@[k]@),
        decreases parts@.len() - c,
    {
        proof {
            let part = rows(parts@)[c as int];
            assert(part == parts@[c as int]@);
            lemma_traversal_nodes(net, part[0] as int, None, part);
        }
        out.push(ids_of(g, &parts[c]));
        c += 1;
    }
    assert(rows(out@) =~= net.ids_of_parts(rows(parts@)));
    out
}

} // verus!
