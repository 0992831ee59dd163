//! Breadth-first search over the store: the frontier is a queue, a node
//! enters it once, and each node is given its depth when it is found.

use vstd::prelude::*;
use petgraph::graph::Graph;
use petgraph::Undirected;
use crate::model::expands;
use crate::model::lemma_distance_unique;
use crate::model::lemma_neighbor_members;
use crate::model::lemma_within_monotone;
use crate::model::lemma_within_nodes;
use crate::model::neighbor_order;
use crate::model::precedes;
use crate::model::Network;
use crate::store::neighbors;
use crate::store::network;
use crate::store::node_count;
use crate::store::node_ids;

verus! {

/// What one search found.
pub struct Traversal {
    /// The nodes found, in the order of their discovery.
    pub order: Vec<usize>,
    /// By node index: the number of edges between the source and the node,
    /// or `None` for a node that the search did not reach.
    pub depth: Vec<Option<usize>>,
}

/// A node at depth `d` lies within the limit.
pub open spec fn allowed(limit: Option<u32>, d: int) -> bool {
    match limit {
        Some(m) => d <= m,
        None => true,
    }
}

/// The depth recorded for node `t`.
pub open spec fn level(depth: Seq<Option<usize>>, t: int) -> int {
    depth[t]->0 as int
}

/// The state of a search from `s` in which the first `head` nodes of
/// `order` have been taken from the queue and the others wait in it.
pub open spec fn search_state(
    net: Network,
    s: int,
    limit: Option<u32>,
    order: Seq<usize>,
    depth: Seq<Option<usize>>,
    head: int,
) -> bool {
    &&& depth.len() == net.ids.len()
    &&& depth.len() <= usize::MAX
    &&& 0 <= head <= order.len()
    &&& order.len() > 0 && order[0] == s
    &&& order.no_duplicates()
    &&& forall|i: int|
        0 <= i < order.len() ==> (#[trigger] order[i]) < depth.len() && depth[order[i] as int] is Some
            && level(depth, order[i] as int) <= i
    &&& forall|t: int|
        0 <= t < depth.len() && (#[trigger] depth[t]) is Some ==> order.contains(t as usize)
            && net.within(s, t, level(depth, t) as nat) && allowed(limit, level(depth, t))
    &&& forall|i: int, j: int|
        0 <= i <= j < order.len() ==> level(depth, #[trigger] order[i] as int) <= level(
            depth,
            #[trigger] order[j] as int,
        )
    &&& head < order.len() ==> forall|j: int|
        0 <= j < order.len() ==> level(depth, #[trigger] order[j] as int) <= level(
            depth,
            order[head] as int,
        ) + 1
    &&& forall|i: int, t: int|
        0 <= i < head && expands(limit, level(depth, order[i] as int)) && #[trigger] net.adjacent(
            order[i] as int,
            t,
        ) ==> depth[t] is Some && level(depth, t) <= level(depth, order[i] as int) + 1
}

/// What the search knows of the order of discovery: `finder` gives for
/// each node but the first the place of the node from which it was found,
/// which is the first place whose node is adjacent to it and had its
/// neighbours explored, and none of these places lies behind `head`.
pub open spec fn found_in_turn(
    net: Network,
    limit: Option<u32>,
    order: Seq<usize>,
    depth: Seq<Option<usize>>,
    finder: Seq<int>,
    head: int,
) -> bool {
    &&& finder.len() == order.len()
    &&& forall|j: int|
        0 < j < order.len() ==> {
            &&& 0 <= #[trigger] finder[j] < j
            &&& finder[j] <= head
            &&& net.adjacent(order[finder[j]] as int, order[j] as int)
            &&& expands(limit, level(depth, order[finder[j]] as int))
        }
    &&& forall|j: int, e: int|
        0 < j < order.len() && 0 <= e < finder[j] ==> !(#[trigger] net.adjacent(
            order[e] as int,
            order[j] as int,
        ) && expands(limit, level(depth, order[e] as int)))
    &&& forall|i: int, j: int|
        0 < i < j < order.len() ==> #[trigger] finder[i] < #[trigger] finder[j] || (finder[i]
            == finder[j] && precedes(
            neighbor_order(net.links, order[finder[i]] as int),
            order[i],
            order[j],
        ))
}

/// The nodes found from the node at `head` stand among the first `upto`
/// of its neighbours.
pub open spec fn found_among(
    order: Seq<usize>,
    finder: Seq<int>,
    head: int,
    nbrs: Seq<usize>,
    upto: int,
) -> bool {
    forall|i: int|
        0 < i < order.len() && #[trigger] finder[i] == head ==> exists|p: int|
            0 <= p < upto && #[trigger] nbrs[p] == order[i]
}

/// Finding the unseen neighbour `w`, the one at place `at` among the
/// neighbours of the node at the head of the queue, keeps what the search
/// knows of the order of discovery.
proof fn lemma_discover_in_turn(
    net: Network,
    s: int,
    limit: Option<u32>,
    order: Seq<usize>,
    depth: Seq<Option<usize>>,
    finder: Seq<int>,
    head: int,
    nbrs: Seq<usize>,
    at: int,
    w: usize,
)
    requires
        search_state(net, s, limit, order, depth, head),
        found_in_turn(net, limit, order, depth, finder, head),
        found_among(order, finder, head, nbrs, at),
        head < order.len(),
        expands(limit, level(depth, order[head] as int)),
        net.adjacent(order[head] as int, w as int),
        nbrs == neighbor_order(net.links, order[head] as int),
        0 <= at < nbrs.len(),
        nbrs[at] == w,
        forall|k: int| 0 <= k < at ==> depth[(#[trigger] nbrs[k]) as int] is Some,
        w < depth.len(),
        depth[w as int] is None,
        level(depth, order[head] as int) < usize::MAX,
    ensures
        found_in_turn(
            net,
            limit,
            order.push(w),
            depth.update(w as int, Some((level(depth, order[head] as int) + 1) as usize)),
            finder.push(head),
            head,
        ),
        found_among(order.push(w), finder.push(head), head, nbrs, at + 1),
{
    let du = level(depth, order[head] as int);
    let order2 = order.push(w);
    let depth2 = depth.update(w as int, Some((du + 1) as usize));
    let finder2 = finder.push(head);
    let last = order.len() as int;
    assert forall|i: int| 0 <= i < order.len() implies #[trigger] order2[i] == order[i] && level(
        depth2,
        order[i] as int,
    ) == level(depth, order[i] as int) by {
        assert(depth[order[i] as int] is Some);
    }
    assert forall|j: int| 0 < j < order2.len() implies {
        &&& 0 <= #[trigger] finder2[j] < j
        &&& finder2[j] <= head
        &&& net.adjacent(order2[finder2[j]] as int, order2[j] as int)
        &&& expands(limit, level(depth2, order2[finder2[j]] as int))
    } by {
        if j < last {
            assert(finder2[j] == finder[j]);
            assert(order2[finder[j]] == order[finder[j]]);
            assert(order2[j] == order[j]);
        } else {
            assert(order2[head] == order[head]);
        }
    }
    assert forall|j: int, e: int| 0 < j < order2.len() && 0 <= e < finder2[j] implies !(
    #[trigger] net.adjacent(order2[e] as int, order2[j] as int) && expands(
        limit,
        level(depth2, order2[e] as int),
    )) by {
        assert(order2[e] == order[e]);
        if j < last {
            assert(finder2[j] == finder[j]);
            assert(order2[j] == order[j]);
        } else {
            if net.adjacent(order[e] as int, w as int) && expands(
                limit,
                level(depth, order[e] as int),
            ) {
                assert(depth[w as int] is Some);
            }
        }
    }
    assert forall|i: int, j: int| 0 < i < j < order2.len() implies #[trigger] finder2[i]
        < #[trigger] finder2[j] || (finder2[i] == finder2[j] && precedes(
        neighbor_order(net.links, order2[finder2[i]] as int),
        order2[i],
        order2[j],
    )) by {
        assert(finder2[i] == finder[i]);
        assert(order2[i] == order[i]);
        assert(order2[finder[i]] == order[finder[i]]);
        if j < last {
            assert(finder2[j] == finder[j]);
            assert(order2[j] == order[j]);
        } else if finder[i] == head {
            let p = choose|p: int| 0 <= p < at && #[trigger] nbrs[p] == order[i];
            assert forall|q: int| 0 <= q <= p implies nbrs[q] != w by {
                assert(depth[nbrs[q] as int] is Some);
            }
            assert(precedes(nbrs, order[i], w));
        }
    }
    assert forall|i: int| 0 < i < order2.len() && #[trigger] finder2[i] == head implies exists|p: int|
        0 <= p < at + 1 && #[trigger] nbrs[p] == order2[i] by {
        if i < last {
            assert(finder2[i] == finder[i]);
            let p = choose|p: int| 0 <= p < at && #[trigger] nbrs[p] == order[i];
            assert(nbrs[p] == order2[i]);
        } else {
            assert(nbrs[at] == order2[i]);
        }
    }
}

/// `count` distinct node indices below `n` are at most `n`.
pub proof fn lemma_distinct_below(order: Seq<usize>, n: nat)
    requires
        order.no_duplicates(),
        forall|i: int| 0 <= i < order.len() ==> (#[trigger] order[i]) < n,
    ensures
        order.len() <= n,
    decreases n,
{
    if order.len() > 0 {
        if n == 0 {
            assert(order[0] < n);
        } else {
            let top = (n - 1) as usize;
            if order.contains(top) {
                let k = order.index_of(top);
                let rest = order.remove(k);
                assert forall|i: int| 0 <= i < rest.len() implies (#[trigger] rest[i]) < n - 1 by {
                    let j = if i < k { i } else { i + 1 };
                    assert(rest[i] == order[j]);
                    assert(order[j] < n);
                }
                assert(rest.no_duplicates()) by {
                    assert forall|i: int, j: int|
                        0 <= i < rest.len() && 0 <= j < rest.len() && i != j implies rest[i]
                        != rest[j] by {
                        let a = if i < k { i } else { i + 1 };
                        let b = if j < k { j } else { j + 1 };
                        assert(rest[i] == order[a] && rest[j] == order[b]);
                    }
                }
                lemma_distinct_below(rest, (n - 1) as nat);
            } else {
                assert forall|i: int| 0 <= i < order.len() implies (#[trigger] order[i]) < n - 1 by {
                    assert(order.contains(order[i]));
                }
                lemma_distinct_below(order, (n - 1) as nat);
            }
        }
    }
}

/// Finding the unseen neighbour `w` of the node at the head of the queue
/// keeps the state of the search.
proof fn lemma_discover(
    net: Network,
    s: int,
    limit: Option<u32>,
    order: Seq<usize>,
    depth: Seq<Option<usize>>,
    head: int,
    w: usize,
)
    requires
        search_state(net, s, limit, order, depth, head),
        head < order.len(),
        expands(limit, level(depth, order[head] as int)),
        net.adjacent(order[head] as int, w as int),
        depth[w as int] is None,
        level(depth, order[head] as int) < usize::MAX,
    ensures
        search_state(
            net,
            s,
            limit,
            order.push(w),
            depth.update(w as int, Some((level(depth, order[head] as int) + 1) as usize)),
            head,
        ),
{
    let u = order[head] as int;
    let du = level(depth, u);
    let order2 = order.push(w);
    let depth2 = depth.update(w as int, Some((du + 1) as usize));
    assert(depth[u] is Some);
    assert forall|i: int| 0 <= i < order.len() implies #[trigger] order[i] != w by {
        assert(depth[order[i] as int] is Some);
    }
    assert(order2.no_duplicates());
    assert(net.within(s, w as int, (du + 1) as nat)) by {
        assert(net.within(s, u, du as nat));
    }
    assert forall|i: int| 0 <= i < order2.len() implies (#[trigger] order2[i]) < depth2.len()
        && depth2[order2[i] as int] is Some && level(depth2, order2[i] as int) <= i by {
        if i < order.len() {
            assert(order2[i] == order[i]);
        }
    }
    assert forall|t: int| 0 <= t < depth2.len() && (#[trigger] depth2[t]) is Some implies order2.contains(
        t as usize,
    ) && net.within(s, t, level(depth2, t) as nat) && allowed(limit, level(depth2, t)) by {
        if t == w {
            assert(order2[order.len() as int] == w);
        } else {
            assert(depth[t] is Some);
            let i = order.index_of(t as usize);
            assert(order2[i] == t as usize);
        }
    }
    assert forall|i: int, j: int| 0 <= i <= j < order2.len() implies level(
        depth2,
        #[trigger] order2[i] as int,
    ) <= level(depth2, #[trigger] order2[j] as int) by {
        if j < order.len() {
            assert(order2[i] == order[i] && order2[j] == order[j]);
        } else if i < order.len() {
            assert(order2[i] == order[i]);
        }
    }
    assert forall|j: int| 0 <= j < order2.len() implies level(depth2, #[trigger] order2[j] as int)
        <= level(depth2, order2[head] as int) + 1 by {
        if j < order.len() {
            assert(order2[j] == order[j]);
        }
    }
    assert forall|i: int, t: int|
        0 <= i < head && expands(limit, level(depth2, order2[i] as int)) && #[trigger] net.adjacent(
            order2[i] as int,
            t,
        ) implies depth2[t] is Some && level(depth2, t) <= level(depth2, order2[i] as int) + 1 by {
        assert(order2[i] == order[i]);
        assert(net.adjacent(order[i] as int, t));
    }
}

/// Once every neighbour of the node at the head of the queue has been seen,
/// or the node lies at the limit, the node leaves the queue.
proof fn lemma_advance(
    net: Network,
    s: int,
    limit: Option<u32>,
    order: Seq<usize>,
    depth: Seq<Option<usize>>,
    head: int,
    nbrs: Seq<usize>,
)
    requires
        search_state(net, s, limit, order, depth, head),
        head < order.len(),
        expands(limit, level(depth, order[head] as int)) ==> nbrs == neighbor_order(
            net.links,
            order[head] as int,
        ) && forall|k: int|
            0 <= k < nbrs.len() ==> (#[trigger] nbrs[k]) < depth.len() && depth[nbrs[k] as int] is Some
                && level(depth, nbrs[k] as int) <= level(depth, order[head] as int) + 1,
    ensures
        search_state(net, s, limit, order, depth, head + 1),
{
    let u = order[head] as int;
    assert forall|i: int, t: int|
        0 <= i < head + 1 && expands(limit, level(depth, order[i] as int)) && #[trigger] net.adjacent(
            order[i] as int,
            t,
        ) implies depth[t] is Some && level(depth, t) <= level(depth, order[i] as int) + 1 by {
        if i == head {
            lemma_neighbor_members(net.links, u, t);
            let k = choose|k: int| 0 <= k < nbrs.len() && nbrs[k] == t;
            assert(nbrs[k] == t);
        }
    }
    if head + 1 < order.len() {
        assert forall|j: int| 0 <= j < order.len() implies level(depth, #[trigger] order[j] as int)
            <= level(depth, order[head + 1] as int) + 1 by {
            assert(level(depth, order[head] as int) <= level(depth, order[head + 1] as int));
        }
    }
}

/// When the queue is empty, every node within `k` edges of the source that
/// the limit allows has been found, at a depth of at most `k`.
proof fn lemma_exhausted(
    net: Network,
    s: int,
    limit: Option<u32>,
    order: Seq<usize>,
    depth: Seq<Option<usize>>,
    t: int,
    k: nat,
)
    requires
        search_state(net, s, limit, order, depth, order.len() as int),
        net.within(s, t, k),
        allowed(limit, k as int),
    ensures
        0 <= t < depth.len(),
        depth[t] is Some,
        level(depth, t) <= k,
    decreases k,
{
    lemma_within_nodes(net, s, t, k);
    if k == 0 {
        assert(order[0] == s);
        assert(level(depth, order[0] as int) <= 0);
    } else if net.within(s, t, (k - 1) as nat) {
        lemma_exhausted(net, s, limit, order, depth, t, (k - 1) as nat);
    } else {
        let u = choose|u: int| net.within(s, u, (k - 1) as nat) && #[trigger] net.adjacent(u, t);
        lemma_exhausted(net, s, limit, order, depth, u, (k - 1) as nat);
        assert(depth[u] is Some);
        let i = order.index_of(u as usize);
        assert(order[i] == u);
        assert(net.adjacent(order[i] as int, t));
    }
}

/// What an exhausted search has recorded is the traversal of what the
/// source reaches, and the recorded depths are the distances.
proof fn lemma_search_result(
    net: Network,
    s: int,
    limit: Option<u32>,
    order: Seq<usize>,
    depth: Seq<Option<usize>>,
    finder: Seq<int>,
)
    requires
        search_state(net, s, limit, order, depth, order.len() as int),
        found_in_turn(net, limit, order, depth, finder, order.len() as int),
    ensures
        net.is_traversal(s, limit, order),
        forall|t: int|
            0 <= t < depth.len() ==> match #[trigger] depth[t] {
                Some(d) => net.reaches(s, t, limit) && net.distance(s, t) == d && d < order.len(),
                None => !net.reaches(s, t, limit),
            },
{
    assert forall|t: int| 0 <= t < depth.len() && (#[trigger] depth[t]) is Some implies net.reaches(
        s,
        t,
        limit,
    ) && net.distance(s, t) == level(depth, t) && level(depth, t) < order.len() by {
        let d = level(depth, t) as nat;
        let at = order.index_of(t as usize);
        assert(order[at] == t);
        assert(net.within(s, t, d));
        if d > 0 && net.within(s, t, (d - 1) as nat) {
            lemma_exhausted(net, s, limit, order, depth, t, (d - 1) as nat);
        }
        lemma_distance_unique(net, s, t, d);
        match limit {
            Some(m) => {
                lemma_within_monotone(net, s, t, d, m as nat);
            },
            None => {},
        }
    }
    assert forall|t: int| net.reaches(s, t, limit) implies 0 <= t < depth.len() && depth[t] is Some by {
        match limit {
            Some(m) => {
                lemma_exhausted(net, s, limit, order, depth, t, m as nat);
            },
            None => {
                let k = choose|k: nat| net.within(s, t, k);
                lemma_exhausted(net, s, limit, order, depth, t, k);
            },
        }
    }
    assert forall|t: usize| order.contains(t) <==> net.reaches(s, t as int, limit) by {
        if order.contains(t) {
            let i = order.index_of(t);
            assert(order[i] == t);
            assert(depth[t as int] is Some);
        }
        if net.reaches(s, t as int, limit) {
            assert(depth[t as int] is Some);
        }
    }
    assert forall|i: int, j: int| 0 <= i <= j < order.len() implies net.distance(s, order[i] as int)
        <= net.distance(s, order[j] as int) by {
        assert(depth[order[i] as int] is Some);
        assert(depth[order[j] as int] is Some);
        assert(level(depth, order[i] as int) <= level(depth, order[j] as int));
    }
    assert forall|e: int| 0 <= e < order.len() implies net.distance(s, #[trigger] order[e] as int)
        == level(depth, order[e] as int) by {
        assert(depth[order[e] as int] is Some);
    }
    assert forall|j: int| 0 < j < order.len() implies net.finds(s, limit, order, #[trigger] finder[j], j) by {
        let k = finder[j];
        assert(net.adjacent(order[k] as int, order[j] as int));
        assert forall|e: int| 0 <= e < k implies !#[trigger] net.explores(
            s,
            limit,
            order[e] as int,
            order[j] as int,
        ) by {
            if net.adjacent(order[e] as int, order[j] as int) {
                assert(!expands(limit, level(depth, order[e] as int)));
            }
        }
    }
    assert forall|j: int| 0 < j < order.len() implies #[trigger] net.has_finder(s, limit, order, j) by {
        assert(net.finds(s, limit, order, finder[j], j));
    }
    assert forall|j: int, k: int| #[trigger] net.finds(s, limit, order, k, j) implies k == finder[j] by {
        let f = finder[j];
        assert(net.finds(s, limit, order, f, j));
        if k < f {
            assert(net.explores(s, limit, order[k] as int, order[j] as int));
            assert(net.adjacent(order[k] as int, order[j] as int));
        } else if f < k {
            assert(net.explores(s, limit, order[f] as int, order[j] as int));
        }
    }
    assert forall|i: int, j: int, a: int, b: int|
        0 < i < j < order.len() && #[trigger] net.finds(s, limit, order, a, i) && #[trigger] net.finds(
            s,
            limit,
            order,
            b,
            j,
        ) implies a < b || (a == b && precedes(
        neighbor_order(net.links, order[a] as int),
        order[i],
        order[j],
    )) by {
        assert(a == finder[i] && b == finder[j]);
    }
}

/// Searches the graph breadth first from the node `start`, going on from a
/// node only where it lies fewer than `limit` edges from `start`, or from
/// every node found where there is no limit.
pub fn explore(g: &Graph<u32, (), Undirected, u32>, start: usize, limit: Option<u32>) -> (found:
    Traversal)
    requires
        start < node_ids(*g).len(),
    ensures
        network(*g).is_traversal(start as int, limit, found.order@),
        found.order@.len() <= node_ids(*g).len(),
        found.depth@.len() == node_ids(*g).len(),
        forall|t: int|
            0 <= t < found.depth@.len() ==> match #[trigger] found.depth@[t] {
                Some(d) => network(*g).reaches(start as int, t, limit) && network(*g).distance(
                    start as int,
                    t,
                ) == d && d < found.order@.len(),
                None => !network(*g).reaches(start as int, t, limit),
            },
{
    let ghost net = network(*g);
    let ghost s = start as int;
    let n = node_count(g);
    let mut depth: Vec<Option<usize>> = Vec::new();
    let mut i: usize = 0;
    while i < n
        invariant
            i <= n,
            depth@.len() == i,
            forall|t: int| 0 <= t < i ==> (#[trigger] depth@[t]) is None,
        decreases n - i,
    {
        depth.push(None);
        i += 1;
    }
    let mut order: Vec<usize> = Vec::new();
    order.push(start);
    depth.set(start, Some(0));
    let mut head: usize = 0;
    let ghost mut finder: Seq<int> = seq![0int];
    proof {
        assert(order@[0] == start);
        assert(search_state(net, s, limit, order@, depth@, 0)) by {
            assert forall|t: int| 0 <= t < depth@.len() && (#[trigger] depth@[t]) is Some implies order@.contains(
                t as usize,
            ) && net.within(s, t, level(depth@, t) as nat) && allowed(limit, level(depth@, t)) by {
                assert(t == s);
                assert(order@[0] == t as usize);
            }
        }
    }
    while head < order.len()
        invariant
            net == network(*g),
            s == start as int,
            n == net.ids.len(),
            search_state(net, s, limit, order@, depth@, head as int),
            found_in_turn(net, limit, order@, depth@, finder, head - 1),
            order@.len() <= n,
        decreases n - head,
    {
        let u = order[head];
        let du = depth[u].unwrap();
        let open = match limit {
            Some(m) => du < m as usize,
            None => true,
        };
        let ghost mut seen_nbrs: Seq<usize> = Seq::empty();
        if open {
            let nbrs = neighbors(g, u);
            proof {
                seen_nbrs = nbrs@;
            }
            let mut j: usize = 0;
            while j < nbrs.len()
                invariant
                    net == network(*g),
                    s == start as int,
                    n == net.ids.len(),
                    search_state(net, s, limit, order@, depth@, head as int),
                    found_in_turn(net, limit, order@, depth@, finder, head as int),
                    found_among(order@, finder, head as int, nbrs@, j as int),
                    order@.len() <= n,
                    head < order@.len(),
                    order@[head as int] == u,
                    depth@[u as int] == Some(du),
                    expands(limit, du as int),
                    j <= nbrs@.len(),
                    nbrs@ == neighbor_order(net.links, u as int),
                    forall|k: int| 0 <= k < nbrs@.len() ==> (#[trigger] nbrs@[k]) < n,
                    forall|k: int|
                        0 <= k < j ==> depth@[(#[trigger] nbrs@[k]) as int] is Some && level(
                            depth@,
                            nbrs@[k] as int,
                        ) <= du + 1,
                decreases nbrs@.len() - j,
            {
                let w = nbrs[j];
                if depth[w].is_none() {
                    proof {
                        lemma_neighbor_members(net.links, u as int, w as int);
                        assert(nbrs@[j as int] == w);
                        assert(net.adjacent(u as int, w as int));
                        lemma_discover(net, s, limit, order@, depth@, head as int, w);
                        lemma_discover_in_turn(
                            net,
                            s,
                            limit,
                            order@,
                            depth@,
                            finder,
                            head as int,
                            nbrs@,
                            j as int,
                            w,
                        );
                        finder = finder.push(head as int);
                    }
                    depth.set(w, Some(du + 1));
                    order.push(w);
                    proof {
                        lemma_distinct_below(order@, n as nat);
                    }
                }
                j += 1;
            }
        }
        proof {
            lemma_advance(net, s, limit, order@, depth@, head as int, seen_nbrs);
        }
        head += 1;
    }
    proof {
        lemma_search_result(net, s, limit, order@, depth@, finder);
    }
    Traversal { order, depth }
}

} // verus!
