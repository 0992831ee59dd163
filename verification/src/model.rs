//! The mathematical model of a network: what a graph holds, which nodes are
//! joined, and how far one node is from another.

use vstd::prelude::*;
use crate::score::Score;

verus! {

/// What a graph holds: the external identifier of each node, by node index,
/// and the endpoints of each edge as node indices, in order of insertion.
pub struct Network {
    pub ids: Seq<u32>,
    pub links: Seq<(usize, usize)>,
}

/// Edge `e` joins the nodes `a` and `b`, in either direction.
pub open spec fn joins(e: (usize, usize), a: int, b: int) -> bool {
    (e.0 == a && e.1 == b) || (e.0 == b && e.1 == a)
}

/// No identifier stands twice in `ids`.
pub open spec fn distinct(ids: Seq<u32>) -> bool {
    forall|i: int, j: int| 0 <= i < ids.len() && 0 <= j < ids.len() && i != j ==> ids[i] != ids[j]
}

/// A list of lists as a sequence of sequences.
pub open spec fn rows<T>(lists: Seq<Vec<T>>) -> Seq<Seq<T>> {
    Seq::new(lists.len(), |c: int| lists[c]@)
}

/// A node found at depth `d` has its neighbours explored.
pub open spec fn expands(limit: Option<u32>, d: int) -> bool {
    match limit {
        Some(m) => d < m,
        None => true,
    }
}

/// In `list`, `a` stands before the first `b`.
pub open spec fn precedes(list: Seq<usize>, a: usize, b: usize) -> bool {
    exists|p: int|
        0 <= p < list.len() && #[trigger] list[p] == a && forall|q: int|
            0 <= q <= p ==> list[q] != b
}

/// Some part holds the item `t`.
pub open spec fn holds<T>(parts: Seq<Seq<T>>, t: T) -> bool {
    exists|c: int| 0 <= c < parts.len() && #[trigger] parts[c].contains(t)
}

impl Network {
    /// `a` is the index of a node.
    pub open spec fn has_node(self, a: int) -> bool {
        0 <= a < self.ids.len()
    }

    /// The nodes `a` and `b` exist and some edge joins them.
    pub open spec fn adjacent(self, a: int, b: int) -> bool {
        self.has_node(a) && self.has_node(b) && exists|k: int|
            0 <= k < self.links.len() && joins(#[trigger] self.links[k], a, b)
    }

    /// Node `t` can be reached from node `s` over at most `d` edges.
    pub open spec fn within(self, s: int, t: int, d: nat) -> bool
        decreases d,
    {
        if d == 0 {
            self.has_node(s) && t == s
        } else {
            self.within(s, t, (d - 1) as nat) || exists|u: int|
                self.within(s, u, (d - 1) as nat) && #[trigger] self.adjacent(u, t)
        }
    }

    /// Node `t` can be reached from node `s`.
    pub open spec fn connected(self, s: int, t: int) -> bool {
        exists|d: nat| self.within(s, t, d)
    }

    /// `t` can be reached from `s` over `d` edges and over no fewer.
    pub open spec fn at_distance(self, s: int, t: int, d: nat) -> bool {
        self.within(s, t, d) && (d == 0 || !self.within(s, t, (d - 1) as nat))
    }

    /// The least number of edges on a way from `s` to `t`; meaningful only
    /// where `t` can be reached from `s`.
    pub open spec fn distance(self, s: int, t: int) -> nat {
        choose|d: nat| self.at_distance(s, t, d)
    }

    /// Node `t` can be reached from node `s` over at most `limit` edges, or
    /// over any number of them where there is no limit.
    pub open spec fn reaches(self, s: int, t: int, limit: Option<u32>) -> bool {
        match limit {
            Some(m) => self.within(s, t, m as nat),
            None => self.connected(s, t),
        }
    }

    /// A search from `s` finds node `t` from node `u`: the two are
    /// adjacent, and `u` is near enough to `s` to have its neighbours
    /// explored.
    pub open spec fn explores(self, s: int, limit: Option<u32>, u: int, t: int) -> bool {
        self.adjacent(u, t) && expands(limit, self.distance(s, u) as int)
    }

    /// The node at place `j` of `order` is found from the node at place
    /// `k`, the first in `order` from which it can be found.
    pub open spec fn finds(
        self,
        s: int,
        limit: Option<u32>,
        order: Seq<usize>,
        k: int,
        j: int,
    ) -> bool {
        &&& 0 <= k < j < order.len()
        &&& self.explores(s, limit, order[k] as int, order[j] as int)
        &&& forall|e: int|
            0 <= e < k ==> !#[trigger] self.explores(s, limit, order[e] as int, order[j] as int)
    }

    /// The node at place `j` of `order` is found from a node before it.
    pub open spec fn has_finder(
        self,
        s: int,
        limit: Option<u32>,
        order: Seq<usize>,
        j: int,
    ) -> bool {
        exists|k: int| #[trigger] self.finds(s, limit, order, k, j)
    }

    /// The nodes stand in `order` as a queue hands them out: each but the
    /// first is found from one before it, a node found from an earlier
    /// node stands earlier, and those found from one node stand as the
    /// store lists them among its neighbours.
    pub open spec fn in_discovery_order(
        self,
        s: int,
        limit: Option<u32>,
        order: Seq<usize>,
    ) -> bool {
        &&& forall|j: int| 0 < j < order.len() ==> #[trigger] self.has_finder(s, limit, order, j)
        &&& forall|i: int, j: int, a: int, b: int|
            0 < i < j < order.len() && #[trigger] self.finds(s, limit, order, a, i)
                && #[trigger] self.finds(s, limit, order, b, j) ==> a < b || (a == b && precedes(
                neighbor_order(self.links, order[a] as int),
                order[i],
                order[j],
            ))
    }

    /// `order` lists the nodes that `s` reaches within `limit`, each once,
    /// `s` first, no node before one that is nearer to `s`, and all in the
    /// order of their discovery.
    pub open spec fn is_traversal(self, s: int, limit: Option<u32>, order: Seq<usize>) -> bool {
        &&& order.no_duplicates()
        &&& order.len() > 0 && order[0] == s
        &&& forall|t: usize| order.contains(t) <==> self.reaches(s, t as int, limit)
        &&& forall|i: int, j: int|
            0 <= i <= j < order.len() ==> self.distance(s, order[i] as int) <= self.distance(
                s,
                order[j] as int,
            )
        &&& self.in_discovery_order(s, limit, order)
    }

    /// The nodes that `s` reaches within `limit`.
    pub open spec fn reach_set(self, s: int, limit: Option<u32>) -> Set<int> {
        Set::new(|t: int| self.reaches(s, t, limit))
    }

    /// The number of nodes that `s` reaches within `limit`, itself included.
    pub open spec fn spread(self, s: int, limit: Option<u32>) -> nat {
        self.reach_set(s, limit).len()
    }

    /// The sum of the distances from `s` to the nodes below index `upto`
    /// that it reaches.
    pub open spec fn distance_sum(self, s: int, upto: nat) -> nat
        decreases upto,
    {
        if upto == 0 {
            0
        } else if self.connected(s, upto - 1) {
            self.distance_sum(s, (upto - 1) as nat) + self.distance(s, upto - 1)
        } else {
            self.distance_sum(s, (upto - 1) as nat)
        }
    }

    /// `score` is the closeness of node `s`: the number of other nodes that
    /// `s` reaches over the sum of its distances to them, which stands for
    /// zero where `s` reaches none.
    pub open spec fn is_closeness(self, s: int, score: Score) -> bool {
        &&& score.numer + 1 == self.spread(s, None)
        &&& score.denom == self.distance_sum(s, self.ids.len())
    }

    /// `i` is the last node that carries its identifier.
    pub open spec fn is_last_of_id(self, i: int) -> bool {
        &&& 0 <= i < self.ids.len()
        &&& forall|j: int| i < j < self.ids.len() ==> self.ids[j] != self.ids[i]
    }

    /// `i` is the first node that carries the identifier `id`.
    pub open spec fn is_node_of(self, id: u32, i: int) -> bool {
        &&& 0 <= i < self.ids.len()
        &&& self.ids[i] == id
        &&& forall|j: int| 0 <= j < i ==> self.ids[j] != id
    }

    /// Some node carries the identifier `id`.
    pub open spec fn carries(self, id: u32) -> bool {
        exists|i: int| 0 <= i < self.ids.len() && self.ids[i] == id
    }

    /// The first node that carries the identifier `id`; meaningful only
    /// where some node carries it.
    pub open spec fn node_of(self, id: u32) -> int {
        choose|i: int| self.is_node_of(id, i)
    }

    /// The identifiers of the nodes that `order` lists.
    pub open spec fn ids_along(self, order: Seq<usize>) -> Seq<u32> {
        Seq::new(order.len(), |i: int| self.ids[order[i] as int])
    }

    /// The identifiers of the nodes that each of the `parts` lists.
    pub open spec fn ids_of_parts(self, parts: Seq<Seq<usize>>) -> Seq<Seq<u32>> {
        Seq::new(parts.len(), |c: int| self.ids_along(parts[c]))
    }

    /// `parts` lists the connected groups of the network: each part is the
    /// traversal of all that its first node reaches, no node lies in two
    /// parts, every node lies in one, the first node of a part has the
    /// least index in it, and the parts stand in the order of those indices.
    pub open spec fn is_partition(self, parts: Seq<Seq<usize>>) -> bool {
        &&& forall|c: int|
            0 <= c < parts.len() ==> (#[trigger] parts[c]).len() > 0 && self.is_traversal(
                parts[c][0] as int,
                None,
                parts[c],
            )
        &&& forall|c: int, t: usize|
            0 <= c < parts.len() && #[trigger] parts[c].contains(t) ==> parts[c][0] <= t
        &&& forall|c: int, e: int|
            0 <= c < e < parts.len() ==> (#[trigger] parts[c])[0] < (#[trigger] parts[e])[0]
        &&& forall|c: int, e: int, t: usize|
            0 <= c < parts.len() && 0 <= e < parts.len() && #[trigger] parts[c].contains(t)
                && #[trigger] parts[e].contains(t) ==> c == e
        &&& forall|t: usize| t < self.ids.len() ==> #[trigger] holds(parts, t)
    }

    /// No two nodes carry the same identifier.
    pub open spec fn distinct_ids(self) -> bool {
        distinct(self.ids)
    }
}

/// What can be reached over at most `a` edges can be reached over at most
/// `b`, where `a` is at most `b`.
pub proof fn lemma_within_monotone(net: Network, s: int, t: int, a: nat, b: nat)
    requires
        net.within(s, t, a),
        a <= b,
    ensures
        net.within(s, t, b),
    decreases b,
{
    if a < b {
        lemma_within_monotone(net, s, t, a, (b - 1) as nat);
    }
}

/// Only nodes reach and are reached.
pub proof fn lemma_within_nodes(net: Network, s: int, t: int, d: nat)
    requires
        net.within(s, t, d),
    ensures
        net.has_node(s),
        net.has_node(t),
    decreases d,
{
    if d > 0 {
        if net.within(s, t, (d - 1) as nat) {
            lemma_within_nodes(net, s, t, (d - 1) as nat);
        } else {
            let u = choose|u: int| net.within(s, u, (d - 1) as nat) && #[trigger] net.adjacent(u, t);
            lemma_within_nodes(net, s, u, (d - 1) as nat);
        }
    }
}

/// Who reaches a node reaches what that node reaches, over the two ways
/// one after the other.
pub proof fn lemma_within_join(net: Network, a: int, b: int, c: int, d1: nat, d2: nat)
    requires
        net.within(a, b, d1),
        net.within(b, c, d2),
    ensures
        net.within(a, c, d1 + d2),
    decreases d2,
{
    if d2 > 0 {
        if net.within(b, c, (d2 - 1) as nat) {
            lemma_within_join(net, a, b, c, d1, (d2 - 1) as nat);
        } else {
            let u = choose|u: int| net.within(b, u, (d2 - 1) as nat) && #[trigger] net.adjacent(u, c);
            lemma_within_join(net, a, b, u, d1, (d2 - 1) as nat);
            assert(net.adjacent(u, c));
        }
    }
}

/// Adjacency goes both ways.
pub proof fn lemma_adjacent_symmetric(net: Network, a: int, b: int)
    requires
        net.adjacent(a, b),
    ensures
        net.adjacent(b, a),
{
    let k = choose|k: int| 0 <= k < net.links.len() && joins(#[trigger] net.links[k], a, b);
    assert(joins(net.links[k], b, a));
}

/// A way from one node to another is a way back.
pub proof fn lemma_within_symmetric(net: Network, a: int, b: int, d: nat)
    requires
        net.within(a, b, d),
    ensures
        net.within(b, a, d),
    decreases d,
{
    if d > 0 {
        if net.within(a, b, (d - 1) as nat) {
            lemma_within_symmetric(net, a, b, (d - 1) as nat);
        } else {
            let u = choose|u: int| net.within(a, u, (d - 1) as nat) && #[trigger] net.adjacent(u, b);
            lemma_within_symmetric(net, a, u, (d - 1) as nat);
            lemma_adjacent_symmetric(net, u, b);
            assert(net.within(b, b, 0));
            assert(net.within(b, u, 1));
            lemma_within_join(net, b, u, a, 1, (d - 1) as nat);
        }
    }
}

/// Being connected goes both ways.
pub proof fn lemma_connected_symmetric(net: Network, a: int, b: int)
    requires
        net.connected(a, b),
    ensures
        net.connected(b, a),
{
    let d = choose|d: nat| net.within(a, b, d);
    lemma_within_symmetric(net, a, b, d);
}

/// Being connected carries over a node in between.
pub proof fn lemma_connected_transitive(net: Network, a: int, b: int, c: int)
    requires
        net.connected(a, b),
        net.connected(b, c),
    ensures
        net.connected(a, c),
{
    let d1 = choose|d: nat| net.within(a, b, d);
    let d2 = choose|d: nat| net.within(b, c, d);
    lemma_within_join(net, a, b, c, d1, d2);
}

/// A traversal is as long as the number of nodes that its source reaches.
pub proof fn lemma_traversal_len(net: Network, s: int, limit: Option<u32>, order: Seq<usize>)
    requires
        net.is_traversal(s, limit, order),
        net.ids.len() <= usize::MAX,
    ensures
        net.reach_set(s, limit).finite(),
        order.len() == net.spread(s, limit),
{
    let ints = order.map_values(|t: usize| t as int);
    assert(ints.no_duplicates()) by {
        assert forall|i: int, j: int| 0 <= i < ints.len() && 0 <= j < ints.len() && i != j implies ints[i]
            != ints[j] by {
            assert(order[i] != order[j]);
        }
    }
    assert(ints.to_set() =~= net.reach_set(s, limit)) by {
        assert forall|t: int| ints.to_set().contains(t) <==> net.reach_set(s, limit).contains(t) by {
            if ints.to_set().contains(t) {
                let i = choose|i: int| 0 <= i < ints.len() && ints[i] == t;
                assert(order.contains(order[i]));
            }
            if net.reaches(s, t, limit) {
                lemma_reaches_nodes(net, s, t, limit);
                assert(order.contains(t as usize));
                let i = order.index_of(t as usize);
                assert(ints[i] == t);
            }
        }
    }
    ints.unique_seq_to_set();
}

/// Only nodes reach and are reached.
pub proof fn lemma_reaches_nodes(net: Network, s: int, t: int, limit: Option<u32>)
    requires
        net.reaches(s, t, limit),
    ensures
        net.has_node(s),
        net.has_node(t),
{
    match limit {
        Some(m) => {
            lemma_within_nodes(net, s, t, m as nat);
        },
        None => {
            let d = choose|d: nat| net.within(s, t, d);
            lemma_within_nodes(net, s, t, d);
        },
    }
}

/// The nodes of a traversal are nodes of the network.
pub proof fn lemma_traversal_nodes(net: Network, s: int, limit: Option<u32>, order: Seq<usize>)
    requires
        net.is_traversal(s, limit, order),
    ensures
        forall|i: int| 0 <= i < order.len() ==> (#[trigger] order[i]) < net.ids.len(),
{
    assert forall|i: int| 0 <= i < order.len() implies (#[trigger] order[i]) < net.ids.len() by {
        assert(order.contains(order[i]));
        lemma_reaches_nodes(net, s, order[i] as int, limit);
    }
}

/// The first node that carries an identifier is the node of that
/// identifier.
pub proof fn lemma_node_of(net: Network, id: u32, i: int)
    requires
        net.is_node_of(id, i),
    ensures
        net.carries(id),
        net.node_of(id) == i,
{
    let j = net.node_of(id);
    assert(net.is_node_of(id, j));
}

/// A node that can be reached has a distance, and nothing reaches it over
/// fewer edges.
pub proof fn lemma_distance(net: Network, s: int, t: int, d: nat)
    requires
        net.within(s, t, d),
    ensures
        net.at_distance(s, t, net.distance(s, t)),
        net.distance(s, t) <= d,
    decreases d,
{
    if d > 0 && net.within(s, t, (d - 1) as nat) {
        lemma_distance(net, s, t, (d - 1) as nat);
    } else {
        assert(net.at_distance(s, t, d));
        let e = net.distance(s, t);
        if e > d {
            lemma_within_monotone(net, s, t, d, (e - 1) as nat);
        }
    }
}

/// The distance is the one number of edges over which a node is reached
/// and over no fewer.
pub proof fn lemma_distance_unique(net: Network, s: int, t: int, d: nat)
    requires
        net.at_distance(s, t, d),
    ensures
        net.distance(s, t) == d,
{
    lemma_distance(net, s, t, d);
    let e = net.distance(s, t);
    if e < d {
        lemma_within_monotone(net, s, t, e, (d - 1) as nat);
    }
}

/// The far ends of the edges that were inserted with `a` as their first
/// endpoint, latest edge first.
pub open spec fn outgoing(links: Seq<(usize, usize)>, a: int) -> Seq<usize>
    decreases links.len(),
{
    if links.len() == 0 {
        Seq::empty()
    } else if links.last().0 == a {
        seq![links.last().1] + outgoing(links.drop_last(), a)
    } else {
        outgoing(links.drop_last(), a)
    }
}

/// The far ends of the edges that were inserted with `a` as their second
/// endpoint, latest edge first; an edge from `a` to itself is left out.
pub open spec fn incoming(links: Seq<(usize, usize)>, a: int) -> Seq<usize>
    decreases links.len(),
{
    if links.len() == 0 {
        Seq::empty()
    } else if links.last().1 == a && links.last().0 != a {
        seq![links.last().0] + incoming(links.drop_last(), a)
    } else {
        incoming(links.drop_last(), a)
    }
}

/// The neighbours of node `a` in the order in which the store lists them:
/// first over the edges that start at `a`, then over those that end there.
pub open spec fn neighbor_order(links: Seq<(usize, usize)>, a: int) -> Seq<usize> {
    outgoing(links, a) + incoming(links, a)
}

pub proof fn lemma_outgoing_members(links: Seq<(usize, usize)>, a: int, b: int)
    ensures
        (exists|i: int| 0 <= i < outgoing(links, a).len() && outgoing(links, a)[i] == b) <==> (
        exists|k: int| 0 <= k < links.len() && (#[trigger] links[k]).0 == a && links[k].1 == b),
    decreases links.len(),
{
    if links.len() > 0 {
        let front = links.drop_last();
        let rest = outgoing(front, a);
        let all = outgoing(links, a);
        let last = links.len() - 1;
        lemma_outgoing_members(front, a, b);
        if exists|i: int| 0 <= i < all.len() && all[i] == b {
            let i = choose|i: int| 0 <= i < all.len() && all[i] == b;
            if links.last().0 == a && i == 0 {
                assert(links[last].0 == a && links[last].1 == b);
            } else {
                let j = if links.last().0 == a { i - 1 } else { i };
                assert(rest[j] == b);
                let k = choose|k: int|
                0 <= k < front.len() && (#[trigger] front[k]).0 == a && front[k].1 == b;
                assert(links[k].0 == a && links[k].1 == b);
            }
        }
        if exists|k: int| 0 <= k < links.len() && (#[trigger] links[k]).0 == a && links[k].1 == b {
            let k = choose|k: int|
                0 <= k < links.len() && (#[trigger] links[k]).0 == a && links[k].1 == b;
            if k == last {
                assert(all[0] == b);
            } else {
                assert(front[k].0 == a && front[k].1 == b);
                let j = choose|j: int| 0 <= j < rest.len() && rest[j] == b;
                if links.last().0 == a {
                    assert(all[j + 1] == b);
                } else {
                    assert(all[j] == b);
                }
            }
        }
    }
}

pub proof fn lemma_incoming_members(links: Seq<(usize, usize)>, a: int, b: int)
    ensures
        (exists|i: int| 0 <= i < incoming(links, a).len() && incoming(links, a)[i] == b) <==> (b
            != a && exists|k: int|
            0 <= k < links.len() && (#[trigger] links[k]).1 == a && links[k].0 == b),
    decreases links.len(),
{
    if links.len() > 0 {
        let front = links.drop_last();
        let rest = incoming(front, a);
        let all = incoming(links, a);
        let last = links.len() - 1;
        let takes = links.last().1 == a && links.last().0 != a;
        lemma_incoming_members(front, a, b);
        if exists|i: int| 0 <= i < all.len() && all[i] == b {
            let i = choose|i: int| 0 <= i < all.len() && all[i] == b;
            if takes && i == 0 {
                assert(links[last].1 == a && links[last].0 == b);
            } else {
                let j = if takes { i - 1 } else { i };
                assert(rest[j] == b);
                let k = choose|k: int|
                0 <= k < front.len() && (#[trigger] front[k]).1 == a && front[k].0 == b;
                assert(links[k].1 == a && links[k].0 == b);
            }
        }
        if b != a && exists|k: int| 0 <= k < links.len() && (#[trigger] links[k]).1 == a && links[k].0 == b {
            let k = choose|k: int|
                0 <= k < links.len() && (#[trigger] links[k]).1 == a && links[k].0 == b;
            if k == last {
                assert(all[0] == b);
            } else {
                assert(front[k].1 == a && front[k].0 == b);
                let j = choose|j: int| 0 <= j < rest.len() && rest[j] == b;
                if takes {
                    assert(all[j + 1] == b);
                } else {
                    assert(all[j] == b);
                }
            }
        }
    }
}

/// The store lists `b` among the neighbours of `a` exactly if some edge
/// joins the two.
pub proof fn lemma_neighbor_members(links: Seq<(usize, usize)>, a: int, b: int)
    ensures
        (exists|i: int| 0 <= i < neighbor_order(links, a).len() && neighbor_order(links, a)[i] == b)
            <==> (exists|k: int| 0 <= k < links.len() && joins(#[trigger] links[k], a, b)),
{
    let out = outgoing(links, a);
    let inc = incoming(links, a);
    let all = neighbor_order(links, a);
    lemma_outgoing_members(links, a, b);
    lemma_incoming_members(links, a, b);
    if exists|i: int| 0 <= i < all.len() && all[i] == b {
        let i = choose|i: int| 0 <= i < all.len() && all[i] == b;
        if i < out.len() {
            assert(out[i] == b);
            let k = choose|k: int|
                0 <= k < links.len() && (#[trigger] links[k]).0 == a && links[k].1 == b;
            assert(joins(links[k], a, b));
        } else {
            assert(inc[i - out.len()] == b);
            let k = choose|k: int|
                0 <= k < links.len() && (#[trigger] links[k]).1 == a && links[k].0 == b;
            assert(joins(links[k], a, b));
        }
    }
    if exists|k: int| 0 <= k < links.len() && joins(#[trigger] links[k], a, b) {
        let k = choose|k: int| 0 <= k < links.len() && joins(#[trigger] links[k], a, b);
        if links[k].0 == a && links[k].1 == b {
            let i = choose|i: int| 0 <= i < out.len() && out[i] == b;
            assert(all[i] == b);
        } else {
            assert(links[k].1 == a && links[k].0 == b);
            assert(b != a);
            let i = choose|i: int| 0 <= i < inc.len() && inc[i] == b;
            assert(all[out.len() + i] == b);
        }
    }
}

} // verus!
