//! What holds of every network: the laws that relate the searches, the
//! connected groups and the closeness scores.

use vstd::prelude::*;
use vstd::set_lib::lemma_int_range;
use vstd::set_lib::lemma_len_subset;
use vstd::set_lib::set_int_range;
use crate::model::holds;
use crate::model::lemma_connected_symmetric;
use crate::model::lemma_connected_transitive;
use crate::model::lemma_distance;
use crate::model::lemma_distance_unique;
use crate::model::lemma_reaches_nodes;
use crate::model::lemma_within_monotone;
use crate::model::neighbor_order;
use crate::model::precedes;
use crate::model::Network;
use crate::score::Score;

verus! {

/// An identifier that stands among the first `upto` has a first node.
proof fn lemma_first_carrier(net: Network, id: u32, upto: int)
    requires
        0 <= upto <= net.ids.len(),
        exists|i: int| 0 <= i < upto && net.ids[i] == id,
    ensures
        exists|i: int| net.is_node_of(id, i),
    decreases upto,
{
    if exists|i: int| 0 <= i < upto - 1 && net.ids[i] == id {
        lemma_first_carrier(net, id, upto - 1);
    } else {
        assert(net.is_node_of(id, upto - 1));
    }
}

/// An identifier that the network carries has its node, the first that
/// carries it.
pub proof fn law_carried_identifier_has_its_node(net: Network, id: u32)
    requires
        net.carries(id),
    ensures
        net.is_node_of(id, net.node_of(id)),
{
    lemma_first_carrier(net, id, net.ids.len() as int);
}

/// The connected groups partition the nodes: every node stands in the
/// parts, nothing but nodes stands there, and no node stands there twice,
/// neither in two parts nor at two places of one.
pub proof fn law_components_partition(net: Network, parts: Seq<Seq<usize>>)
    requires
        net.is_partition(parts),
    ensures
        forall|t: usize| t < net.ids.len() ==> #[trigger] holds(parts, t),
        forall|c: int, i: int|
            0 <= c < parts.len() && 0 <= i < parts[c].len() ==> #[trigger] parts[c][i]
                < net.ids.len(),
        forall|c: int, i: int, e: int, j: int|
            0 <= c < parts.len() && 0 <= i < parts[c].len() && 0 <= e < parts.len() && 0 <= j
                < parts[e].len() && #[trigger] parts[c][i] == #[trigger] parts[e][j] ==> c == e
                && i == j,
{
    assert forall|c: int, i: int|
        0 <= c < parts.len() && 0 <= i < parts[c].len() implies #[trigger] parts[c][i]
        < net.ids.len() by {
        assert(parts[c].contains(parts[c][i]));
        lemma_reaches_nodes(net, parts[c][0] as int, parts[c][i] as int, None);
    }
    assert forall|c: int, i: int, e: int, j: int|
        0 <= c < parts.len() && 0 <= i < parts[c].len() && 0 <= e < parts.len() && 0 <= j
            < parts[e].len() && #[trigger] parts[c][i] == #[trigger] parts[e][j] implies c == e
        && i == j by {
        assert(parts[c].contains(parts[c][i]));
        assert(parts[e].contains(parts[c][i]));
    }
}

/// Two nodes stand in one part exactly if they are connected.
pub proof fn law_components_are_the_connected_groups(
    net: Network,
    parts: Seq<Seq<usize>>,
    c: int,
    a: usize,
    b: usize,
)
    requires
        net.is_partition(parts),
        0 <= c < parts.len(),
        parts[c].contains(a),
    ensures
        parts[c].contains(b) <==> net.connected(a as int, b as int),
{
    let seed = parts[c][0] as int;
    assert(net.reaches(seed, a as int, None));
    lemma_connected_symmetric(net, seed, a as int);
    if parts[c].contains(b) {
        assert(net.reaches(seed, b as int, None));
        lemma_connected_transitive(net, a as int, seed, b as int);
    }
    if net.connected(a as int, b as int) {
        lemma_connected_transitive(net, seed, a as int, b as int);
        assert(net.reaches(seed, b as int, None));
    }
}

/// Where no two nodes carry one identifier, every identifier of the
/// network stands in the components, and none stands there twice.
pub proof fn law_component_ids_partition(net: Network, parts: Seq<Seq<usize>>)
    requires
        net.is_partition(parts),
        net.distinct_ids(),
        net.ids.len() <= usize::MAX,
    ensures
        forall|id: u32| net.carries(id) ==> #[trigger] holds(net.ids_of_parts(parts), id),
        forall|c: int, i: int, e: int, j: int|
            0 <= c < parts.len() && 0 <= i < parts[c].len() && 0 <= e < parts.len() && 0 <= j
                < parts[e].len() && #[trigger] net.ids_of_parts(parts)[c][i]
                == #[trigger] net.ids_of_parts(parts)[e][j] ==> c == e && i == j,
{
    law_components_partition(net, parts);
    let named = net.ids_of_parts(parts);
    assert forall|id: u32| net.carries(id) implies #[trigger] holds(named, id) by {
        let t = choose|t: int| 0 <= t < net.ids.len() && net.ids[t] == id;
        assert(holds(parts, t as usize));
        let c = choose|c: int| 0 <= c < parts.len() && #[trigger] parts[c].contains(t as usize);
        let i = parts[c].index_of(t as usize);
        assert(named[c][i] == id);
        assert(named[c].contains(id));
    }
    assert forall|c: int, i: int, e: int, j: int|
        0 <= c < parts.len() && 0 <= i < parts[c].len() && 0 <= e < parts.len() && 0 <= j
            < parts[e].len() && #[trigger] named[c][i] == #[trigger] named[e][j] implies c == e
        && i == j by {
        assert(parts[c][i] < net.ids.len());
        assert(parts[e][j] < net.ids.len());
        assert(parts[c][i] == parts[e][j]);
    }
}

/// The full search from a node finds the nodes of the part in which the
/// node stands, and no others.
pub proof fn law_full_search_finds_the_component(
    net: Network,
    parts: Seq<Seq<usize>>,
    c: int,
    v: usize,
    order: Seq<usize>,
    t: usize,
)
    requires
        net.is_partition(parts),
        0 <= c < parts.len(),
        parts[c].contains(v),
        net.is_traversal(v as int, None, order),
    ensures
        order.contains(t) <==> parts[c].contains(t),
        order[0] == v,
        order.no_duplicates(),
{
    law_components_are_the_connected_groups(net, parts, c, v, t);
    assert(order.contains(t) <==> net.reaches(v as int, t as int, None));
}

/// Two traversals from one node within one limit are as long as each
/// other.
proof fn lemma_traversals_as_long(
    net: Network,
    s: int,
    limit: Option<u32>,
    first: Seq<usize>,
    second: Seq<usize>,
)
    requires
        net.is_traversal(s, limit, first),
        net.is_traversal(s, limit, second),
    ensures
        first.len() == second.len(),
{
    first.unique_seq_to_set();
    second.unique_seq_to_set();
    assert(first.to_set() =~= second.to_set());
}

/// Two traversals from one node within one limit agree on their first
/// `upto` places.
proof fn lemma_traversals_agree(
    net: Network,
    s: int,
    limit: Option<u32>,
    first: Seq<usize>,
    second: Seq<usize>,
    upto: int,
)
    requires
        net.is_traversal(s, limit, first),
        net.is_traversal(s, limit, second),
        0 <= upto <= first.len(),
    ensures
        forall|i: int| 0 <= i < upto ==> first[i] == second[i],
    decreases upto,
{
    lemma_traversals_as_long(net, s, limit, first, second);
    if upto > 1 {
        let m = upto - 1;
        lemma_traversals_agree(net, s, limit, first, second, m);
        let x = first[m];
        let y = second[m];
        if x != y {
            assert(first.contains(x));
            assert(second.contains(y));
            assert(net.reaches(s, x as int, limit));
            assert(net.reaches(s, y as int, limit));
            assert(second.contains(x));
            assert(first.contains(y));
            let px = second.index_of(x);
            let py = first.index_of(y);
            assert(px > m) by {
                if px < m {
                    assert(first[px] == first[m]);
                }
            }
            assert(py > m) by {
                if py < m {
                    assert(second[py] == second[m]);
                }
            }
            assert(net.has_finder(s, limit, first, m));
            assert(net.has_finder(s, limit, second, m));
            let ka = choose|k: int| #[trigger] net.finds(s, limit, first, k, m);
            let kb = choose|k: int| #[trigger] net.finds(s, limit, second, k, m);
            assert(net.finds(s, limit, second, ka, px)) by {
                assert(second[ka] == first[ka]);
                assert forall|e: int| 0 <= e < ka implies !#[trigger] net.explores(
                    s,
                    limit,
                    second[e] as int,
                    second[px] as int,
                ) by {
                    assert(second[e] == first[e]);
                    assert(!net.explores(s, limit, first[e] as int, first[m] as int));
                }
            }
            assert(net.finds(s, limit, first, kb, py)) by {
                assert(second[kb] == first[kb]);
                assert forall|e: int| 0 <= e < kb implies !#[trigger] net.explores(
                    s,
                    limit,
                    first[e] as int,
                    first[py] as int,
                ) by {
                    assert(second[e] == first[e]);
                    assert(!net.explores(s, limit, second[e] as int, second[m] as int));
                }
            }
            assert(second[ka] == first[ka]);
            assert(ka == kb);
            let listed = neighbor_order(net.links, first[ka] as int);
            assert(precedes(listed, x, y));
            assert(precedes(listed, y, x));
            let p = choose|p: int|
                0 <= p < listed.len() && #[trigger] listed[p] == x && forall|q: int|
                    0 <= q <= p ==> listed[q] != y;
            let r = choose|r: int|
                0 <= r < listed.len() && #[trigger] listed[r] == y && forall|q: int|
                    0 <= q <= r ==> listed[q] != x;
            if p <= r {
                assert(listed[p] != x);
            } else {
                assert(listed[r] != y);
            }
        }
    }
}

/// There is one traversal from a node within a limit: the order of
/// discovery leaves nothing open.
pub proof fn law_traversal_is_unique(
    net: Network,
    s: int,
    limit: Option<u32>,
    first: Seq<usize>,
    second: Seq<usize>,
)
    requires
        net.is_traversal(s, limit, first),
        net.is_traversal(s, limit, second),
    ensures
        first == second,
{
    lemma_traversals_as_long(net, s, limit, first, second);
    lemma_traversals_agree(net, s, limit, first, second, first.len() as int);
    assert(first =~= second);
}

/// Two lists of the connected groups agree on their first `upto` parts.
proof fn lemma_partitions_agree(
    net: Network,
    first: Seq<Seq<usize>>,
    second: Seq<Seq<usize>>,
    upto: int,
)
    requires
        net.is_partition(first),
        net.is_partition(second),
        0 <= upto <= first.len(),
        upto <= second.len(),
    ensures
        forall|c: int| 0 <= c < upto ==> first[c] == second[c],
    decreases upto,
{
    if upto > 0 {
        let c = upto - 1;
        lemma_partitions_agree(net, first, second, c);
        lemma_same_seed(net, first, second, c);
        lemma_same_seed(net, second, first, c);
        law_traversal_is_unique(net, first[c][0] as int, None, first[c], second[c]);
    }
}

/// Where two lists of the connected groups agree on their first `c` parts,
/// the next part of the first starts no earlier than that of the second.
proof fn lemma_same_seed(net: Network, first: Seq<Seq<usize>>, second: Seq<Seq<usize>>, c: int)
    requires
        net.is_partition(first),
        net.is_partition(second),
        0 <= c < first.len(),
        c < second.len(),
        forall|e: int| 0 <= e < c ==> first[e] == second[e],
    ensures
        second[c][0] <= first[c][0],
{
    let p = first[c][0];
    assert(first[c].contains(p));
    lemma_reaches_nodes(net, p as int, p as int, None);
    assert(holds(second, p));
    let e = choose|e: int| 0 <= e < second.len() && #[trigger] second[e].contains(p);
    if e < c {
        assert(first[e].contains(p));
    } else if e > c {
        assert(second[c][0] < second[e][0]);
    }
}

/// There is one list of the connected groups of a network.
pub proof fn law_partition_is_unique(net: Network, first: Seq<Seq<usize>>, second: Seq<Seq<usize>>)
    requires
        net.is_partition(first),
        net.is_partition(second),
    ensures
        first == second,
{
    if first.len() <= second.len() {
        lemma_partitions_agree(net, first, second, first.len() as int);
        lemma_no_further_part(net, first, second);
    } else {
        lemma_partitions_agree(net, first, second, second.len() as int);
        assert forall|c: int| 0 <= c < second.len() implies second[c] == first[c] by {}
        lemma_no_further_part(net, second, first);
    }
    assert(first =~= second);
}

/// A list of the connected groups that begins with a whole such list has
/// no further part.
proof fn lemma_no_further_part(net: Network, whole: Seq<Seq<usize>>, longer: Seq<Seq<usize>>)
    requires
        net.is_partition(whole),
        net.is_partition(longer),
        whole.len() <= longer.len(),
        forall|c: int| 0 <= c < whole.len() ==> whole[c] == longer[c],
    ensures
        whole.len() == longer.len(),
{
    if whole.len() < longer.len() {
        let next = whole.len() as int;
        let q = longer[next][0];
        assert(longer[next].contains(q));
        lemma_reaches_nodes(net, q as int, q as int, None);
        assert(holds(whole, q));
        let e = choose|e: int| 0 <= e < whole.len() && #[trigger] whole[e].contains(q);
        assert(longer[e].contains(q));
    }
}

/// More steps reach no fewer nodes: what a search finds within `fewer`
/// steps, a search from the same node within `more` steps finds too.
pub proof fn law_search_grows_with_steps(
    net: Network,
    s: int,
    fewer: u32,
    more: u32,
    first: Seq<usize>,
    second: Seq<usize>,
)
    requires
        fewer <= more,
        net.is_traversal(s, Some(fewer), first),
        net.is_traversal(s, Some(more), second),
    ensures
        forall|t: usize| first.contains(t) ==> second.contains(t),
        first.len() <= second.len(),
{
    assert forall|t: usize| first.contains(t) implies second.contains(t) by {
        assert(net.reaches(s, t as int, Some(fewer)));
        lemma_within_monotone(net, s, t as int, fewer as nat, more as nat);
        assert(net.reaches(s, t as int, Some(more)));
    }
    first.unique_seq_to_set();
    second.unique_seq_to_set();
    assert(first.to_set().subset_of(second.to_set()));
    lemma_len_subset(first.to_set(), second.to_set());
}

/// The number of nodes within reach does not fall as the steps grow, and
/// never exceeds the number reached without a limit.
pub proof fn law_spread_grows_with_steps(net: Network, s: int, fewer: u32, more: u32)
    requires
        fewer <= more,
    ensures
        net.spread(s, Some(fewer)) <= net.spread(s, Some(more)),
        net.spread(s, Some(more)) <= net.spread(s, None),
        net.spread(s, None) <= net.ids.len(),
{
    let all = set_int_range(0, net.ids.len() as int);
    lemma_int_range(0, net.ids.len() as int);
    assert forall|t: int| net.reach_set(s, None).contains(t) implies all.contains(t) by {
        lemma_reaches_nodes(net, s, t, None);
    }
    lemma_len_subset(net.reach_set(s, None), all);
    assert forall|t: int| net.reach_set(s, Some(more)).contains(t) implies net.reach_set(
        s,
        None,
    ).contains(t) by {
        assert(net.within(s, t, more as nat));
    }
    lemma_len_subset(net.reach_set(s, Some(more)), net.reach_set(s, None));
    assert forall|t: int| net.reach_set(s, Some(fewer)).contains(t) implies net.reach_set(
        s,
        Some(more),
    ).contains(t) by {
        lemma_within_monotone(net, s, t, fewer as nat, more as nat);
    }
    lemma_len_subset(net.reach_set(s, Some(fewer)), net.reach_set(s, Some(more)));
}

/// A search over no step finds the source and nothing else.
pub proof fn law_search_of_zero_steps(net: Network, s: int, order: Seq<usize>)
    requires
        net.is_traversal(s, Some(0), order),
    ensures
        order =~= seq![s as usize],
{
    if order.len() > 1 {
        assert(order.contains(order[1]));
        assert(net.reaches(s, order[1] as int, Some(0)));
        assert(order[1] == order[0]);
    }
}

/// The nodes below index `upto` that `s` reaches.
pub open spec fn reached_below(net: Network, s: int, upto: int) -> Set<int> {
    Set::new(|t: int| t < upto && net.connected(s, t))
}

/// Every node that `s` reaches, but `s` itself, lies at a distance of one
/// at least: the sum of the distances is no less than the number of those
/// nodes. Where each of them is adjacent to `s`, it is that number.
proof fn lemma_distances_and_counts(net: Network, s: int, upto: nat)
    requires
        net.has_node(s),
        upto <= net.ids.len(),
    ensures
        reached_below(net, s, upto as int).finite(),
        net.distance_sum(s, upto) + (if s < upto { 1int } else { 0 }) >= reached_below(
            net,
            s,
            upto as int,
        ).len(),
        (forall|t: int| net.connected(s, t) && t != s ==> net.adjacent(s, t))
            ==> net.distance_sum(s, upto) + (if s < upto { 1int } else { 0 }) == reached_below(
            net,
            s,
            upto as int,
        ).len(),
    decreases upto,
{
    if upto == 0 {
        assert forall|t: int| !reached_below(net, s, 0).contains(t) by {
            if net.connected(s, t) {
                lemma_reaches_nodes(net, s, t, None);
            }
        }
        assert(reached_below(net, s, 0) =~= Set::empty());
    } else {
        let k = upto - 1;
        lemma_distances_and_counts(net, s, k as nat);
        let before = reached_below(net, s, k);
        let now = reached_below(net, s, upto as int);
        if net.connected(s, k) {
            assert(now =~= before.insert(k));
            let d = choose|d: nat| net.within(s, k, d);
            lemma_distance(net, s, k, d);
            if k == s {
                assert(net.within(s, s, 0));
                lemma_distance(net, s, s, 0);
            } else {
                assert(!net.within(s, k, 0));
                if net.adjacent(s, k) {
                    assert(net.within(s, s, 0));
                    assert(net.within(s, k, 1));
                    lemma_distance_unique(net, s, k, 1);
                }
            }
        } else {
            assert(now =~= before);
            assert(k != s) by {
                assert(net.within(s, s, 0));
            }
        }
    }
}

/// The sum of the distances from a node to those that it reaches is no
/// less than the number of the others among them: the closeness of a node
/// lies between zero and one.
pub proof fn law_closeness_at_most_one(net: Network, s: int, score: Score)
    requires
        net.has_node(s),
        net.is_closeness(s, score),
    ensures
        0 <= score.top() <= score.bottom(),
{
    lemma_distances_and_counts(net, s, net.ids.len());
    assert(reached_below(net, s, net.ids.len() as int) =~= net.reach_set(s, None)) by {
        assert forall|t: int| net.connected(s, t) implies t < net.ids.len() by {
            lemma_reaches_nodes(net, s, t, None);
        }
    }
    assert(net.reach_set(s, None).contains(s)) by {
        assert(net.within(s, s, 0));
    }
}

/// A node without a neighbour but itself reaches itself alone, over no
/// edge: its closeness is zero.
pub proof fn law_isolated_node_scores_zero(net: Network, s: int, score: Score)
    requires
        net.has_node(s),
        forall|t: int| net.adjacent(s, t) ==> t == s,
        net.is_closeness(s, score),
    ensures
        net.spread(s, None) == 1,
        score.numer == 0,
        score.denom == 0,
        score.top() == 0,
{
    assert forall|t: int| net.connected(s, t) implies t == s by {
        let d = choose|d: nat| net.within(s, t, d);
        lemma_alone(net, s, t, d);
    }
    lemma_distances_and_counts(net, s, net.ids.len());
    assert(net.reach_set(s, None) =~= set![s]) by {
        assert(net.within(s, s, 0));
    }
    assert(reached_below(net, s, net.ids.len() as int) =~= net.reach_set(s, None));
}

/// From a node without a neighbour but itself every way ends at the node.
proof fn lemma_alone(net: Network, s: int, t: int, d: nat)
    requires
        forall|u: int| net.adjacent(s, u) ==> u == s,
        net.within(s, t, d),
    ensures
        t == s,
    decreases d,
{
    if d > 0 {
        if net.within(s, t, (d - 1) as nat) {
            lemma_alone(net, s, t, (d - 1) as nat);
        } else {
            let u = choose|u: int| net.within(s, u, (d - 1) as nat) && #[trigger] net.adjacent(u, t);
            lemma_alone(net, s, u, (d - 1) as nat);
        }
    }
}

/// The centre of a star, a node that is adjacent to every other node that
/// it reaches and reaches one at least, lies one edge from each of them:
/// its closeness is one.
pub proof fn law_star_centre_scores_one(net: Network, s: int, score: Score)
    requires
        net.has_node(s),
        forall|t: int| net.connected(s, t) && t != s ==> net.adjacent(s, t),
        exists|t: int| t != s && net.adjacent(s, t),
        net.is_closeness(s, score),
    ensures
        score.numer == score.denom,
        score.numer >= 1,
        score.top() == score.bottom(),
{
    lemma_distances_and_counts(net, s, net.ids.len());
    assert(reached_below(net, s, net.ids.len() as int) =~= net.reach_set(s, None)) by {
        assert forall|t: int| net.connected(s, t) implies t < net.ids.len() by {
            lemma_reaches_nodes(net, s, t, None);
        }
    }
    let leaf = choose|t: int| t != s && net.adjacent(s, t);
    assert(net.within(s, s, 0));
    assert(net.within(s, leaf, 1));
    let pair = set![s].insert(leaf);
    assert(pair.subset_of(net.reach_set(s, None)));
    lemma_len_subset(pair, net.reach_set(s, None));
    law_spread_grows_with_steps(net, s, 0, 0);
}

} // verus!
