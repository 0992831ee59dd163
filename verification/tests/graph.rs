use petgraph::graph::{Graph, NodeIndex};
use petgraph::Undirected;
use social_graph::algorithms::{
    bfs, closeness_centrality, closeness_of, component_indices, connected_components, find_node,
    ids_of, search,
};
use social_graph::centrality::largest_component;
use social_graph::error::GraphError;
use social_graph::graph::Graphs;
use social_graph::score::Score;
use social_graph::traversal::explore;
use std::collections::HashMap;

fn test_graph() -> Graphs {
    let mut graph = Graph::<u32, (), Undirected>::new_undirected();
    let a = graph.add_node(1);
    let b = graph.add_node(2);
    let c = graph.add_node(3);
    graph.add_edge(a, b, ());
    graph.add_edge(b, c, ());
    graph.add_edge(a, c, ());
    Graphs::new(graph)
}

fn path_graph() -> Graphs {
    Graphs::build(&vec![(1, 2), (2, 3), (3, 4), (4, 5)])
}

fn star_graph() -> Graphs {
    Graphs::build(&vec![(10, 1), (10, 2), (10, 3), (10, 4)])
}

fn sorted(mut ids: Vec<u32>) -> Vec<u32> {
    ids.sort();
    ids
}

fn value(score: &Score) -> f64 {
    if score.denom == 0 {
        0.0
    } else {
        score.numer as f64 / score.denom as f64
    }
}

#[test]
fn test_bfs() {
    let graphs = test_graph();
    let result = graphs.bfs(1, 1).unwrap();
    assert_eq!(result.len(), 3);
}

#[test]
fn test_closeness_centrality() {
    let graphs = test_graph();
    let centrality = graphs.closeness_centrality();
    assert_eq!(centrality.len(), 3);
}

#[test]
fn test_connected_components() {
    let graphs = test_graph();
    let components = graphs.connected_components();
    assert_eq!(components.len(), 1);
}

#[test]
fn test_person_spread() {
    let graphs = test_graph();
    let spread = graphs.person_spread(1, 1).unwrap();
    assert_eq!(spread, 3);
}

#[test]
fn test_high_vs_low_reach() {
    let graphs = test_graph();
    let comps = graphs.connected_components();
    let closeness = graphs.closeness_centrality();
    let reach = graphs.high_vs_low_reach(&comps, &closeness, 1).unwrap();
    assert_eq!(reach.components, 1);
    assert_eq!(reach.most_central_total, 3);
    assert_eq!(reach.least_central_total, 3);
}

#[test]
fn triangle() {
    let graphs = test_graph();
    let components = graphs.connected_components();
    assert_eq!(components.len(), 1);
    assert_eq!(components[0][0], 1);
    assert_eq!(sorted(components[0].clone()), vec![1, 2, 3]);
    let scores = graphs.closeness_centrality();
    for id in [1, 2, 3] {
        let score = scores[&id];
        assert_eq!((score.numer, score.denom), (2, 2));
        assert!(score.is_one());
        assert_eq!(value(&score), 1.0);
    }
    let all = bfs(&graphs.graph, 1).unwrap();
    assert_eq!(all[0], 1);
    assert_eq!(sorted(all), vec![1, 2, 3]);
    assert_eq!(graphs.bfs(1, 0), Ok(vec![1]));
    assert_eq!(graphs.person_spread(1, 0), Ok(1));
}

#[test]
fn triangle_in_the_order_of_discovery() {
    // 1 lists 2 over the edge that starts at it, then 3 over the one that ends at it
    let graphs = Graphs::build(&vec![(1, 2), (3, 1), (2, 3)]);
    assert_eq!(graphs.connected_components(), vec![vec![1, 2, 3]]);
    assert_eq!(bfs(&graphs.graph, 1), Ok(vec![1, 2, 3]));
    assert_eq!(graphs.bfs(1, 1), Ok(vec![1, 2, 3]));
    assert_eq!(graphs.bfs(1, 0), Ok(vec![1]));
    // the edges of the other triangle all start at the lower end: latest edge first
    let other = test_graph();
    assert_eq!(other.connected_components(), vec![vec![1, 3, 2]]);
    assert_eq!(other.bfs(2, 7), Ok(vec![2, 3, 1]));
}

#[test]
fn path_of_five() {
    let graphs = path_graph();
    assert_eq!(sorted(graphs.bfs(3, 1).unwrap()), vec![2, 3, 4]);
    assert_eq!(graphs.bfs(3, 1).unwrap()[0], 3);
    assert_eq!(graphs.person_spread(3, 1), Ok(3));
    let scores = graphs.closeness_centrality();
    assert_eq!(scores.len(), 5);
    // 3: distances 2 1 0 1 2; 2 and 4: 1 0 1 2 3; 1 and 5: 0 1 2 3 4
    assert_eq!((scores[&3].numer, scores[&3].denom), (4, 6));
    assert_eq!((scores[&2].numer, scores[&2].denom), (4, 7));
    assert_eq!((scores[&4].numer, scores[&4].denom), (4, 7));
    assert_eq!((scores[&1].numer, scores[&1].denom), (4, 10));
    assert_eq!((scores[&5].numer, scores[&5].denom), (4, 10));
    for id in [1, 2, 4, 5] {
        assert!(scores[&id].less_than(&scores[&3]));
    }
    for id in [2, 3, 4] {
        assert!(scores[&1].less_than(&scores[&id]));
        assert!(scores[&5].less_than(&scores[&id]));
    }
    assert!(scores[&1].equals(&scores[&5]));
    assert_eq!(value(&scores[&1]), 0.4);
}

#[test]
fn two_disjoint_edges() {
    let graphs = Graphs::build(&vec![(1, 2), (3, 4)]);
    let components = graphs.connected_components();
    assert_eq!(components.len(), 2);
    assert_eq!(sorted(components[0].clone()), vec![1, 2]);
    assert_eq!(sorted(components[1].clone()), vec![3, 4]);
    assert_eq!(largest_component(&components), components[0]);
    let scores = graphs.closeness_centrality();
    assert_eq!(scores.len(), 4);
    for id in [1, 2, 3, 4] {
        assert_eq!((scores[&id].numer, scores[&id].denom), (1, 1));
        assert_eq!(value(&scores[&id]), 1.0);
    }
}

#[test]
fn star_with_four_leaves() {
    let graphs = star_graph();
    let scores = graphs.closeness_centrality();
    assert_eq!((scores[&10].numer, scores[&10].denom), (4, 4));
    assert!(scores[&10].is_one());
    // a leaf: 1 to the centre, 2 to each of the three other leaves
    for leaf in [1, 2, 3, 4] {
        assert_eq!((scores[&leaf].numer, scores[&leaf].denom), (4, 7));
    }
}

#[test]
fn an_isolated_node_scores_zero() {
    let mut graph = Graph::<u32, (), Undirected>::new_undirected();
    let a = graph.add_node(5);
    let b = graph.add_node(6);
    graph.add_node(7);
    graph.add_edge(a, b, ());
    let graphs = Graphs::new(graph);
    let scores = graphs.closeness_centrality();
    assert_eq!(scores.len(), 3);
    assert_eq!((scores[&7].numer, scores[&7].denom), (0, 0));
    assert!(scores[&7].is_zero());
    assert_eq!(value(&scores[&7]), 0.0);
    assert_eq!(graphs.connected_components(), vec![vec![5, 6], vec![7]]);
    assert_eq!(graphs.bfs(7, 3), Ok(vec![7]));
    let single = Graphs::build(&vec![(4, 4)]);
    let scores = single.closeness_centrality();
    assert_eq!(scores.len(), 1);
    assert!(scores[&4].is_zero());
}

#[test]
fn an_unknown_participant_is_refused() {
    let graphs = test_graph();
    assert_eq!(graphs.bfs(4, 1), Err(GraphError::InvalidSource));
    assert_eq!(graphs.person_spread(0, 3), Err(GraphError::InvalidSource));
    assert_eq!(bfs(&graphs.graph, 9), Err(GraphError::InvalidSource));
    let empty = Graphs::build(&Vec::new());
    assert_eq!(empty.bfs(1, 1), Err(GraphError::InvalidSource));
    assert_eq!(empty.connected_components(), Vec::<Vec<u32>>::new());
    assert_eq!(empty.closeness_centrality().len(), 0);
}

#[test]
fn the_search_grows_with_the_steps() {
    let graphs = path_graph();
    assert_eq!(graphs.bfs(1, 0), Ok(vec![1]));
    assert_eq!(graphs.bfs(1, 1), Ok(vec![1, 2]));
    assert_eq!(graphs.bfs(1, 2), Ok(vec![1, 2, 3]));
    assert_eq!(graphs.bfs(1, 4), Ok(vec![1, 2, 3, 4, 5]));
    assert_eq!(graphs.bfs(1, u32::MAX), Ok(vec![1, 2, 3, 4, 5]));
    let mut before = 0;
    for steps in 0..7 {
        let reached = graphs.person_spread(2, steps).unwrap();
        assert!(reached >= before);
        assert_eq!(reached, graphs.bfs(2, steps).unwrap().len());
        before = reached;
    }
    assert_eq!(before, 5);
    assert_eq!(graphs.person_spread(2, 1), Ok(3));
    assert_eq!(graphs.person_spread(2, 2), Ok(4));
}

#[test]
fn neighbours_come_latest_edge_first() {
    // edges from the centre, then edges into it
    let graphs = Graphs::build(&vec![(1, 2), (1, 3), (4, 1), (5, 1), (1, 6)]);
    assert_eq!(graphs.bfs(1, 1), Ok(vec![1, 6, 3, 2, 5, 4]));
    let found = explore(&graphs.graph, 0, Some(1));
    assert_eq!(found.order, vec![0, 5, 2, 1, 4, 3]);
    assert_eq!(found.depth, vec![Some(0), Some(1), Some(1), Some(1), Some(1), Some(1)]);
}

#[test]
fn loops_and_parallel_edges_change_nothing() {
    let graphs = Graphs::build(&vec![(1, 1), (1, 2), (2, 1), (1, 2), (2, 2), (2, 3)]);
    assert_eq!(graphs.bfs(1, 1), Ok(vec![1, 2]));
    assert_eq!(graphs.bfs(1, 2), Ok(vec![1, 2, 3]));
    assert_eq!(graphs.connected_components(), vec![vec![1, 2, 3]]);
    let scores = graphs.closeness_centrality();
    assert_eq!((scores[&2].numer, scores[&2].denom), (2, 2));
    assert_eq!((scores[&1].numer, scores[&1].denom), (2, 3));
}

#[test]
fn discovery_goes_by_distance() {
    let graphs = Graphs::build(&vec![(1, 2), (2, 3), (1, 4), (4, 5), (5, 6), (3, 6), (7, 8)]);
    let found = explore(&graphs.graph, 0, None);
    assert_eq!(found.order.len(), 6);
    assert_eq!(found.order[0], 0);
    let depths: Vec<usize> = found.order.iter().map(|&t| found.depth[t].unwrap()).collect();
    assert_eq!(depths, vec![0, 1, 1, 2, 2, 3]);
    assert_eq!(found.depth[6], None);
    assert_eq!(found.depth[7], None);
    let bounded = explore(&graphs.graph, 0, Some(2));
    assert_eq!(bounded.order.len(), 5);
    assert_eq!(bounded.depth[5], None);
}

#[test]
fn build_numbers_the_participants_as_they_appear() {
    let graphs = Graphs::build(&vec![(7, 3), (3, 9), (7, 9), (2, 7)]);
    assert_eq!(graphs.graph.node_count(), 4);
    assert_eq!(graphs.graph.edge_count(), 4);
    let ids: Vec<u32> = graphs.graph.node_indices().map(|i| graphs.graph[i]).collect();
    assert_eq!(ids, vec![7, 3, 9, 2]);
    let ends: Vec<(usize, usize)> = graphs
        .graph
        .edge_indices()
        .map(|e| graphs.graph.edge_endpoints(e).unwrap())
        .map(|(a, b)| (a.index(), b.index()))
        .collect();
    assert_eq!(ends, vec![(0, 1), (1, 2), (0, 2), (3, 0)]);
    assert_eq!(find_node(&graphs.graph, 9), Some(2));
    assert_eq!(find_node(&graphs.graph, 4), None);
}

#[test]
fn components_partition_the_nodes() {
    let graphs = Graphs::build(&vec![(1, 2), (3, 4), (5, 6), (2, 5), (7, 7), (8, 3)]);
    let parts = component_indices(&graphs.graph);
    assert_eq!(parts.len(), 3);
    let mut all: Vec<usize> = parts.iter().flatten().copied().collect();
    all.sort();
    assert_eq!(all, vec![0, 1, 2, 3, 4, 5, 6, 7]);
    let firsts: Vec<usize> = parts.iter().map(|p| p[0]).collect();
    assert_eq!(firsts, vec![0, 2, 6]);
    for part in &parts {
        assert!(part.iter().all(|&t| t >= part[0]));
    }
    let components = graphs.connected_components();
    assert_eq!(components, connected_components(&graphs.graph));
    assert_eq!(components.len(), 3);
    assert_eq!(components[0], ids_of(&graphs.graph, &parts[0]));
    assert_eq!(sorted(components[0].clone()), vec![1, 2, 5, 6]);
    assert_eq!(sorted(components[1].clone()), vec![3, 4, 8]);
    assert_eq!(components[2], vec![7]);
    // the full search from a participant finds its component
    let from_six = bfs(&graphs.graph, 6).unwrap();
    assert_eq!(from_six[0], 6);
    assert_eq!(sorted(from_six), sorted(components[0].clone()));
    assert_eq!(search(&graphs.graph, 6, None), bfs(&graphs.graph, 6));
    assert_eq!(search(&graphs.graph, 6, Some(1)), graphs.bfs(6, 1));
    assert_eq!(sorted(graphs.bfs(6, 1).unwrap()), vec![5, 6]);
}

#[test]
fn free_and_bound_closeness_agree() {
    let graphs = path_graph();
    let scores = closeness_centrality(&graphs.graph);
    let same = graphs.closeness_centrality();
    assert_eq!(scores.len(), same.len());
    for (id, score) in &scores {
        assert_eq!((score.numer, score.denom), (same[id].numer, same[id].denom));
    }
}

#[test]
fn reach_of_the_most_and_least_central() {
    // a path of five and a pair
    let graphs = Graphs::build(&vec![(1, 2), (2, 3), (3, 4), (4, 5), (8, 9)]);
    let components = graphs.connected_components();
    let scores = graphs.closeness_centrality();
    let reach = graphs.high_vs_low_reach(&components, &scores, 1).unwrap();
    assert_eq!(reach.components, 2);
    // most central: 3 reaches three, 8 reaches two; least central: 1 and 8
    assert_eq!(reach.most_central_total, 5);
    assert_eq!(reach.least_central_total, 4);
    let far = graphs.high_vs_low_reach(&components, &scores, 2).unwrap();
    assert_eq!(far.most_central_total, 7);
    assert_eq!(far.least_central_total, 5);
}

#[test]
fn reach_fails_on_degenerate_input() {
    let graphs = test_graph();
    let scores = graphs.closeness_centrality();
    let none: Vec<Vec<u32>> = Vec::new();
    assert!(matches!(graphs.high_vs_low_reach(&none, &scores, 1), Err(GraphError::NoComponents)));
    let with_empty = vec![vec![1, 2, 3], vec![]];
    assert!(matches!(
        graphs.high_vs_low_reach(&with_empty, &scores, 1),
        Err(GraphError::EmptyComponent)
    ));
    let unscored = vec![vec![1, 2, 3, 4]];
    assert!(matches!(
        graphs.high_vs_low_reach(&unscored, &scores, 1),
        Err(GraphError::MissingScore)
    ));
    let mut more: HashMap<u32, Score> = scores.clone();
    more.insert(4, Score::new(9, 1));
    assert!(matches!(
        graphs.high_vs_low_reach(&unscored, &more, 1),
        Err(GraphError::InvalidSource)
    ));
}

// the neighbours of a node as the edges give them: over the edges that
// start at the node, latest first, then over those that end there
fn listed(edges: &[(usize, usize)], a: usize) -> Vec<usize> {
    let mut out = Vec::new();
    for &(from, to) in edges.iter().rev() {
        if from == a {
            out.push(to);
        }
    }
    for &(from, to) in edges.iter().rev() {
        if to == a && from != a {
            out.push(from);
        }
    }
    out
}

#[test]
fn the_store_lists_neighbours_as_modelled() {
    let pairs = vec![
        (0, 1), (2, 0), (0, 0), (3, 4), (1, 0), (0, 1), (4, 4), (4, 3), (2, 3), (0, 3), (5, 5),
        (3, 0), (1, 2),
    ];
    let named: Vec<(u32, u32)> = vec![(0, 1), (2, 0), (0, 0), (3, 4), (1, 0), (0, 1), (4, 4),
        (4, 3), (2, 3), (0, 3), (5, 5), (3, 0), (1, 2)];
    // the identifiers first occur in the order 0 1 2 3 4 5
    let graphs = Graphs::build(&named);
    assert_eq!(graphs.graph.node_count(), 6);
    for a in 0..6 {
        let from_store: Vec<usize> =
            graphs.graph.neighbors(NodeIndex::new(a)).map(|v| v.index()).collect();
        assert_eq!(from_store, listed(&pairs, a));
    }
    // and the search takes them in that order
    assert_eq!(explore(&graphs.graph, 0, Some(1)).order, vec![0, 3, 1, 2]);
    assert_eq!(explore(&graphs.graph, 0, None).order, vec![0, 3, 1, 2, 4]);
    assert_eq!(explore(&graphs.graph, 4, None).order, vec![4, 3, 0, 2, 1]);
    assert_eq!(explore(&graphs.graph, 5, None).order, vec![5]);
}

#[test]
fn closeness_of_one_node() {
    let graphs = path_graph();
    let end = closeness_of(&graphs.graph, 0);
    assert_eq!((end.numer, end.denom), (4, 10));
    let middle = closeness_of(&graphs.graph, 2);
    assert_eq!((middle.numer, middle.denom), (4, 6));
    let two = Graphs::build(&vec![(1, 2), (3, 4), (4, 5)]);
    let second = closeness_of(&two.graph, 3);
    assert_eq!((second.numer, second.denom), (2, 2));
    let third = closeness_of(&two.graph, 4);
    assert_eq!((third.numer, third.denom), (2, 3));
}

#[test]
fn identifiers_may_repeat_in_a_graph_made_by_hand() {
    let mut graph = Graph::<u32, (), Undirected>::new_undirected();
    let a = graph.add_node(7);
    let b = graph.add_node(8);
    let c = graph.add_node(7);
    let d = graph.add_node(9);
    graph.add_edge(a, b, ());
    graph.add_edge(c, d, ());
    graph.add_edge(d, b, ());
    graph.add_node(7);
    let graphs = Graphs::new(graph);
    // the search starts at the first node that carries the identifier
    assert_eq!(find_node(&graphs.graph, 7), Some(0));
    assert_eq!(graphs.bfs(7, 1), Ok(vec![7, 8]));
    assert_eq!(graphs.connected_components(), vec![vec![7, 8, 9, 7], vec![7]]);
    // and the score is that of the last
    let scores = graphs.closeness_centrality();
    assert_eq!(scores.len(), 3);
    assert!(scores[&7].is_zero());
    assert_eq!((scores[&8].numer, scores[&8].denom), (3, 4));
}
