use social_graph::centrality::{
    central_finder, largest_component, least_central_finder, least_central_user,
    most_central_user, pick, pick_each,
};
use social_graph::error::GraphError;
use social_graph::score::Score;
use std::collections::HashMap;

// 0.2, 0.5 and 0.1 as fractions
fn three_scores() -> HashMap<u32, Score> {
    let mut scores = HashMap::new();
    scores.insert(1, Score::new(2, 10));
    scores.insert(2, Score::new(5, 10));
    scores.insert(3, Score::new(1, 10));
    scores
}

#[test]
fn test_central_finder() {
    let components = vec![vec![1, 2, 3]];
    let scores = three_scores();
    let result = central_finder(&components, &scores).unwrap();
    assert_eq!(result, vec![2]);
}

#[test]
fn test_least_central_finder() {
    let components = vec![vec![1, 2, 3]];
    let scores = three_scores();
    let result = least_central_finder(&components, &scores).unwrap();
    assert_eq!(result, vec![3]);
}

#[test]
fn test_most_central_user() {
    let component = vec![1, 2, 3];
    let scores = three_scores();
    let result = most_central_user(&component, &scores).unwrap();
    assert_eq!(result, 2);
}

#[test]
fn test_least_central_user() {
    let component = vec![1, 2, 3];
    let scores = three_scores();
    let result = least_central_user(&component, &scores).unwrap();
    assert_eq!(result, 3);
}

#[test]
fn test_largest_component() {
    let components = vec![vec![1, 2, 3], vec![4], vec![5, 6]];
    let result = largest_component(&components);
    assert_eq!(result, vec![1, 2, 3]);
}

#[test]
fn largest_component_takes_the_first_of_equals() {
    let components = vec![vec![9], vec![1, 2], vec![3, 4], vec![5]];
    assert_eq!(largest_component(&components), vec![1, 2]);
    let single = vec![vec![7, 8, 9]];
    assert_eq!(largest_component(&single), vec![7, 8, 9]);
}

#[test]
fn ties_go_to_the_first_participant() {
    let mut scores = HashMap::new();
    scores.insert(10, Score::new(1, 2));
    scores.insert(20, Score::new(2, 4));
    scores.insert(30, Score::new(1, 3));
    scores.insert(40, Score::new(2, 6));
    let component = vec![30, 10, 20, 40];
    assert_eq!(most_central_user(&component, &scores), Ok(10));
    assert_eq!(least_central_user(&component, &scores), Ok(30));
}

#[test]
fn fractions_are_compared_by_value() {
    let mut scores = HashMap::new();
    scores.insert(1, Score::new(3, 7));
    scores.insert(2, Score::new(4, 9));
    scores.insert(3, Score::new(5, 12));
    // 3/7 = 0.428.., 4/9 = 0.444.., 5/12 = 0.416..
    let component = vec![1, 2, 3];
    assert_eq!(most_central_user(&component, &scores), Ok(2));
    assert_eq!(least_central_user(&component, &scores), Ok(3));
}

#[test]
fn a_zero_denominator_counts_as_zero() {
    let mut scores = HashMap::new();
    scores.insert(1, Score::new(1, 100));
    scores.insert(2, Score::new(5, 0));
    scores.insert(3, Score::new(0, 4));
    let component = vec![1, 2, 3];
    assert_eq!(most_central_user(&component, &scores), Ok(1));
    assert_eq!(least_central_user(&component, &scores), Ok(2));
}

#[test]
fn an_empty_component_is_refused() {
    let scores = three_scores();
    let component: Vec<u32> = Vec::new();
    assert_eq!(most_central_user(&component, &scores), Err(GraphError::EmptyComponent));
    assert_eq!(least_central_user(&component, &scores), Err(GraphError::EmptyComponent));
}

#[test]
fn a_participant_without_score_is_refused() {
    let scores = three_scores();
    assert_eq!(most_central_user(&vec![1, 2, 4], &scores), Err(GraphError::MissingScore));
    assert_eq!(least_central_user(&vec![4, 1], &scores), Err(GraphError::MissingScore));
    // also where the participant could not be the pick
    assert_eq!(most_central_user(&vec![2, 4], &scores), Err(GraphError::MissingScore));
}

#[test]
fn the_first_faulty_component_decides_the_error() {
    let scores = three_scores();
    let empty_first = vec![vec![1], vec![], vec![4]];
    assert_eq!(central_finder(&empty_first, &scores), Err(GraphError::EmptyComponent));
    assert_eq!(least_central_finder(&empty_first, &scores), Err(GraphError::EmptyComponent));
    let missing_first = vec![vec![1], vec![4], vec![]];
    assert_eq!(central_finder(&missing_first, &scores), Err(GraphError::MissingScore));
    assert_eq!(least_central_finder(&missing_first, &scores), Err(GraphError::MissingScore));
}

#[test]
fn finders_keep_the_order_of_the_components() {
    let scores = three_scores();
    let components = vec![vec![3, 1], vec![2], vec![1, 2, 3]];
    assert_eq!(central_finder(&components, &scores), Ok(vec![1, 2, 2]));
    assert_eq!(least_central_finder(&components, &scores), Ok(vec![3, 2, 3]));
    let none: Vec<Vec<u32>> = Vec::new();
    assert_eq!(central_finder(&none, &scores), Ok(Vec::new()));
}

#[test]
fn scores_compare_as_fractions() {
    let half = Score::new(1, 2);
    let two_quarters = Score::new(2, 4);
    let third = Score::new(1, 3);
    assert!(third.less_than(&half));
    assert!(!half.less_than(&third));
    assert!(!half.less_than(&two_quarters));
    assert!(half.equals(&two_quarters));
    assert!(!half.equals(&third));
    assert!(Score::new(0, 5).is_zero());
    assert!(Score::new(7, 0).is_zero());
    assert!(!half.is_zero());
    assert!(Score::new(4, 4).is_one());
    assert!(!Score::new(0, 0).is_one());
    assert!(!half.is_one());
    let big = Score::new(u64::MAX, u64::MAX - 1);
    let one = Score::new(u64::MAX, u64::MAX);
    assert!(one.less_than(&big));
    assert!(!big.less_than(&one));
}

#[test]
fn picks_are_positions() {
    let scores = three_scores();
    let component = vec![3, 1, 2, 1, 2];
    assert_eq!(pick(&component, &scores, true), Ok(2));
    assert_eq!(pick(&component, &scores, false), Ok(0));
    assert_eq!(pick(&vec![], &scores, true), Err(GraphError::EmptyComponent));
    assert_eq!(pick(&vec![1, 5], &scores, false), Err(GraphError::MissingScore));
    let components = vec![vec![1, 2], vec![3, 1]];
    assert_eq!(pick_each(&components, &scores, true), central_finder(&components, &scores));
    assert_eq!(pick_each(&components, &scores, false), Ok(vec![1, 3]));
}
