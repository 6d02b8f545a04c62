use room_graph::graph::Graph;
use room_graph::oracle::{select, AppState, SelectError};
use room_graph::pairing::build_guess;
use room_graph::plan_text::PlanError;

fn example_one(is_full: bool) -> Graph {
    Graph::new(
        vec![0, 2, 1],
        vec![
            vec![2, 0, 2, 0, 0, 0],
            vec![1, 1, 1, 2, 2, 1],
            vec![2, 1, 1, 0, 2, 0],
        ],
        1,
        is_full,
    )
}

fn text(s: &str) -> Vec<u8> {
    s.as_bytes().to_vec()
}

#[test]
fn session_needs_a_well_formed_graph() {
    assert!(AppState::new(example_one(false)).is_some());
    let bad = Graph::new(vec![0], vec![vec![0, 0, 0, 0, 0, 9]], 0, false);
    assert!(AppState::new(bad).is_none());
}

#[test]
fn plan_limits() {
    assert_eq!(AppState::new(example_one(false)).unwrap().max_length(), 54);
    assert_eq!(AppState::new(example_one(true)).unwrap().max_length(), 18);
}

#[test]
fn explore_walks_every_plan_and_counts_queries() {
    let mut state = AppState::new(example_one(false)).unwrap();
    let response = state.explore(&vec![text("33"), text(""), text("0")]).unwrap();
    assert_eq!(response.results, vec![vec![2, 1, 0], vec![2], vec![2, 2]]);
    assert_eq!(response.query_count, 4);
    let response = state.explore(&vec![text("5")]).unwrap();
    assert_eq!(response.query_count, 6);
}

#[test]
fn plans_of_one_batch_do_not_see_each_other() {
    let mut state = AppState::new(example_one(true)).unwrap();
    let response = state.explore(&vec![text("[3]0"), text("0")]).unwrap();
    assert_eq!(response.results, vec![vec![2, 3, 3], vec![2, 2]]);
}

#[test]
fn plan_limit_of_basic_oracle() {
    let mut state = AppState::new(example_one(false)).unwrap();
    let longest = "0".repeat(18 * 3);
    let too_long = "0".repeat(18 * 3 + 1);
    assert!(state.explore(&vec![text(&longest)]).is_ok());
    assert_eq!(state.explore(&vec![text(&too_long)]).err(), Some(PlanError::TooLong));
}

#[test]
fn plan_limit_of_rewriting_oracle() {
    let mut state = AppState::new(example_one(true)).unwrap();
    let longest = "[1]0".repeat(6 * 3);
    let too_long = "0".repeat(6 * 3 + 1);
    assert!(state.explore(&vec![text(&longest)]).is_ok());
    assert_eq!(state.explore(&vec![text(&too_long)]).err(), Some(PlanError::TooLong));
}

#[test]
fn rejected_batch_leaves_the_count() {
    let mut state = AppState::new(example_one(false)).unwrap();
    assert_eq!(state.explore(&vec![text("0"), text("7")]).err(), Some(PlanError::Invalid));
    let response = state.explore(&vec![text("0")]).unwrap();
    assert_eq!(response.query_count, 2);
}

#[test]
fn right_guess_is_accepted_and_wrong_guess_is_not() {
    let state = AppState::new(example_one(false)).unwrap();
    let other = vec![
        vec![1, 0, 1, 0, 0, 0],
        vec![1, 2, 2, 0, 1, 0],
        vec![2, 2, 2, 1, 1, 2],
    ];
    let right = build_guess(&vec![0, 1, 2], &other, 2).unwrap();
    assert_eq!(state.guess(&right), Some(true));
    let wrong = build_guess(&vec![0, 1, 2], &other, 0).unwrap();
    assert_eq!(state.guess(&wrong), Some(false));
}

#[test]
fn incomplete_map_gets_no_judgement() {
    let state = AppState::new(example_one(false)).unwrap();
    let other = vec![
        vec![1, 0, 1, 0, 0, 0],
        vec![1, 2, 2, 0, 1, 0],
        vec![2, 2, 2, 1, 1, 2],
    ];
    let mut map = build_guess(&vec![0, 1, 2], &other, 2).unwrap();
    map.connections.remove(0);
    assert_eq!(state.guess(&map), None);
}

#[test]
fn select_opens_a_session_of_the_problem_size() {
    let mut state = match select("probatio") {
        Ok(state) => state,
        Err(e) => panic!("no session: {:?}", e),
    };
    assert_eq!(state.max_length(), 54);
    let response = state.explore(&vec![text("")]).unwrap();
    assert_eq!(response.results[0].len(), 1);
    assert_eq!(response.query_count, 2);
    let mut state = match select("aleph") {
        Ok(state) => state,
        Err(e) => panic!("no session: {:?}", e),
    };
    assert_eq!(state.max_length(), 72);
    let mut state = match select("5") {
        Ok(state) => state,
        Err(e) => panic!("no session: {:?}", e),
    };
    assert_eq!(state.max_length(), 30);
    assert!(state.explore(&vec![text("[0]")]).is_ok());
}

#[test]
fn select_rejects_unknown_names() {
    assert!(matches!(select("nemo"), Err(SelectError::InvalidName)));
    assert!(matches!(select("0"), Err(SelectError::InvalidName)));
    assert!(matches!(select("000"), Err(SelectError::InvalidName)));
}

#[test]
fn basic_oracle_takes_no_plan_that_rewrites() {
    let graph = Graph::new(vec![0], vec![vec![0; 6]], 0, false);
    let mut state = AppState::new(graph).unwrap();
    assert_eq!(state.explore(&vec![text("[1]0")]).err(), Some(PlanError::Invalid));
    assert_eq!(state.explore(&vec![text("0"), text("0[0]")]).err(), Some(PlanError::Invalid));
    // the refused batch counts for nothing
    let response = state.explore(&vec![text("0")]).unwrap();
    assert_eq!(response.query_count, 2);
    let mut state = AppState::new(Graph::new(vec![0], vec![vec![0; 6]], 0, true)).unwrap();
    assert_eq!(state.explore(&vec![text("[1]0")]).unwrap().results, vec![vec![0, 1, 1]]);
}

#[test]
fn guess_with_a_malformed_map_is_not_judged() {
    let state = AppState::new(example_one(false)).unwrap();
    let hidden = example_one(false);
    let mut map = build_guess(&hidden.labels, &hidden.edges, hidden.start_node).unwrap();
    assert_eq!(state.guess(&map), Some(true));
    let again = map.connections[0];
    map.connections.push(again);
    assert_eq!(state.guess(&map), None);
}
