use room_graph::csp::{
    check_walk, fill_doors, known_labels, pick_position, sort_candidates, Candidate, Solver6,
};
use room_graph::graph::Graph;
use room_graph::plan::plan_of_doors;
use room_graph::search_state::SearchState;

fn example_one() -> Graph {
    Graph::new(
        vec![0, 2, 1],
        vec![
            vec![2, 0, 2, 0, 0, 0],
            vec![1, 1, 1, 2, 2, 1],
            vec![2, 1, 1, 0, 2, 0],
        ],
        1,
        false,
    )
}

fn print(state: &SearchState) -> String {
    format!("{:?}", state)
}

#[test]
fn blank_state_has_nothing_assigned() {
    let walk = vec![3, 3, 0, 1];
    let trace = vec![2, 1, 0, 1, 2];
    let state = SearchState::new(3, &walk, &trace);
    assert_eq!(state.next_vertex(), 0);
    assert!(state.to_id.iter().all(|x| x.is_none()));
    assert!(state.labels.iter().all(|x| x.is_none()));
    assert_eq!(state.label_counts, vec![0, 0, 0, 0]);
    assert_eq!(state.degree, vec![0, 0, 0]);
}

#[test]
fn compatibility_of_walk_positions() {
    // walk 0,0 with trace 1,1,2: positions 0 and 1 share label 1 and door 0,
    // but the labels behind the door differ.
    let walk = vec![0, 0];
    let trace = vec![1, 1, 2];
    let state = SearchState::new(3, &walk, &trace);
    assert!(state.matches[0][0]);
    assert!(!state.matches[0][1]);
    assert!(!state.matches[1][0]);
    assert!(!state.matches[0][2]);
    assert!(state.matches[2][2]);
    // with different doors only the labels at the positions count
    let walk = vec![0, 1];
    let state = SearchState::new(3, &walk, &trace);
    assert!(state.matches[0][1]);
}

#[test]
fn merge_then_undo_restores_the_state() {
    let walk = vec![3, 3, 0, 1];
    let trace = vec![2, 1, 0, 1, 2];
    let mut state = SearchState::new(3, &walk, &trace);
    let blank = print(&state);
    let (ops0, ok0) = state.merge(0, &walk, &trace, 0);
    assert!(ok0);
    let after0 = print(&state);
    assert_ne!(after0, blank);
    let (ops1, ok1) = state.merge(1, &walk, &trace, 1);
    assert!(ok1);
    let after1 = print(&state);
    let (ops2, ok2) = state.merge(2, &walk, &trace, 2);
    assert!(ok2);
    // position 3 shows label 1 again and door 0 of room 2 must lead to it
    let (ops3, ok3) = state.merge(1, &walk, &trace, 3);
    assert!(ok3);
    assert_eq!(state.to_id, vec![Some(0), Some(1), Some(2), Some(1), None]);
    state.undo(ops3);
    state.undo(ops2);
    assert_eq!(print(&state), after1);
    state.undo(ops1);
    assert_eq!(print(&state), after0);
    state.undo(ops0);
    assert_eq!(print(&state), blank);
}

#[test]
fn failed_merge_is_undone_too() {
    // five rooms allow two rooms with label 0 and one with every other label
    let walk = vec![0, 0, 0];
    let trace = vec![1, 1, 1, 1];
    let mut state = SearchState::new(5, &walk, &trace);
    let (_ops0, ok0) = state.merge(0, &walk, &trace, 0);
    assert!(ok0);
    let before = print(&state);
    // a second room with label 1 is one too many
    let (ops1, ok1) = state.merge(1, &walk, &trace, 1);
    assert!(!ok1);
    state.undo(ops1);
    assert_eq!(print(&state), before);
}

#[test]
fn merge_records_doors_and_expected_labels() {
    let walk = vec![3, 3, 0, 1];
    let trace = vec![2, 1, 0, 1, 2];
    let mut state = SearchState::new(3, &walk, &trace);
    let (_o, ok) = state.merge(0, &walk, &trace, 0);
    assert!(ok);
    assert_eq!(state.labels[0], Some(2));
    assert_eq!(state.edges_to_label[0][3], Some(1));
    let (_o, ok) = state.merge(1, &walk, &trace, 1);
    assert!(ok);
    assert_eq!(state.edges[0][3].to, Some(1));
    assert_eq!(state.adj[0][1], 1);
    assert_eq!(state.degree, vec![1, 1, 0]);
    assert_eq!(state.from_id[1], vec![1]);
}

#[test]
fn mergeable_checks_label_and_doors() {
    let walk = vec![3, 3, 0, 1];
    let trace = vec![2, 1, 0, 1, 2];
    let mut state = SearchState::new(3, &walk, &trace);
    let (_o, ok) = state.merge(0, &walk, &trace, 0);
    assert!(ok);
    // position 1 shows label 1, room 0 bears label 2
    assert!(!state.mergeable(0, &walk, &trace, 1));
    // position 4 shows label 2 like room 0
    assert!(state.mergeable(0, &walk, &trace, 4));
    // a new room can always take position 1
    assert!(state.mergeable(1, &walk, &trace, 1));
}

#[test]
fn merge_score_counts_agreeing_neighbours() {
    let walk = vec![3, 3, 0, 1];
    let trace = vec![2, 1, 0, 1, 2];
    let mut state = SearchState::new(3, &walk, &trace);
    let (_o, _) = state.merge(0, &walk, &trace, 0);
    let (_o, _) = state.merge(1, &walk, &trace, 1);
    let (_o, _) = state.merge(2, &walk, &trace, 2);
    // position 3: door 0 of room 2 is not set yet, no edge waits from room 1 to room 2,
    // and nothing is expected behind door 1 of room 1
    assert_eq!(state.merge_score(1, &walk, &trace, 3), 10);
    let (_o, _) = state.merge(1, &walk, &trace, 3);
    // position 4 into room 0: door 1 of room 1 is not set, an edge waits from room 0 to room 1
    assert_eq!(state.merge_score(0, &walk, &trace, 4), 10);
}

#[test]
fn first_position_is_picked_first() {
    let walk = vec![3, 3, 0, 1];
    let trace = vec![2, 1, 0, 1, 2];
    let state = SearchState::new(3, &walk, &trace);
    assert_eq!(pick_position(&state, &walk, &trace), Some(0));
}

#[test]
fn candidates_are_ordered_by_score_degree_and_tie() {
    let c = |room, score, degree, tie| Candidate { room, score, degree, tie };
    let items = vec![c(0, 0, 3, 5), c(1, 100, 1, 9), c(2, 0, 4, 7), c(3, 0, 4, 2), c(4, 100, 1, 1)];
    let sorted = sort_candidates(&items);
    let rooms: Vec<usize> = sorted.iter().map(|x| x.room).collect();
    assert_eq!(rooms, vec![4, 1, 3, 2, 0]);
}

#[test]
fn walk_and_trace_must_fit() {
    assert!(check_walk(&vec![0, 5], &vec![0, 1, 3]));
    assert!(!check_walk(&vec![0, 5], &vec![0, 1]));
    assert!(!check_walk(&vec![0, 6], &vec![0, 1, 3]));
    assert!(!check_walk(&vec![0, 5], &vec![0, 1, 4]));
}

#[test]
fn labels_are_known_when_all_are() {
    assert_eq!(known_labels(&vec![Some(1), Some(0)]), Some(vec![1, 0]));
    assert_eq!(known_labels(&vec![Some(1), None]), None);
}

#[test]
fn unknown_doors_are_filled_from_waiting_edges() {
    let walk = vec![3];
    let trace = vec![0, 1];
    let mut state = SearchState::new(2, &walk, &trace);
    let (_o, ok) = state.merge(0, &walk, &trace, 0);
    assert!(ok);
    let (_o, ok) = state.merge(1, &walk, &trace, 1);
    assert!(ok);
    let edges = fill_doors(&state);
    // room 0: door 3 leads to room 1, the rest are self-loops
    assert_eq!(edges[0], vec![0, 0, 0, 1, 0, 0]);
    // room 1: the edge from room 0 waits, so the first door answers it
    assert_eq!(edges[1], vec![0, 1, 1, 1, 1, 1]);
}

#[test]
fn solution_shows_the_trace() {
    let hidden = example_one();
    let mut solver = Solver6::new(3);
    let doors = solver.plan();
    assert_eq!(doors.len(), 54);
    let trace = hidden.walk(plan_of_doors(&doors));
    let solution = solver.solve(&trace).expect("search failed");
    assert_eq!(solution.starting_room, 0);
    assert_eq!(solution.labels.len(), 3);
    let found = Graph::new(solution.labels, solution.edges, 0, false);
    assert!(found.check());
    assert_eq!(found.walk(plan_of_doors(&doors)), trace);
}

#[test]
fn trace_of_wrong_length_is_a_bad_response() {
    let mut solver = Solver6::new(3);
    let res = solver.solve(&vec![0, 1, 2]);
    assert!(matches!(res, Err(room_graph::error::SolveError::BadResponse)));
}
