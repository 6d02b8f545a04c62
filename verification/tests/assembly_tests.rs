use room_graph::assembly::{assemble, check_positions, shuffled_plan};
use room_graph::csp::Solver5;
use room_graph::graph::Graph;
use room_graph::plan::plan_of_doors;

#[test]
fn shuffled_plan_takes_every_door_equally_often() {
    let plan = shuffled_plan(4, 42);
    assert_eq!(plan.len(), 4 * 3 * 6);
    for d in 0..6 {
        assert_eq!(plan.iter().filter(|&&x| x == d).count(), 12);
    }
    assert_eq!(shuffled_plan(4, 42), plan);
    assert_ne!(plan, (0..72).map(|i| i % 6).collect::<Vec<usize>>());
}

#[test]
fn graph_is_put_together_from_positions() {
    // one room, every door once
    let plan = vec![0, 1, 2, 3, 4, 5];
    let res = vec![2, 2, 2, 2, 2, 2, 2];
    let ixs = vec![0, 0, 0, 0, 0, 0, 0];
    let solution = assemble(1, &plan, &res, &ixs).unwrap();
    assert_eq!(solution.labels, vec![2]);
    assert_eq!(solution.edges, vec![vec![0, 0, 0, 0, 0, 0]]);
    assert_eq!(solution.starting_room, 0);
}

#[test]
fn last_visit_decides_label_and_door() {
    let plan = vec![0, 1, 2, 3, 4, 5, 0, 0, 1, 2, 3, 4, 5];
    let ixs = vec![1, 0, 0, 0, 0, 0, 0, 1, 1, 1, 1, 1, 1, 1];
    let res = vec![3, 0, 0, 0, 0, 0, 0, 3, 3, 3, 3, 3, 3, 3];
    let solution = assemble(2, &plan, &res, &ixs).unwrap();
    assert_eq!(solution.starting_room, 1);
    assert_eq!(solution.labels, vec![0, 3]);
    // door 0 of room 1 is walked twice: first to room 0, last to room 1
    assert_eq!(solution.edges[1], vec![1, 1, 1, 1, 1, 1]);
    assert_eq!(solution.edges[0], vec![1, 0, 0, 0, 0, 0]);
}

#[test]
fn door_never_walked_leaves_no_graph() {
    let plan = vec![0, 1, 2, 3, 4];
    let res = vec![2, 2, 2, 2, 2, 2];
    let ixs = vec![0, 0, 0, 0, 0, 0];
    assert!(assemble(1, &plan, &res, &ixs).is_none());
}

#[test]
fn room_never_visited_leaves_no_graph() {
    let plan = vec![0, 1, 2, 3, 4, 5];
    let res = vec![2, 2, 2, 2, 2, 2, 2];
    let ixs = vec![0, 0, 0, 0, 0, 0, 0];
    assert!(assemble(2, &plan, &res, &ixs).is_none());
}

#[test]
fn parts_must_fit() {
    assert!(check_positions(1, &vec![0], &vec![1, 1], &vec![0, 0]));
    assert!(!check_positions(1, &vec![0], &vec![1], &vec![0, 0]));
    assert!(!check_positions(1, &vec![0], &vec![1, 1], &vec![0, 1]));
    assert!(!check_positions(1, &vec![6], &vec![1, 1], &vec![0, 0]));
    assert!(!check_positions(1, &vec![0], &vec![1, 4], &vec![0, 0]));
}

#[test]
fn plain_search_shows_the_trace() {
    let hidden = Graph::new(
        vec![0, 2, 1],
        vec![
            vec![2, 0, 2, 0, 0, 0],
            vec![1, 1, 1, 2, 2, 1],
            vec![2, 1, 1, 0, 2, 0],
        ],
        1,
        false,
    );
    let mut solver = Solver5::new(3);
    let doors = solver.plan();
    let trace = hidden.walk(plan_of_doors(&doors));
    let solution = solver.solve(&trace).expect("search failed");
    let found = Graph::new(solution.labels, solution.edges, 0, false);
    assert_eq!(found.walk(plan_of_doors(&doors)), trace);
}

#[test]
fn positions_that_may_share_a_room() {
    // doors walked: 0 1 0 1; labels seen: 2 3 2 3 1
    let plan = vec![0, 1, 0, 1];
    let res = vec![2, 3, 2, 3, 1];
    assert!(room_graph::assembly::may_share_room(&plan, &res, 0, 2));
    assert!(room_graph::assembly::may_share_room(&plan, &res, 1, 3));
    // different labels
    assert!(!room_graph::assembly::may_share_room(&plan, &res, 0, 1));
    // the label seen after the same door is compared only where the next doors agree too
    let res = vec![2, 3, 2, 0, 1];
    assert!(!room_graph::assembly::may_share_room(&plan, &res, 0, 2));
    assert!(room_graph::assembly::may_share_room(&vec![0, 1, 0, 0], &res, 0, 2));
    let plan = vec![0, 1, 0, 1, 0];
    let res = vec![2, 3, 2, 0, 2, 1];
    assert!(!room_graph::assembly::may_share_room(&plan, &res, 0, 2));
    // the last position has no door to compare
    assert!(room_graph::assembly::may_share_room(&plan, &res, 2, 4));
    assert!(room_graph::assembly::may_share_room(&plan, &res, 5, 5));
}
