use room_graph::graph::Graph;
use room_graph::soundness::{answer, graph_of};
use room_graph::walk_identify::Solver;

fn example_one() -> Graph {
    Graph::new(
        vec![0, 2, 1],
        vec![
            vec![2, 0, 2, 0, 0, 0],
            vec![1, 1, 1, 2, 2, 1],
            vec![2, 1, 1, 0, 2, 0],
        ],
        1,
        false,
    )
}

#[test]
fn truthful_answer_is_the_trace_of_every_plan() {
    let g = example_one();
    let results = answer(&g, &vec![vec![3, 3], vec![], vec![0]]);
    assert_eq!(results, vec![vec![2, 1, 0], vec![2], vec![2, 2]]);
}

#[test]
fn reconstructed_graph_is_accepted() {
    let hidden = example_one();
    let mut solved = 0;
    for seed in 0..50u64 {
        match Solver::with_seed(3, seed).solve(&hidden) {
            Ok(solution) => {
                let found = graph_of(&solution);
                assert!(found.check());
                assert!(hidden.bisimulation(&found));
                assert!(found.bisimulation(&hidden));
                solved += 1;
            }
            Err(e) => {
                assert!(matches!(e, room_graph::error::SolveError::WrongRoomCount));
            }
        }
    }
    assert!(solved > 0);
}

#[test]
fn graph_of_a_solution_keeps_its_parts() {
    let hidden = example_one();
    for seed in 0..50u64 {
        if let Ok(solution) = Solver::with_seed(3, seed).solve(&hidden) {
            let g = graph_of(&solution);
            assert_eq!(g.labels, solution.labels);
            assert_eq!(g.edges, solution.edges);
            assert_eq!(g.start_node, 0);
            assert!(!g.is_full);
            // the first room found is the room in which the walk starts
            assert_eq!(g.labels[0], 2);
            return;
        }
    }
    panic!("no trial succeeded");
}

#[test]
fn rooms_that_cannot_be_told_apart_are_never_resolved() {
    let hidden = Graph::new(vec![1, 1], vec![vec![1; 6], vec![0; 6]], 0, false);
    for seed in 0..20u64 {
        let res = Solver::with_seed(2, seed).solve(&hidden);
        assert!(matches!(res, Err(room_graph::error::SolveError::WrongRoomCount)));
    }
}

#[test]
fn rewrite_solver_on_a_graph_that_answers_itself() {
    let mut hidden = example_one();
    hidden.is_full = true;
    let mut solved = 0;
    for seed in 0..100u64 {
        for backward in [true, false] {
            let solver = room_graph::rewrite_identify::Solver4::with_seed(3, backward, seed);
            if let Ok(solution) = solver.solve(&hidden) {
                let found = graph_of(&solution);
                assert!(found.check());
                if example_one().bisimulation(&found) {
                    solved += 1;
                }
            }
        }
    }
    assert!(solved > 0);
}
