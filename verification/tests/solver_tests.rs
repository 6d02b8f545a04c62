use room_graph::csp::{Solution, Solver6};
use room_graph::error::SolveError;
use room_graph::graph::Graph;
use room_graph::oracle::AppState;
use room_graph::pairing::build_guess;
use room_graph::plan::WalkStep;
use room_graph::plan_text::{encode_doors, encode_plan};
use room_graph::rewrite_identify::{Solver3, Solver4};
use room_graph::walk_identify::Solver;

fn example_one(is_full: bool) -> Graph {
    Graph::new(
        vec![0, 2, 1],
        vec![
            vec![2, 0, 2, 0, 0, 0],
            vec![1, 1, 1, 2, 2, 1],
            vec![2, 1, 1, 0, 2, 0],
        ],
        1,
        is_full,
    )
}

fn step(x: &mut u64, bound: usize) -> usize {
    *x = x.wrapping_mul(6364136223846793005).wrapping_add(1442695040888963407);
    ((*x >> 33) as usize) % bound
}

fn drawn(n: usize, is_full: bool, seed: u64) -> Graph {
    let mut x = seed;
    let mut labels: Vec<usize> = (0..n).map(|i| i % 4).collect();
    for i in (1..n).rev() {
        let j = step(&mut x, i + 1);
        labels.swap(i, j);
    }
    let mut edges: Vec<Vec<usize>> = vec![Vec::new(); n];
    for i in 0..n {
        while edges[i].len() < 6 {
            let j = step(&mut x, n);
            let ok = (i != j && edges[j].len() < 6) || (i == j && edges[j].len() < 5);
            if ok {
                edges[i].push(j);
                edges[j].push(i);
            }
        }
        for d in (1..6).rev() {
            let e = step(&mut x, d + 1);
            edges[i].swap(d, e);
        }
    }
    let start = step(&mut x, n);
    Graph::new(labels, edges, start, is_full)
}

fn rooms_differ(graph: &Graph) -> bool {
    let n = graph.node_count();
    for u in 0..n {
        for v in u + 1..n {
            let a = Graph::new(graph.labels.clone(), graph.edges.clone(), u, false);
            let b = Graph::new(graph.labels.clone(), graph.edges.clone(), v, false);
            if a.bisimulation(&b) {
                return false;
            }
        }
    }
    true
}

/// A session on a connected graph all of whose rooms can be told apart, the
/// same for the same arguments.
fn hidden_graph(n: usize, is_full: bool) -> AppState {
    let mut seed = 1000 + n as u64;
    loop {
        let graph = drawn(n, is_full, seed);
        if graph.check() && graph.connected() && rooms_differ(&graph) {
            return AppState::new(graph).expect("graph not accepted");
        }
        seed += 1;
    }
}

fn explore_doors(state: &mut AppState, plans: &Vec<Vec<usize>>) -> Vec<Vec<usize>> {
    let texts: Vec<Vec<u8>> = plans.iter().map(|p| encode_doors(p).expect("bad door")).collect();
    state.explore(&texts).expect("plan rejected").results
}

fn explore_steps(state: &mut AppState, plans: &Vec<Vec<WalkStep>>) -> Vec<Vec<usize>> {
    let texts: Vec<Vec<u8>> = plans.iter().map(|p| encode_plan(p).expect("bad step")).collect();
    state.explore(&texts).expect("plan rejected").results
}

fn judge(state: &AppState, solution: &Solution) -> bool {
    match build_guess(&solution.labels, &solution.edges, solution.starting_room) {
        Ok(guess) => state.guess(&guess) == Some(true),
        Err(_) => false,
    }
}

fn run_basic(state: &mut AppState, n: usize, seed: u64) -> Result<bool, SolveError> {
    let solver = Solver::with_seed(n, seed);
    let first = explore_doors(state, &solver.first_plans());
    let classified = solver.classify(&first)?;
    let second = explore_doors(state, &classified.second_plans());
    let solution = classified.resolve(&second)?;
    Ok(judge(state, &solution))
}

fn run_rewrite(state: &mut AppState, solver: Solver4) -> Result<bool, SolveError> {
    let first = explore_doors(state, &vec![solver.first_plan()]).remove(0);
    let marked = solver.mark(&first)?;
    let second = explore_steps(state, &vec![marked.marking_plan()]).remove(0);
    let numbered = marked.number(&second)?;
    let third = explore_steps(state, &numbered.numbering_plans());
    let located = numbered.locate(&third)?;
    let prints = explore_steps(state, &located.footprint_plans());
    let printed = located.print(&prints)?;
    let probes = explore_steps(state, &printed.edge_plans());
    let probed = printed.probe(&probes)?;
    let near = explore_steps(state, &probed.trivial_plans());
    let mut last = probed.settle(&near)?;
    loop {
        match last.next_plans()? {
            None => break,
            Some(plans) => {
                let traces = explore_steps(state, &plans);
                last = last.absorb(&traces)?;
            }
        }
    }
    let solution = last.finish()?;
    Ok(judge(state, &solution))
}

fn run_search(state: &mut AppState, n: usize, seed: u64) -> Result<bool, SolveError> {
    let mut solver = Solver6::with_seed(n, seed);
    let trace = explore_doors(state, &vec![solver.plan()]).remove(0);
    let solution = solver.solve(&trace)?;
    Ok(judge(state, &solution))
}

fn solved_within(trials: u64, mut trial: impl FnMut(u64) -> Result<bool, SolveError>) -> bool {
    for seed in 0..trials {
        if let Ok(true) = trial(seed + 42) {
            return true;
        }
    }
    false
}

#[test]
fn probatio_is_solved_by_walk_and_identify() {
    let mut state = AppState::new(example_one(false)).unwrap();
    assert!(solved_within(100, |seed| run_basic(&mut state, 3, seed)));
}

#[test]
fn probatio_on_a_drawn_graph() {
    let mut state = hidden_graph(3, false);
    assert!(solved_within(100, |seed| run_basic(&mut state, 3, seed)));
}

#[test]
fn secundus_is_solved_by_walk_and_identify() {
    let mut state = hidden_graph(12, false);
    assert!(solved_within(100, |seed| run_basic(&mut state, 12, seed)));
}

#[test]
fn aleph_is_solved_by_rewrite_identifiers() {
    let mut state = hidden_graph(12, true);
    assert!(solved_within(100, |seed| run_rewrite(&mut state, Solver4::with_seed(12, true, seed))));
}

#[test]
fn aleph_without_walking_back() {
    let mut state = hidden_graph(12, true);
    assert!(solved_within(100, |seed| run_rewrite(&mut state, Solver4::with_seed(12, false, seed))));
}

#[test]
fn small_rewriting_graph_with_fixed_seed_solvers() {
    let mut state = AppState::new(example_one(true)).unwrap();
    let a = run_rewrite(&mut state, Solver4::new(3));
    let b = run_rewrite(&mut state, Solver3::new(3).into_rounds());
    assert!(a.is_ok() || b.is_ok() || solved_within(100, |seed| {
        run_rewrite(&mut state, Solver4::with_seed(3, true, seed))
    }));
}

#[test]
fn walk_identify_converges_on_drawn_graphs() {
    for n in [3usize, 6, 12, 18] {
        let mut state = hidden_graph(n, false);
        assert!(solved_within(100, |seed| run_basic(&mut state, n, seed)), "n = {}", n);
    }
}

#[test]
fn probatio_is_solved_by_search() {
    let mut state = AppState::new(example_one(false)).unwrap();
    assert!(solved_within(100, |seed| run_search(&mut state, 3, seed)));
}

#[test]
fn first_plans_stop_the_walk_at_every_position() {
    let solver = Solver::with_walks(1, vec![0, 1, 2, 3, 4], vec![5; 12]).unwrap();
    let plans = solver.first_plans();
    assert_eq!(plans.len(), 6);
    assert_eq!(plans[0], vec![5; 12]);
    let mut want = vec![0, 1, 2];
    want.extend(vec![5; 12]);
    assert_eq!(plans[3], want);
}

#[test]
fn walks_of_wrong_length_make_no_solver() {
    assert!(Solver::with_walks(1, vec![0, 1, 2, 3], vec![5; 12]).is_none());
    assert!(Solver::with_walks(1, vec![0, 1, 2, 3, 4], vec![5; 13]).is_none());
    assert!(Solver::with_walks(1, vec![0, 1, 2, 3, 6], vec![5; 12]).is_none());
    assert!(Solver::with_walks(0, vec![], vec![]).is_none());
}

#[test]
fn one_room_graph_is_classified_and_resolved() {
    let hidden = Graph::new(vec![3], vec![vec![0; 6]], 0, false);
    let mut state = AppState::new(hidden).unwrap();
    let solver = Solver::with_walks(1, vec![0, 1, 2, 3, 4], vec![5; 12]).unwrap();
    let first = explore_doors(&mut state, &solver.first_plans());
    let classified = solver.classify(&first).ok().unwrap();
    let plans = classified.second_plans();
    assert_eq!(plans.len(), 6);
    let mut want = vec![4];
    want.extend(vec![5; 12]);
    assert_eq!(plans[4], want);
    let second = explore_doors(&mut state, &plans);
    let solution = classified.resolve(&second).ok().unwrap();
    assert_eq!(solution.labels, vec![3]);
    assert_eq!(solution.edges, vec![vec![0; 6]]);
    assert_eq!(solution.starting_room, 0);
}

#[test]
fn too_few_signatures_fail_the_trial() {
    // two rooms that no walk tells apart
    let hidden = Graph::new(vec![1, 1], vec![vec![1; 6], vec![0; 6]], 0, false);
    let mut state = AppState::new(hidden).unwrap();
    let solver = Solver::with_seed(2, 1);
    let first = explore_doors(&mut state, &solver.first_plans());
    assert!(matches!(solver.classify(&first), Err(SolveError::WrongRoomCount)));
}

#[test]
fn malformed_answers_are_bad_responses() {
    let solver = Solver::with_seed(2, 1);
    assert!(matches!(solver.classify(&vec![vec![0]]), Err(SolveError::BadResponse)));
    let solver = Solver4::new(2);
    assert!(matches!(solver.mark(&vec![0, 1]), Err(SolveError::BadResponse)));
}

#[test]
fn unknown_signature_fails_the_trial() {
    let hidden = Graph::new(vec![3], vec![vec![0; 6]], 0, false);
    let mut state = AppState::new(hidden).unwrap();
    let solver = Solver::with_walks(1, vec![0, 1, 2, 3, 4], vec![5; 12]).unwrap();
    let first = explore_doors(&mut state, &solver.first_plans());
    let classified = solver.classify(&first).ok().unwrap();
    let mut second = explore_doors(&mut state, &classified.second_plans());
    let last = second[2].len() - 1;
    second[2][last] = 0;
    assert!(matches!(classified.resolve(&second), Err(SolveError::UnknownSignature)));
}

#[test]
fn marking_plan_writes_the_next_label_before_every_door() {
    let solver = Solver4::with_walks(
        2,
        true,
        vec![
            WalkStep::Edge(0),
            WalkStep::Rewrite(1),
            WalkStep::Edge(1),
            WalkStep::Rewrite(2),
            WalkStep::Edge(2),
            WalkStep::Rewrite(3),
            WalkStep::Edge(3),
            WalkStep::Rewrite(0),
            WalkStep::Edge(4),
            WalkStep::Rewrite(1),
            WalkStep::Edge(5),
            WalkStep::Rewrite(2),
        ],
        vec![0, 3, 5, 1, 2],
    )
    .unwrap();
    assert_eq!(solver.first_plan(), vec![0, 3, 5, 1, 2]);
    let marked = solver.mark(&vec![0, 1, 0, 3, 1, 0]).ok().unwrap();
    assert_eq!(
        marked.marking_plan(),
        vec![
            WalkStep::Rewrite(1),
            WalkStep::Edge(0),
            WalkStep::Rewrite(2),
            WalkStep::Edge(3),
            WalkStep::Rewrite(1),
            WalkStep::Edge(5),
            WalkStep::Rewrite(0),
            WalkStep::Edge(1),
            WalkStep::Rewrite(2),
            WalkStep::Edge(2),
        ]
    );
}

#[test]
fn drawn_doors_are_doors() {
    for seed in 0..5u64 {
        let solver = Solver::with_seed(4, seed);
        let plans = solver.first_plans();
        assert!(plans.iter().all(|p| p.iter().all(|&d| d < 6)));
        let longest = plans.last().unwrap();
        assert_eq!(longest.len(), 4 * 5 + 4 * 13 - 1);
        assert!((0..6).all(|d| longest.contains(&d)));
    }
}

#[test]
fn trace_that_no_graph_shows_fails_the_search() {
    // one room cannot show two labels
    let mut solver = Solver6::new(1);
    let mut trace = vec![0; 19];
    trace[7] = 1;
    assert!(matches!(solver.solve(&trace), Err(SolveError::SearchFailed)));
}

#[test]
fn room_never_seen_has_no_label() {
    // five rooms allow two rooms with label 0; a trace that walks around one room with label 0
    // never shows the others
    let hidden = Graph::new(vec![0], vec![vec![0; 6]], 0, false);
    let mut solver = Solver6::new(5);
    let doors = solver.plan();
    let trace = hidden.walk(room_graph::plan::plan_of_doors(&doors));
    assert!(matches!(solver.solve(&trace), Err(SolveError::UnknownLabel)));
}

#[test]
fn pending_doors_are_not_finished() {
    // a drawn graph of 12 rooms has rooms that share a footprint for most walks
    let mut state = hidden_graph(12, true);
    for seed in 0..200u64 {
        let solver = Solver4::with_seed(12, true, seed);
        let first = explore_doors(&mut state, &vec![solver.first_plan()]).remove(0);
        let Ok(marked) = solver.mark(&first) else { continue };
        let second = explore_steps(&mut state, &vec![marked.marking_plan()]).remove(0);
        let Ok(numbered) = marked.number(&second) else { continue };
        let third = explore_steps(&mut state, &numbered.numbering_plans());
        let Ok(located) = numbered.locate(&third) else { continue };
        let prints = explore_steps(&mut state, &located.footprint_plans());
        let Ok(printed) = located.print(&prints) else { continue };
        let probes = explore_steps(&mut state, &printed.edge_plans());
        let Ok(probed) = printed.probe(&probes) else { continue };
        let near = explore_steps(&mut state, &probed.trivial_plans());
        let Ok(last) = probed.settle(&near) else { continue };
        if let Ok(Some(_)) = last.next_plans() {
            assert!(matches!(last.finish(), Err(SolveError::UnresolvedDoor)));
            return;
        }
    }
    panic!("no trial left a door pending");
}

#[test]
fn late_candidate_fails_the_forward_solver() {
    let mut state = hidden_graph(12, true);
    let mut seen = false;
    for seed in 0..200u64 {
        let r = run_rewrite(&mut state, Solver4::with_seed(12, false, seed));
        if matches!(r, Err(SolveError::CandidateTooLate)) {
            seen = true;
            break;
        }
    }
    assert!(seen);
}

#[test]
fn rewrite_walk_leaves_room_for_the_discriminator() {
    for n in [2usize, 3, 12] {
        let solver = Solver4::new(n);
        assert_eq!(solver.first_plan().len(), 6 * n - 6 - 1);
    }
}

#[test]
fn numbering_takes_one_plan_per_digit() {
    // up to 4 rooms per label need no digit, up to 16 one, up to 64 two; the share of one
    // label among n rooms is n / 4 rounded up
    for (n, digits) in [(3usize, 0usize), (4, 0), (5, 1), (16, 1), (17, 2), (20, 2)] {
        let mut state = hidden_graph(n, true);
        let mut found = false;
        for seed in 0..500u64 {
            let solver = Solver4::with_seed(n, true, seed);
            let first = explore_doors(&mut state, &vec![solver.first_plan()]).remove(0);
            let Ok(marked) = solver.mark(&first) else { continue };
            let second = explore_steps(&mut state, &vec![marked.marking_plan()]).remove(0);
            let Ok(numbered) = marked.number(&second) else { continue };
            assert_eq!(numbered.numbering_plans().len(), digits, "n = {}", n);
            found = true;
            break;
        }
        assert!(found, "n = {}", n);
    }
}

#[test]
fn rewrite_solver_fails_for_the_room_count_exactly_when_the_walk_misses_a_room() {
    let hidden = drawn(12, true, 7);
    assert!(hidden.check());
    let mut missed = 0;
    let mut solved = 0;
    for seed in 0..60u64 {
        for backward in [true, false] {
            let solver = Solver4::with_seed(12, backward, seed);
            let mut room = hidden.start_node;
            let mut reached = vec![false; 12];
            reached[room] = true;
            for door in solver.first_plan() {
                room = hidden.edges[room][door];
                reached[room] = true;
            }
            let all = reached.iter().all(|r| *r);
            match solver.solve(&hidden) {
                Ok(solution) => {
                    assert!(all);
                    assert_eq!(solution.starting_room, 0);
                    assert_eq!(solution.labels.len(), 12);
                    assert_eq!(solution.labels[0], hidden.labels[hidden.start_node]);
                    solved += 1;
                }
                Err(SolveError::WrongRoomCount) => {
                    assert!(!all);
                    missed += 1;
                }
                Err(e) => {
                    assert!(all);
                    assert!(matches!(
                        e,
                        SolveError::BadResponse
                            | SolveError::UnknownSignature
                            | SolveError::CandidateTooLate
                    ));
                }
            }
        }
    }
    assert!(solved > 0);
    assert!(missed > 0);
}

#[test]
fn rewrite_solver_result_shows_the_trace_of_the_walk() {
    // the labels of a drawn graph are balanced, so the digits of the numbering plans suffice
    let hidden = drawn(12, true, 11);
    assert!(hidden.check());
    let mut solved = 0;
    for seed in 0..60u64 {
        for backward in [true, false] {
            let solver = Solver4::with_seed(12, backward, seed);
            let doors = solver.first_plan();
            if let Ok(solution) = solver.solve(&hidden) {
                let found = Graph::new(
                    solution.labels.clone(),
                    solution.edges.clone(),
                    solution.starting_room,
                    false,
                );
                assert!(found.check());
                assert_eq!(
                    found.walk(room_graph::plan::plan_of_doors(&doors)),
                    hidden.walk(room_graph::plan::plan_of_doors(&doors))
                );
                solved += 1;
            }
        }
    }
    assert!(solved > 0);
}

#[test]
fn forward_solver_runs_against_a_graph() {
    let hidden = drawn(12, true, 7);
    let mut solved = 0;
    for seed in 0..60u64 {
        let doors = Solver3::with_seed(12, seed).into_rounds().first_plan();
        match Solver3::with_seed(12, seed).solve(&hidden) {
            Ok(solution) => {
                let found = Graph::new(
                    solution.labels.clone(),
                    solution.edges.clone(),
                    solution.starting_room,
                    false,
                );
                assert!(found.check());
                assert_eq!(
                    found.walk(room_graph::plan::plan_of_doors(&doors)),
                    hidden.walk(room_graph::plan::plan_of_doors(&doors))
                );
                solved += 1;
            }
            Err(e) => assert!(matches!(
                e,
                SolveError::WrongRoomCount
                    | SolveError::BadResponse
                    | SolveError::UnknownSignature
                    | SolveError::CandidateTooLate
            )),
        }
    }
    assert!(solved > 0);
}

#[test]
fn drawn_graphs_have_no_label_on_more_rooms_than_the_digits_tell_apart() {
    for n in [3usize, 5, 12, 17] {
        let g = Graph::random(n, true).expect("no graph drawn");
        for l in 0..4 {
            let bearers = g.labels.iter().filter(|x| **x == l).count();
            assert!(bearers <= (n + 3) / 4, "n = {}, label {}", n, l);
        }
    }
}
