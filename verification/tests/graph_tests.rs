use room_graph::graph::Graph;
use room_graph::plan::WalkStep;

fn example_one() -> Graph {
    Graph::new(
        vec![0, 2, 1],
        vec![
            vec![2, 0, 2, 0, 0, 0],
            vec![1, 1, 1, 2, 2, 1],
            vec![2, 1, 1, 0, 2, 0],
        ],
        1,
        false,
    )
}

fn example_two() -> Graph {
    Graph::new(
        vec![0, 1, 2],
        vec![
            vec![1, 0, 1, 0, 0, 0],
            vec![1, 2, 2, 0, 1, 0],
            vec![2, 2, 2, 1, 1, 2],
        ],
        2,
        false,
    )
}

#[test]
fn test_bisimulation_example() {
    let graph1 = Graph::new(
        vec![0, 2, 1],
        vec![
            vec![2, 0, 2, 0, 0, 0],
            vec![1, 1, 1, 2, 2, 1],
            vec![2, 1, 1, 0, 2, 0],
        ],
        1,
        false,
    );

    let graph2 = Graph::new(
        vec![0, 1, 2],
        vec![
            vec![1, 0, 1, 0, 0, 0],
            vec![1, 2, 2, 0, 1, 0],
            vec![2, 2, 2, 1, 1, 2],
        ],
        2,
        false,
    );

    assert!(
        graph1.bisimulation(&graph2),
        "graph1 should be bisimilar to graph2"
    );
    assert!(
        graph2.bisimulation(&graph1),
        "graph2 should be bisimilar to graph1"
    );
}

#[test]
fn walk_of_empty_plan_shows_start_label() {
    let g = example_one();
    assert_eq!(g.walk(vec![]), vec![2]);
}

#[test]
fn walk_has_one_label_more_than_steps() {
    let g = example_one();
    let plan = vec![
        WalkStep::Edge(3),
        WalkStep::Rewrite(3),
        WalkStep::Edge(0),
        WalkStep::Edge(5),
        WalkStep::Edge(1),
    ];
    let trace = g.walk(plan.clone());
    assert_eq!(trace.len(), plan.len() + 1);
}

#[test]
fn walk_follows_doors_and_shows_labels() {
    let g = example_one();
    // start 1 (label 2); door 3 -> room 2 (label 1); door 3 -> room 0 (label 0);
    // door 0 -> room 2 (label 1); door 1 -> room 1 (label 2).
    let trace = g.walk(vec![
        WalkStep::Edge(3),
        WalkStep::Edge(3),
        WalkStep::Edge(0),
        WalkStep::Edge(1),
    ]);
    assert_eq!(trace, vec![2, 1, 0, 1, 2]);
}

#[test]
fn walk_is_the_same_every_time() {
    let g = example_one();
    let plan = vec![WalkStep::Edge(4), WalkStep::Rewrite(0), WalkStep::Edge(2), WalkStep::Edge(2)];
    assert_eq!(g.walk(plan.clone()), g.walk(plan));
}

#[test]
fn rewrite_shows_written_label_and_stays() {
    let g = example_one();
    // start 1; write 3; door 0 is a self-loop at room 1, so the written label shows again.
    let trace = g.walk(vec![WalkStep::Rewrite(3), WalkStep::Edge(0)]);
    assert_eq!(trace, vec![2, 3, 3]);
}

#[test]
fn rewrite_in_one_plan_does_not_reach_the_next() {
    let g = example_one();
    let writing = vec![WalkStep::Rewrite(3), WalkStep::Edge(0)];
    let reading = vec![WalkStep::Edge(0)];
    let alone = g.walk(reading.clone());
    let _ = g.walk(writing.clone());
    assert_eq!(g.walk(reading.clone()), alone);
    let batch = g.walk_all(&vec![writing, reading]);
    assert_eq!(batch[1], alone);
    assert_eq!(batch[1], vec![2, 2]);
}

#[test]
fn self_loop_door_walked_twice_returns() {
    // door 0 of room 1 leads to room 1 itself
    let g = example_one();
    let trace = g.walk(vec![WalkStep::Edge(0), WalkStep::Edge(0)]);
    assert_eq!(trace, vec![2, 2, 2]);
}

#[test]
fn bisimulation_is_reflexive() {
    assert!(example_one().bisimulation(&example_one()));
    assert!(example_two().bisimulation(&example_two()));
}

#[test]
fn bisimulation_is_symmetric_on_different_graphs() {
    let g = example_one();
    let other = Graph::new(
        vec![0, 2, 1],
        vec![
            vec![0, 0, 0, 0, 0, 0],
            vec![1, 1, 1, 1, 1, 1],
            vec![2, 2, 2, 2, 2, 2],
        ],
        1,
        false,
    );
    assert_eq!(g.bisimulation(&other), other.bisimulation(&g));
    assert!(!g.bisimulation(&other));
}

#[test]
fn bisimulation_rejects_other_size() {
    let g = example_one();
    let small = Graph::new(vec![2], vec![vec![0, 0, 0, 0, 0, 0]], 0, false);
    assert!(!g.bisimulation(&small));
    assert!(!small.bisimulation(&g));
}

#[test]
fn bisimulation_rejects_other_start_label() {
    let g = example_one();
    let mut h = example_one();
    h.start_node = 0;
    assert!(!g.bisimulation(&h));
}

#[test]
fn bisimilar_graphs_give_equal_traces() {
    let g = example_one();
    let h = example_two();
    assert!(g.bisimulation(&h));
    let mut plan = vec![];
    let mut x: usize = 7;
    for _ in 0..200 {
        x = (x * 31 + 11) % 1009;
        plan.push(WalkStep::Edge(x % 6));
    }
    assert_eq!(g.walk(plan.clone()), h.walk(plan));
}

#[test]
fn sampled_comparison_accepts_equal_graphs() {
    let mut g = example_one();
    g.is_full = true;
    let h = example_one();
    assert!(g.bisimulation_randomized(&h));
    assert!(g.bisimulation(&h));
}

#[test]
fn sampled_comparison_tells_apart_by_label() {
    let mut g = example_one();
    g.is_full = true;
    let mut h = example_one();
    h.labels = vec![0, 3, 1];
    assert!(!g.bisimulation_randomized(&h));
}

#[test]
fn agree_on_compares_traces() {
    let g = example_one();
    let h = example_two();
    let plan = vec![WalkStep::Edge(3), WalkStep::Edge(1)];
    assert!(g.agree_on(&h, &plan));
    let mut k = example_one();
    k.labels = vec![0, 2, 3];
    assert!(!g.agree_on(&k, &plan));
}

#[test]
fn connected_graph_is_connected() {
    assert!(example_one().connected());
}

#[test]
fn isolated_room_is_not_reached() {
    let g = Graph::new(
        vec![0, 1, 2],
        vec![
            vec![1, 1, 0, 0, 0, 0],
            vec![0, 0, 1, 1, 1, 1],
            vec![2, 2, 2, 2, 2, 2],
        ],
        0,
        false,
    );
    assert!(!g.connected());
}

#[test]
fn node_count_is_number_of_labels() {
    assert_eq!(example_one().node_count(), 3);
}

#[test]
fn check_accepts_example_and_rejects_bad_graphs() {
    assert!(example_one().check());
    let short_row = Graph::new(vec![0], vec![vec![0, 0, 0]], 0, false);
    assert!(!short_row.check());
    let bad_target = Graph::new(vec![0], vec![vec![0, 0, 0, 0, 0, 1]], 0, false);
    assert!(!bad_target.check());
    let bad_start = Graph::new(vec![0], vec![vec![0, 0, 0, 0, 0, 0]], 1, false);
    assert!(!bad_start.check());
    let bad_label = Graph::new(vec![4], vec![vec![0, 0, 0, 0, 0, 0]], 0, false);
    assert!(!bad_label.check());
}

#[test]
fn random_graph_is_well_formed_and_balanced() {
    for n in [1usize, 3, 6, 12] {
        let g = Graph::random(n, false).expect("no graph drawn");
        assert!(g.check());
        assert_eq!(g.node_count(), n);
        let mut counts = [0usize; 4];
        for &l in &g.labels {
            counts[l] += 1;
        }
        for l in 0..4 {
            let want = n / 4 + if l < n % 4 { 1 } else { 0 };
            assert_eq!(counts[l], want);
        }
        for u in 0..n {
            for v in 0..n {
                let uv = g.edges[u].iter().filter(|&&x| x == v).count();
                let vu = g.edges[v].iter().filter(|&&x| x == u).count();
                if u != v {
                    assert_eq!(uv, vu);
                }
            }
        }
    }
}

#[test]
fn random_graph_of_no_rooms_does_not_exist() {
    assert!(Graph::random(0, false).is_none());
}

#[test]
fn batch_of_plans_is_walked_plan_by_plan() {
    let g = example_one();
    let p = vec![WalkStep::Rewrite(0), WalkStep::Edge(3), WalkStep::Rewrite(3)];
    let q = vec![WalkStep::Edge(3), WalkStep::Edge(3)];
    let both = g.walk_all(&vec![p.clone(), q.clone()]);
    let alone = g.walk_all(&vec![q.clone()]);
    assert_eq!(both[1], alone[0]);
    assert_eq!(both[0], g.walk(p));
    assert_eq!(alone[0], vec![2, 1, 0]);
}

fn tiny(seed: u64, n: usize) -> Graph {
    let mut x = seed;
    let mut next = |bound: usize| {
        x = x.wrapping_mul(6364136223846793005).wrapping_add(1442695040888963407);
        ((x >> 33) as usize) % bound
    };
    let labels: Vec<usize> = (0..n).map(|_| next(2)).collect();
    let edges: Vec<Vec<usize>> = (0..n).map(|_| (0..6).map(|_| next(n)).collect()).collect();
    let start = next(n);
    Graph::new(labels, edges, start, false)
}

fn same_traces_up_to(g: &Graph, h: &Graph, depth: usize) -> bool {
    let mut plans: Vec<Vec<WalkStep>> = vec![vec![]];
    for _ in 0..depth {
        let mut longer = vec![];
        for p in &plans {
            for d in 0..6 {
                let mut q = p.clone();
                q.push(WalkStep::Edge(d));
                longer.push(q);
            }
        }
        plans = longer;
    }
    plans.into_iter().all(|p| g.walk(p.clone()) == h.walk(p))
}

#[test]
fn bisimulation_agrees_with_comparing_all_short_walks() {
    let mut accepted = 0;
    let mut rejected = 0;
    for seed in 0..300u64 {
        let n = 1 + (seed as usize % 3);
        let g = tiny(seed, n);
        let h = tiny(seed * 7 + 3, n);
        // walks of 2 n - 1 doors tell apart any two rooms that can be told apart at all
        let want = same_traces_up_to(&g, &h, 2 * n - 1);
        assert_eq!(g.bisimulation(&h), want, "seed {}", seed);
        assert_eq!(h.bisimulation(&g), want, "seed {}", seed);
        if want {
            accepted += 1;
        } else {
            rejected += 1;
        }
    }
    assert!(accepted > 0 && rejected > 0);
}

#[test]
fn random_graph_exists_for_every_size_but_zero() {
    for n in 1..40usize {
        let g = Graph::random(n, n % 2 == 0).expect("no graph drawn");
        assert!(g.check());
        assert_eq!(g.node_count(), n);
        assert_eq!(g.is_full, n % 2 == 0);
        assert!(g.edges.iter().all(|row| row.len() == 6));
    }
}

#[test]
fn sampled_comparison_rejects_other_start_label() {
    let mut g = example_one();
    g.is_full = true;
    let mut h = example_one();
    h.start_node = 0;
    assert!(!g.bisimulation_randomized(&h));
    assert!(!g.bisimulation(&h));
}
