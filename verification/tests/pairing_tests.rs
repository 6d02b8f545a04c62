use room_graph::graph::Graph;
use room_graph::pairing::{
    build_guess, create_graph_from_map, pair_doors, GuessGraph, GuessGraphConnection,
    PairingError, RoomAndDoor,
};

fn door(room: usize, door: usize) -> RoomAndDoor {
    RoomAndDoor { room, door }
}

fn conn(a: (usize, usize), b: (usize, usize)) -> GuessGraphConnection {
    GuessGraphConnection { from: door(a.0, a.1), to: door(b.0, b.1) }
}

fn example_table() -> Vec<Vec<usize>> {
    vec![
        vec![2, 0, 2, 0, 0, 0],
        vec![1, 1, 1, 2, 2, 1],
        vec![2, 1, 1, 0, 2, 0],
    ]
}

#[test]
fn pairing_of_example_table() {
    let conns = pair_doors(&example_table()).unwrap();
    let want = vec![
        conn((0, 0), (2, 3)),
        conn((0, 1), (0, 1)),
        conn((0, 2), (2, 5)),
        conn((0, 3), (0, 3)),
        conn((0, 4), (0, 4)),
        conn((0, 5), (0, 5)),
        conn((1, 0), (1, 0)),
        conn((1, 1), (1, 1)),
        conn((1, 2), (1, 2)),
        conn((1, 3), (2, 1)),
        conn((1, 4), (2, 2)),
        conn((1, 5), (1, 5)),
        conn((2, 0), (2, 0)),
        conn((2, 4), (2, 4)),
    ];
    assert_eq!(conns, want);
}

#[test]
fn every_door_is_paired_exactly_once() {
    let table = example_table();
    let conns = pair_doors(&table).unwrap();
    for u in 0..3 {
        for d in 0..6 {
            let hits = conns
                .iter()
                .filter(|c| (c.from == door(u, d)) || (c.to == door(u, d)))
                .count();
            assert_eq!(hits, 1);
        }
    }
}

#[test]
fn pairing_without_self_loops_has_half_as_many_pairs_as_doors() {
    // two rooms, every door of one leads to the other
    let table = vec![vec![1, 1, 1, 1, 1, 1], vec![0, 0, 0, 0, 0, 0]];
    let conns = pair_doors(&table).unwrap();
    assert_eq!(conns.len(), 2 * 6 / 2);
    for (d, c) in conns.iter().enumerate() {
        assert_eq!(*c, conn((0, d), (1, d)));
    }
}

#[test]
fn pair_count_counts_self_pairs_once() {
    let conns = pair_doors(&example_table()).unwrap();
    let selfs = conns.iter().filter(|c| c.from == c.to).count();
    assert_eq!(selfs, 10);
    assert_eq!(2 * conns.len(), 3 * 6 + selfs);
}

#[test]
fn self_loop_door_is_paired_with_itself() {
    let table = vec![vec![0, 0, 0, 0, 0, 0]];
    let conns = pair_doors(&table).unwrap();
    assert_eq!(conns.len(), 6);
    for (d, c) in conns.iter().enumerate() {
        assert_eq!(*c, conn((0, d), (0, d)));
    }
}

#[test]
fn second_door_is_the_lowest_free_one() {
    let table = vec![vec![1, 1, 0, 0, 0, 0], vec![1, 0, 1, 0, 1, 1]];
    let conns = pair_doors(&table).unwrap();
    assert_eq!(conns[0], conn((0, 0), (1, 1)));
    assert_eq!(conns[1], conn((0, 1), (1, 3)));
}

#[test]
fn missing_reverse_door_is_reported() {
    // room 0 has two doors to room 1, room 1 only one door back
    let table = vec![vec![1, 1, 0, 0, 0, 0], vec![0, 1, 1, 1, 1, 1]];
    assert_eq!(pair_doors(&table), Err(PairingError::NoReverse { room: 0, target: 1 }));
}

#[test]
fn one_way_door_is_reported() {
    let table = vec![vec![1, 0, 0, 0, 0, 0], vec![1, 1, 1, 1, 1, 1]];
    assert_eq!(pair_doors(&table), Err(PairingError::NoReverse { room: 0, target: 1 }));
}

#[test]
fn malformed_table_is_reported() {
    assert_eq!(pair_doors(&vec![vec![0, 0, 0]]), Err(PairingError::BadTable));
    assert_eq!(pair_doors(&vec![vec![0, 0, 0, 0, 0, 7]]), Err(PairingError::BadTable));
}

#[test]
fn guess_carries_labels_and_start() {
    let guess = build_guess(&vec![0, 2, 1], &example_table(), 1).unwrap();
    assert_eq!(guess.rooms, vec![0, 2, 1]);
    assert_eq!(guess.starting_room, 1);
    assert_eq!(guess.connections.len(), 14);
}

#[test]
fn guess_needs_a_row_for_every_label() {
    let res = build_guess(&vec![0, 2], &example_table(), 0);
    assert!(matches!(res, Err(PairingError::BadTable)));
}

#[test]
fn table_is_read_back_from_its_pairing() {
    let table = example_table();
    let guess = build_guess(&vec![0, 2, 1], &table, 1).unwrap();
    let graph = create_graph_from_map(&guess).unwrap();
    assert_eq!(graph.edges, table);
    assert_eq!(graph.labels, vec![0, 2, 1]);
    assert_eq!(graph.start_node, 1);
    assert!(!graph.is_full);
}

#[test]
fn map_with_a_door_left_out_is_no_graph() {
    let mut guess = build_guess(&vec![0, 2, 1], &example_table(), 1).unwrap();
    guess.connections.pop();
    assert!(create_graph_from_map(&guess).is_none());
}

#[test]
fn connection_out_of_range_is_no_graph() {
    let mut guess = build_guess(&vec![0, 2, 1], &example_table(), 1).unwrap();
    guess.connections.push(conn((0, 0), (5, 0)));
    assert!(create_graph_from_map(&guess).is_none());
    let mut guess = build_guess(&vec![0, 2, 1], &example_table(), 1).unwrap();
    guess.connections.push(conn((0, 6), (1, 0)));
    assert!(create_graph_from_map(&guess).is_none());
    let mut guess = build_guess(&vec![0, 2, 1], &example_table(), 1).unwrap();
    guess.connections.insert(0, conn((3, 0), (3, 0)));
    assert!(create_graph_from_map(&guess).is_none());
}

#[test]
fn door_wired_twice_is_no_graph() {
    let mut guess = build_guess(&vec![0, 2, 1], &example_table(), 1).unwrap();
    guess.connections.push(conn((0, 1), (1, 0)));
    assert!(create_graph_from_map(&guess).is_none());
    let mut guess = build_guess(&vec![0, 2, 1], &example_table(), 1).unwrap();
    let again = guess.connections[0];
    guess.connections.push(again);
    assert!(create_graph_from_map(&guess).is_none());
}

#[test]
fn door_joined_to_itself_is_wired_once() {
    // one room whose six doors all lead back to it, each joined to itself
    let guess = GuessGraph {
        rooms: vec![3],
        starting_room: 0,
        connections: (0..6).map(|d| conn((0, d), (0, d))).collect(),
    };
    let graph = create_graph_from_map(&guess).unwrap();
    assert_eq!(graph.edges, vec![vec![0; 6]]);
    // two doors of the room joined to each other
    let guess = GuessGraph {
        rooms: vec![3],
        starting_room: 0,
        connections: vec![conn((0, 0), (0, 1)), conn((0, 2), (0, 3)), conn((0, 4), (0, 5))],
    };
    assert_eq!(create_graph_from_map(&guess).unwrap().edges, vec![vec![0; 6]]);
}

#[test]
fn first_door_of_a_connection_comes_first() {
    let table = vec![vec![1, 0, 1, 0, 0, 0], vec![1, 0, 1, 1, 0, 1]];
    let conns = pair_doors(&table).unwrap();
    for c in &conns {
        assert!(c.from.room * 6 + c.from.door <= c.to.room * 6 + c.to.door);
    }
    assert_eq!(conns[0], conn((0, 0), (1, 1)));
}

#[test]
fn map_with_bad_start_or_label_is_no_graph() {
    let mut guess = build_guess(&vec![0, 2, 1], &example_table(), 1).unwrap();
    guess.starting_room = 3;
    assert!(create_graph_from_map(&guess).is_none());
    let mut guess = build_guess(&vec![0, 2, 1], &example_table(), 1).unwrap();
    guess.rooms[0] = 4;
    assert!(create_graph_from_map(&guess).is_none());
}

#[test]
fn guess_of_bisimilar_table_is_accepted() {
    let hidden = Graph::new(vec![0, 2, 1], example_table(), 1, false);
    let other = vec![
        vec![1, 0, 1, 0, 0, 0],
        vec![1, 2, 2, 0, 1, 0],
        vec![2, 2, 2, 1, 1, 2],
    ];
    let guess: GuessGraph = build_guess(&vec![0, 1, 2], &other, 2).unwrap();
    let candidate = create_graph_from_map(&guess).unwrap();
    assert!(hidden.bisimulation(&candidate));
}

#[test]
fn drawn_tables_are_paired_and_read_back() {
    for n in [1usize, 2, 5, 12, 30] {
        for _ in 0..5 {
            let g = Graph::random(n, false).expect("no graph drawn");
            let guess = build_guess(&g.labels, &g.edges, g.start_node).unwrap();
            let selfs = guess.connections.iter().filter(|c| c.from == c.to).count();
            assert_eq!(2 * guess.connections.len(), n * 6 + selfs);
            let back = create_graph_from_map(&guess).unwrap();
            assert_eq!(back.edges, g.edges);
            assert_eq!(back.labels, g.labels);
            assert_eq!(back.start_node, g.start_node);
            assert!(g.bisimulation(&back));
        }
    }
}

#[test]
fn self_pairs_are_the_doors_that_lead_to_their_own_room() {
    let table = vec![vec![1, 0, 1, 0, 0, 0], vec![1, 0, 1, 1, 0, 1]];
    let conns = pair_doors(&table).unwrap();
    let loops = (0..2).map(|u| table[u].iter().filter(|v| **v == u).count()).sum::<usize>();
    let selfs = conns.iter().filter(|c| c.from == c.to).count();
    assert_eq!(loops, 8);
    assert_eq!(selfs, loops);
    assert_eq!(conns.len(), (6 * 2 - loops) / 2 + loops);
    for n in [1usize, 4, 9] {
        let g = Graph::random(n, false).expect("no graph drawn");
        let conns = pair_doors(&g.edges).unwrap();
        let loops = (0..n).map(|u| g.edges[u].iter().filter(|v| **v == u).count()).sum::<usize>();
        assert_eq!(conns.iter().filter(|c| c.from == c.to).count(), loops);
        assert_eq!(conns.len(), (6 * n - loops) / 2 + loops);
    }
}
