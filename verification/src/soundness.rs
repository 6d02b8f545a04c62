//! Why the walk-and-identify solver is right: against an oracle that
//! answers truthfully for a hidden graph, whatever graph it arrives at is
//! accepted for the hidden one.

use vstd::prelude::*;
use crate::bisim::{accepts, is_simulation, leads};
use crate::csp::Solution;
use crate::error::SolveError;
use crate::graph::{room_after, walk_from, Graph};
use crate::plan::{all_doors, door_plan, plan_of_doors, WalkStep};
use crate::problem::DEGREE;
use crate::table::{is_table, row_ok, table};
use crate::walk_identify::{
    first_plan, firsts, is_first, probe_plan, probe_signature, signature, Solver,
};

verus! {

/// The labels seen from room `x` along a walk through doors: the label of
/// `x` itself, then the label behind every door taken.
pub open spec fn seen_from(g: Graph, x: int, path: Seq<usize>) -> Seq<usize> {
    seq![g.labels@[x]] + walk_from(g.doors(), g.labels@, x, door_plan(path))
}

/// The room reached from `x` along doors is a room.
pub proof fn lemma_room_in_range(g: Graph, x: int, path: Seq<usize>)
    requires
        g.wf(),
        0 <= x < g.labels@.len(),
        all_doors(path),
    ensures
        0 <= room_after(g.doors(), x, path) < g.labels@.len(),
    decreases path.len(),
{
    if path.len() > 0 {
        assert(all_doors(path.drop_last())) by {
            assert forall|i: int| 0 <= i < path.drop_last().len() implies #[trigger] path.drop_last()[i]
                < DEGREE by {
                assert(path.drop_last()[i] == path[i]);
            }
        }
        lemma_room_in_range(g, x, path.drop_last());
        let y = room_after(g.doors(), x, path.drop_last());
        assert(row_ok(g.doors()[y], g.labels@.len()));
        assert(path.last() == path[path.len() - 1]);
    }
}

/// The room reached along a path is the room reached from behind its first
/// door along the rest.
pub proof fn lemma_room_after_front(doors: Seq<Seq<usize>>, x: int, path: Seq<usize>)
    requires
        path.len() > 0,
    ensures
        room_after(doors, x, path) == room_after(
            doors,
            doors[x][path[0] as int] as int,
            path.drop_first(),
        ),
    decreases path.len(),
{
    let y = doors[x][path[0] as int] as int;
    if path.len() == 1 {
        assert(path.drop_last() =~= Seq::<usize>::empty());
        assert(path.drop_first() =~= Seq::<usize>::empty());
        assert(path.last() == path[0]);
        assert(room_after(doors, x, path.drop_last()) == x);
        assert(room_after(doors, y, path.drop_first()) == y);
    } else {
        let shorter = path.drop_last();
        let rest = path.drop_first();
        lemma_room_after_front(doors, x, shorter);
        assert(shorter[0] == path[0]);
        assert(shorter.drop_first() =~= rest.drop_last());
        assert(rest.last() == path.last());
        assert(room_after(doors, x, path) == doors[room_after(doors, x, shorter)][path.last() as int]);
        assert(room_after(doors, y, rest) == doors[room_after(doors, y, rest.drop_last())][rest.last() as int]);
    }
}

/// What is seen along two walks, one after the other, is from the end of
/// the first walk on what is seen from the room reached by it along the
/// second.
pub proof fn lemma_seen_tail(g: Graph, x: int, a: Seq<usize>, b: Seq<usize>)
    ensures
        seen_from(g, x, a + b).skip(a.len() as int) == seen_from(
            g,
            room_after(g.doors(), x, a),
            b,
        ),
        seen_from(g, x, a + b).len() == a.len() + b.len() + 1,
    decreases a.len(),
{
    crate::graph::lemma_walk_len(g.doors(), g.labels@, x, door_plan(a + b));
    if a.len() == 0 {
        assert(a + b =~= b);
        assert(seen_from(g, x, a + b).skip(0) =~= seen_from(g, x, b));
    } else {
        let y = g.doors()[x][a[0] as int] as int;
        let rest = a.drop_first();
        let plan = door_plan(a + b);
        assert(plan[0] == WalkStep::Edge(a[0]));
        assert(plan.drop_first() =~= door_plan(rest + b));
        lemma_seen_tail(g, y, rest, b);
        lemma_room_after_front(g.doors(), x, a);
        assert(seen_from(g, x, a + b) =~= seq![g.labels@[x]] + seen_from(g, y, rest + b));
        assert(seen_from(g, x, a + b).skip(a.len() as int) =~= seen_from(g, y, rest + b).skip(
            rest.len() as int,
        ));
    }
}

/// The positions that are the first with their signature are positions
/// below `m`, in rising order, each the first with its signature; and every
/// such position is among them.
pub proof fn lemma_firsts(results: Seq<Vec<usize>>, m: int)
    requires
        0 <= m <= usize::MAX,
    ensures
        forall|k: int|
            0 <= k < firsts(results, m).len() ==> (#[trigger] firsts(results, m)[k]) < m
                && is_first(results, firsts(results, m)[k] as int),
        forall|j: int, k: int|
            0 <= j < k < firsts(results, m).len() ==> (#[trigger] firsts(results, m)[j]) < (
            #[trigger] firsts(results, m)[k]),
        m > 0 ==> firsts(results, m).len() > 0 && firsts(results, m)[0] == 0,
    decreases m,
{
    if m > 0 {
        lemma_firsts(results, m - 1);
        let before = firsts(results, m - 1);
        let all = firsts(results, m);
        assert forall|k: int| 0 <= k < all.len() implies (#[trigger] all[k]) < m && is_first(
            results,
            all[k] as int,
        ) by {
            if k < before.len() {
                assert(all[k] == before[k]);
            }
        }
        assert forall|j: int, k: int| 0 <= j < k < all.len() implies (#[trigger] all[j]) < (
        #[trigger] all[k]) by {
            assert(all[j] == before[j]);
            if k < before.len() {
                assert(all[k] == before[k]);
            }
        }
        if m == 1 {
            assert(is_first(results, 0));
        } else {
            assert(all[0] == before[0]);
        }
    }
}

/// A list of `n` different rooms of a graph of `n` rooms holds every room.
pub proof fn lemma_all_rooms(rooms: Seq<int>, n: int, x: int)
    requires
        rooms.len() == n,
        forall|k: int| 0 <= k < n ==> 0 <= #[trigger] rooms[k] < n,
        forall|j: int, k: int| 0 <= j < n && 0 <= k < n && j != k ==> rooms[j] != rooms[k],
        0 <= x < n,
    ensures
        exists|k: int| 0 <= k < n && rooms[k] == x,
{
    assert(rooms.no_duplicates());
    rooms.unique_seq_to_set();
    let range = vstd::set_lib::set_int_range(0, n);
    vstd::set_lib::lemma_int_range(0, n);
    assert(rooms.to_set().subset_of(range)) by {
        assert forall|v: int| rooms.to_set().contains(v) implies range.contains(v) by {
            let k = choose|k: int| 0 <= k < rooms.len() && rooms[k] == v;
            assert(0 <= rooms[k] < n);
        }
    }
    vstd::set_lib::lemma_len_subset(rooms.to_set(), range);
    vstd::set_lib::lemma_subset_equality(rooms.to_set(), range);
    assert(range.contains(x));
    assert(rooms.to_set().contains(x));
    let k = choose|k: int| 0 <= k < rooms.len() && rooms[k] == x;
    assert(rooms[k] == x);
}

/// The oracle's answer to plans through doors is truthful for the graph.
pub open spec fn truthful(g: Graph, plans: Seq<Vec<usize>>, results: Seq<Vec<usize>>) -> bool {
    &&& results.len() == plans.len()
    &&& forall|i: int|
        0 <= i < plans.len() ==> (#[trigger] results[i])@ == g.trace(door_plan(plans[i]@))
}

/// The first round was answered truthfully by a graph in which the positions
/// that are the first with their signature are as many as the rooms.
pub open spec fn first_round(g: Graph, walk: Seq<usize>, magic: Seq<usize>, first: Seq<Vec<usize>>) -> bool {
    &&& g.wf()
    &&& all_doors(walk)
    &&& all_doors(magic)
    &&& walk.len() < usize::MAX
    &&& first.len() == walk.len() + 1
    &&& forall|i: int|
        0 <= i < first.len() ==> (#[trigger] first[i])@ == g.trace(
            door_plan(first_plan(walk, magic, i)),
        )
    &&& firsts(first, first.len() as int).len() == g.labels@.len()
}

/// The second round was answered truthfully.
pub open spec fn second_round(
    g: Graph,
    walk: Seq<usize>,
    magic: Seq<usize>,
    first: Seq<Vec<usize>>,
    second: Seq<Vec<usize>>,
) -> bool {
    &&& second.len() == g.labels@.len() * DEGREE
    &&& forall|k: int, e: int|
        0 <= k < g.labels@.len() && 0 <= e < DEGREE ==> (#[trigger] second[k * DEGREE + e])@
            == g.trace(
            door_plan(
                probe_plan(walk, magic, firsts(first, first.len() as int)[k] as int, e as usize),
            ),
        )
}

/// The room of the hidden graph in which the walk stands at position `i`.
pub open spec fn room_at(g: Graph, walk: Seq<usize>, i: int) -> int {
    room_after(g.doors(), g.start_node as int, walk.take(i))
}

/// What is seen along the run from the room in which the walk stands at
/// position `i`.
pub open spec fn shown_at(g: Graph, walk: Seq<usize>, magic: Seq<usize>, i: int) -> Seq<usize> {
    seen_from(g, room_at(g, walk, i), magic)
}

/// No earlier walk position shows along the run what position `i` shows.
pub open spec fn shows_anew(g: Graph, walk: Seq<usize>, magic: Seq<usize>, i: int) -> bool {
    forall|j: int| 0 <= j < i ==> #[trigger] shown_at(g, walk, magic, j) != shown_at(
        g,
        walk,
        magic,
        i,
    )
}

/// Number of walk positions below `m` that show along the run what no
/// earlier position shows: the number of rooms that the walk reaches and the
/// run tells apart.
pub open spec fn rooms_shown(g: Graph, walk: Seq<usize>, magic: Seq<usize>, m: int) -> nat
    decreases m,
{
    if m <= 0 {
        0
    } else {
        rooms_shown(g, walk, magic, m - 1) + if shows_anew(g, walk, magic, m - 1) {
            1nat
        } else {
            0nat
        }
    }
}

/// Against truthful answers the positions that are the first with their
/// signature are as many as the rooms shown.
pub proof fn lemma_firsts_count(
    g: Graph,
    walk: Seq<usize>,
    magic: Seq<usize>,
    first: Seq<Vec<usize>>,
    m: int,
)
    requires
        g.wf(),
        all_doors(walk),
        all_doors(magic),
        first.len() == walk.len() + 1,
        forall|i: int|
            0 <= i < first.len() ==> (#[trigger] first[i])@ == g.trace(
                door_plan(first_plan(walk, magic, i)),
            ),
        0 <= m <= walk.len() + 1,
    ensures
        firsts(first, m).len() == rooms_shown(g, walk, magic, m),
    decreases m,
{
    if m > 0 {
        lemma_firsts_count(g, walk, magic, first, m - 1);
        assert forall|i: int| 0 <= i < m implies #[trigger] signature(first, i) == shown_at(
            g,
            walk,
            magic,
            i,
        ) by {
            lemma_seen_tail(g, g.start_node as int, walk.take(i), magic);
            assert(first[i]@ == g.trace(door_plan(first_plan(walk, magic, i))));
        }
        if is_first(first, m - 1) {
            assert forall|j: int| 0 <= j < m - 1 implies #[trigger] shown_at(g, walk, magic, j)
                != shown_at(g, walk, magic, m - 1) by {
                assert(signature(first, j) != signature(first, m - 1));
            }
        }
        if shows_anew(g, walk, magic, m - 1) {
            assert forall|j: int| 0 <= j < m - 1 implies #[trigger] signature(first, j)
                != signature(first, m - 1) by {
                assert(shown_at(g, walk, magic, j) != shown_at(g, walk, magic, m - 1));
            }
        }
    }
}

/// The signature of a walk position is what is seen from its room along the
/// run, and its room is a room.
pub proof fn lemma_signature(
    g: Graph,
    walk: Seq<usize>,
    magic: Seq<usize>,
    first: Seq<Vec<usize>>,
    i: int,
)
    requires
        first_round(g, walk, magic, first),
        0 <= i <= walk.len(),
    ensures
        signature(first, i) == seen_from(g, room_at(g, walk, i), magic),
        0 <= room_at(g, walk, i) < g.labels@.len(),
        first[i]@.len() == i + magic.len() + 1,
{
    lemma_seen_tail(g, g.start_node as int, walk.take(i), magic);
    assert(first[i]@ == g.trace(door_plan(first_plan(walk, magic, i))));
    assert(all_doors(walk.take(i))) by {
        assert forall|q: int| 0 <= q < walk.take(i).len() implies #[trigger] walk.take(i)[q]
            < DEGREE by {
            assert(walk.take(i)[q] == walk[q]);
        }
    }
    lemma_room_in_range(g, g.start_node as int, walk.take(i));
}

/// Every room of the hidden graph is the room of a position that is the
/// first with its signature, and different such positions have different
/// rooms.
pub proof fn lemma_reps_cover(
    g: Graph,
    walk: Seq<usize>,
    magic: Seq<usize>,
    first: Seq<Vec<usize>>,
    y: int,
) -> (q: int)
    requires
        first_round(g, walk, magic, first),
        0 <= y < g.labels@.len(),
    ensures
        0 <= q < g.labels@.len(),
        firsts(first, first.len() as int)[q] <= walk.len(),
        room_at(g, walk, firsts(first, first.len() as int)[q] as int) == y,
{
    let n = g.labels@.len() as int;
    let reps = firsts(first, first.len() as int);
    lemma_firsts(first, first.len() as int);
    let rooms = Seq::new(n as nat, |k: int| room_at(g, walk, reps[k] as int));
    assert forall|k: int| 0 <= k < n implies 0 <= #[trigger] rooms[k] < n by {
        assert(reps[k] < first.len());
        lemma_signature(g, walk, magic, first, reps[k] as int);
    }
    assert forall|j: int, k: int| 0 <= j < n && 0 <= k < n && j != k implies rooms[j]
        != rooms[k] by {
        assert(reps[j] < first.len() && reps[k] < first.len());
        lemma_signature(g, walk, magic, first, reps[j] as int);
        lemma_signature(g, walk, magic, first, reps[k] as int);
        if j < k {
            assert(reps[j] < reps[k]);
            assert(is_first(first, reps[k] as int));
            assert(signature(first, reps[j] as int) != signature(first, reps[k] as int));
        } else {
            assert(reps[k] < reps[j]);
            assert(is_first(first, reps[j] as int));
            assert(signature(first, reps[k] as int) != signature(first, reps[j] as int));
        }
    }
    lemma_all_rooms(rooms, n, y);
    let q = choose|q: int| 0 <= q < n && rooms[q] == y;
    assert(reps[q] < first.len());
    q
}

/// A probe shows, after its door, what is seen along the run from the room
/// behind the door; and that is the signature of some position that is the
/// first with its signature.
pub proof fn lemma_probe(
    g: Graph,
    walk: Seq<usize>,
    magic: Seq<usize>,
    first: Seq<Vec<usize>>,
    second: Seq<Vec<usize>>,
    k: int,
    e: int,
) -> (q: int)
    requires
        first_round(g, walk, magic, first),
        second_round(g, walk, magic, first, second),
        0 <= k < g.labels@.len(),
        0 <= e < DEGREE,
    ensures
        0 <= q < g.labels@.len(),
        ({
            let reps = firsts(first, first.len() as int);
            let y = g.doors()[room_at(g, walk, reps[k] as int)][e] as int;
            &&& 0 <= y < g.labels@.len()
            &&& room_at(g, walk, reps[q] as int) == y
            &&& probe_signature(reps, second, k, e) == seen_from(g, y, magic)
            &&& signature(first, reps[q] as int) == seen_from(g, y, magic)
            &&& second[k * DEGREE + e]@.len() == reps[k] + magic.len() + 2
        }),
{
    let reps = firsts(first, first.len() as int);
    lemma_firsts(first, first.len() as int);
    assert(reps[k] < first.len());
    lemma_signature(g, walk, magic, first, reps[k] as int);
    let x = room_at(g, walk, reps[k] as int);
    let to = walk.take(reps[k] as int) + seq![e as usize];
    assert(probe_plan(walk, magic, reps[k] as int, e as usize) =~= to + magic);
    lemma_seen_tail(g, g.start_node as int, to, magic);
    assert(to.drop_last() =~= walk.take(reps[k] as int));
    assert(to.last() == e);
    let y = room_after(g.doors(), g.start_node as int, to);
    assert(y == g.doors()[x][e]);
    assert(row_ok(g.doors()[x], g.labels@.len()));
    assert(second[k * DEGREE + e]@ == g.trace(door_plan(to + magic)));
    let q = lemma_reps_cover(g, walk, magic, first, y);
    lemma_signature(g, walk, magic, first, reps[q] as int);
    q
}

/// Against truthful answers the solver's graph is accepted.
///
/// Let a hidden graph of `n` rooms answer the first plans truthfully, let
/// `n` positions be the first with their signature, let the hidden graph
/// answer the probes truthfully, and let a table hold behind every door of
/// every such position a position of the same signature as the probe shows.
/// Then the graph made of the labels seen at those positions and of that
/// table, started in its first room, is well formed, has the hidden graph's
/// size and a starting room bisimilar to the hidden one's.
pub proof fn lemma_walk_identify_sound(
    g: Graph,
    h: Graph,
    walk: Seq<usize>,
    magic: Seq<usize>,
    first: Seq<Vec<usize>>,
    second: Seq<Vec<usize>>,
)
    requires
        first_round(g, walk, magic, first),
        second_round(g, walk, magic, first, second),
        h.labels@.len() == g.labels@.len(),
        h.start_node == 0,
        h.doors().len() == g.labels@.len(),
        forall|k: int|
            0 <= k < h.labels@.len() ==> #[trigger] h.labels@[k] == first[firsts(
                first,
                first.len() as int,
            )[k] as int]@[firsts(first, first.len() as int)[k] as int],
        forall|k: int| 0 <= k < h.labels@.len() ==> (#[trigger] h.doors()[k]).len() == DEGREE,
        forall|k: int, e: int|
            0 <= k < h.labels@.len() && 0 <= e < DEGREE ==> {
                let j = #[trigger] h.doors()[k][e] as int;
                &&& 0 <= j < h.labels@.len()
                &&& signature(first, firsts(first, first.len() as int)[j] as int)
                    == probe_signature(firsts(first, first.len() as int), second, k, e)
            },
    ensures
        h.wf(),
        accepts(g, h),
{
    let n = g.labels@.len() as int;
    let reps = firsts(first, first.len() as int);
    lemma_firsts(first, first.len() as int);
    assert forall|k: int, e: int| 0 <= k < n && 0 <= e < DEGREE implies room_at(
        g,
        walk,
        reps[h.doors()[k][e] as int] as int,
    ) == #[trigger] g.doors()[room_at(g, walk, reps[k] as int)][e] by {
        let j = h.doors()[k][e] as int;
        let q = lemma_probe(g, walk, magic, first, second, k, e);
        assert(reps[q] < first.len() && reps[j] < first.len());
        if q != j {
            if q < j {
                assert(reps[q] < reps[j]);
                assert(is_first(first, reps[j] as int));
                assert(signature(first, reps[q] as int) != signature(first, reps[j] as int));
            } else {
                assert(reps[j] < reps[q]);
                assert(is_first(first, reps[q] as int));
                assert(signature(first, reps[j] as int) != signature(first, reps[q] as int));
            }
        }
    }
    assert forall|k: int| 0 <= k < n implies #[trigger] h.labels@[k] == g.labels@[room_at(
        g,
        walk,
        reps[k] as int,
    )] && 0 <= room_at(g, walk, reps[k] as int) < n by {
        assert(reps[k] < first.len());
        lemma_signature(g, walk, magic, first, reps[k] as int);
        let sig = signature(first, reps[k] as int);
        assert(sig[0] == first[reps[k] as int]@[reps[k] as int]);
        assert(seen_from(g, room_at(g, walk, reps[k] as int), magic)[0]
            == g.labels@[room_at(g, walk, reps[k] as int)]);
    }
    assert(h.wf()) by {
        assert forall|u: int| 0 <= u < h.doors().len() implies row_ok(
            #[trigger] h.doors()[u],
            h.doors().len(),
        ) by {
            assert forall|d: int| 0 <= d < DEGREE implies #[trigger] h.doors()[u][d]
                < h.doors().len() by {
                let j = h.doors()[u][d] as int;
            }
        }
        assert forall|i: int| 0 <= i < h.labels@.len() implies #[trigger] h.labels@[i]
            < crate::problem::LABELS by {
            assert(h.labels@[i] == g.labels@[room_at(g, walk, reps[i] as int)]);
        }
    }
    let r = |x: int, k: int| 0 <= k < n && room_at(g, walk, reps[k] as int) == x;
    assert forall|x: int, k: int, d: int|
        0 <= x < g.labels@.len() && 0 <= k < h.labels@.len() && 0 <= d < DEGREE && r(
            x,
            k,
        ) implies #[trigger] leads(g, h, r, x, k, d) by {
        assert(room_at(g, walk, reps[h.doors()[k][d] as int] as int) == g.doors()[room_at(
            g,
            walk,
            reps[k] as int,
        )][d]);
    }
    assert forall|x: int, k: int|
        0 <= x < g.labels@.len() && 0 <= k < h.labels@.len() && #[trigger] r(
            x,
            k,
        ) implies g.labels@[x] == h.labels@[k] by {
        assert(h.labels@[k] == g.labels@[room_at(g, walk, reps[k] as int)]);
    }
    assert(is_simulation(g, h, r));
    assert(reps[0] == 0);
    assert(walk.take(0) =~= Seq::<usize>::empty());
    assert(room_at(g, walk, 0) == g.start_node);
    assert(r(g.start_node as int, h.start_node as int));
}

/// The graph that a solution stands for, as a graph without rewriting.
pub fn graph_of(solution: &Solution) -> (g: Graph)
    ensures
        g.labels@ == solution.labels@,
        g.doors() == table(solution.edges@),
        g.start_node == solution.starting_room,
        !g.is_full,
{
    let labels = solution.labels.clone();
    let edges = crate::table::copy_table(&solution.edges);
    proof {
        assert(labels@ =~= solution.labels@);
    }
    Graph::new(labels, edges, solution.starting_room, false)
}

impl Solver {
    /// Runs both rounds of the solver against a graph that answers every plan
    /// truthfully. The solver succeeds exactly when its walk reaches, and its
    /// run tells apart, as many rooms as the graph has; the graph that comes
    /// out is then accepted for the graph asked.
    pub fn solve(self, hidden: &Graph) -> (res: Result<Solution, SolveError>)
        requires
            hidden.wf(),
            hidden.labels@.len() == self.rooms(),
        ensures
            res is Ok <==> rooms_shown(
                *hidden,
                self.walk(),
                self.run(),
                self.walk().len() as int + 1,
            ) == self.rooms(),
            res matches Ok(solution) ==> {
                &&& solution.labels@.len() == hidden.labels@.len()
                &&& is_table(table(solution.edges@))
                &&& solution.starting_room == 0
                &&& exists|h: Graph|
                    h.labels@ == solution.labels@ && h.doors() == table(solution.edges@)
                        && h.start_node == 0 && #[trigger] accepts(*hidden, h)
            },
            res matches Err(e) ==> e is WrongRoomCount,
    {
        let first_plans = self.first_plans();
        let first = answer(hidden, &first_plans);
        let ghost walk = self.walk();
        let ghost magic = self.run();
        let ghost n = hidden.labels@.len() as int;
        proof {
            assert(first_plans@[0]@ =~= magic) by {
                assert(walk.take(0) =~= Seq::<usize>::empty());
                assert(first_plan(walk, magic, 0) =~= magic);
            }
            assert(all_doors(first_plans@[0]@));
            assert(all_doors(walk)) by {
                let last = first_plans@[walk.len() as int]@;
                assert(all_doors(last));
                assert(last == first_plan(walk, magic, walk.len() as int));
                assert forall|q: int| 0 <= q < walk.len() implies #[trigger] walk[q] < DEGREE by {
                    assert(last[q] == walk[q]);
                }
            }
            lemma_answer_shape(*hidden, first_plans@, first@, walk, magic);
            lemma_firsts_count(*hidden, walk, magic, first@, walk.len() as int + 1);
        }
        let classified = match self.classify(&first) {
            Ok(classified) => classified,
            Err(e) => {
                return Err(e);
            },
        };
        proof {
            assert(first_round(*hidden, walk, magic, first@));
        }
        let second_plans = classified.second_plans();
        let second = answer(hidden, &second_plans);
        let ghost reps = firsts(first@, first@.len() as int);
        proof {
            assert(second_round(*hidden, walk, magic, first@, second@)) by {
                assert forall|k: int, e: int| 0 <= k < n && 0 <= e < DEGREE implies (
                #[trigger] second@[k * DEGREE + e])@ == hidden.trace(
                    door_plan(probe_plan(walk, magic, reps[k] as int, e as usize)),
                ) by {
                    assert(0 <= k * DEGREE + e < n * DEGREE) by (nonlinear_arith)
                        requires
                            0 <= k < n,
                            0 <= e < DEGREE,
                    ;
                    assert(second_plans@[k * DEGREE + e]@ == probe_plan(
                        walk,
                        magic,
                        reps[k] as int,
                        e as usize,
                    ));
                }
            }
            assert(crate::walk_identify::probes_shaped(reps, magic, second@)) by {
                assert forall|k: int, e: int| 0 <= k < reps.len() && 0 <= e < DEGREE implies (
                #[trigger] second@[k * DEGREE + e])@.len() == reps[k] + magic.len() + 2 by {
                    let q = lemma_probe(*hidden, walk, magic, first@, second@, k, e);
                }
            }
            assert forall|k: int, e: int| 0 <= k < n && 0 <= e < DEGREE implies crate::walk_identify::known(
                classified.signatures(),
                #[trigger] probe_signature(reps, second@, k, e),
            ) by {
                let q = lemma_probe(*hidden, walk, magic, first@, second@, k, e);
                assert(classified.signatures()[q] == signature(first@, reps[q] as int));
            }
        }
        let solution = match classified.resolve(&second) {
            Ok(solution) => solution,
            Err(e) => {
                return Err(e);
            },
        };
        let h = graph_of(&solution);
        proof {
            assert forall|k: int| 0 <= k < h.labels@.len() implies (#[trigger] h.doors()[k]).len()
                == DEGREE by {
                assert(h.doors()[k] == solution.edges@[k]@);
            }
            assert forall|k: int, e: int| 0 <= k < h.labels@.len() && 0 <= e < DEGREE implies {
                let j = #[trigger] h.doors()[k][e] as int;
                &&& 0 <= j < h.labels@.len()
                &&& signature(first@, reps[j] as int) == probe_signature(reps, second@, k, e)
            } by {
                let j = solution.edges@[k]@[e] as int;
                assert(h.doors()[k][e] == j);
                assert(classified.signatures()[j] == probe_signature(reps, second@, k, e));
                assert(classified.signatures()[j] == signature(first@, reps[j] as int));
            }
            lemma_walk_identify_sound(*hidden, h, walk, magic, first@, second@);
            assert(accepts(*hidden, h));
        }
        Ok(solution)
    }
}

/// The truthful answer of a graph to plans through doors.
pub fn answer(hidden: &Graph, plans: &Vec<Vec<usize>>) -> (results: Vec<Vec<usize>>)
    requires
        hidden.wf(),
        forall|i: int| 0 <= i < plans@.len() ==> all_doors((#[trigger] plans@[i])@),
    ensures
        truthful(*hidden, plans@, results@),
{
    let mut results: Vec<Vec<usize>> = Vec::new();
    let mut i: usize = 0;
    while i < plans.len()
        invariant
            i <= plans@.len(),
            hidden.wf(),
            forall|k: int| 0 <= k < plans@.len() ==> all_doors((#[trigger] plans@[k])@),
            results@.len() == i,
            forall|k: int|
                0 <= k < i ==> (#[trigger] results@[k])@ == hidden.trace(door_plan(plans@[k]@)),
        decreases plans@.len() - i,
    {
        let plan = plan_of_doors(&plans[i]);
        proof {
            assert(all_doors(plans@[i as int]@));
            assert forall|q: int| 0 <= q < plan@.len() implies match #[trigger] plan@[q] {
                WalkStep::Edge(d) => d < DEGREE,
                WalkStep::Rewrite(_) => true,
            } by {
                assert(plans@[i as int]@[q] < DEGREE);
            }
        }
        results.push(hidden.walk(plan));
        i += 1;
    }
    results
}

/// A truthful answer to the first plans has the shape of an answer.
proof fn lemma_answer_shape(
    g: Graph,
    plans: Seq<Vec<usize>>,
    results: Seq<Vec<usize>>,
    walk: Seq<usize>,
    magic: Seq<usize>,
)
    requires
        g.wf(),
        truthful(g, plans, results),
        plans.len() == walk.len() + 1,
        forall|i: int| 0 <= i < plans.len() ==> (#[trigger] plans[i])@ == first_plan(walk, magic, i),
        forall|i: int| 0 <= i < plans.len() ==> all_doors((#[trigger] plans[i])@),
    ensures
        crate::walk_identify::shaped(walk, magic, results),
{
    assert forall|i: int| 0 <= i < results.len() implies (#[trigger] results[i])@.len() == i
        + magic.len() + 1 by {
        crate::graph::lemma_trace_len(g, door_plan(plans[i]@));
        assert(plans[i]@ == first_plan(walk, magic, i));
    }
    assert forall|i: int, j: int|
        0 <= i < results.len() && 0 <= j < results[i]@.len() implies #[trigger] results[i]@[j]
        < crate::problem::LABELS by {
        lemma_trace_labels(g, g.start_node as int, plans[i]@);
        assert(results[i]@ == seen_from(g, g.start_node as int, plans[i]@));
    }
}

/// What is seen along doors are labels of the graph.
pub proof fn lemma_trace_labels(g: Graph, x: int, path: Seq<usize>)
    requires
        g.wf(),
        0 <= x < g.labels@.len(),
        all_doors(path),
    ensures
        forall|j: int|
            0 <= j < seen_from(g, x, path).len() ==> #[trigger] seen_from(g, x, path)[j]
                < crate::problem::LABELS,
    decreases path.len(),
{
    if path.len() > 0 {
        let y = g.doors()[x][path[0] as int] as int;
        assert(row_ok(g.doors()[x], g.labels@.len()));
        let rest = path.drop_first();
        assert(all_doors(rest)) by {
            assert forall|i: int| 0 <= i < rest.len() implies #[trigger] rest[i] < DEGREE by {
                assert(rest[i] == path[i + 1]);
            }
        }
        lemma_trace_labels(g, y, rest);
        let plan = door_plan(path);
        assert(plan[0] == WalkStep::Edge(path[0]));
        assert(plan.drop_first() =~= door_plan(rest));
        assert(seen_from(g, x, path) =~= seq![g.labels@[x]] + seen_from(g, y, rest));
        assert forall|j: int| 0 <= j < seen_from(g, x, path).len() implies #[trigger] seen_from(
            g,
            x,
            path,
        )[j] < crate::problem::LABELS by {
            if j > 0 {
                assert(seen_from(g, x, path)[j] == seen_from(g, y, rest)[j - 1]);
            }
        }
    } else {
        assert(door_plan(path) =~= Seq::<WalkStep>::empty());
    }
}

} // verus!
