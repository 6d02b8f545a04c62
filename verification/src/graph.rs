//! The room graph, the walk simulator and the reachability check.

use vstd::prelude::*;
use std::collections::VecDeque;
use crate::plan::{doors_ok, WalkStep};
use crate::problem::{DEGREE, LABELS};
use crate::table::{check_table, is_table, row_ok, table};

verus! {

/// A room graph: a label for every room, the room behind each door of every
/// room, and the room in which every walk starts.
#[derive(Debug, Clone)]
pub struct Graph {
    pub labels: Vec<usize>,
    pub edges: Vec<Vec<usize>>,
    pub start_node: usize,
    /// Whether the oracle that holds this graph accepts rewrites.
    pub is_full: bool,
}

/// The labels seen after each step of a plan that is walked from `node`,
/// with `labels` the labels as they stand when the walk begins. A door step
/// shows the label of the room arrived at; a rewrite shows the label written
/// and leaves it on the room.
pub open spec fn walk_from(
    doors: Seq<Seq<usize>>,
    labels: Seq<usize>,
    node: int,
    plan: Seq<WalkStep>,
) -> Seq<usize>
    decreases plan.len(),
{
    if plan.len() == 0 {
        Seq::empty()
    } else {
        match plan[0] {
            WalkStep::Edge(d) => {
                let next = doors[node][d as int] as int;
                seq![labels[next]] + walk_from(doors, labels, next, plan.drop_first())
            },
            WalkStep::Rewrite(l) => seq![l] + walk_from(
                doors,
                labels.update(node, l),
                node,
                plan.drop_first(),
            ),
        }
    }
}

/// The room reached from `node` by walking through the given doors.
pub open spec fn room_after(doors: Seq<Seq<usize>>, node: int, path: Seq<usize>) -> int
    decreases path.len(),
{
    if path.len() == 0 {
        node
    } else {
        doors[room_after(doors, node, path.drop_last())][path.last() as int] as int
    }
}

/// Every entry of the path is a door.
pub open spec fn is_path(path: Seq<usize>) -> bool {
    forall|i: int| 0 <= i < path.len() ==> #[trigger] path[i] < DEGREE
}

impl Graph {
    /// The door table of the graph.
    pub open spec fn doors(&self) -> Seq<Seq<usize>> {
        table(self.edges@)
    }

    /// The graph has a label below the alphabet size for every room, a full
    /// row of doors for every room, each leading to a room, and a starting
    /// room.
    pub open spec fn wf(&self) -> bool {
        &&& is_table(self.doors())
        &&& self.labels@.len() == self.edges@.len()
        &&& self.start_node < self.labels@.len()
        &&& forall|i: int| 0 <= i < self.labels@.len() ==> #[trigger] self.labels@[i] < LABELS
    }

    /// The trace of a plan: the label of the starting room, then the label
    /// seen after each step.
    pub open spec fn trace(&self, plan: Seq<WalkStep>) -> Seq<usize> {
        seq![self.labels@[self.start_node as int]] + walk_from(
            self.doors(),
            self.labels@,
            self.start_node as int,
            plan,
        )
    }

    /// The traces of a batch of plans: each plan is walked from the
    /// starting room on the labels as the graph holds them.
    pub open spec fn batch(&self, plans: Seq<Seq<WalkStep>>) -> Seq<Seq<usize>> {
        Seq::new(plans.len(), |i: int| self.trace(plans[i]))
    }

    /// Some path of doors leads from the starting room to `room`.
    pub open spec fn reaches(&self, room: int) -> bool {
        exists|path: Seq<usize>|
            is_path(path) && #[trigger] room_after(self.doors(), self.start_node as int, path)
                == room
    }

    /// Every room can be reached from the starting room.
    pub open spec fn all_reachable(&self) -> bool {
        forall|room: int| 0 <= room < self.labels@.len() ==> self.reaches(room)
    }

    /// A graph of the given parts. Nothing is asked of the parts here; `wf`
    /// says, and `check` decides, whether they form a graph that can be
    /// walked.
    pub fn new(labels: Vec<usize>, edges: Vec<Vec<usize>>, start_node: usize, is_full: bool) -> (g:
        Self)
        ensures
            g.labels == labels,
            g.edges == edges,
            g.start_node == start_node,
            g.is_full == is_full,
    {
        Self { labels, edges, start_node, is_full }
    }

    /// Decides whether the graph is well formed.
    pub fn check(&self) -> (ok: bool)
        ensures
            ok == self.wf(),
    {
        if !check_table(&self.edges) {
            return false;
        }
        let n = self.labels.len();
        if n != self.edges.len() || self.start_node >= n {
            return false;
        }
        let mut i: usize = 0;
        while i < n
            invariant
                i <= n,
                n == self.labels@.len(),
                forall|k: int| 0 <= k < i ==> #[trigger] self.labels@[k] < LABELS,
            decreases n - i,
        {
            if self.labels[i] >= LABELS {
                return false;
            }
            i += 1;
        }
        true
    }

    /// Number of rooms.
    pub fn node_count(&self) -> (n: usize)
        ensures
            n == self.labels@.len(),
    {
        self.labels.len()
    }

    /// Walks the plan from the starting room on a fresh copy of the labels
    /// and returns the trace: one label more than the plan has steps.
    pub fn walk(&self, walk: Vec<WalkStep>) -> (result: Vec<usize>)
        requires
            self.wf(),
            doors_ok(walk@),
        ensures
            result@ == self.trace(walk@),
            result@.len() == walk@.len() + 1,
    {
        let mut result: Vec<usize> = Vec::new();
        let mut current_labels = self.labels.clone();
        let mut current_node = self.start_node;
        result.push(current_labels[current_node]);
        proof {
            assert(current_labels@ =~= self.labels@);
            assert(walk@.skip(0) =~= walk@);
            assert(result@ =~= seq![self.labels@[self.start_node as int]]);
        }
        let mut i: usize = 0;
        while i < walk.len()
            invariant
                i <= walk.len(),
                self.wf(),
                doors_ok(walk@),
                current_node < self.labels@.len(),
                current_labels@.len() == self.labels@.len(),
                result@.len() == i + 1,
                self.trace(walk@) == result@ + walk_from(
                    self.doors(),
                    current_labels@,
                    current_node as int,
                    walk@.skip(i as int),
                ),
            decreases walk.len() - i,
        {
            let ghost rest = walk@.skip(i as int);
            let ghost before = result@;
            let ghost labels_before = current_labels@;
            let ghost node_before = current_node as int;
            proof {
                assert(rest[0] == walk@[i as int]);
                assert(rest.drop_first() =~= walk@.skip(i as int + 1));
                assert(row_ok(self.doors()[current_node as int], self.labels@.len()));
            }
            match walk[i] {
                WalkStep::Edge(edge_id) => {
                    let next_node = self.edges[current_node][edge_id];
                    result.push(current_labels[next_node]);
                    current_node = next_node;
                    proof {
                        assert(result@ + walk_from(
                            self.doors(),
                            current_labels@,
                            current_node as int,
                            rest.drop_first(),
                        ) =~= before + walk_from(self.doors(), labels_before, node_before, rest));
                    }
                },
                WalkStep::Rewrite(label) => {
                    current_labels[current_node] = label;
                    result.push(label);
                    proof {
                        assert(result@ + walk_from(
                            self.doors(),
                            current_labels@,
                            current_node as int,
                            rest.drop_first(),
                        ) =~= before + walk_from(self.doors(), labels_before, node_before, rest));
                    }
                },
            }
            i += 1;
        }
        proof {
            assert(walk@.skip(walk@.len() as int) =~= Seq::<WalkStep>::empty());
        }
        result
    }

    /// Walks every plan of a batch, each from the starting room and on the
    /// labels as the graph holds them: what one plan rewrites no other plan
    /// sees.
    pub fn walk_all(&self, plans: &Vec<Vec<WalkStep>>) -> (results: Vec<Vec<usize>>)
        requires
            self.wf(),
            forall|i: int| 0 <= i < plans@.len() ==> doors_ok(#[trigger] plans@[i]@),
        ensures
            results@.len() == plans@.len(),
            forall|i: int|
                0 <= i < plans@.len() ==> (#[trigger] results@[i])@ == self.trace(plans@[i]@),
            Seq::new(results@.len(), |i: int| results@[i]@) == self.batch(
                Seq::new(plans@.len(), |i: int| plans@[i]@),
            ),
    {
        let mut results: Vec<Vec<usize>> = Vec::new();
        let mut i: usize = 0;
        while i < plans.len()
            invariant
                i <= plans.len(),
                self.wf(),
                forall|k: int| 0 <= k < plans@.len() ==> doors_ok(#[trigger] plans@[k]@),
                results@.len() == i,
                forall|k: int| 0 <= k < i ==> (#[trigger] results@[k])@ == self.trace(plans@[k]@),
            decreases plans.len() - i,
        {
            let trace = self.walk(plans[i].clone());
            results.push(trace);
            i += 1;
        }
        proof {
            assert(Seq::new(results@.len(), |i: int| results@[i]@) =~= self.batch(
                Seq::new(plans@.len(), |i: int| plans@[i]@),
            ));
        }
        results
    }

    /// Decides whether every room can be reached from the starting room.
    pub fn connected(&self) -> (all: bool)
        requires
            self.wf(),
        ensures
            all == self.all_reachable(),
    {
        let n = self.labels.len();
        let mut visited: Vec<bool> = vec![false; n];
        let mut queue: VecDeque<usize> = VecDeque::new();
        proof {
            lemma_start_reached(*self);
            lemma_unseen_set(visited@, self.start_node as int);
        }
        queue.push_back(self.start_node);
        visited[self.start_node] = true;
        proof {
            assert(queue@[0] == self.start_node);
            assert(waits(queue@, self.start_node as int));
        }
        while queue.len() > 0
            invariant
                self.wf(),
                n == self.labels@.len(),
                visited@.len() == n,
                visited@[self.start_node as int],
                forall|k: int|
                    0 <= k < queue@.len() ==> #[trigger] queue@[k] < n && visited@[queue@[k] as int],
                forall|v: int| 0 <= v < n && #[trigger] visited@[v] ==> self.reaches(v),
                forall|v: int, d: int|
                    0 <= v < n && 0 <= d < DEGREE && visited@[v] && !waits(queue@, v)
                        ==> visited@[#[trigger] self.doors()[v][d] as int],
            decreases 2 * unseen(visited@) + queue@.len(),
        {
            let ghost before = queue@;
            let ghost budget = 2 * unseen(visited@) + queue@.len() - 1;
            let node = queue.pop_front().unwrap();
            proof {
                assert(before[0] == node);
                assert(row_ok(self.doors()[node as int], n as nat));
                assert forall|v: int| waits(before, v) && v != node implies waits(queue@, v) by {
                    let k = choose|k: int| 0 <= k < before.len() && before[k] == v;
                    assert(queue@[k - 1] == v);
                }
            }
            let mut edge_id: usize = 0;
            while edge_id < DEGREE
                invariant
                    edge_id <= DEGREE,
                    self.wf(),
                    node < n,
                    n == self.labels@.len(),
                    visited@.len() == n,
                    visited@[self.start_node as int],
                    visited@[node as int],
                    forall|k: int|
                        0 <= k < queue@.len() ==> #[trigger] queue@[k] < n && visited@[queue@[k] as int],
                    forall|v: int| 0 <= v < n && #[trigger] visited@[v] ==> self.reaches(v),
                    forall|v: int, d: int|
                        0 <= v < n && 0 <= d < DEGREE && visited@[v] && v != node && !waits(
                            queue@,
                            v,
                        ) ==> visited@[#[trigger] self.doors()[v][d] as int],
                    forall|d: int|
                        0 <= d < edge_id ==> visited@[#[trigger] self.doors()[node as int][d] as int],
                    2 * unseen(visited@) + queue@.len() <= budget,
                decreases DEGREE - edge_id,
            {
                proof {
                    assert(row_ok(self.doors()[node as int], n as nat));
                }
                let next_node = self.edges[node][edge_id];
                if !visited[next_node] {
                    let ghost seen = visited@;
                    let ghost waiting = queue@;
                    proof {
                        lemma_unseen_set(seen, next_node as int);
                        lemma_step_reached(*self, node as int, edge_id as int);
                    }
                    visited[next_node] = true;
                    queue.push_back(next_node);
                    proof {
                        assert(queue@[waiting.len() as int] == next_node);
                        assert(waits(queue@, next_node as int));
                        assert forall|v: int| waits(waiting, v) implies waits(queue@, v) by {
                            let k = choose|k: int| 0 <= k < waiting.len() && waiting[k] == v;
                            assert(queue@[k] == v);
                        }
                        assert forall|v: int, d: int|
                            0 <= v < n && 0 <= d < DEGREE && visited@[v] && v != node && !waits(
                                queue@,
                                v,
                            ) implies visited@[#[trigger] self.doors()[v][d] as int] by {
                            assert(row_ok(self.doors()[v], n as nat));
                            assert(seen[v]);
                            assert(!waits(waiting, v));
                            assert(seen[self.doors()[v][d] as int]);
                        }
                        assert forall|d: int| 0 <= d < edge_id + 1 implies visited@[#[trigger] self.doors()[node as int][d] as int] by {
                            if d < edge_id {
                                assert(seen[self.doors()[node as int][d] as int]);
                            }
                        }
                    }
                }
                edge_id += 1;
            }
        }
        let mut all = true;
        let mut i: usize = 0;
        while i < n
            invariant
                i <= n,
                self.wf(),
                n == self.labels@.len(),
                visited@.len() == n,
                visited@[self.start_node as int],
                queue@.len() == 0,
                forall|v: int| 0 <= v < n && #[trigger] visited@[v] ==> self.reaches(v),
                forall|v: int, d: int|
                    0 <= v < n && 0 <= d < DEGREE && visited@[v] && !waits(queue@, v)
                        ==> visited@[#[trigger] self.doors()[v][d] as int],
                all == forall|v: int| 0 <= v < i ==> self.reaches(v),
            decreases n - i,
        {
            if !visited[i] {
                proof {
                    if self.reaches(i as int) {
                        let path = choose|path: Seq<usize>|
                            is_path(path) && #[trigger] room_after(
                                self.doors(),
                                self.start_node as int,
                                path,
                            ) == i;
                        assert forall|v: int, d: int|
                            0 <= v < n && 0 <= d < DEGREE && visited@[v] implies visited@[#[trigger] self.doors()[v][d] as int] by {
                            assert(!waits(queue@, v));
                        }
                        lemma_closed_reach(*self, visited@, path);
                    }
                }
                all = false;
            }
            i += 1;
        }
        all
    }
}

/// Some entry of the queue is the room `v`.
pub open spec fn waits(queue: Seq<usize>, v: int) -> bool {
    exists|k: int| 0 <= k < queue.len() && queue[k] == v
}

/// Number of rooms not yet seen.
pub open spec fn unseen(visited: Seq<bool>) -> nat
    decreases visited.len(),
{
    if visited.len() == 0 {
        0
    } else {
        unseen(visited.drop_last()) + if visited.last() {
            0nat
        } else {
            1nat
        }
    }
}

proof fn lemma_unseen_set(visited: Seq<bool>, j: int)
    requires
        0 <= j < visited.len(),
        !visited[j],
    ensures
        unseen(visited.update(j, true)) + 1 == unseen(visited),
    decreases visited.len(),
{
    let after = visited.update(j, true);
    if j == visited.len() - 1 {
        assert(after.drop_last() =~= visited.drop_last());
    } else {
        lemma_unseen_set(visited.drop_last(), j);
        assert(after.drop_last() =~= visited.drop_last().update(j, true));
    }
}

/// The starting room is reached by the empty path.
proof fn lemma_start_reached(g: Graph)
    ensures
        g.reaches(g.start_node as int),
{
    assert(is_path(Seq::<usize>::empty()));
    assert(room_after(g.doors(), g.start_node as int, Seq::<usize>::empty()) == g.start_node);
}

/// The room behind a door of a reached room is reached.
proof fn lemma_step_reached(g: Graph, v: int, d: int)
    requires
        g.reaches(v),
        0 <= d < DEGREE,
    ensures
        g.reaches(g.doors()[v][d] as int),
{
    let path = choose|path: Seq<usize>|
        is_path(path) && #[trigger] room_after(g.doors(), g.start_node as int, path) == v;
    let longer = path.push(d as usize);
    assert(longer.drop_last() =~= path);
    assert(is_path(longer));
    assert(room_after(g.doors(), g.start_node as int, longer) == g.doors()[v][d]);
}

/// A set of rooms that holds the starting room and, with a room, the rooms
/// behind its doors, holds every room that a path reaches.
proof fn lemma_closed_reach(g: Graph, visited: Seq<bool>, path: Seq<usize>)
    requires
        g.wf(),
        visited.len() == g.labels@.len(),
        visited[g.start_node as int],
        forall|v: int, d: int|
            0 <= v < visited.len() && 0 <= d < DEGREE && visited[v] ==> visited[#[trigger] g.doors()[v][d] as int],
        is_path(path),
    ensures
        0 <= room_after(g.doors(), g.start_node as int, path) < visited.len(),
        visited[room_after(g.doors(), g.start_node as int, path)],
    decreases path.len(),
{
    if path.len() > 0 {
        let shorter = path.drop_last();
        assert(is_path(shorter)) by {
            assert forall|i: int| 0 <= i < shorter.len() implies #[trigger] shorter[i] < DEGREE by {
                assert(shorter[i] == path[i]);
            }
        }
        lemma_closed_reach(g, visited, shorter);
        let v = room_after(g.doors(), g.start_node as int, shorter);
        assert(path.last() == path[path.len() - 1]);
        assert(row_ok(g.doors()[v], g.labels@.len()));
    }
}

/// What a plan rewrites, no other plan of the batch sees: the trace of a
/// plan is the same whatever plan is walked before it, and the same as when
/// it is walked alone.
pub proof fn lemma_rewrite_locality(g: Graph, p: Seq<WalkStep>, q: Seq<WalkStep>)
    ensures
        g.batch(seq![p, q])[1] == g.trace(q),
        g.batch(seq![p, q])[1] == g.batch(seq![q])[0],
{
    assert(seq![p, q][1] == q);
    assert(seq![q][0] == q);
}

/// A trace has one label more than the plan has steps.
pub proof fn lemma_trace_len(g: Graph, plan: Seq<WalkStep>)
    ensures
        g.trace(plan).len() == plan.len() + 1,
{
    lemma_walk_len(g.doors(), g.labels@, g.start_node as int, plan);
}

/// A walk shows one label for every step.
pub proof fn lemma_walk_len(
    doors: Seq<Seq<usize>>,
    labels: Seq<usize>,
    node: int,
    plan: Seq<WalkStep>,
)
    ensures
        walk_from(doors, labels, node, plan).len() == plan.len(),
    decreases plan.len(),
{
    if plan.len() > 0 {
        match plan[0] {
            WalkStep::Edge(d) => {
                lemma_walk_len(doors, labels, doors[node][d as int] as int, plan.drop_first());
            },
            WalkStep::Rewrite(l) => {
                lemma_walk_len(doors, labels.update(node, l), node, plan.drop_first());
            },
        }
    }
}

} // verus!
