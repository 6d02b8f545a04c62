//! The state of the constraint search: a partial assignment of walk
//! positions to rooms with what it implies for labels, doors and degrees,
//! changed only by steps that an undo log can take back.

use vstd::prelude::*;
use crate::problem::{DEGREE, LABELS};

verus! {

/// What is known of one door: the room behind it, and the door of that room
/// that leads back.
#[derive(Clone, Copy, Debug)]
pub struct Door {
    pub to: Option<usize>,
    pub back: Option<usize>,
}

/// One entry of the undo log.
#[derive(Debug, Clone, Copy)]
pub enum UndoOp {
    /// The room was created.
    RemoveNewVertex(usize),
    /// The walk position was assigned to a room.
    RevertToId(usize),
    /// The door of the room was given a target.
    RemoveEdge(usize, usize),
    /// The door of the room was given an expected label behind it.
    RevertEdgeToLabel(usize, usize),
    /// Door `.1` of room `.0` and door `.3` of room `.2` were joined.
    UnsetRevEdge(usize, usize, usize, usize),
    /// An edge from room `.0` to room `.1` was counted that no door of `.1`
    /// answers yet.
    UnsetLonelyEdge(usize, usize),
}

/// The search state.
#[derive(Debug)]
pub struct SearchState {
    pub labels: Vec<Option<usize>>,
    pub label_counts: Vec<usize>,
    pub edges: Vec<Vec<Door>>,
    pub adj: Vec<Vec<usize>>,
    pub degree: Vec<usize>,
    pub to_id: Vec<Option<usize>>,
    pub from_id: Vec<Vec<usize>>,
    pub matches: Vec<Vec<bool>>,
    pub edges_to_label: Vec<Vec<Option<usize>>>,
    pub assigned: usize,
}

/// The search state as a value of sequences.
#[verifier::ext_equal]
pub struct StateView {
    /// Label of every room, once it is created.
    pub labels: Seq<Option<usize>>,
    /// Number of created rooms with each label.
    pub label_counts: Seq<usize>,
    /// What is known of every door of every room.
    pub edges: Seq<Seq<Door>>,
    /// For rooms `a` and `b`, the number of edges counted from `a` to `b`
    /// that no door of `b` answers yet.
    pub adj: Seq<Seq<usize>>,
    /// Number of edge ends counted at every room.
    pub degree: Seq<usize>,
    /// Room of every walk position, once it is assigned.
    pub to_id: Seq<Option<usize>>,
    /// The walk positions assigned to every room, in the order of
    /// assignment.
    pub from_id: Seq<Seq<usize>>,
    /// Whether two walk positions may be the same room.
    pub matches: Seq<Seq<bool>>,
    /// Label expected behind every door of every room.
    pub edges_to_label: Seq<Seq<Option<usize>>>,
    /// Number of rooms created.
    pub assigned: usize,
}

/// A state reached from a starting state, the log of the steps taken, and
/// whether all of them went without conflict.
#[verifier::ext_equal]
pub struct Trail {
    pub state: StateView,
    pub ops: Seq<UndoOp>,
    pub ok: bool,
}

/// The walk and its trace fit together: one label more than doors, every
/// door and label in range.
pub open spec fn walk_ok(walk: Seq<usize>, trace: Seq<usize>) -> bool {
    &&& trace.len() == walk.len() + 1
    &&& forall|i: int| 0 <= i < walk.len() ==> #[trigger] walk[i] < DEGREE
    &&& forall|i: int| 0 <= i < trace.len() ==> #[trigger] trace[i] < LABELS
}

/// The door's target is a created room, its way back is a door, and it has
/// no way back without a target.
pub open spec fn door_ok(door: Door, assigned: int) -> bool {
    &&& door.to is Some ==> door.to.unwrap() < assigned
    &&& door.back is Some ==> door.back.unwrap() < DEGREE
    &&& door.to is None ==> door.back is None
}

/// Most rooms that may bear the label in a balanced graph of `n` rooms.
pub open spec fn label_cap(n: int, label: int) -> int {
    n / (LABELS as int) + if label < n % (LABELS as int) {
        1int
    } else {
        0int
    }
}

impl StateView {
    /// Number of rooms.
    pub open spec fn rooms(self) -> int {
        self.labels.len() as int
    }

    /// Number of walk positions.
    pub open spec fn positions(self) -> int {
        self.to_id.len() as int
    }

    /// Every table has its size.
    pub open spec fn dims(self) -> bool {
        let n = self.rooms();
        let k = self.positions();
        &&& self.label_counts.len() == LABELS
        &&& self.edges.len() == n
        &&& self.adj.len() == n
        &&& self.degree.len() == n
        &&& self.from_id.len() == n
        &&& self.matches.len() == k
        &&& self.edges_to_label.len() == n
        &&& forall|a: int| 0 <= a < n ==> (#[trigger] self.edges[a]).len() == DEGREE
        &&& forall|a: int| 0 <= a < n ==> (#[trigger] self.adj[a]).len() == n
        &&& forall|a: int| 0 <= a < n ==> (#[trigger] self.edges_to_label[a]).len() == DEGREE
        &&& forall|i: int| 0 <= i < k ==> (#[trigger] self.matches[i]).len() == k
    }

    /// The state is well formed: the tables have their sizes, exactly the
    /// created rooms bear labels, and every entry names what exists.
    pub open spec fn wf(self) -> bool {
        let n = self.rooms();
        let k = self.positions();
        &&& self.dims()
        &&& n <= usize::MAX
        &&& self.assigned <= n
        &&& forall|u: int|
            0 <= u < n ==> ((#[trigger] self.labels[u]) is Some <==> u < self.assigned)
        &&& forall|u: int|
            0 <= u < n && (#[trigger] self.labels[u]) is Some ==> self.labels[u].unwrap()
                < LABELS
        &&& forall|l: int| 0 <= l < LABELS ==> #[trigger] self.label_counts[l] <= self.assigned
        &&& forall|i: int|
            0 <= i < k && (#[trigger] self.to_id[i]) is Some ==> self.to_id[i].unwrap()
                < self.assigned
        &&& forall|a: int, e: int|
            0 <= a < n && 0 <= e < DEGREE ==> door_ok(
                #[trigger] self.edges[a][e],
                self.assigned as int,
            )
        &&& forall|a: int, b: int|
            0 <= a < n && 0 <= b < n ==> #[trigger] self.adj[a][b] <= self.degree[a]
        &&& forall|a: int| 0 <= a < n ==> #[trigger] self.degree[a] <= DEGREE + 1
        &&& forall|u: int, j: int|
            0 <= u < n && 0 <= j < self.from_id[u].len() ==> #[trigger] self.from_id[u][j] < k
    }

    /// Every assigned position lies in a room that bears its label, and the
    /// door walked from an assigned position leads to the room of the next
    /// position, if that is assigned.
    pub open spec fn fits(self, walk: Seq<usize>, trace: Seq<usize>) -> bool {
        &&& forall|i: int|
            0 <= i < self.to_id.len() && (#[trigger] self.to_id[i]) is Some
                ==> self.labels[self.to_id[i].unwrap() as int] == Some(trace[i])
        &&& forall|i: int|
            0 <= i < walk.len() && (#[trigger] self.to_id[i]) is Some && self.to_id[i + 1] is Some
                ==> self.edges[self.to_id[i].unwrap() as int][walk[i] as int].to
                == self.to_id[i + 1]
    }

    /// Whether the log entry can be taken back in this state.
    pub open spec fn op_ready(self, op: UndoOp) -> bool {
        match op {
            UndoOp::RemoveNewVertex(u) => {
                &&& u < self.labels.len()
                &&& self.labels[u as int] is Some
                &&& self.labels[u as int].unwrap() < self.label_counts.len()
                &&& self.label_counts[self.labels[u as int].unwrap() as int] > 0
                &&& self.assigned > 0
            },
            UndoOp::RevertToId(ix) => {
                &&& ix < self.to_id.len()
                &&& self.to_id[ix as int] is Some
                &&& self.to_id[ix as int].unwrap() < self.from_id.len()
                &&& self.from_id[self.to_id[ix as int].unwrap() as int].len() > 0
            },
            UndoOp::RemoveEdge(a, e) => a < self.edges.len() && e < self.edges[a as int].len(),
            UndoOp::RevertEdgeToLabel(u, e) => u < self.edges_to_label.len() && e
                < self.edges_to_label[u as int].len(),
            UndoOp::UnsetRevEdge(a, e, b, rev) => {
                &&& a < self.edges.len()
                &&& e < self.edges[a as int].len()
                &&& b < self.edges.len()
                &&& rev < self.edges[b as int].len()
                &&& b < self.adj.len()
                &&& a < self.adj[b as int].len()
                &&& self.adj[b as int][a as int] < usize::MAX
            },
            UndoOp::UnsetLonelyEdge(a, b) => {
                &&& a < self.adj.len()
                &&& b < self.adj[a as int].len()
                &&& self.adj[a as int][b as int] > 0
                &&& a < self.degree.len()
                &&& b < self.degree.len()
                &&& self.degree[a as int] > 0
                &&& self.degree[b as int] > 0
                &&& (a == b ==> self.degree[a as int] > 1)
            },
        }
    }

    /// The state with the log entry taken back.
    pub open spec fn op_undone(self, op: UndoOp) -> StateView {
        match op {
            UndoOp::RemoveNewVertex(u) => {
                let l = self.labels[u as int].unwrap() as int;
                StateView {
                    assigned: (self.assigned - 1) as usize,
                    label_counts: self.label_counts.update(
                        l,
                        (self.label_counts[l] - 1) as usize,
                    ),
                    labels: self.labels.update(u as int, None),
                    ..self
                }
            },
            UndoOp::RevertToId(ix) => {
                let u = self.to_id[ix as int].unwrap() as int;
                StateView {
                    from_id: self.from_id.update(u, self.from_id[u].drop_last()),
                    to_id: self.to_id.update(ix as int, None),
                    ..self
                }
            },
            UndoOp::RemoveEdge(a, e) => StateView {
                edges: self.edges.update(
                    a as int,
                    self.edges[a as int].update(e as int, Door { to: None, back: None }),
                ),
                ..self
            },
            UndoOp::RevertEdgeToLabel(u, e) => StateView {
                edges_to_label: self.edges_to_label.update(
                    u as int,
                    self.edges_to_label[u as int].update(e as int, None),
                ),
                ..self
            },
            UndoOp::UnsetRevEdge(a, e, b, rev) => {
                let first = set_back(self.edges, a as int, e as int, None);
                let second = set_back(first, b as int, rev as int, None);
                StateView {
                    edges: second,
                    adj: self.adj.update(
                        b as int,
                        self.adj[b as int].update(
                            a as int,
                            (self.adj[b as int][a as int] + 1) as usize,
                        ),
                    ),
                    ..self
                }
            },
            UndoOp::UnsetLonelyEdge(a, b) => {
                let first = self.degree.update(a as int, (self.degree[a as int] - 1) as usize);
                let second = first.update(b as int, (first[b as int] - 1) as usize);
                StateView {
                    adj: self.adj.update(
                        a as int,
                        self.adj[a as int].update(
                            b as int,
                            (self.adj[a as int][b as int] - 1) as usize,
                        ),
                    ),
                    degree: second,
                    ..self
                }
            },
        }
    }

    /// Whether the whole log can be taken back, last entry first.
    pub open spec fn can_undo(self, ops: Seq<UndoOp>) -> bool
        decreases ops.len(),
    {
        ops.len() == 0 || (self.op_ready(ops.last()) && self.op_undone(ops.last()).can_undo(
            ops.drop_last(),
        ))
    }

    /// The state with the whole log taken back, last entry first.
    pub open spec fn undone(self, ops: Seq<UndoOp>) -> StateView
        decreases ops.len(),
    {
        if ops.len() == 0 {
            self
        } else {
            self.op_undone(ops.last()).undone(ops.drop_last())
        }
    }

    /// The state after room `u` is created with label `l`.
    pub open spec fn claimed(self, u: usize, l: usize) -> StateView {
        StateView {
            assigned: (self.assigned + 1) as usize,
            labels: self.labels.update(u as int, Some(l)),
            label_counts: self.label_counts.update(
                l as int,
                (self.label_counts[l as int] + 1) as usize,
            ),
            ..self
        }
    }

    /// The state after walk position `ix` is assigned to room `u`.
    pub open spec fn placed(self, ix: usize, u: usize) -> StateView {
        StateView {
            to_id: self.to_id.update(ix as int, Some(u)),
            from_id: self.from_id.update(u as int, self.from_id[u as int].push(ix)),
            ..self
        }
    }

    /// The state after door `e` of room `a` is given the target `b`.
    pub open spec fn pointed(self, a: usize, e: usize, b: usize) -> StateView {
        StateView {
            edges: self.edges.update(
                a as int,
                self.edges[a as int].update(
                    e as int,
                    Door { to: Some(b), back: self.edges[a as int][e as int].back },
                ),
            ),
            ..self
        }
    }

    /// The state after door `e` of room `a` and door `rev` of room `b` are
    /// joined, which answers one edge counted from `b` to `a`.
    pub open spec fn joined(self, a: usize, e: usize, b: usize, rev: usize) -> StateView {
        let first = set_back(self.edges, a as int, e as int, Some(rev));
        let second = set_back(first, b as int, rev as int, Some(e));
        StateView {
            edges: second,
            adj: self.adj.update(
                b as int,
                self.adj[b as int].update(a as int, (self.adj[b as int][a as int] - 1) as usize),
            ),
            ..self
        }
    }

    /// The state after an edge from `a` to `b` is counted that no door of
    /// `b` answers yet.
    pub open spec fn counted(self, a: usize, b: usize) -> StateView {
        let first = self.degree.update(a as int, (self.degree[a as int] + 1) as usize);
        let second = first.update(b as int, (first[b as int] + 1) as usize);
        StateView {
            adj: self.adj.update(
                a as int,
                self.adj[a as int].update(b as int, (self.adj[a as int][b as int] + 1) as usize),
            ),
            degree: second,
            ..self
        }
    }

    /// The state after the label `l` is expected behind door `e` of room
    /// `u`.
    pub open spec fn expected(self, u: usize, e: usize, l: usize) -> StateView {
        StateView {
            edges_to_label: self.edges_to_label.update(
                u as int,
                self.edges_to_label[u as int].update(e as int, Some(l)),
            ),
            ..self
        }
    }
}

/// The doors with the way back of door `e` of room `a` replaced.
pub open spec fn set_back(edges: Seq<Seq<Door>>, a: int, e: int, back: Option<usize>) -> Seq<
    Seq<Door>,
> {
    edges.update(a, edges[a].update(e, Door { to: edges[a][e].to, back }))
}

/// The lowest door of the row that leads to room `a` and has no way back
/// yet, looking from door `from` on.
pub open spec fn lonely_door(row: Seq<Door>, a: usize, from: int) -> Option<usize>
    decreases DEGREE - from,
{
    if from < 0 || from >= DEGREE {
        None
    } else if row[from].to == Some(a) && row[from].back is None {
        Some(from as usize)
    } else {
        lonely_door(row, a, from + 1)
    }
}

impl Trail {
    /// The trail of no steps.
    pub open spec fn start(state: StateView) -> Trail {
        Trail { state, ops: Seq::empty(), ok: true }
    }

    /// One more step taken without conflict.
    pub open spec fn step(self, state: StateView, op: UndoOp) -> Trail {
        Trail { state, ops: self.ops.push(op), ok: true }
    }

    /// The trail stopped by a conflict.
    pub open spec fn stop(self) -> Trail {
        Trail { ok: false, ..self }
    }

    /// Room `u` is created with label `l`, unless it exists; a conflict when
    /// the label is then on more rooms than a balanced graph allows.
    pub open spec fn then_claim(self, u: usize, l: usize) -> Trail {
        if !self.ok || u < self.state.assigned {
            self
        } else {
            let next = self.step(self.state.claimed(u, l), UndoOp::RemoveNewVertex(u));
            if next.state.label_counts[l as int] > label_cap(self.state.rooms(), l as int) {
                next.stop()
            } else {
                next
            }
        }
    }

    /// Walk position `ix` is assigned to room `u`.
    pub open spec fn then_place(self, ix: usize, u: usize) -> Trail {
        if !self.ok {
            self
        } else {
            self.step(self.state.placed(ix, u), UndoOp::RevertToId(ix))
        }
    }

    /// Door `e` of room `a` is made to lead to room `b`. A door that leads
    /// elsewhere already is a conflict. A door without a target gets `b`;
    /// then, if an edge from `b` to `a` waits to be answered, the door is
    /// joined to the lowest door of `b` that leads to `a` and has no way
    /// back (a conflict if there is none); otherwise a new edge is counted,
    /// which is a conflict when either room has all its edges.
    pub open spec fn then_link(self, a: usize, e: usize, b: usize) -> Trail {
        if !self.ok {
            self
        } else if self.state.edges[a as int][e as int].to is Some {
            if self.state.edges[a as int][e as int].to == Some(b) {
                self
            } else {
                self.stop()
            }
        } else {
            let first = self.step(self.state.pointed(a, e, b), UndoOp::RemoveEdge(a, e));
            if first.state.adj[b as int][a as int] > 0 {
                match lonely_door(first.state.edges[b as int], a, 0) {
                    Some(rev) => first.step(
                        first.state.joined(a, e, b, rev),
                        UndoOp::UnsetRevEdge(a, e, b, rev),
                    ),
                    None => first.stop(),
                }
            } else if first.state.degree[a as int] >= DEGREE || first.state.degree[b as int]
                >= DEGREE {
                first.stop()
            } else {
                first.step(first.state.counted(a, b), UndoOp::UnsetLonelyEdge(a, b))
            }
        }
    }

    /// The label `l` is expected behind door `e` of room `u`, unless a label
    /// is expected there already.
    pub open spec fn then_expect(self, u: usize, e: usize, l: usize) -> Trail {
        if !self.ok || self.state.edges_to_label[u as int][e as int] is Some {
            self
        } else {
            self.step(self.state.expected(u, e, l), UndoOp::RevertEdgeToLabel(u, e))
        }
    }

    /// Taking the log back leads to `origin`.
    pub open spec fn returns_to(self, origin: StateView) -> bool {
        self.state.can_undo(self.ops) && self.state.undone(self.ops) == origin
    }
}

/// What merging walk position `ix` into room `u` does: the room is created
/// if it is new, the position is assigned, the door walked from the position
/// before leads to `u`, the label seen next is expected behind the door
/// walked from `ix`, and that door leads to the room of the next position.
/// The first conflict stops the merge.
pub open spec fn merge_spec(
    s: StateView,
    u: usize,
    walk: Seq<usize>,
    trace: Seq<usize>,
    ix: usize,
) -> Trail {
    let t1 = Trail::start(s).then_claim(u, trace[ix as int]).then_place(ix, u);
    let t2 = if ix > 0 && s.to_id[ix - 1] is Some {
        t1.then_link(s.to_id[ix - 1].unwrap(), walk[ix - 1], u)
    } else {
        t1
    };
    let t3 = if ix < walk.len() {
        t2.then_expect(u, walk[ix as int], trace[ix + 1])
    } else {
        t2
    };
    if ix < walk.len() && s.to_id[ix + 1] is Some {
        t3.then_link(u, walk[ix as int], s.to_id[ix + 1].unwrap())
    } else {
        t3
    }
}

/// A step that its log entry takes back extends a trail that returns to its
/// origin.
pub proof fn lemma_trail_step(t: Trail, next: StateView, op: UndoOp, origin: StateView)
    requires
        t.returns_to(origin),
        next.op_ready(op),
        next.op_undone(op) == t.state,
    ensures
        t.step(next, op).returns_to(origin),
{
    let ops = t.ops.push(op);
    assert(ops.last() == op);
    assert(ops.drop_last() =~= t.ops);
}


/// Whether walk positions `i` and `j` may be the same room: they show the
/// same label, and so do the positions that follow them for as long as the
/// same doors are walked from both.
pub open spec fn compatible(walk: Seq<usize>, trace: Seq<usize>, i: int, j: int) -> bool
    decreases walk.len() - i,
{
    &&& trace[i] == trace[j]
    &&& (0 <= i < walk.len() && 0 <= j < walk.len() && walk[i] == walk[j] ==> compatible(
        walk,
        trace,
        i + 1,
        j + 1,
    ))
}

/// An existing room bears the label.
pub open spec fn label_fits(s: StateView, u: int, l: usize) -> bool {
    u < s.assigned ==> s.labels[u] == Some(l)
}

/// Every position already assigned to an existing room may be the same room
/// as position `ix`.
pub open spec fn preimages_fit(s: StateView, u: int, ix: int) -> bool {
    u < s.assigned ==> forall|j: int|
        0 <= j < s.from_id[u].len() ==> s.matches[#[trigger] s.from_id[u][j] as int][ix]
}

/// The door walked from the position before, if that is assigned, neither
/// leads to another room than `u` nor has another label expected behind it
/// than the one seen at `ix`.
pub open spec fn arrival_fits(
    s: StateView,
    u: usize,
    walk: Seq<usize>,
    trace: Seq<usize>,
    ix: int,
) -> bool {
    ix > 0 && s.to_id[ix - 1] is Some ==> {
        let pu = s.to_id[ix - 1].unwrap() as int;
        let e = walk[ix - 1] as int;
        &&& s.edges[pu][e].to is Some ==> s.edges[pu][e].to == Some(u)
        &&& s.edges_to_label[pu][e] is Some ==> s.edges_to_label[pu][e] == Some(trace[ix])
    }
}

/// The door walked from `ix` neither has another label expected behind it
/// than the one seen next, nor leads to another room than that of the next
/// position, if that is assigned.
pub open spec fn departure_fits(
    s: StateView,
    u: usize,
    walk: Seq<usize>,
    trace: Seq<usize>,
    ix: int,
) -> bool {
    ix < walk.len() ==> {
        let e = walk[ix] as int;
        &&& s.edges_to_label[u as int][e] is Some ==> s.edges_to_label[u as int][e] == Some(
            trace[ix + 1],
        )
        &&& s.to_id[ix + 1] is Some && s.edges[u as int][e].to is Some
            ==> s.edges[u as int][e].to == s.to_id[ix + 1]
    }
}

/// Walk position `ix` can be merged into room `u` as far as labels,
/// compatible positions and the doors around the position tell.
pub open spec fn mergeable_spec(
    s: StateView,
    u: usize,
    walk: Seq<usize>,
    trace: Seq<usize>,
    ix: int,
) -> bool {
    &&& label_fits(s, u as int, trace[ix])
    &&& preimages_fit(s, u as int, ix)
    &&& arrival_fits(s, u, walk, trace, ix)
    &&& departure_fits(s, u, walk, trace, ix)
}

/// How well room `u` agrees with the neighbours of walk position `ix`: 100
/// for each neighbouring position whose door already leads the right way,
/// 10 for each to whose room an edge waits to be answered, 1 when the label
/// expected behind the door walked from `ix` is the one seen next.
pub open spec fn merge_score_spec(
    s: StateView,
    u: usize,
    walk: Seq<usize>,
    trace: Seq<usize>,
    ix: int,
) -> int {
    let before = if ix > 0 && s.to_id[ix - 1] is Some {
        let pu = s.to_id[ix - 1].unwrap() as int;
        (if s.edges[pu][walk[ix - 1] as int].to == Some(u) {
            100int
        } else {
            0int
        }) + (if s.adj[u as int][pu] > 0 {
            10int
        } else {
            0int
        })
    } else {
        0int
    };
    let seen = if ix < walk.len() && s.edges_to_label[u as int][walk[ix] as int] == Some(
        trace[ix + 1],
    ) {
        1int
    } else {
        0int
    };
    let after = if ix < walk.len() && s.to_id[ix + 1] is Some {
        let nu = s.to_id[ix + 1].unwrap() as int;
        (if s.edges[u as int][walk[ix] as int].to == s.to_id[ix + 1] {
            100int
        } else {
            0int
        }) + (if s.adj[nu][u as int] > 0 {
            10int
        } else {
            0int
        })
    } else {
        0int
    };
    before + seen + after
}

/// The state in which nothing is assigned.
pub open spec fn blank(s: StateView, n: int, walk: Seq<usize>, trace: Seq<usize>) -> bool {
    &&& s.rooms() == n
    &&& s.positions() == trace.len()
    &&& s.dims()
    &&& s.assigned == 0
    &&& forall|u: int| 0 <= u < n ==> (#[trigger] s.labels[u]) is None
    &&& forall|l: int| 0 <= l < LABELS ==> #[trigger] s.label_counts[l] == 0
    &&& forall|a: int, e: int|
        0 <= a < n && 0 <= e < DEGREE ==> (#[trigger] s.edges[a][e]).to is None
            && s.edges[a][e].back is None
    &&& forall|a: int, b: int| 0 <= a < n && 0 <= b < n ==> #[trigger] s.adj[a][b] == 0
    &&& forall|a: int| 0 <= a < n ==> #[trigger] s.degree[a] == 0
    &&& forall|i: int| 0 <= i < trace.len() ==> (#[trigger] s.to_id[i]) is None
    &&& forall|u: int| 0 <= u < n ==> (#[trigger] s.from_id[u]).len() == 0
    &&& forall|a: int, e: int|
        0 <= a < n && 0 <= e < DEGREE ==> (#[trigger] s.edges_to_label[a][e]) is None
    &&& forall|i: int, j: int|
        0 <= i < trace.len() && 0 <= j < trace.len() ==> #[trigger] s.matches[i][j]
            == compatible(walk, trace, i, j)
}

/// There is one state in which nothing is assigned.
pub proof fn lemma_blank_unique(
    a: StateView,
    b: StateView,
    n: int,
    walk: Seq<usize>,
    trace: Seq<usize>,
)
    requires
        blank(a, n, walk, trace),
        blank(b, n, walk, trace),
    ensures
        a == b,
{
    assert(a.labels =~= b.labels);
    assert(a.label_counts =~= b.label_counts);
    assert(a.edges =~~= b.edges) by {
        assert forall|u: int| 0 <= u < n implies #[trigger] a.edges[u] =~= b.edges[u] by {
            assert forall|e: int| 0 <= e < DEGREE implies #[trigger] a.edges[u][e]
                == b.edges[u][e] by {
                assert(a.edges[u][e].to is None && b.edges[u][e].to is None);
            }
        }
    }
    assert(a.adj =~~= b.adj);
    assert(a.degree =~= b.degree);
    assert(a.to_id =~= b.to_id);
    assert(a.from_id =~~= b.from_id);
    assert(a.matches =~~= b.matches);
    assert(a.edges_to_label =~~= b.edges_to_label);
    assert(a =~~= b);
}

impl SearchState {
    /// The state as a value of sequences.
    pub open spec fn view(&self) -> StateView {
        StateView {
            labels: self.labels@,
            label_counts: self.label_counts@,
            edges: Seq::new(self.edges@.len(), |i: int| self.edges@[i]@),
            adj: Seq::new(self.adj@.len(), |i: int| self.adj@[i]@),
            degree: self.degree@,
            to_id: self.to_id@,
            from_id: Seq::new(self.from_id@.len(), |i: int| self.from_id@[i]@),
            matches: Seq::new(self.matches@.len(), |i: int| self.matches@[i]@),
            edges_to_label: Seq::new(
                self.edges_to_label@.len(),
                |i: int| self.edges_to_label@[i]@,
            ),
            assigned: self.assigned,
        }
    }

    /// The state in which nothing is assigned, for `n` rooms and the walk
    /// with its trace.
    pub fn new(n: usize, walk: &Vec<usize>, walk_labels: &Vec<usize>) -> (state: Self)
        requires
            walk_ok(walk@, walk_labels@),
        ensures
            blank(state@, n as int, walk@, walk_labels@),
            state@.wf(),
            state@.fits(walk@, walk_labels@),
    {
        let rw_vertices = walk_labels.len();
        let mut matches: Vec<Vec<bool>> = vec![vec![false; rw_vertices]; rw_vertices];
        let mut i = rw_vertices;
        while i > 0
            invariant
                i <= rw_vertices,
                rw_vertices == walk_labels@.len(),
                walk_ok(walk@, walk_labels@),
                matches@.len() == rw_vertices,
                forall|a: int| 0 <= a < rw_vertices ==> (#[trigger] matches@[a])@.len() == rw_vertices,
                forall|a: int, b: int|
                    i <= a < rw_vertices && 0 <= b < rw_vertices ==> (#[trigger] matches@[a]@[b])
                        == compatible(walk@, walk_labels@, a, b),
            decreases i,
        {
            i -= 1;
            let mut j: usize = 0;
            while j < rw_vertices
                invariant
                    i < rw_vertices,
                    j <= rw_vertices,
                    rw_vertices == walk_labels@.len(),
                    walk_ok(walk@, walk_labels@),
                    matches@.len() == rw_vertices,
                    forall|a: int|
                        0 <= a < rw_vertices ==> (#[trigger] matches@[a])@.len() == rw_vertices,
                    forall|a: int, b: int|
                        i < a < rw_vertices && 0 <= b < rw_vertices ==> (
                        #[trigger] matches@[a]@[b]) == compatible(walk@, walk_labels@, a, b),
                    forall|b: int|
                        0 <= b < j ==> (#[trigger] matches@[i as int]@[b]) == compatible(
                            walk@,
                            walk_labels@,
                            i as int,
                            b,
                        ),
                decreases rw_vertices - j,
            {
                let mut same = walk_labels[i] == walk_labels[j];
                if same && i < walk.len() && j < walk.len() && walk[i] == walk[j] {
                    same = matches[i + 1][j + 1];
                }
                let ghost before = matches@;
                matches[i][j] = same;
                proof {
                    assert forall|a: int, b: int|
                        i < a < rw_vertices && 0 <= b < rw_vertices implies (
                    #[trigger] matches@[a]@[b]) == compatible(walk@, walk_labels@, a, b) by {
                        assert(matches@[a] == before[a]);
                    }
                    assert forall|b: int| 0 <= b < j + 1 implies (#[trigger] matches@[i as int]@[b])
                        == compatible(walk@, walk_labels@, i as int, b) by {
                        if b < j {
                            assert(before[i as int]@[b] == compatible(
                                walk@,
                                walk_labels@,
                                i as int,
                                b,
                            ));
                        }
                    }
                    assert forall|a: int| 0 <= a < rw_vertices implies (#[trigger] matches@[a])@.len()
                        == rw_vertices by {
                        if a != i {
                            assert(matches@[a] == before[a]);
                        }
                    }
                }
                j += 1;
            }
        }
        let state = Self {
            labels: vec![None; n],
            label_counts: vec![0; LABELS],
            edges: vec![vec![Door { to: None, back: None }; DEGREE]; n],
            adj: vec![vec![0; n]; n],
            degree: vec![0; n],
            to_id: vec![None; rw_vertices],
            from_id: vec![Vec::new(); n],
            matches,
            edges_to_label: vec![vec![None; DEGREE]; n],
            assigned: 0,
        };
        state
    }

    /// The room that the next new assignment creates.
    pub fn next_vertex(&self) -> (u: usize)
        ensures
            u == self@.assigned,
    {
        self.assigned
    }

    /// How well room `u` agrees with the neighbours of walk position `ix`.
    pub fn merge_score(&self, u: usize, walk: &Vec<usize>, walk_labels: &Vec<usize>, ix: usize) -> (score:
        i32)
        requires
            self@.wf(),
            walk_ok(walk@, walk_labels@),
            self@.positions() == walk_labels@.len(),
            u < self@.rooms(),
            ix < walk_labels@.len(),
        ensures
            score == merge_score_spec(self@, u, walk@, walk_labels@, ix as int),
    {
        let mut score: i32 = 0;
        if ix > 0 {
            if let Some(pu) = self.to_id[ix - 1] {
                let edge_id = walk[ix - 1];
                proof {
                    assert(self@.edges[pu as int] == self.edges@[pu as int]@);
                    assert(self@.adj[u as int] == self.adj@[u as int]@);
                }
                if let Some(t) = self.edges[pu][edge_id].to {
                    if t == u {
                        score += 100;
                    }
                }
                if self.adj[u][pu] > 0 {
                    score += 10;
                }
            }
        }
        if ix < walk.len() {
            let edge_id = walk[ix];
            proof {
                assert(self@.edges_to_label[u as int] == self.edges_to_label@[u as int]@);
                assert(self@.edges[u as int] == self.edges@[u as int]@);
            }
            if let Some(l) = self.edges_to_label[u][edge_id] {
                if l == walk_labels[ix + 1] {
                    score += 1;
                }
            }
            if let Some(nu) = self.to_id[ix + 1] {
                proof {
                    assert(self@.adj[nu as int] == self.adj@[nu as int]@);
                }
                if let Some(t) = self.edges[u][edge_id].to {
                    if t == nu {
                        score += 100;
                    }
                }
                if self.adj[nu][u] > 0 {
                    score += 10;
                }
            }
        }
        score
    }

    /// Decides whether walk position `ix` can be merged into room `u`.
    pub fn mergeable(&self, u: usize, walk: &Vec<usize>, walk_labels: &Vec<usize>, ix: usize) -> (ok:
        bool)
        requires
            self@.wf(),
            walk_ok(walk@, walk_labels@),
            self@.positions() == walk_labels@.len(),
            u < self@.rooms(),
            ix < walk_labels@.len(),
        ensures
            ok == mergeable_spec(self@, u, walk@, walk_labels@, ix as int),
    {
        proof {
            assert(self@.from_id[u as int] == self.from_id@[u as int]@);
            assert(self@.edges_to_label[u as int] == self.edges_to_label@[u as int]@);
            assert(self@.edges[u as int] == self.edges@[u as int]@);
        }
        if u < self.assigned {
            match self.labels[u] {
                Some(l) => {
                    if l != walk_labels[ix] {
                        return false;
                    }
                },
                None => {
                    return false;
                },
            }
            let mut j: usize = 0;
            while j < self.from_id[u].len()
                invariant
                    self@.wf(),
                    u < self@.rooms(),
                    u < self@.assigned,
                    ix < self@.positions(),
                    j <= self.from_id@[u as int]@.len(),
                    self@.from_id[u as int] == self.from_id@[u as int]@,
                    forall|m: int|
                        0 <= m < j ==> self@.matches[#[trigger] self@.from_id[u as int][m] as int][ix as int],
                decreases self.from_id@[u as int]@.len() - j,
            {
                let jx = self.from_id[u][j];
                proof {
                    assert(self@.from_id[u as int][j as int] < self@.positions());
                    assert(self@.matches[jx as int] == self.matches@[jx as int]@);
                }
                if !self.matches[jx][ix] {
                    proof {
                        assert(!self@.matches[self@.from_id[u as int][j as int] as int][ix as int]);
                    }
                    return false;
                }
                j += 1;
            }
        }
        if ix > 0 {
            if let Some(pu) = self.to_id[ix - 1] {
                let edge_id = walk[ix - 1];
                proof {
                    assert(self@.edges[pu as int] == self.edges@[pu as int]@);
                    assert(self@.edges_to_label[pu as int] == self.edges_to_label@[pu as int]@);
                }
                if let Some(t) = self.edges[pu][edge_id].to {
                    if t != u {
                        return false;
                    }
                }
                if let Some(l) = self.edges_to_label[pu][edge_id] {
                    if l != walk_labels[ix] {
                        return false;
                    }
                }
            }
        }
        if ix < walk.len() {
            let edge_id = walk[ix];
            if let Some(l) = self.edges_to_label[u][edge_id] {
                if l != walk_labels[ix + 1] {
                    return false;
                }
            }
            if let Some(nu) = self.to_id[ix + 1] {
                if let Some(t) = self.edges[u][edge_id].to {
                    if t != nu {
                        return false;
                    }
                }
            }
        }
        true
    }
}


/// The trail made of a state, a log and a flag.
pub open spec fn at(state: StateView, ops: Seq<UndoOp>, ok: bool) -> Trail {
    Trail { state, ops, ok }
}

/// Creating the next room keeps the state well formed and can be taken
/// back.
pub proof fn lemma_claim(t: Trail, u: usize, l: usize, origin: StateView)
    requires
        t.state.wf(),
        t.returns_to(origin),
        t.ok ==> u <= t.state.assigned && u < t.state.rooms() && l < LABELS,
    ensures
        t.then_claim(u, l).state.wf(),
        t.then_claim(u, l).returns_to(origin),
        t.then_claim(u, l).state.to_id == t.state.to_id,
        t.then_claim(u, l).state.edges == t.state.edges,
        t.then_claim(u, l).state.assigned >= t.state.assigned,
        t.then_claim(u, l).ok ==> u < t.then_claim(u, l).state.assigned,
        t.then_claim(u, l).state.rooms() == t.state.rooms(),
        t.then_claim(u, l).state.positions() == t.state.positions(),
        t.then_claim(u, l).state.labels == if t.ok && u >= t.state.assigned {
            t.state.labels.update(u as int, Some(l))
        } else {
            t.state.labels
        },
{
    if t.ok && u >= t.state.assigned {
        let op = UndoOp::RemoveNewVertex(u);
        let next = t.state.claimed(u, l);
        assert(t.state.label_counts[l as int] <= t.state.assigned);
        assert(t.state.labels[u as int] is None);
        assert(next.op_undone(op) =~~= t.state);
        lemma_trail_step(t, next, op, origin);
        assert(next.wf()) by {
            assert forall|a: int, e: int|
                0 <= a < next.rooms() && 0 <= e < DEGREE implies door_ok(
                #[trigger] next.edges[a][e],
                next.assigned as int,
            ) by {
                assert(door_ok(t.state.edges[a][e], t.state.assigned as int));
            }
            assert forall|x: int| 0 <= x < LABELS implies #[trigger] next.label_counts[x]
                <= next.assigned by {
                assert(t.state.label_counts[x] <= t.state.assigned);
            }
            assert forall|x: int| 0 <= x < next.rooms() implies ((#[trigger] next.labels[x]) is Some
                <==> x < next.assigned) by {
                assert(t.state.labels[x] is Some <==> x < t.state.assigned);
            }
            assert forall|x: int|
                0 <= x < next.rooms() && (#[trigger] next.labels[x]) is Some implies next.labels[x].unwrap()
                < LABELS by {
                if x != u {
                    assert(t.state.labels[x] is Some);
                }
            }
            assert forall|i: int|
                0 <= i < next.positions() && (#[trigger] next.to_id[i]) is Some implies next.to_id[i].unwrap()
                < next.assigned by {
                assert(t.state.to_id[i] is Some);
            }
        }
    }
}

/// Assigning a free walk position keeps the state well formed and can be
/// taken back.
pub proof fn lemma_place(t: Trail, ix: usize, u: usize, origin: StateView)
    requires
        t.state.wf(),
        t.returns_to(origin),
        t.ok ==> u < t.state.assigned && ix < t.state.positions() && t.state.to_id[ix as int] is None,
    ensures
        t.then_place(ix, u).state.wf(),
        t.then_place(ix, u).returns_to(origin),
        t.then_place(ix, u).ok == t.ok,
        t.then_place(ix, u).state.assigned == t.state.assigned,
        t.then_place(ix, u).state.rooms() == t.state.rooms(),
        t.then_place(ix, u).state.positions() == t.state.positions(),
        t.then_place(ix, u).state.labels == t.state.labels,
        t.then_place(ix, u).state.edges == t.state.edges,
        t.then_place(ix, u).state.to_id == if t.ok {
            t.state.to_id.update(ix as int, Some(u))
        } else {
            t.state.to_id
        },
{
    if t.ok {
        let op = UndoOp::RevertToId(ix);
        let next = t.state.placed(ix, u);
        assert(next.from_id[u as int].drop_last() =~= t.state.from_id[u as int]);
        assert(next.op_undone(op) =~~= t.state);
        lemma_trail_step(t, next, op, origin);
        assert(next.wf()) by {
            assert forall|v: int, j: int|
                0 <= v < next.rooms() && 0 <= j < next.from_id[v].len() implies #[trigger] next.from_id[v][j]
                < next.positions() by {
                if v == u && j == t.state.from_id[u as int].len() {
                } else {
                    assert(t.state.from_id[v][j] < t.state.positions());
                }
            }
            assert forall|i: int|
                0 <= i < next.positions() && (#[trigger] next.to_id[i]) is Some implies next.to_id[i].unwrap()
                < next.assigned by {
                if i != ix {
                    assert(t.state.to_id[i] is Some);
                }
            }
        }
    }
}

/// The lowest lonely door, when there is one, is a door that leads to the
/// room and has no way back.
pub proof fn lemma_lonely_door(row: Seq<Door>, a: usize, from: int)
    requires
        0 <= from,
    ensures
        lonely_door(row, a, from) is Some ==> {
            let d = lonely_door(row, a, from).unwrap() as int;
            from <= d < DEGREE && row[d].to == Some(a) && row[d].back is None
        },
    decreases DEGREE - from,
{
    if from < DEGREE && !(row[from].to == Some(a) && row[from].back is None) {
        lemma_lonely_door(row, a, from + 1);
    }
}

/// Making a door lead to a room keeps the state well formed and can be taken
/// back; without conflict the door then leads to the room.
pub proof fn lemma_link(t: Trail, a: usize, e: usize, b: usize, origin: StateView)
    requires
        t.state.wf(),
        t.returns_to(origin),
        t.ok ==> a < t.state.assigned && b < t.state.assigned && e < DEGREE,
    ensures
        t.then_link(a, e, b).state.wf(),
        t.then_link(a, e, b).returns_to(origin),
        t.then_link(a, e, b).ok ==> t.ok && t.then_link(a, e, b).state.edges[a as int][e as int].to
            == Some(b),
        t.then_link(a, e, b).state.assigned == t.state.assigned,
        t.then_link(a, e, b).state.to_id == t.state.to_id,
        t.then_link(a, e, b).state.labels == t.state.labels,
        t.then_link(a, e, b).state.edges_to_label == t.state.edges_to_label,
        t.then_link(a, e, b).state.rooms() == t.state.rooms(),
        t.then_link(a, e, b).state.positions() == t.state.positions(),
        forall|x: int, y: int|
            0 <= x < t.state.rooms() && 0 <= y < DEGREE && (#[trigger] t.state.edges[x][y]).to is Some
                ==> t.then_link(a, e, b).state.edges[x][y].to == t.state.edges[x][y].to,
{
    if t.ok && t.state.edges[a as int][e as int].to is None {
        let s = t.state;
        assert(door_ok(s.edges[a as int][e as int], s.assigned as int));
        let op1 = UndoOp::RemoveEdge(a, e);
        let pointed = s.pointed(a, e, b);
        assert(pointed.op_undone(op1) =~~= s);
        lemma_trail_step(t, pointed, op1, origin);
        let first = t.step(pointed, op1);
        assert(pointed.wf()) by {
            assert forall|x: int, y: int|
                0 <= x < pointed.rooms() && 0 <= y < DEGREE implies door_ok(
                #[trigger] pointed.edges[x][y],
                pointed.assigned as int,
            ) by {
                if !(x == a && y == e) {
                    assert(door_ok(s.edges[x][y], s.assigned as int));
                }
            }
        }
        assert(pointed.adj[b as int][a as int] <= pointed.degree[b as int]);
        assert(pointed.adj[a as int][b as int] <= pointed.degree[a as int]);
        assert(pointed.degree[b as int] <= DEGREE + 1);
        assert(pointed.degree[a as int] <= DEGREE + 1);
        if pointed.adj[b as int][a as int] > 0 {
            lemma_lonely_door(pointed.edges[b as int], a, 0);
            match lonely_door(pointed.edges[b as int], a, 0) {
                Some(rev) => {
                    let op2 = UndoOp::UnsetRevEdge(a, e, b, rev);
                    let joined = pointed.joined(a, e, b, rev);
                    assert(joined.op_undone(op2) =~~= pointed);
                    lemma_trail_step(first, joined, op2, origin);
                    assert(joined.wf()) by {
                        assert forall|x: int, y: int|
                            0 <= x < joined.rooms() && 0 <= y < DEGREE implies door_ok(
                            #[trigger] joined.edges[x][y],
                            joined.assigned as int,
                        ) by {
                            assert(door_ok(pointed.edges[x][y], pointed.assigned as int));
                        }
                        assert forall|x: int, y: int|
                            0 <= x < joined.rooms() && 0 <= y < joined.rooms() implies #[trigger] joined.adj[x][y]
                            <= joined.degree[x] by {
                            assert(pointed.adj[x][y] <= pointed.degree[x]);
                        }
                    }
                },
                None => {},
            }
        } else if pointed.degree[a as int] >= DEGREE || pointed.degree[b as int] >= DEGREE {
        } else {
            let op2 = UndoOp::UnsetLonelyEdge(a, b);
            let counted = pointed.counted(a, b);
            assert(counted.op_undone(op2) =~~= pointed);
            lemma_trail_step(first, counted, op2, origin);
            assert(counted.wf()) by {
                assert forall|x: int, y: int|
                    0 <= x < counted.rooms() && 0 <= y < counted.rooms() implies #[trigger] counted.adj[x][y]
                    <= counted.degree[x] by {
                    assert(pointed.adj[x][y] <= pointed.degree[x]);
                }
                assert forall|x: int| 0 <= x < counted.rooms() implies #[trigger] counted.degree[x]
                    <= DEGREE + 1 by {
                    assert(pointed.degree[x] <= DEGREE + 1);
                }
                assert forall|x: int, y: int|
                    0 <= x < counted.rooms() && 0 <= y < DEGREE implies door_ok(
                    #[trigger] counted.edges[x][y],
                    counted.assigned as int,
                ) by {
                    assert(door_ok(pointed.edges[x][y], pointed.assigned as int));
                }
            }
        }
    }
}

/// Expecting a label behind a door keeps the state well formed and can be
/// taken back.
pub proof fn lemma_expect(t: Trail, u: usize, e: usize, l: usize, origin: StateView)
    requires
        t.state.wf(),
        t.returns_to(origin),
        t.ok ==> u < t.state.rooms() && e < DEGREE,
    ensures
        t.then_expect(u, e, l).state.wf(),
        t.then_expect(u, e, l).returns_to(origin),
        t.then_expect(u, e, l).ok == t.ok,
        t.then_expect(u, e, l).state.assigned == t.state.assigned,
        t.then_expect(u, e, l).state.to_id == t.state.to_id,
        t.then_expect(u, e, l).state.labels == t.state.labels,
        t.then_expect(u, e, l).state.edges == t.state.edges,
        t.then_expect(u, e, l).state.rooms() == t.state.rooms(),
        t.then_expect(u, e, l).state.positions() == t.state.positions(),
{
    if t.ok && t.state.edges_to_label[u as int][e as int] is None {
        let op = UndoOp::RevertEdgeToLabel(u, e);
        let next = t.state.expected(u, e, l);
        assert(next.op_undone(op) =~~= t.state);
        lemma_trail_step(t, next, op, origin);
    }
}

impl SearchState {
    /// Creates room `u` with label `l`.
    fn claim(&mut self, u: usize, l: usize, ops: &mut Vec<UndoOp>) -> (ok: bool)
        requires
            old(self)@.wf(),
            u == old(self)@.assigned,
            u < old(self)@.rooms(),
            l < LABELS,
        ensures
            at(final(self)@, final(ops)@, ok) == at(old(self)@, old(ops)@, true).then_claim(u, l),
    {
        let ghost before = self@;
        proof {
            assert(before.label_counts[l as int] <= before.assigned);
        }
        self.assigned += 1;
        self.labels[u] = Some(l);
        self.label_counts[l] += 1;
        ops.push(UndoOp::RemoveNewVertex(u));
        proof {
            assert(self@ =~~= before.claimed(u, l));
        }
        let labels_max = self.labels.len() / LABELS + if l < self.labels.len() % LABELS {
            1
        } else {
            0
        };
        self.label_counts[l] <= labels_max
    }

    /// Assigns walk position `ix` to room `u`.
    fn place(&mut self, ix: usize, u: usize, ops: &mut Vec<UndoOp>)
        requires
            old(self)@.wf(),
            u < old(self)@.assigned,
            ix < old(self)@.positions(),
        ensures
            at(final(self)@, final(ops)@, true) == at(old(self)@, old(ops)@, true).then_place(ix, u),
    {
        let ghost before = self@;
        self.to_id[ix] = Some(u);
        self.from_id[u].push(ix);
        ops.push(UndoOp::RevertToId(ix));
        proof {
            assert(self@ =~~= before.placed(ix, u));
        }
    }

    /// The lowest door of room `b` that leads to room `a` and has no way
    /// back yet.
    fn find_lonely(&self, b: usize, a: usize) -> (found: Option<usize>)
        requires
            self@.dims(),
            b < self@.rooms(),
        ensures
            found == lonely_door(self@.edges[b as int], a, 0),
    {
        proof {
            assert(self@.edges[b as int] == self.edges@[b as int]@);
        }
        let mut d: usize = 0;
        while d < DEGREE
            invariant
                d <= DEGREE,
                b < self@.rooms(),
                self@.dims(),
                self@.edges[b as int] == self.edges@[b as int]@,
                lonely_door(self@.edges[b as int], a, 0) == lonely_door(
                    self@.edges[b as int],
                    a,
                    d as int,
                ),
            decreases DEGREE - d,
        {
            let door = self.edges[b][d];
            let leads = match door.to {
                Some(t) => t == a,
                None => false,
            };
            if leads && door.back.is_none() {
                return Some(d);
            }
            d += 1;
        }
        None
    }

    /// Makes door `e` of room `a` lead to room `b`.
    fn link(&mut self, a: usize, e: usize, b: usize, ops: &mut Vec<UndoOp>) -> (ok: bool)
        requires
            old(self)@.wf(),
            a < old(self)@.assigned,
            b < old(self)@.assigned,
            e < DEGREE,
        ensures
            at(final(self)@, final(ops)@, ok) == at(old(self)@, old(ops)@, true).then_link(a, e, b),
    {
        let ghost before = self@;
        proof {
            assert(self@.edges[a as int] == self.edges@[a as int]@);
            assert(self@.edges[b as int] == self.edges@[b as int]@);
            assert(self@.adj[a as int] == self.adj@[a as int]@);
            assert(self@.adj[b as int] == self.adj@[b as int]@);
        }
        let door = self.edges[a][e];
        match door.to {
            Some(t) => {
                return t == b;
            },
            None => {},
        }
        self.edges[a][e] = Door { to: Some(b), back: door.back };
        ops.push(UndoOp::RemoveEdge(a, e));
        let ghost pointed = self@;
        proof {
            assert(pointed =~~= before.pointed(a, e, b));
            assert(self@.adj[b as int] == self.adj@[b as int]@);
            assert(self@.adj[a as int] == self.adj@[a as int]@);
            assert(self@.edges[b as int] == self.edges@[b as int]@);
            assert(before.adj[a as int][b as int] <= before.degree[a as int]);
            assert(before.adj[b as int][a as int] <= before.degree[b as int]);
            assert(before.degree[a as int] <= DEGREE + 1);
            assert(before.degree[b as int] <= DEGREE + 1);
        }
        if self.adj[b][a] > 0 {
            match self.find_lonely(b, a) {
                Some(rev) => {
                    proof {
                        lemma_lonely_door(pointed.edges[b as int], a, 0);
                    }
                    let da = self.edges[a][e];
                    self.edges[a][e] = Door { to: da.to, back: Some(rev) };
                    let db = self.edges[b][rev];
                    self.edges[b][rev] = Door { to: db.to, back: Some(e) };
                    self.adj[b][a] -= 1;
                    ops.push(UndoOp::UnsetRevEdge(a, e, b, rev));
                    proof {
                        assert(self@ =~~= pointed.joined(a, e, b, rev));
                    }
                    true
                },
                None => false,
            }
        } else if self.degree[a] >= DEGREE || self.degree[b] >= DEGREE {
            false
        } else {
            self.adj[a][b] += 1;
            self.degree[a] += 1;
            self.degree[b] += 1;
            ops.push(UndoOp::UnsetLonelyEdge(a, b));
            proof {
                assert(self@ =~~= pointed.counted(a, b));
            }
            true
        }
    }

    /// Expects the label `l` behind door `e` of room `u`.
    fn expect(&mut self, u: usize, e: usize, l: usize, ops: &mut Vec<UndoOp>)
        requires
            old(self)@.wf(),
            u < old(self)@.rooms(),
            e < DEGREE,
        ensures
            at(final(self)@, final(ops)@, true) == at(old(self)@, old(ops)@, true).then_expect(u, e, l),
    {
        let ghost before = self@;
        proof {
            assert(self@.edges_to_label[u as int] == self.edges_to_label@[u as int]@);
        }
        if self.edges_to_label[u][e].is_none() {
            self.edges_to_label[u][e] = Some(l);
            ops.push(UndoOp::RevertEdgeToLabel(u, e));
            proof {
                assert(self@ =~~= before.expected(u, e, l));
            }
        }
    }

    /// Merges walk position `ix` into room `u`, which is an existing room or
    /// the next new one, and returns the log of what was changed together
    /// with a flag: `false` when the merge met a conflict. Whatever the flag,
    /// taking the log back restores the state.
    pub fn merge(&mut self, u: usize, walk: &Vec<usize>, walk_labels: &Vec<usize>, ix: usize) -> (res:
        (Vec<UndoOp>, bool))
        requires
            old(self)@.wf(),
            walk_ok(walk@, walk_labels@),
            old(self)@.positions() == walk_labels@.len(),
            u <= old(self)@.assigned,
            u < old(self)@.rooms(),
            ix < walk_labels@.len(),
            old(self)@.to_id[ix as int] is None,
        ensures
            at(final(self)@, res.0@, res.1) == merge_spec(old(self)@, u, walk@, walk_labels@, ix),
            final(self)@.wf(),
            final(self)@.can_undo(res.0@),
            final(self)@.undone(res.0@) == old(self)@,
    {
        let ghost origin = self@;
        let ghost trace = walk_labels@;
        let mut undo_ops: Vec<UndoOp> = Vec::new();
        let ghost t0 = Trail::start(origin);
        let ghost t1 = t0.then_claim(u, trace[ix as int]);
        let ghost t2 = t1.then_place(ix, u);
        proof {
            assert(at(self@, undo_ops@, true) =~~= t0);
            assert(t0.returns_to(origin));
            lemma_claim(t0, u, trace[ix as int], origin);
            lemma_place(t1, ix, u, origin);
        }
        if u >= self.assigned {
            if !self.claim(u, walk_labels[ix], &mut undo_ops) {
                return (undo_ops, false);
            }
        }
        self.place(ix, u, &mut undo_ops);
        let ghost t3 = if ix > 0 && origin.to_id[ix - 1] is Some {
            t2.then_link(origin.to_id[ix - 1].unwrap(), walk@[ix - 1], u)
        } else {
            t2
        };
        proof {
            assert(at(self@, undo_ops@, true) == t2);
            if ix > 0 && origin.to_id[ix - 1] is Some {
                lemma_link(t2, origin.to_id[ix - 1].unwrap(), walk@[ix - 1], u, origin);
            }
        }
        if ix > 0 {
            if let Some(pu) = self.to_id[ix - 1] {
                if !self.link(pu, walk[ix - 1], u, &mut undo_ops) {
                    return (undo_ops, false);
                }
            }
        }
        let ghost t4 = if ix < walk@.len() {
            t3.then_expect(u, walk@[ix as int], trace[ix + 1])
        } else {
            t3
        };
        proof {
            assert(at(self@, undo_ops@, true) == t3);
            if ix < walk@.len() {
                lemma_expect(t3, u, walk@[ix as int], trace[ix + 1], origin);
                if origin.to_id[ix + 1] is Some {
                    lemma_link(t4, u, walk@[ix as int], origin.to_id[ix + 1].unwrap(), origin);
                }
            }
        }
        if ix < walk.len() {
            self.expect(u, walk[ix], walk_labels[ix + 1], &mut undo_ops);
            if let Some(nu) = self.to_id[ix + 1] {
                if !self.link(u, walk[ix], nu, &mut undo_ops) {
                    return (undo_ops, false);
                }
            }
        }
        (undo_ops, true)
    }

    /// Takes a log back, last entry first.
    pub fn undo(&mut self, undo_ops: Vec<UndoOp>)
        requires
            old(self)@.can_undo(undo_ops@),
        ensures
            final(self)@ == old(self)@.undone(undo_ops@),
    {
        let mut i = undo_ops.len();
        proof {
            assert(undo_ops@.take(i as int) =~= undo_ops@);
        }
        while i > 0
            invariant
                i <= undo_ops@.len(),
                self@.can_undo(undo_ops@.take(i as int)),
                self@.undone(undo_ops@.take(i as int)) == old(self)@.undone(undo_ops@),
            decreases i,
        {
            let ghost before = self@;
            let ghost ops = undo_ops@.take(i as int);
            i -= 1;
            let op = undo_ops[i];
            proof {
                assert(ops.last() == op);
                assert(ops.drop_last() =~= undo_ops@.take(i as int));
                assert(before.op_ready(op));
            }
            match op {
                UndoOp::RemoveNewVertex(u) => {
                    self.assigned -= 1;
                    let l = self.labels[u].unwrap();
                    self.label_counts[l] -= 1;
                    self.labels[u] = None;
                },
                UndoOp::RevertToId(ix) => {
                    let u = self.to_id[ix].unwrap();
                    proof {
                        assert(before.from_id[u as int] == self.from_id@[u as int]@);
                    }
                    self.from_id[u].pop();
                    self.to_id[ix] = None;
                },
                UndoOp::RemoveEdge(pu, edge_id) => {
                    proof {
                        assert(before.edges[pu as int] == self.edges@[pu as int]@);
                    }
                    self.edges[pu][edge_id] = Door { to: None, back: None };
                },
                UndoOp::RevertEdgeToLabel(u, edge_id) => {
                    proof {
                        assert(before.edges_to_label[u as int] == self.edges_to_label@[u as int]@);
                    }
                    self.edges_to_label[u][edge_id] = None;
                },
                UndoOp::UnsetRevEdge(pu, edge_id, u, rev_e) => {
                    proof {
                        assert(before.edges[pu as int] == self.edges@[pu as int]@);
                        assert(before.edges[u as int] == self.edges@[u as int]@);
                        assert(before.adj[u as int] == self.adj@[u as int]@);
                    }
                    let da = self.edges[pu][edge_id];
                    self.edges[pu][edge_id] = Door { to: da.to, back: None };
                    proof {
                        assert(self.edges@[u as int]@.len() == before.edges[u as int].len());
                    }
                    let db = self.edges[u][rev_e];
                    self.edges[u][rev_e] = Door { to: db.to, back: None };
                    self.adj[u][pu] += 1;
                },
                UndoOp::UnsetLonelyEdge(pu, u) => {
                    proof {
                        assert(before.adj[pu as int] == self.adj@[pu as int]@);
                    }
                    self.adj[pu][u] -= 1;
                    self.degree[pu] -= 1;
                    self.degree[u] -= 1;
                },
            }
            proof {
                assert(self@ =~~= before.op_undone(op));
            }
        }
    }
}

/// Merging a walk position and taking the log back leaves the state as it
/// was, whether or not the merge met a conflict; and the state in between
/// is well formed.
pub proof fn lemma_merge_undo(
    s: StateView,
    u: usize,
    walk: Seq<usize>,
    trace: Seq<usize>,
    ix: usize,
)
    requires
        s.wf(),
        walk_ok(walk, trace),
        s.positions() == trace.len(),
        u <= s.assigned,
        u < s.rooms(),
        ix < trace.len(),
        s.to_id[ix as int] is None,
    ensures
        merge_spec(s, u, walk, trace, ix).state.wf(),
        merge_spec(s, u, walk, trace, ix).state.can_undo(merge_spec(s, u, walk, trace, ix).ops),
        merge_spec(s, u, walk, trace, ix).state.undone(merge_spec(s, u, walk, trace, ix).ops)
            == s,
{
    let t0 = Trail::start(s);
    assert(t0.returns_to(s));
    let t1 = t0.then_claim(u, trace[ix as int]);
    lemma_claim(t0, u, trace[ix as int], s);
    let t2 = t1.then_place(ix, u);
    lemma_place(t1, ix, u, s);
    let t3 = if ix > 0 && s.to_id[ix - 1] is Some {
        t2.then_link(s.to_id[ix - 1].unwrap(), walk[ix - 1], u)
    } else {
        t2
    };
    if ix > 0 && s.to_id[ix - 1] is Some {
        lemma_link(t2, s.to_id[ix - 1].unwrap(), walk[ix - 1], u, s);
    }
    let t4 = if ix < walk.len() {
        t3.then_expect(u, walk[ix as int], trace[ix + 1])
    } else {
        t3
    };
    if ix < walk.len() {
        lemma_expect(t3, u, walk[ix as int], trace[ix + 1], s);
        if s.to_id[ix + 1] is Some {
            lemma_link(t4, u, walk[ix as int], s.to_id[ix + 1].unwrap(), s);
        }
    }
}

/// Every walk position is assigned.
pub open spec fn complete(s: StateView) -> bool {
    forall|i: int| 0 <= i < s.to_id.len() ==> (#[trigger] s.to_id[i]) is Some
}

/// Number of walk positions not assigned.
pub open spec fn unassigned(to_id: Seq<Option<usize>>) -> nat
    decreases to_id.len(),
{
    if to_id.len() == 0 {
        0
    } else {
        unassigned(to_id.drop_last()) + if to_id.last() is None {
            1nat
        } else {
            0nat
        }
    }
}

/// Assigning a free position leaves one position less unassigned.
pub proof fn lemma_unassigned_less(to_id: Seq<Option<usize>>, ix: int, u: usize)
    requires
        0 <= ix < to_id.len(),
        to_id[ix] is None,
    ensures
        unassigned(to_id.update(ix, Some(u))) + 1 == unassigned(to_id),
    decreases to_id.len(),
{
    let after = to_id.update(ix, Some(u));
    if ix == to_id.len() - 1 {
        assert(after.drop_last() =~= to_id.drop_last());
    } else {
        lemma_unassigned_less(to_id.drop_last(), ix, u);
        assert(after.drop_last() =~= to_id.drop_last().update(ix, Some(u)));
    }
}

/// A merge without conflict assigns the position, and nothing else; and if
/// the assignment fitted the walk before, and the room, if it existed, bore
/// the label seen at the position, the assignment fits the walk after.
pub proof fn lemma_merge_effect(
    s: StateView,
    u: usize,
    walk: Seq<usize>,
    trace: Seq<usize>,
    ix: usize,
)
    requires
        s.wf(),
        walk_ok(walk, trace),
        s.positions() == trace.len(),
        u <= s.assigned,
        u < s.rooms(),
        ix < trace.len(),
        s.to_id[ix as int] is None,
        merge_spec(s, u, walk, trace, ix).ok,
    ensures
        merge_spec(s, u, walk, trace, ix).state.to_id == s.to_id.update(ix as int, Some(u)),
        merge_spec(s, u, walk, trace, ix).state.rooms() == s.rooms(),
        s.fits(walk, trace) && label_fits(s, u as int, trace[ix as int]) ==> merge_spec(
            s,
            u,
            walk,
            trace,
            ix,
        ).state.fits(walk, trace),
{
    let t0 = Trail::start(s);
    assert(t0.returns_to(s));
    let t1 = t0.then_claim(u, trace[ix as int]);
    lemma_claim(t0, u, trace[ix as int], s);
    let t2 = t1.then_place(ix, u);
    lemma_place(t1, ix, u, s);
    let t3 = if ix > 0 && s.to_id[ix - 1] is Some {
        t2.then_link(s.to_id[ix - 1].unwrap(), walk[ix - 1], u)
    } else {
        t2
    };
    if ix > 0 && s.to_id[ix - 1] is Some {
        lemma_link(t2, s.to_id[ix - 1].unwrap(), walk[ix - 1], u, s);
    }
    let t4 = if ix < walk.len() {
        t3.then_expect(u, walk[ix as int], trace[ix + 1])
    } else {
        t3
    };
    let t5 = merge_spec(s, u, walk, trace, ix);
    if ix < walk.len() {
        lemma_expect(t3, u, walk[ix as int], trace[ix + 1], s);
        if s.to_id[ix + 1] is Some {
            lemma_link(t4, u, walk[ix as int], s.to_id[ix + 1].unwrap(), s);
        }
    }
    assert(t5.ok && t4.ok && t3.ok && t2.ok && t1.ok);
    let f = t5.state;
    if s.fits(walk, trace) && label_fits(s, u as int, trace[ix as int]) {
        assert forall|i: int| 0 <= i < f.to_id.len() && (#[trigger] f.to_id[i]) is Some implies f.labels[f.to_id[i].unwrap() as int]
            == Some(trace[i]) by {
            if i != ix {
                assert(s.to_id[i] is Some);
                assert(s.to_id[i].unwrap() < s.assigned);
            }
        }
        assert forall|i: int|
            0 <= i < walk.len() && (#[trigger] f.to_id[i]) is Some && f.to_id[i + 1] is Some implies f.edges[f.to_id[i].unwrap() as int][walk[i] as int].to
            == f.to_id[i + 1] by {
            let a = f.to_id[i].unwrap() as int;
            let e = walk[i] as int;
            if i == ix - 1 {
                assert(t3.state.edges[a][e].to == Some(u));
                assert(t4.state.edges == t3.state.edges);
            } else if i == ix {
            } else {
                assert(s.to_id[i] is Some && s.to_id[i + 1] is Some);
                assert(s.to_id[i].unwrap() < s.assigned);
                assert(s.edges[a][e].to == s.to_id[i + 1]);
                assert(t2.state.edges[a][e].to is Some);
                assert(t3.state.edges[a][e].to == s.edges[a][e].to);
                assert(t4.state.edges[a][e].to is Some);
            }
        }
    }
}

/// Taking back one log after another undoes merges made one after another:
/// if the second log leads from the third state back to the second, and the
/// first log from the second state back to the first, both together lead
/// from the third state back to the first.
pub proof fn lemma_nested_undo(
    first: StateView,
    second: StateView,
    third: StateView,
    ops1: Seq<UndoOp>,
    ops2: Seq<UndoOp>,
)
    requires
        second.can_undo(ops1),
        second.undone(ops1) == first,
        third.can_undo(ops2),
        third.undone(ops2) == second,
    ensures
        third.can_undo(ops1 + ops2),
        third.undone(ops1 + ops2) == first,
    decreases ops2.len(),
{
    if ops2.len() == 0 {
        assert(ops1 + ops2 =~= ops1);
    } else {
        let all = ops1 + ops2;
        assert(all.last() == ops2.last());
        assert(all.drop_last() =~= ops1 + ops2.drop_last());
        lemma_nested_undo(first, second, third.op_undone(ops2.last()), ops1, ops2.drop_last());
    }
}

} // verus!
