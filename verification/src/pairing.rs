//! Turning a door table into the list of undirected door pairs that a guess
//! carries, and a list of pairs back into a door table.

use vstd::prelude::*;
use crate::graph::Graph;
use crate::problem::{DEGREE, LABELS};
use crate::table::{check_table, is_table, row_ok, table};

verus! {

/// One door of one room.
#[derive(Debug, Clone, Copy, PartialEq, Eq, Structural)]
pub struct RoomAndDoor {
    pub room: usize,
    pub door: usize,
}

/// Two doors joined into one undirected edge; a door joined to itself is a
/// self-pair.
#[derive(Debug, Clone, Copy, PartialEq, Eq, Structural)]
pub struct GuessGraphConnection {
    pub from: RoomAndDoor,
    pub to: RoomAndDoor,
}

/// A candidate graph as it is submitted: the label of every room, the
/// starting room, and the door pairs.
#[derive(Debug)]
pub struct GuessGraph {
    pub rooms: Vec<usize>,
    pub starting_room: usize,
    pub connections: Vec<GuessGraphConnection>,
}

/// Why a door table has no pairing.
#[derive(Debug, Clone, Copy, PartialEq, Eq, Structural)]
pub enum PairingError {
    /// The rows do not form a door table.
    BadTable,
    /// A door of `room` leads to `target`, and no door of `target` is left to
    /// lead back.
    NoReverse { room: usize, target: usize },
}

/// 1 if door `d` of the row leads to `v`, else 0.
pub open spec fn hit(row: Seq<usize>, v: int, d: int) -> int {
    if row[d] == v {
        1
    } else {
        0
    }
}

/// Number of doors of room `u` that lead to room `v`.
pub open spec fn door_count(doors: Seq<Seq<usize>>, u: int, v: int) -> int {
    hit(doors[u], v, 0) + hit(doors[u], v, 1) + hit(doors[u], v, 2) + hit(doors[u], v, 3) + hit(
        doors[u],
        v,
        4,
    ) + hit(doors[u], v, 5)
}

/// Between any two different rooms as many doors lead one way as the other.
pub open spec fn balanced(doors: Seq<Seq<usize>>) -> bool {
    forall|u: int, v: int|
        0 <= u < doors.len() && 0 <= v < doors.len() && u != v ==> #[trigger] door_count(
            doors,
            u,
            v,
        ) == door_count(doors, v, u)
}

/// The connection has door `d` of room `u` at one of its ends.
pub open spec fn touches(c: GuessGraphConnection, u: int, d: int) -> bool {
    (c.from.room == u && c.from.door == d) || (c.to.room == u && c.to.door == d)
}

/// Both ends are doors of the table and each leads to the other's room.
pub open spec fn linked(doors: Seq<Seq<usize>>, c: GuessGraphConnection) -> bool {
    &&& c.from.room < doors.len()
    &&& c.from.door < DEGREE
    &&& c.to.room < doors.len()
    &&& c.to.door < DEGREE
    &&& doors[c.from.room as int][c.from.door as int] == c.to.room
    &&& doors[c.to.room as int][c.to.door as int] == c.from.room
}

/// Position of a door in row-major order.
pub open spec fn rank(p: RoomAndDoor) -> int {
    p.room * DEGREE + p.door
}

/// Number of self-pairs in the list.
pub open spec fn self_pairs(conns: Seq<GuessGraphConnection>) -> int
    decreases conns.len(),
{
    if conns.len() == 0 {
        0
    } else {
        self_pairs(conns.drop_last()) + if conns.last().from == conns.last().to {
            1int
        } else {
            0int
        }
    }
}

/// Some connection of the list has door `d` of room `u` at one of its ends.
pub open spec fn covered(conns: Seq<GuessGraphConnection>, u: int, d: int) -> bool {
    exists|k: int| 0 <= k < conns.len() && #[trigger] touches(conns[k], u, d)
}

/// The list is the pairing of the table: every connection joins two doors
/// that lead to each other's rooms, every door of the table is at an end of
/// exactly one connection, a door that leads to its own room is joined to
/// itself, the connections are listed by their first door in row-major
/// order, the first door of a connection comes no later in that order than
/// its second, and the second door of a connection is the lowest door of
/// its room that leads back and that no earlier connection has taken.
pub open spec fn is_pairing(doors: Seq<Seq<usize>>, conns: Seq<GuessGraphConnection>) -> bool {
    &&& forall|k: int| 0 <= k < conns.len() ==> linked(doors, #[trigger] conns[k])
    &&& forall|k: int|
        0 <= k < conns.len() ==> rank((#[trigger] conns[k]).from) <= rank(conns[k].to)
    &&& forall|u: int, d: int|
        0 <= u < doors.len() && 0 <= d < DEGREE ==> #[trigger] covered(conns, u, d)
    &&& forall|j: int, k: int, u: int, d: int|
        0 <= j < conns.len() && 0 <= k < conns.len() && #[trigger] touches(conns[j], u, d)
            && #[trigger] touches(conns[k], u, d) ==> j == k
    &&& forall|k: int|
        0 <= k < conns.len() && (#[trigger] conns[k]).from.room == conns[k].to.room
            ==> conns[k].from == conns[k].to
    &&& forall|j: int, k: int|
        0 <= j < k < conns.len() ==> rank((#[trigger] conns[j]).from) < rank(
            (#[trigger] conns[k]).from,
        )
    &&& forall|k: int, d: int|
        0 <= k < conns.len() && (#[trigger] conns[k]).from != conns[k].to && 0 <= d
            < conns[k].to.door && #[trigger] doors[conns[k].to.room as int][d]
            == conns[k].from.room ==> exists|j: int|
            0 <= j < k && #[trigger] touches(conns[j], conns[k].to.room as int, d)
    &&& 2 * conns.len() == doors.len() * DEGREE + self_pairs(conns)
}

/// The marks of the doors already taken, as a sequence of sequences.
pub open spec fn bits(paired: Seq<Vec<bool>>) -> Seq<Seq<bool>> {
    Seq::new(paired.len(), |i: int| paired[i]@)
}

spec fn open_hit(row: Seq<usize>, marks: Seq<bool>, v: int, d: int) -> int {
    if row[d] == v && !marks[d] {
        1
    } else {
        0
    }
}

/// Number of doors of `u` that lead to `v` and are not yet taken.
spec fn open_count(doors: Seq<Seq<usize>>, marks: Seq<Seq<bool>>, u: int, v: int) -> int {
    open_hit(doors[u], marks[u], v, 0) + open_hit(doors[u], marks[u], v, 1) + open_hit(
        doors[u],
        marks[u],
        v,
        2,
    ) + open_hit(doors[u], marks[u], v, 3) + open_hit(doors[u], marks[u], v, 4) + open_hit(
        doors[u],
        marks[u],
        v,
        5,
    )
}

spec fn mark(row: Seq<bool>, d: int) -> int {
    if row[d] {
        1
    } else {
        0
    }
}

spec fn row_marks(row: Seq<bool>) -> int {
    mark(row, 0) + mark(row, 1) + mark(row, 2) + mark(row, 3) + mark(row, 4) + mark(row, 5)
}

/// Number of doors taken in the first `k` rooms.
spec fn marks_upto(marks: Seq<Seq<bool>>, k: int) -> int
    decreases k,
{
    if k <= 0 {
        0
    } else {
        marks_upto(marks, k - 1) + row_marks(marks[k - 1])
    }
}

proof fn lemma_marks_none(marks: Seq<Seq<bool>>, k: int)
    requires
        0 <= k <= marks.len(),
        forall|a: int, b: int| 0 <= a < k && 0 <= b < DEGREE ==> !(#[trigger] marks[a][b]),
    ensures
        marks_upto(marks, k) == 0,
    decreases k,
{
    if k > 0 {
        lemma_marks_none(marks, k - 1);
        assert(!marks[k - 1][0] && !marks[k - 1][1] && !marks[k - 1][2] && !marks[k - 1][3]
            && !marks[k - 1][4] && !marks[k - 1][5]);
    }
}

proof fn lemma_marks_all(marks: Seq<Seq<bool>>, k: int)
    requires
        0 <= k <= marks.len(),
        forall|a: int, b: int| 0 <= a < k && 0 <= b < DEGREE ==> #[trigger] marks[a][b],
    ensures
        marks_upto(marks, k) == DEGREE * k,
    decreases k,
{
    if k > 0 {
        lemma_marks_all(marks, k - 1);
        assert(marks[k - 1][0] && marks[k - 1][1] && marks[k - 1][2] && marks[k - 1][3]
            && marks[k - 1][4] && marks[k - 1][5]);
    }
}

proof fn lemma_marks_set(marks: Seq<Seq<bool>>, after: Seq<Seq<bool>>, a: int, b: int, k: int)
    requires
        0 <= k <= marks.len(),
        0 <= a < marks.len(),
        0 <= b < DEGREE,
        marks[a].len() == DEGREE,
        !marks[a][b],
        after == marks.update(a, marks[a].update(b, true)),
    ensures
        marks_upto(after, k) == marks_upto(marks, k) + if a < k {
            1int
        } else {
            0int
        },
    decreases k,
{
    if k > 0 {
        lemma_marks_set(marks, after, a, b, k - 1);
        if a != k - 1 {
            assert(after[k - 1] == marks[k - 1]);
        }
    }
}

spec fn shaped<T>(grid: Seq<Seq<T>>, n: int) -> bool {
    &&& grid.len() == n
    &&& forall|a: int| 0 <= a < n ==> (#[trigger] grid[a]).len() == DEGREE
}

/// Every connection joins doors that lead to each other and are taken.
spec fn part_links(
    doors: Seq<Seq<usize>>,
    conns: Seq<GuessGraphConnection>,
    marks: Seq<Seq<bool>>,
) -> bool {
    forall|k: int|
        0 <= k < conns.len() ==> {
            &&& linked(doors, #[trigger] conns[k])
            &&& marks[conns[k].from.room as int][conns[k].from.door as int]
            &&& marks[conns[k].to.room as int][conns[k].to.door as int]
        }
}

/// Every taken door knows a connection that has it at one end.
spec fn part_owned(
    conns: Seq<GuessGraphConnection>,
    marks: Seq<Seq<bool>>,
    owner: Seq<Seq<int>>,
) -> bool {
    forall|a: int, b: int|
        0 <= a < marks.len() && 0 <= b < DEGREE && #[trigger] marks[a][b] ==> 0 <= owner[a][b]
            < conns.len() && touches(conns[owner[a][b]], a, b)
}

/// Every door before `(u, ui)` is taken.
spec fn part_visited(marks: Seq<Seq<bool>>, u: int, ui: int) -> bool {
    forall|a: int, b: int|
        0 <= a < marks.len() && 0 <= b < DEGREE && (a < u || (a == u && b < ui))
            ==> #[trigger] marks[a][b]
}

/// The connections are listed by their first door, all before `(u, ui)`.
spec fn part_ordered(conns: Seq<GuessGraphConnection>, u: int, ui: int) -> bool {
    &&& forall|k: int|
        0 <= k < conns.len() ==> rank((#[trigger] conns[k]).from) < u * DEGREE + ui
    &&& forall|j: int, k: int|
        0 <= j < k < conns.len() ==> rank((#[trigger] conns[j]).from) < rank(
            (#[trigger] conns[k]).from,
        )
}

/// The first door of a connection comes no later than its second.
spec fn part_forward(conns: Seq<GuessGraphConnection>) -> bool {
    forall|k: int| 0 <= k < conns.len() ==> rank((#[trigger] conns[k]).from) <= rank(conns[k].to)
}

/// No door is at an end of two connections.
spec fn part_once(conns: Seq<GuessGraphConnection>) -> bool {
    forall|j: int, k: int, a: int, b: int|
        0 <= j < conns.len() && 0 <= k < conns.len() && #[trigger] touches(conns[j], a, b)
            && #[trigger] touches(conns[k], a, b) ==> j == k
}

/// A connection within one room joins a door to itself.
spec fn part_selfs(conns: Seq<GuessGraphConnection>) -> bool {
    forall|k: int|
        0 <= k < conns.len() && (#[trigger] conns[k]).from.room == conns[k].to.room
            ==> conns[k].from == conns[k].to
}

/// The second door of a connection is the lowest that was free.
spec fn part_lowest(doors: Seq<Seq<usize>>, conns: Seq<GuessGraphConnection>) -> bool {
    forall|k: int, d: int|
        0 <= k < conns.len() && (#[trigger] conns[k]).from != conns[k].to && 0 <= d
            < conns[k].to.door && #[trigger] doors[conns[k].to.room as int][d]
            == conns[k].from.room ==> exists|j: int|
            0 <= j < k && #[trigger] touches(conns[j], conns[k].to.room as int, d)
}

/// Between two different rooms the open doors differ in number as all the
/// doors do.
spec fn part_counts(doors: Seq<Seq<usize>>, marks: Seq<Seq<bool>>) -> bool {
    forall|a: int, b: int|
        0 <= a < doors.len() && 0 <= b < doors.len() && a != b ==> #[trigger] open_count(
            doors,
            marks,
            a,
            b,
        ) - open_count(doors, marks, b, a) == door_count(doors, a, b) - door_count(doors, b, a)
}

/// What holds of the work done when the doors before `(u, ui)` in row-major
/// order have been visited.
spec fn progress(
    doors: Seq<Seq<usize>>,
    conns: Seq<GuessGraphConnection>,
    marks: Seq<Seq<bool>>,
    owner: Seq<Seq<int>>,
    u: int,
    ui: int,
) -> bool {
    let n = doors.len() as int;
    &&& is_table(doors)
    &&& shaped(marks, n)
    &&& shaped(owner, n)
    &&& part_links(doors, conns, marks)
    &&& part_owned(conns, marks, owner)
    &&& part_visited(marks, u, ui)
    &&& part_ordered(conns, u, ui)
    &&& part_forward(conns)
    &&& part_once(conns)
    &&& part_selfs(conns)
    &&& part_lowest(doors, conns)
    &&& part_counts(doors, marks)
    &&& 2 * conns.len() - self_pairs(conns) == marks_upto(marks, n)
}

/// One step of the work: the open door `(u, ui)` is joined to the open door
/// `(v, vi)`, which is the same door when it leads to its own room.
spec fn is_step(
    doors: Seq<Seq<usize>>,
    conns: Seq<GuessGraphConnection>,
    marks: Seq<Seq<bool>>,
    owner: Seq<Seq<int>>,
    u: int,
    ui: int,
    v: int,
    vi: int,
    conns2: Seq<GuessGraphConnection>,
    marks2: Seq<Seq<bool>>,
    owner2: Seq<Seq<int>>,
) -> bool {
    let n = doors.len() as int;
    &&& is_table(doors)
    &&& shaped(marks, n)
    &&& shaped(owner, n)
    &&& shaped(marks2, n)
    &&& shaped(owner2, n)
    &&& 0 <= u < n
    &&& 0 <= ui < DEGREE
    &&& 0 <= v < n
    &&& 0 <= vi < DEGREE
    &&& !marks[u][ui]
    &&& !marks[v][vi]
    &&& doors[u][ui] == v
    &&& doors[v][vi] == u
    &&& (v == u ==> vi == ui)
    &&& conns2.len() == conns.len() + 1
    &&& forall|k: int| 0 <= k < conns.len() ==> #[trigger] conns2[k] == conns[k]
    &&& conns2[conns.len() as int].from.room == u
    &&& conns2[conns.len() as int].from.door == ui
    &&& conns2[conns.len() as int].to.room == v
    &&& conns2[conns.len() as int].to.door == vi
    &&& forall|a: int, b: int|
        0 <= a < n && 0 <= b < DEGREE ==> #[trigger] marks2[a][b] == (marks[a][b] || (a == u && b
            == ui) || (a == v && b == vi))
    &&& forall|a: int, b: int|
        0 <= a < n && 0 <= b < DEGREE ==> #[trigger] owner2[a][b] == if (a == u && b == ui) || (a
            == v && b == vi) {
            conns.len() as int
        } else {
            owner[a][b]
        }
}

proof fn lemma_progress_start(doors: Seq<Seq<usize>>, marks: Seq<Seq<bool>>, owner: Seq<Seq<int>>)
    requires
        is_table(doors),
        shaped(marks, doors.len() as int),
        shaped(owner, doors.len() as int),
        forall|a: int, b: int|
            0 <= a < doors.len() && 0 <= b < DEGREE ==> !(#[trigger] marks[a][b]),
    ensures
        progress(doors, Seq::<GuessGraphConnection>::empty(), marks, owner, 0, 0),
{
    lemma_marks_none(marks, doors.len() as int);
    assert forall|a: int, b: int|
        0 <= a < doors.len() && 0 <= b < doors.len() && a != b implies #[trigger] open_count(
        doors,
        marks,
        a,
        b,
    ) - open_count(doors, marks, b, a) == door_count(doors, a, b) - door_count(doors, b, a) by {
        assert(!marks[a][0] && !marks[a][1] && !marks[a][2] && !marks[a][3] && !marks[a][4]
            && !marks[a][5]);
        assert(!marks[b][0] && !marks[b][1] && !marks[b][2] && !marks[b][3] && !marks[b][4]
            && !marks[b][5]);
    }
}

proof fn lemma_step_links(
    doors: Seq<Seq<usize>>,
    conns: Seq<GuessGraphConnection>,
    marks: Seq<Seq<bool>>,
    owner: Seq<Seq<int>>,
    u: int,
    ui: int,
    v: int,
    vi: int,
    conns2: Seq<GuessGraphConnection>,
    marks2: Seq<Seq<bool>>,
    owner2: Seq<Seq<int>>,
)
    requires
        is_step(doors, conns, marks, owner, u, ui, v, vi, conns2, marks2, owner2),
        part_links(doors, conns, marks),
    ensures
        part_links(doors, conns2, marks2),
{
    assert forall|k: int| 0 <= k < conns2.len() implies {
        &&& linked(doors, #[trigger] conns2[k])
        &&& marks2[conns2[k].from.room as int][conns2[k].from.door as int]
        &&& marks2[conns2[k].to.room as int][conns2[k].to.door as int]
    } by {
        if k < conns.len() {
            assert(conns2[k] == conns[k]);
            assert(linked(doors, conns[k]));
        }
    }
}

proof fn lemma_step_owned(
    doors: Seq<Seq<usize>>,
    conns: Seq<GuessGraphConnection>,
    marks: Seq<Seq<bool>>,
    owner: Seq<Seq<int>>,
    u: int,
    ui: int,
    v: int,
    vi: int,
    conns2: Seq<GuessGraphConnection>,
    marks2: Seq<Seq<bool>>,
    owner2: Seq<Seq<int>>,
)
    requires
        is_step(doors, conns, marks, owner, u, ui, v, vi, conns2, marks2, owner2),
        part_owned(conns, marks, owner),
    ensures
        part_owned(conns2, marks2, owner2),
{
    assert forall|a: int, b: int|
        0 <= a < marks2.len() && 0 <= b < DEGREE && #[trigger] marks2[a][b] implies 0
        <= owner2[a][b] < conns2.len() && touches(conns2[owner2[a][b]], a, b) by {
        if (a == u && b == ui) || (a == v && b == vi) {
        } else {
            assert(marks[a][b]);
            assert(conns2[owner[a][b]] == conns[owner[a][b]]);
        }
    }
}

proof fn lemma_step_visited(
    doors: Seq<Seq<usize>>,
    conns: Seq<GuessGraphConnection>,
    marks: Seq<Seq<bool>>,
    owner: Seq<Seq<int>>,
    u: int,
    ui: int,
    v: int,
    vi: int,
    conns2: Seq<GuessGraphConnection>,
    marks2: Seq<Seq<bool>>,
    owner2: Seq<Seq<int>>,
)
    requires
        is_step(doors, conns, marks, owner, u, ui, v, vi, conns2, marks2, owner2),
        part_visited(marks, u, ui),
    ensures
        part_visited(marks2, u, ui + 1),
{
    assert forall|a: int, b: int|
        0 <= a < marks2.len() && 0 <= b < DEGREE && (a < u || (a == u && b < ui + 1))
        implies #[trigger] marks2[a][b] by {
        if !(a == u && b == ui) {
            assert(marks[a][b]);
        }
    }
}

proof fn lemma_step_ordered(
    doors: Seq<Seq<usize>>,
    conns: Seq<GuessGraphConnection>,
    marks: Seq<Seq<bool>>,
    owner: Seq<Seq<int>>,
    u: int,
    ui: int,
    v: int,
    vi: int,
    conns2: Seq<GuessGraphConnection>,
    marks2: Seq<Seq<bool>>,
    owner2: Seq<Seq<int>>,
)
    requires
        is_step(doors, conns, marks, owner, u, ui, v, vi, conns2, marks2, owner2),
        part_ordered(conns, u, ui),
    ensures
        part_ordered(conns2, u, ui + 1),
{
    assert forall|k: int| 0 <= k < conns2.len() implies rank((#[trigger] conns2[k]).from) < u
        * DEGREE + (ui + 1) by {
        if k < conns.len() {
            assert(conns2[k] == conns[k]);
        }
    }
    assert forall|j: int, k: int| 0 <= j < k < conns2.len() implies rank(
        (#[trigger] conns2[j]).from,
    ) < rank((#[trigger] conns2[k]).from) by {
        assert(conns2[j] == conns[j]);
        if k < conns.len() {
            assert(conns2[k] == conns[k]);
        }
    }
}

proof fn lemma_step_forward(
    doors: Seq<Seq<usize>>,
    conns: Seq<GuessGraphConnection>,
    marks: Seq<Seq<bool>>,
    owner: Seq<Seq<int>>,
    u: int,
    ui: int,
    v: int,
    vi: int,
    conns2: Seq<GuessGraphConnection>,
    marks2: Seq<Seq<bool>>,
    owner2: Seq<Seq<int>>,
)
    requires
        is_step(doors, conns, marks, owner, u, ui, v, vi, conns2, marks2, owner2),
        part_visited(marks, u, ui),
        part_forward(conns),
    ensures
        part_forward(conns2),
{
    assert forall|k: int| 0 <= k < conns2.len() implies rank((#[trigger] conns2[k]).from) <= rank(
        conns2[k].to,
    ) by {
        if k < conns.len() {
            assert(conns2[k] == conns[k]);
        } else {
            assert(!marks[v][vi]);
            assert(!(v < u || (v == u && vi < ui)));
        }
    }
}

proof fn lemma_step_once(
    doors: Seq<Seq<usize>>,
    conns: Seq<GuessGraphConnection>,
    marks: Seq<Seq<bool>>,
    owner: Seq<Seq<int>>,
    u: int,
    ui: int,
    v: int,
    vi: int,
    conns2: Seq<GuessGraphConnection>,
    marks2: Seq<Seq<bool>>,
    owner2: Seq<Seq<int>>,
)
    requires
        is_step(doors, conns, marks, owner, u, ui, v, vi, conns2, marks2, owner2),
        part_links(doors, conns, marks),
        part_once(conns),
    ensures
        part_once(conns2),
{
    assert forall|j: int, k: int, a: int, b: int|
        0 <= j < conns2.len() && 0 <= k < conns2.len() && #[trigger] touches(conns2[j], a, b)
            && #[trigger] touches(conns2[k], a, b) implies j == k by {
        if j < conns.len() && k < conns.len() {
            assert(conns2[j] == conns[j] && conns2[k] == conns[k]);
        } else if j < conns.len() {
            assert(conns2[j] == conns[j]);
            assert(linked(doors, conns[j]));
        } else if k < conns.len() {
            assert(conns2[k] == conns[k]);
            assert(linked(doors, conns[k]));
        }
    }
}

proof fn lemma_step_selfs(
    doors: Seq<Seq<usize>>,
    conns: Seq<GuessGraphConnection>,
    marks: Seq<Seq<bool>>,
    owner: Seq<Seq<int>>,
    u: int,
    ui: int,
    v: int,
    vi: int,
    conns2: Seq<GuessGraphConnection>,
    marks2: Seq<Seq<bool>>,
    owner2: Seq<Seq<int>>,
)
    requires
        is_step(doors, conns, marks, owner, u, ui, v, vi, conns2, marks2, owner2),
        part_selfs(conns),
    ensures
        part_selfs(conns2),
{
    assert forall|k: int|
        0 <= k < conns2.len() && (#[trigger] conns2[k]).from.room == conns2[k].to.room
        implies conns2[k].from == conns2[k].to by {
        if k < conns.len() {
            assert(conns2[k] == conns[k]);
        }
    }
}

proof fn lemma_step_lowest(
    doors: Seq<Seq<usize>>,
    conns: Seq<GuessGraphConnection>,
    marks: Seq<Seq<bool>>,
    owner: Seq<Seq<int>>,
    u: int,
    ui: int,
    v: int,
    vi: int,
    conns2: Seq<GuessGraphConnection>,
    marks2: Seq<Seq<bool>>,
    owner2: Seq<Seq<int>>,
)
    requires
        is_step(doors, conns, marks, owner, u, ui, v, vi, conns2, marks2, owner2),
        part_owned(conns, marks, owner),
        part_lowest(doors, conns),
        forall|d: int| 0 <= d < vi ==> !(#[trigger] doors[v][d] == u && !marks[v][d]),
    ensures
        part_lowest(doors, conns2),
{
    assert forall|k: int, d: int|
        0 <= k < conns2.len() && (#[trigger] conns2[k]).from != conns2[k].to && 0 <= d
            < conns2[k].to.door && #[trigger] doors[conns2[k].to.room as int][d]
            == conns2[k].from.room implies exists|j: int|
        0 <= j < k && #[trigger] touches(conns2[j], conns2[k].to.room as int, d) by {
        if k < conns.len() {
            assert(conns2[k] == conns[k]);
            let j = choose|j: int|
                0 <= j < k && #[trigger] touches(conns[j], conns[k].to.room as int, d);
            assert(conns2[j] == conns[j]);
        } else {
            assert(doors[v][d] == u);
            assert(marks[v][d]);
            let j = owner[v][d];
            assert(touches(conns[j], v, d));
            assert(conns2[j] == conns[j]);
        }
    }
}

proof fn lemma_step_counts(
    doors: Seq<Seq<usize>>,
    conns: Seq<GuessGraphConnection>,
    marks: Seq<Seq<bool>>,
    owner: Seq<Seq<int>>,
    u: int,
    ui: int,
    v: int,
    vi: int,
    conns2: Seq<GuessGraphConnection>,
    marks2: Seq<Seq<bool>>,
    owner2: Seq<Seq<int>>,
)
    requires
        is_step(doors, conns, marks, owner, u, ui, v, vi, conns2, marks2, owner2),
        part_counts(doors, marks),
    ensures
        part_counts(doors, marks2),
{
    assert forall|a: int, b: int|
        0 <= a < doors.len() && 0 <= b < doors.len() && a != b implies #[trigger] open_count(
        doors,
        marks2,
        a,
        b,
    ) - open_count(doors, marks2, b, a) == door_count(doors, a, b) - door_count(doors, b, a) by {
        assert(open_count(doors, marks, a, b) - open_count(doors, marks, b, a) == door_count(
            doors,
            a,
            b,
        ) - door_count(doors, b, a));
        lemma_count_shift(doors, marks, marks2, u, ui, v, vi, a, b);
        lemma_count_shift(doors, marks, marks2, u, ui, v, vi, b, a);
    }
}

/// How one step changes the number of open doors from `a` to another room
/// `b`.
proof fn lemma_count_shift(
    doors: Seq<Seq<usize>>,
    marks: Seq<Seq<bool>>,
    marks2: Seq<Seq<bool>>,
    u: int,
    ui: int,
    v: int,
    vi: int,
    a: int,
    b: int,
)
    requires
        0 <= a < doors.len(),
        0 <= b < doors.len(),
        a != b,
        0 <= u < doors.len(),
        0 <= v < doors.len(),
        0 <= ui < DEGREE,
        0 <= vi < DEGREE,
        doors[u][ui] == v,
        doors[v][vi] == u,
        !marks[u][ui],
        !marks[v][vi],
        forall|y: int|
            0 <= y < DEGREE ==> #[trigger] marks2[a][y] == (marks[a][y] || (a == u && y == ui) || (
            a == v && y == vi)),
    ensures
        open_count(doors, marks2, a, b) == open_count(doors, marks, a, b) - if u != v && ((a == u
            && b == v) || (a == v && b == u)) {
            1int
        } else {
            0int
        },
{
    assert(marks2[a][0] == (marks[a][0] || (a == u && 0 == ui) || (a == v && 0 == vi)));
    assert(marks2[a][1] == (marks[a][1] || (a == u && 1 == ui) || (a == v && 1 == vi)));
    assert(marks2[a][2] == (marks[a][2] || (a == u && 2 == ui) || (a == v && 2 == vi)));
    assert(marks2[a][3] == (marks[a][3] || (a == u && 3 == ui) || (a == v && 3 == vi)));
    assert(marks2[a][4] == (marks[a][4] || (a == u && 4 == ui) || (a == v && 4 == vi)));
    assert(marks2[a][5] == (marks[a][5] || (a == u && 5 == ui) || (a == v && 5 == vi)));
}

proof fn lemma_step_tally(
    doors: Seq<Seq<usize>>,
    conns: Seq<GuessGraphConnection>,
    marks: Seq<Seq<bool>>,
    owner: Seq<Seq<int>>,
    u: int,
    ui: int,
    v: int,
    vi: int,
    conns2: Seq<GuessGraphConnection>,
    marks2: Seq<Seq<bool>>,
    owner2: Seq<Seq<int>>,
)
    requires
        is_step(doors, conns, marks, owner, u, ui, v, vi, conns2, marks2, owner2),
        2 * conns.len() - self_pairs(conns) == marks_upto(marks, doors.len() as int),
    ensures
        2 * conns2.len() - self_pairs(conns2) == marks_upto(marks2, doors.len() as int),
{
    let n = doors.len() as int;
    let marks1 = marks.update(u, marks[u].update(ui, true));
    assert(conns2.drop_last() =~= conns);
    lemma_marks_set(marks, marks1, u, ui, n);
    if v == u {
        assert forall|a: int| 0 <= a < n implies #[trigger] marks2[a] =~= marks1[a] by {
            assert forall|b: int| 0 <= b < DEGREE implies marks2[a][b] == marks1[a][b] by {
                assert(marks2[a][b] == (marks[a][b] || (a == u && b == ui) || (a == v && b
                    == vi)));
            }
        }
        assert(marks2 =~= marks1);
        assert(conns2.last().from == conns2.last().to);
    } else {
        let marks12 = marks1.update(v, marks1[v].update(vi, true));
        lemma_marks_set(marks1, marks12, v, vi, n);
        assert forall|a: int| 0 <= a < n implies #[trigger] marks2[a] =~= marks12[a] by {
            assert forall|b: int| 0 <= b < DEGREE implies marks2[a][b] == marks12[a][b] by {
                assert(marks2[a][b] == (marks[a][b] || (a == u && b == ui) || (a == v && b
                    == vi)));
            }
        }
        assert(marks2 =~= marks12);
        assert(conns2.last().from != conns2.last().to);
    }
}

/// A step keeps the progress and moves it past the door `(u, ui)`.
proof fn lemma_step(
    doors: Seq<Seq<usize>>,
    conns: Seq<GuessGraphConnection>,
    marks: Seq<Seq<bool>>,
    owner: Seq<Seq<int>>,
    u: int,
    ui: int,
    v: int,
    vi: int,
    conns2: Seq<GuessGraphConnection>,
    marks2: Seq<Seq<bool>>,
    owner2: Seq<Seq<int>>,
)
    requires
        progress(doors, conns, marks, owner, u, ui),
        is_step(doors, conns, marks, owner, u, ui, v, vi, conns2, marks2, owner2),
        forall|d: int| 0 <= d < vi ==> !(#[trigger] doors[v][d] == u && !marks[v][d]),
    ensures
        progress(doors, conns2, marks2, owner2, u, ui + 1),
{
    lemma_step_links(doors, conns, marks, owner, u, ui, v, vi, conns2, marks2, owner2);
    lemma_step_owned(doors, conns, marks, owner, u, ui, v, vi, conns2, marks2, owner2);
    lemma_step_visited(doors, conns, marks, owner, u, ui, v, vi, conns2, marks2, owner2);
    lemma_step_ordered(doors, conns, marks, owner, u, ui, v, vi, conns2, marks2, owner2);
    lemma_step_forward(doors, conns, marks, owner, u, ui, v, vi, conns2, marks2, owner2);
    lemma_step_once(doors, conns, marks, owner, u, ui, v, vi, conns2, marks2, owner2);
    lemma_step_selfs(doors, conns, marks, owner, u, ui, v, vi, conns2, marks2, owner2);
    lemma_step_lowest(doors, conns, marks, owner, u, ui, v, vi, conns2, marks2, owner2);
    lemma_step_counts(doors, conns, marks, owner, u, ui, v, vi, conns2, marks2, owner2);
    lemma_step_tally(doors, conns, marks, owner, u, ui, v, vi, conns2, marks2, owner2);
}

/// When the open door `(u, ui)` leads to another room `v` none of whose open
/// doors leads back, more doors lead from `u` to `v` than from `v` to `u`.
proof fn lemma_stuck(
    doors: Seq<Seq<usize>>,
    conns: Seq<GuessGraphConnection>,
    marks: Seq<Seq<bool>>,
    owner: Seq<Seq<int>>,
    u: int,
    ui: int,
    v: int,
)
    requires
        is_table(doors),
        part_counts(doors, marks),
        0 <= u < doors.len(),
        0 <= ui < DEGREE,
        !marks[u][ui],
        doors[u][ui] == v,
        v != u,
        forall|d: int| 0 <= d < DEGREE ==> !(#[trigger] doors[v][d] == u && !marks[v][d]),
    ensures
        0 <= v < doors.len(),
        door_count(doors, u, v) > door_count(doors, v, u),
        !balanced(doors),
{
    assert(row_ok(doors[u], doors.len()));
    assert(open_count(doors, marks, u, v) - open_count(doors, marks, v, u) == door_count(
        doors,
        u,
        v,
    ) - door_count(doors, v, u));
    assert(!(doors[v][0] == u && !marks[v][0]));
    assert(!(doors[v][1] == u && !marks[v][1]));
    assert(!(doors[v][2] == u && !marks[v][2]));
    assert(!(doors[v][3] == u && !marks[v][3]));
    assert(!(doors[v][4] == u && !marks[v][4]));
    assert(!(doors[v][5] == u && !marks[v][5]));
    assert(open_count(doors, marks, v, u) == 0);
    assert(open_count(doors, marks, u, v) >= 1);
}

/// Once every door has been visited the list is the pairing and the table is
/// balanced.
proof fn lemma_progress_end(
    doors: Seq<Seq<usize>>,
    conns: Seq<GuessGraphConnection>,
    marks: Seq<Seq<bool>>,
    owner: Seq<Seq<int>>,
)
    requires
        progress(doors, conns, marks, owner, doors.len() as int, 0),
    ensures
        is_pairing(doors, conns),
        balanced(doors),
{
    let n = doors.len() as int;
    lemma_marks_all(marks, n);
    assert forall|u: int, d: int| 0 <= u < n && 0 <= d < DEGREE implies #[trigger] covered(
        conns,
        u,
        d,
    ) by {
        assert(marks[u][d]);
        assert(touches(conns[owner[u][d]], u, d));
    }
    assert forall|u: int, v: int| 0 <= u < n && 0 <= v < n && u != v implies #[trigger] door_count(
        doors,
        u,
        v,
    ) == door_count(doors, v, u) by {
        assert(open_count(doors, marks, u, v) - open_count(doors, marks, v, u) == door_count(
            doors,
            u,
            v,
        ) - door_count(doors, v, u));
        assert(marks[u][0] && marks[u][1] && marks[u][2] && marks[u][3] && marks[u][4]
            && marks[u][5]);
        assert(marks[v][0] && marks[v][1] && marks[v][2] && marks[v][3] && marks[v][4]
            && marks[v][5]);
    }
    assert forall|k: int| 0 <= k < conns.len() implies linked(doors, #[trigger] conns[k]) by {}
}

/// A door already taken is passed over.
proof fn lemma_skip_step(
    doors: Seq<Seq<usize>>,
    conns: Seq<GuessGraphConnection>,
    marks: Seq<Seq<bool>>,
    owner: Seq<Seq<int>>,
    u: int,
    ui: int,
)
    requires
        progress(doors, conns, marks, owner, u, ui),
        0 <= u < doors.len(),
        0 <= ui < DEGREE,
        marks[u][ui],
    ensures
        progress(doors, conns, marks, owner, u, ui + 1),
{
}

/// The end of one row is the start of the next.
proof fn lemma_next_row(
    doors: Seq<Seq<usize>>,
    conns: Seq<GuessGraphConnection>,
    marks: Seq<Seq<bool>>,
    owner: Seq<Seq<int>>,
    u: int,
)
    requires
        progress(doors, conns, marks, owner, u, DEGREE as int),
        0 <= u < doors.len(),
    ensures
        progress(doors, conns, marks, owner, u + 1, 0),
{
}

/// Marks door `b` of room `a` as taken.
fn take_door(paired: &mut Vec<Vec<bool>>, a: usize, b: usize)
    requires
        a < old(paired).len(),
        b < old(paired)[a as int].len(),
    ensures
        final(paired).len() == old(paired).len(),
        bits(final(paired)@) == bits(old(paired)@).update(
            a as int,
            bits(old(paired)@)[a as int].update(b as int, true),
        ),
{
    paired[a][b] = true;
    proof {
        assert(bits(paired@) =~= bits(old(paired)@).update(
            a as int,
            bits(old(paired)@)[a as int].update(b as int, true),
        ));
    }
}

/// Pairs the doors of a table. The doors are visited in row-major order; a
/// door not yet taken is joined to itself when it leads to its own room, and
/// otherwise to the lowest door of the room behind it that leads back and is
/// not yet taken.
///
/// The pairing exists exactly when the rows form a door table in which, for
/// any two different rooms, as many doors lead one way as the other.
pub fn pair_doors(edges: &Vec<Vec<usize>>) -> (res: Result<
    Vec<GuessGraphConnection>,
    PairingError,
>)
    ensures
        match res {
            Ok(conns) => {
                &&& is_table(table(edges@))
                &&& balanced(table(edges@))
                &&& is_pairing(table(edges@), conns@)
            },
            Err(PairingError::BadTable) => !is_table(table(edges@)),
            Err(PairingError::NoReverse { room, target }) => {
                &&& is_table(table(edges@))
                &&& room < edges.len()
                &&& target < edges.len()
                &&& room != target
                &&& door_count(table(edges@), room as int, target as int) > door_count(
                    table(edges@),
                    target as int,
                    room as int,
                )
                &&& !balanced(table(edges@))
            },
        },
{
    if !check_table(edges) {
        return Err(PairingError::BadTable);
    }
    let n = edges.len();
    let ghost doors = table(edges@);
    let mut connections: Vec<GuessGraphConnection> = Vec::new();
    let mut paired: Vec<Vec<bool>> = vec![vec![false; DEGREE]; n];
    let ghost mut owner: Seq<Seq<int>> = Seq::new(
        n as nat,
        |a: int| Seq::new(DEGREE as nat, |b: int| 0int),
    );
    proof {
        assert(connections@ =~= Seq::<GuessGraphConnection>::empty());
        lemma_progress_start(doors, bits(paired@), owner);
    }
    let mut u: usize = 0;
    while u < n
        invariant
            u <= n,
            n == edges.len(),
            doors == table(edges@),
            paired.len() == n,
            progress(doors, connections@, bits(paired@), owner, u as int, 0),
        decreases n - u,
    {
        let mut ui: usize = 0;
        while ui < DEGREE
            invariant
                u < n,
                ui <= DEGREE,
                n == edges.len(),
                doors == table(edges@),
                paired.len() == n,
                progress(doors, connections@, bits(paired@), owner, u as int, ui as int),
            decreases DEGREE - ui,
        {
            proof {
                assert(row_ok(doors[u as int], doors.len()));
                assert(bits(paired@)[u as int].len() == DEGREE);
            }
            if !paired[u][ui] {
                let v = edges[u][ui];
                proof {
                    assert(row_ok(doors[v as int], doors.len()));
                    assert(bits(paired@)[v as int].len() == DEGREE);
                }
                let mut vi: usize = 0;
                if v == u {
                    vi = ui;
                } else {
                    while vi < DEGREE && !(edges[v][vi] == u && !paired[v][vi])
                        invariant
                            vi <= DEGREE,
                            v < n,
                            n == edges.len(),
                            paired.len() == n,
                            doors == table(edges@),
                            doors[v as int].len() == DEGREE,
                            bits(paired@)[v as int].len() == DEGREE,
                            forall|d: int|
                                0 <= d < vi ==> !(#[trigger] doors[v as int][d] == u && !bits(
                                    paired@,
                                )[v as int][d]),
                        decreases DEGREE - vi,
                    {
                        vi += 1;
                    }
                    if vi == DEGREE {
                        proof {
                            lemma_stuck(
                                doors,
                                connections@,
                                bits(paired@),
                                owner,
                                u as int,
                                ui as int,
                                v as int,
                            );
                        }
                        return Err(PairingError::NoReverse { room: u, target: v });
                    }
                }
                let ghost before = bits(paired@);
                let ghost conns = connections@;
                let ghost owner2 = owner.update(
                    u as int,
                    owner[u as int].update(ui as int, conns.len() as int),
                );
                let ghost owner3 = owner2.update(
                    v as int,
                    owner2[v as int].update(vi as int, conns.len() as int),
                );
                take_door(&mut paired, u, ui);
                proof {
                    assert(bits(paired@)[v as int].len() == DEGREE);
                }
                take_door(&mut paired, v, vi);
                connections.push(
                    GuessGraphConnection {
                        from: RoomAndDoor { room: u, door: ui },
                        to: RoomAndDoor { room: v, door: vi },
                    },
                );
                proof {
                    let after = bits(paired@);
                    assert(shaped(after, n as int));
                    assert(shaped(owner3, n as int));
                    assert(v == u ==> vi == ui);
                    assert(forall|d: int|
                        0 <= d < vi ==> !(#[trigger] doors[v as int][d] == u && !before[v as int][d]))
                        by {
                        if v == u {
                            assert forall|d: int| 0 <= d < vi implies !(#[trigger] doors[v as int][d]
                                == u && !before[v as int][d]) by {
                                assert(before[u as int][d]);
                            }
                        }
                    }
                    assert(is_step(
                        doors,
                        conns,
                        before,
                        owner,
                        u as int,
                        ui as int,
                        v as int,
                        vi as int,
                        connections@,
                        after,
                        owner3,
                    ));
                    lemma_step(
                        doors,
                        conns,
                        before,
                        owner,
                        u as int,
                        ui as int,
                        v as int,
                        vi as int,
                        connections@,
                        after,
                        owner3,
                    );
                    owner = owner3;
                }
            } else {
                proof {
                    lemma_skip_step(doors, connections@, bits(paired@), owner, u as int, ui as int);
                }
            }
            ui += 1;
        }
        proof {
            lemma_next_row(doors, connections@, bits(paired@), owner, u as int);
        }
        u += 1;
    }
    proof {
        lemma_progress_end(doors, connections@, bits(paired@), owner);
    }
    Ok(connections)
}


/// Builds the candidate graph that is submitted for a door table: the
/// labels, the starting room and the pairing of the doors.
pub fn build_guess(labels: &Vec<usize>, edges: &Vec<Vec<usize>>, starting_room: usize) -> (res:
    Result<GuessGraph, PairingError>)
    ensures
        match res {
            Ok(guess) => {
                &&& guess.rooms@ == labels@
                &&& guess.starting_room == starting_room
                &&& edges@.len() == labels@.len()
                &&& is_table(table(edges@))
                &&& balanced(table(edges@))
                &&& is_pairing(table(edges@), guess.connections@)
            },
            Err(PairingError::BadTable) => !is_table(table(edges@)) || edges@.len()
                != labels@.len(),
            Err(PairingError::NoReverse { room, target }) => {
                &&& edges@.len() == labels@.len()
                &&& is_table(table(edges@))
                &&& room < edges.len()
                &&& target < edges.len()
                &&& room != target
                &&& door_count(table(edges@), room as int, target as int) > door_count(
                    table(edges@),
                    target as int,
                    room as int,
                )
                &&& !balanced(table(edges@))
            },
        },
{
    if edges.len() != labels.len() {
        return Err(PairingError::BadTable);
    }
    match pair_doors(edges) {
        Ok(connections) => {
            let rooms = labels.clone();
            proof {
                assert(rooms@ =~= labels@);
            }
            Ok(GuessGraph { rooms, starting_room, connections })
        },
        Err(e) => Err(e),
    }
}

/// Both ends of the connection are doors of a graph of `n` rooms.
pub open spec fn in_range(c: GuessGraphConnection, n: int) -> bool {
    c.from.room < n && c.to.room < n && c.from.door < DEGREE && c.to.door < DEGREE
}

/// The list wires a graph of `n` rooms: every connection has both ends in
/// range, and every door is at an end of exactly one connection.
pub open spec fn wiring_ok(conns: Seq<GuessGraphConnection>, n: int) -> bool {
    &&& forall|k: int| 0 <= k < conns.len() ==> in_range(#[trigger] conns[k], n)
    &&& forall|u: int, d: int| 0 <= u < n && 0 <= d < DEGREE ==> #[trigger] covered(conns, u, d)
    &&& forall|j: int, k: int, u: int, d: int|
        0 <= j < conns.len() && 0 <= k < conns.len() && #[trigger] touches(conns[j], u, d)
            && #[trigger] touches(conns[k], u, d) ==> j == k
}

/// The room that the list of connections puts behind door `d` of room `u`:
/// the room at the other end of the connection that has the door at one of
/// its ends. Where the list is no wiring, the last such connection with both
/// ends in range counts.
pub open spec fn wired(conns: Seq<GuessGraphConnection>, n: int, u: int, d: int) -> Option<usize>
    decreases conns.len(),
{
    if conns.len() == 0 {
        None
    } else {
        let c = conns.last();
        if in_range(c, n) && c.to.room == u && c.to.door == d {
            Some(c.from.room)
        } else if in_range(c, n) && c.from.room == u && c.from.door == d {
            Some(c.to.room)
        } else {
            wired(conns.drop_last(), n, u, d)
        }
    }
}

/// The candidate is well formed: its connections wire its rooms, the
/// starting room is a room and every room bears a label of the alphabet.
pub open spec fn map_ok(map: GuessGraph) -> bool {
    let n = map.rooms@.len() as int;
    &&& map.starting_room < n
    &&& forall|i: int| 0 <= i < n ==> #[trigger] map.rooms@[i] < LABELS
    &&& wiring_ok(map.connections@, n)
}

/// Turns a submitted candidate into a graph. There is no graph when a
/// connection names a room or a door that does not exist, when a door is at
/// an end of two connections or of none, when the starting room is no room,
/// or when a label is not of the alphabet.
pub fn create_graph_from_map(map: &GuessGraph) -> (res: Option<Graph>)
    ensures
        res is Some <==> map_ok(*map),
        res matches Some(g) ==> {
            &&& g.wf()
            &&& g.labels@ == map.rooms@
            &&& g.start_node == map.starting_room
            &&& !g.is_full
            &&& g.doors().len() == map.rooms@.len()
            &&& forall|u: int, d: int|
                0 <= u < map.rooms@.len() && 0 <= d < DEGREE ==> wired(
                    map.connections@,
                    map.rooms@.len() as int,
                    u,
                    d,
                ) == Some(#[trigger] g.doors()[u][d])
        },
{
    let n = map.rooms.len();
    let mut edges: Vec<Vec<Option<usize>>> = vec![vec![None; DEGREE]; n];
    let mut k: usize = 0;
    while k < map.connections.len()
        invariant
            k <= map.connections@.len(),
            n == map.rooms@.len(),
            edges@.len() == n,
            forall|u: int| 0 <= u < n ==> (#[trigger] edges@[u])@.len() == DEGREE,
            forall|u: int, d: int|
                0 <= u < n && 0 <= d < DEGREE ==> (#[trigger] edges@[u]@[d]) == wired(
                    map.connections@.take(k as int),
                    n as int,
                    u,
                    d,
                ),
            forall|u: int, d: int|
                0 <= u < n && 0 <= d < DEGREE ==> ((#[trigger] edges@[u]@[d]) is Some <==> covered(
                    map.connections@.take(k as int),
                    u,
                    d,
                )),
            forall|j: int| 0 <= j < k ==> in_range(#[trigger] map.connections@[j], n as int),
            forall|i: int, j: int, u: int, d: int|
                0 <= i < k && 0 <= j < k && #[trigger] touches(map.connections@[i], u, d)
                    && #[trigger] touches(map.connections@[j], u, d) ==> i == j,
        decreases map.connections@.len() - k,
    {
        let c = map.connections[k];
        let ghost before = edges@;
        let ghost seen = map.connections@.take(k as int);
        let ghost more = map.connections@.take(k as int + 1);
        proof {
            assert(more.last() == c);
            assert(more.drop_last() =~= seen);
        }
        if c.from.room >= n || c.to.room >= n || c.from.door >= DEGREE || c.to.door >= DEGREE {
            proof {
                assert(!in_range(map.connections@[k as int], n as int));
            }
            return None;
        }
        let same = c.from.room == c.to.room && c.from.door == c.to.door;
        if edges[c.from.room][c.from.door].is_some() || (!same
            && edges[c.to.room][c.to.door].is_some()) {
            proof {
                let (u, d) = if before[c.from.room as int]@[c.from.door as int] is Some {
                    (c.from.room as int, c.from.door as int)
                } else {
                    (c.to.room as int, c.to.door as int)
                };
                assert(covered(seen, u, d));
                let j = choose|j: int| 0 <= j < seen.len() && #[trigger] touches(seen[j], u, d);
                assert(seen[j] == map.connections@[j]);
                assert(touches(map.connections@[j], u, d));
                assert(touches(map.connections@[k as int], u, d));
            }
            return None;
        }
        edges[c.from.room][c.from.door] = Some(c.to.room);
        edges[c.to.room][c.to.door] = Some(c.from.room);
        proof {
            assert forall|u: int, d: int| 0 <= u < n && 0 <= d < DEGREE implies (
            #[trigger] edges@[u]@[d]) == wired(more, n as int, u, d) by {
                assert(before[u]@[d] == wired(seen, n as int, u, d));
            }
            assert forall|u: int, d: int| 0 <= u < n && 0 <= d < DEGREE implies ((
            #[trigger] edges@[u]@[d]) is Some <==> covered(more, u, d)) by {
                assert(before[u]@[d] is Some <==> covered(seen, u, d));
                if touches(c, u, d) {
                    assert(touches(more[k as int], u, d));
                } else {
                    if covered(seen, u, d) {
                        let j = choose|j: int|
                            0 <= j < seen.len() && #[trigger] touches(seen[j], u, d);
                        assert(more[j] == seen[j]);
                        assert(touches(more[j], u, d));
                    }
                    if covered(more, u, d) {
                        let j = choose|j: int|
                            0 <= j < more.len() && #[trigger] touches(more[j], u, d);
                        assert(j < k);
                        assert(seen[j] == more[j]);
                        assert(touches(seen[j], u, d));
                    }
                }
            }
            assert forall|i: int, j: int, u: int, d: int|
                0 <= i < k + 1 && 0 <= j < k + 1 && #[trigger] touches(map.connections@[i], u, d)
                    && #[trigger] touches(map.connections@[j], u, d) implies i == j by {
                if i != j && (i == k || j == k) {
                    let other = if i == k {
                        j
                    } else {
                        i
                    };
                    assert(touches(c, u, d));
                    assert(0 <= u < n && 0 <= d < DEGREE);
                    assert(seen[other] == map.connections@[other]);
                    assert(touches(seen[other], u, d));
                    assert(covered(seen, u, d));
                    assert(before[u]@[d] is Some);
                }
            }
        }
        k += 1;
    }
    proof {
        assert(map.connections@.take(map.connections@.len() as int) =~= map.connections@);
    }
    if map.starting_room >= n {
        return None;
    }
    let mut i: usize = 0;
    while i < n
        invariant
            i <= n,
            n == map.rooms@.len(),
            forall|q: int| 0 <= q < i ==> #[trigger] map.rooms@[q] < LABELS,
        decreases n - i,
    {
        if map.rooms[i] >= LABELS {
            return None;
        }
        i += 1;
    }
    let mut table_rows: Vec<Vec<usize>> = Vec::new();
    let mut u: usize = 0;
    while u < n
        invariant
            u <= n,
            n == map.rooms@.len(),
            edges@.len() == n,
            forall|a: int| 0 <= a < n ==> (#[trigger] edges@[a])@.len() == DEGREE,
            forall|a: int, d: int|
                0 <= a < n && 0 <= d < DEGREE ==> (#[trigger] edges@[a]@[d]) == wired(
                    map.connections@,
                    n as int,
                    a,
                    d,
                ),
            forall|a: int, d: int|
                0 <= a < n && 0 <= d < DEGREE ==> ((#[trigger] edges@[a]@[d]) is Some <==> covered(
                    map.connections@,
                    a,
                    d,
                )),
            table_rows@.len() == u,
            forall|a: int| 0 <= a < u ==> row_ok((#[trigger] table_rows@[a])@, n as nat),
            forall|a: int, d: int|
                0 <= a < u && 0 <= d < DEGREE ==> wired(map.connections@, n as int, a, d) == Some(
                    #[trigger] table_rows@[a]@[d],
                ),
        decreases n - u,
    {
        let mut row: Vec<usize> = Vec::new();
        let mut d: usize = 0;
        while d < DEGREE
            invariant
                d <= DEGREE,
                u < n,
                n == map.rooms@.len(),
                edges@.len() == n,
                edges@[u as int]@.len() == DEGREE,
                forall|e: int|
                    0 <= e < DEGREE ==> (#[trigger] edges@[u as int]@[e]) == wired(
                        map.connections@,
                        n as int,
                        u as int,
                        e,
                    ),
                forall|e: int|
                    0 <= e < DEGREE ==> ((#[trigger] edges@[u as int]@[e]) is Some <==> covered(
                        map.connections@,
                        u as int,
                        e,
                    )),
                row@.len() == d,
                forall|e: int| 0 <= e < d ==> #[trigger] row@[e] < n,
                forall|e: int|
                    0 <= e < d ==> wired(map.connections@, n as int, u as int, e) == Some(
                        #[trigger] row@[e],
                    ),
            decreases DEGREE - d,
        {
            match edges[u][d] {
                Some(v) => {
                    proof {
                        lemma_wired_room(map.connections@, n as int, u as int, d as int);
                    }
                    row.push(v);
                },
                None => {
                    proof {
                        assert(!covered(map.connections@, u as int, d as int));
                    }
                    return None;
                },
            }
            d += 1;
        }
        table_rows.push(row);
        u += 1;
    }
    let rooms = map.rooms.clone();
    proof {
        assert(rooms@ =~= map.rooms@);
        assert forall|a: int, d: int| 0 <= a < n && 0 <= d < DEGREE implies #[trigger] covered(
            map.connections@,
            a,
            d,
        ) by {
            assert(edges@[a]@[d] == wired(map.connections@, n as int, a, d));
            assert(wired(map.connections@, n as int, a, d) == Some(table_rows@[a]@[d]));
        }
        assert forall|a: int| 0 <= a < table(table_rows@).len() implies row_ok(
            #[trigger] table(table_rows@)[a],
            table(table_rows@).len(),
        ) by {
            assert(row_ok(table_rows@[a]@, n as nat));
        }
    }
    Some(Graph::new(rooms, table_rows, map.starting_room, false))
}

/// A room put behind a door is a room of the graph.
pub proof fn lemma_wired_room(conns: Seq<GuessGraphConnection>, n: int, u: int, d: int)
    ensures
        wired(conns, n, u, d) is Some ==> wired(conns, n, u, d).unwrap() < n,
    decreases conns.len(),
{
    if conns.len() > 0 {
        lemma_wired_room(conns.drop_last(), n, u, d);
    }
}

/// The connections of a pairing put behind every door the room that the
/// table has there: a table can be read back from its pairing.
pub proof fn lemma_wired_of_pairing(
    doors: Seq<Seq<usize>>,
    conns: Seq<GuessGraphConnection>,
    u: int,
    d: int,
)
    requires
        is_table(doors),
        is_pairing(doors, conns),
        0 <= u < doors.len(),
        0 <= d < DEGREE,
    ensures
        wired(conns, doors.len() as int, u, d) == Some(doors[u][d]),
{
    assert(covered(conns, u, d));
    let k = choose|k: int| 0 <= k < conns.len() && #[trigger] touches(conns[k], u, d);
    lemma_wired_prefix(doors, conns, conns.len() as int, k, u, d);
    assert(conns.take(conns.len() as int) =~= conns);
}

proof fn lemma_wired_prefix(
    doors: Seq<Seq<usize>>,
    conns: Seq<GuessGraphConnection>,
    m: int,
    k: int,
    u: int,
    d: int,
)
    requires
        forall|i: int| 0 <= i < conns.len() ==> linked(doors, #[trigger] conns[i]),
        0 <= k < m <= conns.len(),
        touches(conns[k], u, d),
    ensures
        wired(conns.take(m), doors.len() as int, u, d) == Some(doors[u][d]),
    decreases m,
{
    let prefix = conns.take(m);
    let c = prefix.last();
    assert(c == conns[m - 1]);
    assert(linked(doors, c));
    assert(prefix.drop_last() =~= conns.take(m - 1));
    if touches(c, u, d) {
    } else {
        lemma_wired_prefix(doors, conns, m - 1, k, u, d);
    }
}

/// The pairing of a table wires its rooms: a candidate built from a table is
/// well formed.
pub proof fn lemma_pairing_is_wiring(doors: Seq<Seq<usize>>, conns: Seq<GuessGraphConnection>)
    requires
        is_pairing(doors, conns),
    ensures
        wiring_ok(conns, doors.len() as int),
{
    assert forall|k: int| 0 <= k < conns.len() implies in_range(
        #[trigger] conns[k],
        doors.len() as int,
    ) by {
        assert(linked(doors, conns[k]));
    }
}

/// A pairing of a table in which no door leads to its own room has half as
/// many connections as the table has doors.
pub proof fn lemma_pairs_without_loops(doors: Seq<Seq<usize>>, conns: Seq<GuessGraphConnection>)
    requires
        is_pairing(doors, conns),
        forall|u: int, d: int|
            0 <= u < doors.len() && 0 <= d < DEGREE ==> #[trigger] doors[u][d] != u,
    ensures
        2 * conns.len() == doors.len() * DEGREE,
{
    lemma_no_self_pairs(doors, conns, conns.len() as int);
    assert(conns.take(conns.len() as int) =~= conns);
}

proof fn lemma_no_self_pairs(doors: Seq<Seq<usize>>, conns: Seq<GuessGraphConnection>, m: int)
    requires
        forall|i: int| 0 <= i < conns.len() ==> linked(doors, #[trigger] conns[i]),
        forall|u: int, d: int|
            0 <= u < doors.len() && 0 <= d < DEGREE ==> #[trigger] doors[u][d] != u,
        0 <= m <= conns.len(),
    ensures
        self_pairs(conns.take(m)) == 0,
    decreases m,
{
    if m > 0 {
        let prefix = conns.take(m);
        assert(prefix.last() == conns[m - 1]);
        assert(linked(doors, conns[m - 1]));
        assert(prefix.drop_last() =~= conns.take(m - 1));
        lemma_no_self_pairs(doors, conns, m - 1);
        let c = conns[m - 1];
        if c.from == c.to {
            assert(doors[c.from.room as int][c.from.door as int] == c.from.room);
        }
    }
}


/// The door with number `q` in row-major order leads to its own room.
pub open spec fn is_loop(doors: Seq<Seq<usize>>, q: int) -> bool {
    doors[q / (DEGREE as int)][q % (DEGREE as int)] == q / (DEGREE as int)
}

/// Number of doors among the first `r` in row-major order that lead to
/// their own room.
pub open spec fn loops(doors: Seq<Seq<usize>>, r: int) -> int
    decreases r,
{
    if r <= 0 {
        0
    } else {
        loops(doors, r - 1) + if is_loop(doors, r - 1) {
            1int
        } else {
            0int
        }
    }
}

/// The first door of the `m`-th connection as a number in row-major order,
/// and the number of all doors behind the last connection.
pub open spec fn from_rank(doors: Seq<Seq<usize>>, conns: Seq<GuessGraphConnection>, m: int) -> int {
    if 0 <= m < conns.len() {
        rank(conns[m].from)
    } else {
        doors.len() * DEGREE
    }
}

proof fn lemma_no_loops(doors: Seq<Seq<usize>>, a: int, b: int)
    requires
        a <= b,
        forall|q: int| a <= q < b ==> !#[trigger] is_loop(doors, q),
    ensures
        loops(doors, b) == loops(doors, a),
    decreases b - a,
{
    if a < b {
        lemma_no_loops(doors, a, b - 1);
    }
}

/// A door that leads to its own room is the first door of a self-pair.
proof fn lemma_loop_is_paired(doors: Seq<Seq<usize>>, conns: Seq<GuessGraphConnection>, q: int) -> (k:
    int)
    requires
        is_pairing(doors, conns),
        0 <= q < doors.len() * DEGREE,
        is_loop(doors, q),
    ensures
        0 <= k < conns.len(),
        conns[k].from == conns[k].to,
        rank(conns[k].from) == q,
{
    let u = q / (DEGREE as int);
    let d = q % (DEGREE as int);
    assert(0 <= u < doors.len()) by (nonlinear_arith)
        requires
            0 <= q < doors.len() * DEGREE,
            u == q / (DEGREE as int),
    ;
    assert(covered(conns, u, d));
    let k = choose|k: int| 0 <= k < conns.len() && #[trigger] touches(conns[k], u, d);
    assert(linked(doors, conns[k]));
    assert(conns[k].from.room == conns[k].to.room);
    assert(conns[k].from == conns[k].to);
    k
}

/// The self-pairs among the first `m` connections are as many as the doors
/// before the first door of the `m`-th connection that lead to their own
/// room.
proof fn lemma_self_pairs_upto(doors: Seq<Seq<usize>>, conns: Seq<GuessGraphConnection>, m: int)
    requires
        is_pairing(doors, conns),
        0 <= m <= conns.len(),
    ensures
        self_pairs(conns.take(m)) == loops(doors, from_rank(doors, conns, m)),
        0 <= from_rank(doors, conns, m) <= doors.len() * DEGREE,
    decreases m,
{
    let total = doors.len() * DEGREE;
    let here = from_rank(doors, conns, m);
    assert(0 <= here <= total) by {
        if m < conns.len() {
            assert(linked(doors, conns[m]));
            assert(conns[m].from.room * DEGREE + conns[m].from.door < doors.len() * DEGREE)
                by (nonlinear_arith)
                requires
                    conns[m].from.room < doors.len(),
                    conns[m].from.door < DEGREE,
            ;
        }
    }
    let before = if m == 0 {
        0
    } else {
        from_rank(doors, conns, m - 1) + 1
    };
    assert(before <= here) by {
        if m > 0 && m < conns.len() {
            assert(rank(conns[m - 1].from) < rank(conns[m].from));
        }
        if m > 0 && m == conns.len() {
            assert(linked(doors, conns[m - 1]));
            assert(conns[m - 1].from.room * DEGREE + conns[m - 1].from.door < doors.len() * DEGREE)
                by (nonlinear_arith)
                requires
                    conns[m - 1].from.room < doors.len(),
                    conns[m - 1].from.door < DEGREE,
            ;
        }
    }
    assert forall|q: int| before <= q < here implies !#[trigger] is_loop(doors, q) by {
        if is_loop(doors, q) {
            let k = lemma_loop_is_paired(doors, conns, q);
            if k < m {
                if k < m - 1 {
                    assert(rank(conns[k].from) < rank(conns[m - 1].from));
                }
            } else {
                if m < k {
                    assert(rank(conns[m].from) < rank(conns[k].from));
                }
            }
        }
    }
    lemma_no_loops(doors, before, here);
    if m == 0 {
        assert(conns.take(0) =~= Seq::<GuessGraphConnection>::empty());
    } else {
        lemma_self_pairs_upto(doors, conns, m - 1);
        let c = conns[m - 1];
        let q = rank(c.from);
        assert(conns.take(m).last() == c);
        assert(conns.take(m).drop_last() =~= conns.take(m - 1));
        assert(linked(doors, c));
        assert(q / (DEGREE as int) == c.from.room && q % (DEGREE as int) == c.from.door) by {
            vstd::arithmetic::div_mod::lemma_fundamental_div_mod_converse(
                q,
                DEGREE as int,
                c.from.room as int,
                c.from.door as int,
            );
        }
        assert(is_loop(doors, q) == (c.from == c.to)) by {
            if is_loop(doors, q) {
                assert(c.from.room == c.to.room);
            }
        }
    }
}

/// The self-pairs of a pairing are as many as the doors of the table that
/// lead to their own room, so a pairing has one connection for every such
/// door and one for every two of the other doors.
pub proof fn lemma_pairs_with_loops(doors: Seq<Seq<usize>>, conns: Seq<GuessGraphConnection>)
    requires
        is_pairing(doors, conns),
    ensures
        self_pairs(conns) == loops(doors, doors.len() * DEGREE),
        2 * conns.len() == doors.len() * DEGREE + loops(doors, doors.len() * DEGREE),
{
    lemma_self_pairs_upto(doors, conns, conns.len() as int);
    assert(conns.take(conns.len() as int) =~= conns);
}

} // verus!
