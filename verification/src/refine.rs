//! Partition refinement: the coarsest grouping of the rooms of a door table
//! in which rooms of one group share a label and, door by door, lead into
//! one group.

use vstd::prelude::*;
use crate::problem::{DEGREE, LABELS};
use crate::table::{is_table, row_ok, table};

verus! {

/// The relation holds of the rooms behind door `d` of `x` and of `y`.
pub open spec fn carries(
    doors: Seq<Seq<usize>>,
    r: spec_fn(int, int) -> bool,
    x: int,
    y: int,
    d: int,
) -> bool {
    r(doors[x][d] as int, doors[y][d] as int)
}

/// Rooms that the relation holds of share a label, and each door leads them
/// to rooms that the relation holds of.
pub open spec fn is_bisimulation(
    doors: Seq<Seq<usize>>,
    labels: Seq<usize>,
    r: spec_fn(int, int) -> bool,
) -> bool {
    &&& forall|x: int, y: int|
        0 <= x < doors.len() && 0 <= y < doors.len() && #[trigger] r(x, y) ==> labels[x]
            == labels[y]
    &&& forall|x: int, y: int, d: int|
        0 <= x < doors.len() && 0 <= y < doors.len() && 0 <= d < DEGREE && r(x, y)
            ==> #[trigger] carries(doors, r, x, y, d)
}

/// Some bisimulation holds of `x` and `y`: no walk tells the two rooms
/// apart.
pub open spec fn alike(doors: Seq<Seq<usize>>, labels: Seq<usize>, x: int, y: int) -> bool {
    exists|r: spec_fn(int, int) -> bool| #[trigger] is_bisimulation(doors, labels, r) && r(x, y)
}

/// A door table with a label below the alphabet size for every room.
pub open spec fn system_ok(doors: Seq<Seq<usize>>, labels: Seq<usize>) -> bool {
    &&& is_table(doors)
    &&& labels.len() == doors.len()
    &&& forall|i: int| 0 <= i < labels.len() ==> #[trigger] labels[i] < LABELS
}

/// Rooms that are alike share a label and stay alike behind every door.
pub proof fn lemma_alike_steps(
    doors: Seq<Seq<usize>>,
    labels: Seq<usize>,
    x: int,
    y: int,
    d: int,
)
    requires
        0 <= x < doors.len(),
        0 <= y < doors.len(),
        0 <= d < DEGREE,
        alike(doors, labels, x, y),
    ensures
        labels[x] == labels[y],
        alike(doors, labels, doors[x][d] as int, doors[y][d] as int),
{
    let r = choose|r: spec_fn(int, int) -> bool| #[trigger]
        is_bisimulation(doors, labels, r) && r(x, y);
    assert(carries(doors, r, x, y, d));
}

/// The membership vectors held by a vector of vectors.
pub open spec fn sets(queue: Seq<Vec<bool>>) -> Seq<Seq<bool>> {
    Seq::new(queue.len(), |i: int| queue[i]@)
}

spec fn same_group(group: Seq<usize>, x: int, y: int) -> bool {
    group[x] == group[y]
}

/// The room behind door `d` of `x` lies in the set.
spec fn enters(doors: Seq<Seq<usize>>, set: Seq<bool>, d: int, x: int) -> bool {
    set[doors[x][d] as int]
}

/// Every room has a group below `groups`, and rooms of one group share a
/// label.
spec fn grouped(labels: Seq<usize>, group: Seq<usize>, groups: int) -> bool {
    &&& group.len() == labels.len()
    &&& forall|x: int| 0 <= x < group.len() ==> #[trigger] group[x] < groups
    &&& forall|x: int, y: int|
        0 <= x < group.len() && 0 <= y < group.len() && #[trigger] same_group(group, x, y)
            ==> labels[x] == labels[y]
}

/// Rooms that are alike lie in one group.
spec fn keeps_alike(doors: Seq<Seq<usize>>, labels: Seq<usize>, group: Seq<usize>) -> bool {
    forall|x: int, y: int|
        0 <= x < doors.len() && 0 <= y < doors.len() && #[trigger] alike(doors, labels, x, y)
            ==> group[x] == group[y]
}

/// Every group beyond the first `LABELS` has a room of its own.
spec fn reps_ok(group: Seq<usize>, groups: int, rep: Seq<int>) -> bool {
    &&& rep.len() == groups - LABELS
    &&& forall|k: int|
        0 <= k < rep.len() ==> 0 <= #[trigger] rep[k] < group.len() && group[rep[k]] == LABELS
            + k
}

/// Every set is a membership vector that holds, with a room, the rooms
/// alike to it.
spec fn sets_ok(doors: Seq<Seq<usize>>, labels: Seq<usize>, queue: Seq<Seq<bool>>) -> bool {
    &&& forall|q: int| 0 <= q < queue.len() ==> (#[trigger] queue[q]).len() == doors.len()
    &&& forall|q: int, x: int, y: int|
        0 <= q < queue.len() && 0 <= x < doors.len() && 0 <= y < doors.len() && #[trigger] alike(
            doors,
            labels,
            x,
            y,
        ) ==> (#[trigger] queue[q])[x] == queue[q][y]
}

/// The set holds exactly one of the two rooms.
spec fn sep(set: Seq<bool>, a: int, b: int) -> bool {
    set[a] != set[b]
}

/// A set still to be used tells the rooms behind door `d` of `x` and of `y`
/// apart: one that waits from `head` on, or the one in use, if `d` is not
/// below the door it has come to.
spec fn witnessed(
    doors: Seq<Seq<usize>>,
    queue: Seq<Seq<bool>>,
    head: int,
    door: int,
    x: int,
    y: int,
    d: int,
) -> bool {
    ||| exists|q: int|
        head <= q < queue.len() && #[trigger] sep(queue[q], doors[x][d] as int, doors[y][d] as int)
    ||| (head >= 1 && d >= door && sep(queue[head - 1], doors[x][d] as int, doors[y][d] as int))
}

/// Whenever a door leads two rooms of one group into different groups, a set
/// still to be used tells the rooms behind it apart.
spec fn pending(
    doors: Seq<Seq<usize>>,
    group: Seq<usize>,
    queue: Seq<Seq<bool>>,
    head: int,
    door: int,
) -> bool {
    forall|x: int, y: int, d: int|
        0 <= x < doors.len() && 0 <= y < doors.len() && 0 <= d < DEGREE && group[x] == group[y]
            && group[doors[x][d] as int] != group[doors[y][d] as int] ==> #[trigger] witnessed(
            doors,
            queue,
            head,
            door,
            x,
            y,
            d,
        )
}

/// The set is on the same side of the rooms behind door `d` of `x` and of
/// `y`.
spec fn same_side(doors: Seq<Seq<usize>>, set: Seq<bool>, d: int, x: int, y: int) -> bool {
    enters(doors, set, d, x) == enters(doors, set, d, y)
}

/// In the groups below `gid` and in those from `g0` on, door `d` leads all
/// rooms of a group to the same side of the set.
spec fn settled(
    doors: Seq<Seq<usize>>,
    group: Seq<usize>,
    set: Seq<bool>,
    d: int,
    gid: int,
    g0: int,
) -> bool {
    forall|x: int, y: int|
        0 <= x < doors.len() && 0 <= y < doors.len() && group[x] == group[y] && (group[x] < gid
            || group[x] >= g0) ==> #[trigger] same_side(doors, set, d, x, y)
}

/// What holds between two uses of a set.
spec fn refining(
    doors: Seq<Seq<usize>>,
    labels: Seq<usize>,
    group: Seq<usize>,
    groups: int,
    queue: Seq<Seq<bool>>,
    rep: Seq<int>,
) -> bool {
    &&& system_ok(doors, labels)
    &&& LABELS <= groups
    &&& grouped(labels, group, groups)
    &&& keeps_alike(doors, labels, group)
    &&& reps_ok(group, groups, rep)
    &&& sets_ok(doors, labels, queue)
}

/// Groups beyond the first `LABELS` are no more than rooms.
proof fn lemma_reps_bound(group: Seq<usize>, groups: int, rep: Seq<int>)
    requires
        reps_ok(group, groups, rep),
    ensures
        groups - LABELS <= group.len(),
{
    assert(rep.no_duplicates()) by {
        assert forall|i: int, j: int| 0 <= i < rep.len() && 0 <= j < rep.len() && i != j implies rep[i]
            != rep[j] by {
            assert(group[rep[i]] == LABELS + i);
            assert(group[rep[j]] == LABELS + j);
        }
    }
    rep.unique_seq_to_set();
    let range = vstd::set_lib::set_int_range(0, group.len() as int);
    vstd::set_lib::lemma_int_range(0, group.len() as int);
    assert(rep.to_set().subset_of(range)) by {
        assert forall|v: int| rep.to_set().contains(v) implies range.contains(v) by {
            let k = choose|k: int| 0 <= k < rep.len() && rep[k] == v;
            assert(0 <= rep[k] < group.len());
        }
    }
    vstd::set_lib::lemma_len_subset(rep.to_set(), range);
}

/// At the start every label is a group and a set.
proof fn lemma_start(doors: Seq<Seq<usize>>, labels: Seq<usize>, queue: Seq<Seq<bool>>)
    requires
        system_ok(doors, labels),
        queue.len() == LABELS,
        forall|q: int| 0 <= q < LABELS ==> (#[trigger] queue[q]).len() == labels.len(),
        forall|q: int, x: int|
            0 <= q < LABELS && 0 <= x < labels.len() ==> (#[trigger] queue[q][x]) == (labels[x]
                == q),
    ensures
        refining(doors, labels, labels, LABELS as int, queue, Seq::<int>::empty()),
        pending(doors, labels, queue, 0, DEGREE as int),
{
    assert forall|q: int, x: int, y: int|
        0 <= q < queue.len() && 0 <= x < doors.len() && 0 <= y < doors.len() && #[trigger] alike(
            doors,
            labels,
            x,
            y,
        ) implies (#[trigger] queue[q])[x] == queue[q][y] by {
        lemma_alike_steps(doors, labels, x, y, 0);
        assert(queue[q][x] == (labels[x] == q));
        assert(queue[q][y] == (labels[y] == q));
    }
    assert forall|x: int, y: int|
        0 <= x < doors.len() && 0 <= y < doors.len() && #[trigger] alike(
            doors,
            labels,
            x,
            y,
        ) implies labels[x] == labels[y] by {
        lemma_alike_steps(doors, labels, x, y, 0);
    }
    assert forall|x: int, y: int, d: int|
        0 <= x < doors.len() && 0 <= y < doors.len() && 0 <= d < DEGREE && labels[x] == labels[y]
            && labels[doors[x][d] as int] != labels[doors[y][d] as int] implies #[trigger] witnessed(
        doors,
        queue,
        0,
        DEGREE as int,
        x,
        y,
        d,
    ) by {
        assert(row_ok(doors[x], doors.len()));
        assert(row_ok(doors[y], doors.len()));
        let a = doors[x][d] as int;
        let b = doors[y][d] as int;
        let q = labels[a] as int;
        assert(queue[q][a] == (labels[a] == q));
        assert(queue[q][b] == (labels[b] == q));
        assert(sep(queue[q], a, b));
    }
}

/// Taking the next set into use: what waited from `head` on is now in use or
/// waits from `head + 1` on.
proof fn lemma_take(doors: Seq<Seq<usize>>, group: Seq<usize>, queue: Seq<Seq<bool>>, head: int)
    requires
        0 <= head < queue.len(),
        pending(doors, group, queue, head, DEGREE as int),
    ensures
        pending(doors, group, queue, head + 1, 0),
{
    assert forall|x: int, y: int, d: int|
        0 <= x < doors.len() && 0 <= y < doors.len() && 0 <= d < DEGREE && group[x] == group[y]
            && group[doors[x][d] as int] != group[doors[y][d] as int] implies #[trigger] witnessed(
        doors,
        queue,
        head + 1,
        0,
        x,
        y,
        d,
    ) by {
        assert(witnessed(doors, queue, head, DEGREE as int, x, y, d));
        let q = choose|q: int|
            head <= q < queue.len() && #[trigger] sep(
                queue[q],
                doors[x][d] as int,
                doors[y][d] as int,
            );
        if q > head {
            assert(sep(queue[q], doors[x][d] as int, doors[y][d] as int));
        }
    }
}

/// When every group is settled for door `d`, the set in use is done with
/// that door.
proof fn lemma_door_done(
    doors: Seq<Seq<usize>>,
    group: Seq<usize>,
    groups: int,
    queue: Seq<Seq<bool>>,
    head: int,
    d: int,
    g0: int,
)
    requires
        1 <= head <= queue.len(),
        0 <= d < DEGREE,
        is_table(doors),
        forall|x: int| 0 <= x < doors.len() ==> #[trigger] group[x] < groups,
        group.len() == doors.len(),
        pending(doors, group, queue, head, d),
        settled(doors, group, queue[head - 1], d, g0, g0),
    ensures
        pending(doors, group, queue, head, d + 1),
{
    assert forall|x: int, y: int, e: int|
        0 <= x < doors.len() && 0 <= y < doors.len() && 0 <= e < DEGREE && group[x] == group[y]
            && group[doors[x][e] as int] != group[doors[y][e] as int] implies #[trigger] witnessed(
        doors,
        queue,
        head,
        d + 1,
        x,
        y,
        e,
    ) by {
        assert(witnessed(doors, queue, head, d, x, y, e));
        if e == d {
            assert(same_side(doors, queue[head - 1], d, x, y));
        }
    }
}

/// A group whose rooms door `d` leads all to one side of the set is settled.
proof fn lemma_whole(
    doors: Seq<Seq<usize>>,
    group: Seq<usize>,
    set: Seq<bool>,
    d: int,
    gid: int,
    g0: int,
    side: bool,
)
    requires
        settled(doors, group, set, d, gid, g0),
        forall|x: int|
            0 <= x < doors.len() && group[x] == gid ==> #[trigger] enters(doors, set, d, x)
                == side,
    ensures
        settled(doors, group, set, d, gid + 1, g0),
{
    assert forall|x: int, y: int|
        0 <= x < doors.len() && 0 <= y < doors.len() && group[x] == group[y] && (group[x] < gid
            + 1 || group[x] >= g0) implies #[trigger] same_side(doors, set, d, x, y) by {
        if group[x] == gid {
            assert(enters(doors, set, d, x) == side);
            assert(enters(doors, set, d, y) == side);
        } else {
            assert(same_side(doors, set, d, x, y));
        }
    }
}

/// The grouping after the rooms of `gid` that door `d` leads into the set
/// have moved to the group `fresh`.
spec fn is_split(
    doors: Seq<Seq<usize>>,
    group: Seq<usize>,
    set: Seq<bool>,
    d: int,
    gid: int,
    fresh: int,
    next: Seq<usize>,
) -> bool {
    &&& next.len() == group.len()
    &&& forall|x: int|
        0 <= x < group.len() ==> #[trigger] next[x] == if group[x] == gid && enters(
            doors,
            set,
            d,
            x,
        ) {
            fresh
        } else {
            group[x] as int
        }
}

proof fn lemma_split_grouped(
    doors: Seq<Seq<usize>>,
    labels: Seq<usize>,
    group: Seq<usize>,
    groups: int,
    set: Seq<bool>,
    d: int,
    gid: int,
    next: Seq<usize>,
)
    requires
        grouped(labels, group, groups),
        is_split(doors, group, set, d, gid, groups, next),
    ensures
        grouped(labels, next, groups + 1),
{
    assert forall|x: int, y: int|
        0 <= x < next.len() && 0 <= y < next.len() && #[trigger] same_group(next, x, y)
        implies labels[x] == labels[y] by {
        assert(group[x] < groups && group[y] < groups);
        assert(same_group(group, x, y));
    }
    assert forall|x: int| 0 <= x < next.len() implies #[trigger] next[x] < groups + 1 by {
        assert(group[x] < groups);
    }
}

proof fn lemma_split_alike(
    doors: Seq<Seq<usize>>,
    labels: Seq<usize>,
    group: Seq<usize>,
    groups: int,
    set: Seq<bool>,
    d: int,
    gid: int,
    next: Seq<usize>,
)
    requires
        system_ok(doors, labels),
        0 <= d < DEGREE,
        group.len() == doors.len(),
        set.len() == doors.len(),
        keeps_alike(doors, labels, group),
        forall|x: int, y: int|
            0 <= x < doors.len() && 0 <= y < doors.len() && #[trigger] alike(doors, labels, x, y)
                ==> set[x] == set[y],
        is_split(doors, group, set, d, gid, groups, next),
    ensures
        keeps_alike(doors, labels, next),
{
    assert forall|x: int, y: int|
        0 <= x < doors.len() && 0 <= y < doors.len() && #[trigger] alike(
            doors,
            labels,
            x,
            y,
        ) implies next[x] == next[y] by {
        lemma_alike_steps(doors, labels, x, y, d);
        assert(row_ok(doors[x], doors.len()));
        assert(row_ok(doors[y], doors.len()));
        assert(alike(doors, labels, doors[x][d] as int, doors[y][d] as int));
        assert(enters(doors, set, d, x) == enters(doors, set, d, y));
    }
}

proof fn lemma_split_reps(
    doors: Seq<Seq<usize>>,
    group: Seq<usize>,
    groups: int,
    set: Seq<bool>,
    d: int,
    gid: int,
    next: Seq<usize>,
    rep: Seq<int>,
    goes: int,
    stays: int,
) -> (after: Seq<int>)
    requires
        LABELS <= groups,
        reps_ok(group, groups, rep),
        is_split(doors, group, set, d, gid, groups, next),
        0 <= gid < groups,
        0 <= goes < group.len(),
        group[goes] == gid,
        enters(doors, set, d, goes),
        0 <= stays < group.len(),
        group[stays] == gid,
        !enters(doors, set, d, stays),
    ensures
        reps_ok(next, groups + 1, after),
{
    let moved = Seq::new(
        rep.len(),
        |k: int|
            if LABELS + k == gid {
                stays
            } else {
                rep[k]
            },
    );
    let after = moved.push(goes);
    assert forall|k: int| 0 <= k < after.len() implies 0 <= #[trigger] after[k] < next.len()
        && next[after[k]] == LABELS + k by {
        if k < rep.len() {
            assert(0 <= rep[k] < group.len() && group[rep[k]] == LABELS + k);
        }
    }
    after
}

proof fn lemma_split_pending(
    doors: Seq<Seq<usize>>,
    group: Seq<usize>,
    groups: int,
    queue: Seq<Seq<bool>>,
    head: int,
    d: int,
    gid: int,
    next: Seq<usize>,
    half: Seq<bool>,
    which: int,
)
    requires
        is_table(doors),
        group.len() == doors.len(),
        forall|x: int| 0 <= x < doors.len() ==> #[trigger] group[x] < groups,
        1 <= head <= queue.len(),
        0 <= d < DEGREE,
        0 <= gid < groups,
        pending(doors, group, queue, head, d),
        is_split(doors, group, queue[head - 1], d, gid, groups, next),
        which == gid || which == groups,
        half.len() == doors.len(),
        forall|x: int| 0 <= x < doors.len() ==> #[trigger] half[x] == (next[x] == which),
    ensures
        pending(doors, next, queue.push(half), head, d),
{
    let queue2 = queue.push(half);
    assert forall|x: int, y: int, e: int|
        0 <= x < doors.len() && 0 <= y < doors.len() && 0 <= e < DEGREE && next[x] == next[y]
            && next[doors[x][e] as int] != next[doors[y][e] as int] implies #[trigger] witnessed(
        doors,
        queue2,
        head,
        d,
        x,
        y,
        e,
    ) by {
        assert(row_ok(doors[x], doors.len()));
        assert(row_ok(doors[y], doors.len()));
        let a = doors[x][e] as int;
        let b = doors[y][e] as int;
        assert(group[x] < groups && group[y] < groups && group[a] < groups && group[b] < groups);
        assert(group[x] == group[y]);
        if group[a] != group[b] {
            assert(witnessed(doors, queue, head, d, x, y, e));
            if exists|q: int| head <= q < queue.len() && #[trigger] sep(queue[q], a, b) {
                let q = choose|q: int| head <= q < queue.len() && #[trigger] sep(queue[q], a, b);
                assert(queue2[q] == queue[q]);
                assert(sep(queue2[q], a, b));
            } else {
                assert(queue2[head - 1] == queue[head - 1]);
            }
        } else {
            let q = queue.len() as int;
            assert(queue2[q] == half);
            assert(half[a] == (next[a] == which));
            assert(half[b] == (next[b] == which));
            assert(sep(queue2[q], a, b));
        }
    }
}

proof fn lemma_split_settled(
    doors: Seq<Seq<usize>>,
    group: Seq<usize>,
    groups: int,
    set: Seq<bool>,
    d: int,
    gid: int,
    g0: int,
    next: Seq<usize>,
)
    requires
        group.len() == doors.len(),
        forall|x: int| 0 <= x < doors.len() ==> #[trigger] group[x] < groups,
        0 <= gid < g0 <= groups,
        settled(doors, group, set, d, gid, g0),
        is_split(doors, group, set, d, gid, groups, next),
    ensures
        settled(doors, next, set, d, gid + 1, g0),
{
    assert forall|x: int, y: int|
        0 <= x < doors.len() && 0 <= y < doors.len() && next[x] == next[y] && (next[x] < gid + 1
            || next[x] >= g0) implies #[trigger] same_side(doors, set, d, x, y) by {
        assert(group[x] < groups && group[y] < groups);
        if next[x] == gid || next[x] == groups {
        } else {
            assert(group[x] == group[y]);
            assert(same_side(doors, set, d, x, y));
        }
    }
}

proof fn lemma_split_sets(
    doors: Seq<Seq<usize>>,
    labels: Seq<usize>,
    queue: Seq<Seq<bool>>,
    next: Seq<usize>,
    half: Seq<bool>,
    which: int,
)
    requires
        sets_ok(doors, labels, queue),
        keeps_alike(doors, labels, next),
        half.len() == doors.len(),
        forall|x: int| 0 <= x < doors.len() ==> #[trigger] half[x] == (next[x] == which),
    ensures
        sets_ok(doors, labels, queue.push(half)),
{
    let queue2 = queue.push(half);
    assert forall|q: int| 0 <= q < queue2.len() implies (#[trigger] queue2[q]).len()
        == doors.len() by {
        if q < queue.len() {
            assert(queue2[q] == queue[q]);
        }
    }
    assert forall|q: int, x: int, y: int|
        0 <= q < queue2.len() && 0 <= x < doors.len() && 0 <= y < doors.len() && #[trigger] alike(
            doors,
            labels,
            x,
            y,
        ) implies (#[trigger] queue2[q])[x] == queue2[q][y] by {
        if q < queue.len() {
            assert(queue2[q] == queue[q]);
            assert(queue[q][x] == queue[q][y]);
        } else {
            assert(half[x] == (next[x] == which));
            assert(half[y] == (next[y] == which));
        }
    }
}

/// When no set is left, the groups are the classes of alike rooms.
proof fn lemma_finish(
    doors: Seq<Seq<usize>>,
    labels: Seq<usize>,
    group: Seq<usize>,
    groups: int,
    queue: Seq<Seq<bool>>,
    rep: Seq<int>,
)
    requires
        refining(doors, labels, group, groups, queue, rep),
        pending(doors, group, queue, queue.len() as int, DEGREE as int),
    ensures
        forall|x: int, y: int|
            0 <= x < doors.len() && 0 <= y < doors.len() ==> (group[x] == group[y]) == alike(
                doors,
                labels,
                x,
                y,
            ),
{
    let r = |x: int, y: int| 0 <= x < doors.len() && 0 <= y < doors.len() && group[x] == group[y];
    assert forall|x: int, y: int|
        0 <= x < doors.len() && 0 <= y < doors.len() && #[trigger] r(x, y) implies labels[x]
        == labels[y] by {
        assert(same_group(group, x, y));
    }
    assert forall|x: int, y: int, d: int|
        0 <= x < doors.len() && 0 <= y < doors.len() && 0 <= d < DEGREE && r(
            x,
            y,
        ) implies #[trigger] carries(doors, r, x, y, d) by {
        assert(row_ok(doors[x], doors.len()));
        assert(row_ok(doors[y], doors.len()));
        if group[doors[x][d] as int] != group[doors[y][d] as int] {
            assert(witnessed(doors, queue, queue.len() as int, DEGREE as int, x, y, d));
        }
    }
    assert(is_bisimulation(doors, labels, r));
    assert forall|x: int, y: int| 0 <= x < doors.len() && 0 <= y < doors.len() implies (group[x]
        == group[y]) == alike(doors, labels, x, y) by {
        if group[x] == group[y] {
            assert(r(x, y));
        }
    }
}

/// The membership vector of one group.
fn members(group: &Vec<usize>, gid: usize) -> (set: Vec<bool>)
    ensures
        set@.len() == group@.len(),
        forall|x: int| 0 <= x < group@.len() ==> #[trigger] set@[x] == (group@[x] == gid),
{
    let mut set: Vec<bool> = Vec::new();
    let mut x: usize = 0;
    while x < group.len()
        invariant
            x <= group.len(),
            set@.len() == x,
            forall|k: int| 0 <= k < x ==> #[trigger] set@[k] == (group@[k] == gid),
        decreases group.len() - x,
    {
        set.push(group[x] == gid);
        x += 1;
    }
    set
}

/// How the rooms of one group fall to the two sides of a set.
pub struct Tally {
    /// Rooms that door `d` leads into the set, and one of them if there is
    /// any.
    pub inside: usize,
    pub goes: usize,
    /// Rooms that door `d` leads elsewhere, and one of them if there is any.
    pub outside: usize,
    pub stays: usize,
}

/// Counts the rooms of group `gid` that door `d` leads into the set and
/// those that it leads elsewhere.
fn tally(succ: &Vec<Vec<usize>>, group: &Vec<usize>, set: &Vec<bool>, d: usize, gid: usize) -> (t:
    Tally)
    requires
        is_table(table(succ@)),
        group@.len() == succ@.len(),
        set@.len() == succ@.len(),
        d < DEGREE,
    ensures
        t.inside > 0 ==> t.goes < group@.len() && group@[t.goes as int] == gid && enters(
            table(succ@),
            set@,
            d as int,
            t.goes as int,
        ),
        t.inside == 0 ==> forall|x: int|
            0 <= x < group@.len() && group@[x] == gid ==> !#[trigger] enters(
                table(succ@),
                set@,
                d as int,
                x,
            ),
        t.outside > 0 ==> t.stays < group@.len() && group@[t.stays as int] == gid && !enters(
            table(succ@),
            set@,
            d as int,
            t.stays as int,
        ),
        t.outside == 0 ==> forall|x: int|
            0 <= x < group@.len() && group@[x] == gid ==> #[trigger] enters(
                table(succ@),
                set@,
                d as int,
                x,
            ),
{
    let mut t = Tally { inside: 0, goes: 0, outside: 0, stays: 0 };
    let mut x: usize = 0;
    while x < group.len()
        invariant
            x <= group.len(),
            is_table(table(succ@)),
            group@.len() == succ@.len(),
            set@.len() == succ@.len(),
            d < DEGREE,
            t.inside <= x,
            t.outside <= x,
            t.inside > 0 ==> t.goes < group@.len() && group@[t.goes as int] == gid && enters(
                table(succ@),
                set@,
                d as int,
                t.goes as int,
            ),
            t.inside == 0 ==> forall|k: int|
                0 <= k < x && group@[k] == gid ==> !#[trigger] enters(
                    table(succ@),
                    set@,
                    d as int,
                    k,
                ),
            t.outside > 0 ==> t.stays < group@.len() && group@[t.stays as int] == gid && !enters(
                table(succ@),
                set@,
                d as int,
                t.stays as int,
            ),
            t.outside == 0 ==> forall|k: int|
                0 <= k < x && group@[k] == gid ==> #[trigger] enters(
                    table(succ@),
                    set@,
                    d as int,
                    k,
                ),
        decreases group.len() - x,
    {
        proof {
            assert(row_ok(table(succ@)[x as int], succ@.len()));
        }
        if group[x] == gid {
            if set[succ[x][d]] {
                t.inside += 1;
                t.goes = x;
            } else {
                t.outside += 1;
                t.stays = x;
            }
        }
        x += 1;
    }
    t
}

/// Moves the rooms of group `gid` that door `d` leads into the set to the
/// group `fresh`.
fn split(
    succ: &Vec<Vec<usize>>,
    group: &Vec<usize>,
    set: &Vec<bool>,
    d: usize,
    gid: usize,
    fresh: usize,
) -> (next: Vec<usize>)
    requires
        is_table(table(succ@)),
        group@.len() == succ@.len(),
        set@.len() == succ@.len(),
        d < DEGREE,
    ensures
        is_split(table(succ@), group@, set@, d as int, gid as int, fresh as int, next@),
{
    let mut next: Vec<usize> = Vec::new();
    let mut x: usize = 0;
    while x < group.len()
        invariant
            x <= group.len(),
            is_table(table(succ@)),
            group@.len() == succ@.len(),
            set@.len() == succ@.len(),
            d < DEGREE,
            next@.len() == x,
            forall|k: int|
                0 <= k < x ==> #[trigger] next@[k] == if group@[k] == gid && enters(
                    table(succ@),
                    set@,
                    d as int,
                    k,
                ) {
                    fresh as int
                } else {
                    group@[k] as int
                },
        decreases group.len() - x,
    {
        proof {
            assert(row_ok(table(succ@)[x as int], succ@.len()));
        }
        if group[x] == gid && set[succ[x][d]] {
            next.push(fresh);
        } else {
            next.push(group[x]);
        }
        x += 1;
    }
    next
}

/// Groups the rooms of a door table so that two rooms lie in one group
/// exactly when they are alike.
///
/// The groups start as the labels. Sets of rooms wait in a queue, at first
/// one for every label. Each set in turn, door by door, parts every group
/// into the rooms that the door leads into the set and the rest; where both
/// parts hold rooms, the first becomes a new group and the smaller part
/// joins the queue.
pub fn refine(succ: &Vec<Vec<usize>>, label: &Vec<usize>) -> (group: Vec<usize>)
    requires
        system_ok(table(succ@), label@),
    ensures
        group@.len() == succ@.len(),
        forall|x: int, y: int|
            0 <= x < succ@.len() && 0 <= y < succ@.len() ==> (group@[x] == group@[y]) == alike(
                table(succ@),
                label@,
                x,
                y,
            ),
{
    let ghost doors = table(succ@);
    let m = label.len();
    let mut group: Vec<usize> = label.clone();
    let mut groups: usize = LABELS;
    let mut queue: Vec<Vec<bool>> = Vec::new();
    let mut l: usize = 0;
    while l < LABELS
        invariant
            l <= LABELS,
            queue@.len() == l,
            forall|q: int| 0 <= q < l ==> (#[trigger] sets(queue@)[q]).len() == label@.len(),
            forall|q: int, x: int|
                0 <= q < l && 0 <= x < label@.len() ==> (#[trigger] sets(queue@)[q][x]) == (
                label@[x] == q),
        decreases LABELS - l,
    {
        let set = members(label, l);
        let ghost before = sets(queue@);
        queue.push(set);
        proof {
            assert forall|q: int| 0 <= q < l + 1 implies (#[trigger] sets(queue@)[q]).len()
                == label@.len() by {
                if q < l {
                    assert(sets(queue@)[q] == before[q]);
                }
            }
            assert forall|q: int, x: int| 0 <= q < l + 1 && 0 <= x < label@.len() implies (
            #[trigger] sets(queue@)[q][x]) == (label@[x] == q) by {
                if q < l {
                    assert(sets(queue@)[q] == before[q]);
                    assert(before[q][x] == (label@[x] == q));
                }
            }
        }
        l += 1;
    }
    let ghost mut rep: Seq<int> = Seq::empty();
    proof {
        assert(group@ =~= label@);
        lemma_start(doors, label@, sets(queue@));
    }
    let mut head: usize = 0;
    while head < queue.len()
        invariant
            doors == table(succ@),
            m == label@.len(),
            queue@.len() == groups,
            head <= queue@.len(),
            groups - LABELS <= m,
            refining(doors, label@, group@, groups as int, sets(queue@), rep),
            pending(doors, group@, sets(queue@), head as int, DEGREE as int),
        decreases LABELS + m - groups, queue@.len() - head,
    {
        let set = queue[head].clone();
        let ghost groups_0 = groups;
        let ghost waiting_0 = queue@.len();
        proof {
            assert(set@ =~= sets(queue@)[head as int]);
            lemma_take(doors, group@, sets(queue@), head as int);
        }
        head += 1;
        let mut d: usize = 0;
        while d < DEGREE
            invariant
                d <= DEGREE,
                doors == table(succ@),
                m == label@.len(),
                queue@.len() == groups,
                1 <= head <= queue@.len(),
                set@ == sets(queue@)[head - 1],
                groups - LABELS <= m,
                groups_0 <= groups,
                waiting_0 <= queue@.len(),
                groups == groups_0 ==> queue@.len() == waiting_0,
                refining(doors, label@, group@, groups as int, sets(queue@), rep),
                pending(doors, group@, sets(queue@), head as int, d as int),
            decreases DEGREE - d,
        {
            let g0 = groups;
            let mut gid: usize = 0;
            proof {
                assert(settled(doors, group@, set@, d as int, 0, g0 as int)) by {
                    assert forall|x: int, y: int|
                        0 <= x < doors.len() && 0 <= y < doors.len() && group@[x] == group@[y]
                            && (group@[x] < 0 || group@[x] >= g0) implies #[trigger] same_side(
                        doors,
                        set@,
                        d as int,
                        x,
                        y,
                    ) by {
                        assert(group@[x] < groups);
                    }
                }
            }
            while gid < g0
                invariant
                    gid <= g0 <= groups,
                    d < DEGREE,
                    doors == table(succ@),
                    m == label@.len(),
                    queue@.len() == groups,
                    1 <= head <= queue@.len(),
                    set@ == sets(queue@)[head - 1],
                    groups - LABELS <= m,
                    groups_0 <= groups,
                    waiting_0 <= queue@.len(),
                    groups == groups_0 ==> queue@.len() == waiting_0,
                    refining(doors, label@, group@, groups as int, sets(queue@), rep),
                    pending(doors, group@, sets(queue@), head as int, d as int),
                    settled(doors, group@, set@, d as int, gid as int, g0 as int),
                decreases g0 - gid,
            {
                let t = tally(succ, &group, &set, d, gid);
                if t.inside > 0 && t.outside > 0 {
                    let next = split(succ, &group, &set, d, gid, groups);
                    let half = if t.inside < t.outside {
                        members(&next, groups)
                    } else {
                        members(&next, gid)
                    };
                    let ghost which = if t.inside < t.outside {
                        groups as int
                    } else {
                        gid as int
                    };
                    let ghost before = sets(queue@);
                    proof {
                        lemma_split_grouped(
                            doors,
                            label@,
                            group@,
                            groups as int,
                            set@,
                            d as int,
                            gid as int,
                            next@,
                        );
                        assert forall|x: int, y: int|
                            0 <= x < doors.len() && 0 <= y < doors.len() && #[trigger] alike(
                                doors,
                                label@,
                                x,
                                y,
                            ) implies set@[x] == set@[y] by {
                            assert(before[head - 1][x] == before[head - 1][y]);
                        }
                        lemma_split_alike(
                            doors,
                            label@,
                            group@,
                            groups as int,
                            set@,
                            d as int,
                            gid as int,
                            next@,
                        );
                        rep = lemma_split_reps(
                            doors,
                            group@,
                            groups as int,
                            set@,
                            d as int,
                            gid as int,
                            next@,
                            rep,
                            t.goes as int,
                            t.stays as int,
                        );
                        lemma_reps_bound(next@, groups + 1, rep);
                        lemma_split_pending(
                            doors,
                            group@,
                            groups as int,
                            before,
                            head as int,
                            d as int,
                            gid as int,
                            next@,
                            half@,
                            which,
                        );
                        lemma_split_settled(
                            doors,
                            group@,
                            groups as int,
                            set@,
                            d as int,
                            gid as int,
                            g0 as int,
                            next@,
                        );
                        lemma_split_sets(doors, label@, before, next@, half@, which);
                    }
                    group = next;
                    queue.push(half);
                    groups = queue.len();
                    proof {
                        assert(sets(queue@) =~= before.push(half@));
                    }
                } else {
                    proof {
                        lemma_whole(
                            doors,
                            group@,
                            set@,
                            d as int,
                            gid as int,
                            g0 as int,
                            t.inside > 0,
                        );
                    }
                }
                gid += 1;
            }
            proof {
                lemma_door_done(
                    doors,
                    group@,
                    groups as int,
                    sets(queue@),
                    head as int,
                    d as int,
                    g0 as int,
                );
            }
            d += 1;
        }
    }
    proof {
        lemma_finish(doors, label@, group@, groups as int, sets(queue@), rep);
    }
    group
}

} // verus!
