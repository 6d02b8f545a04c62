//! Why the marking plan finds the representatives: against a graph that
//! answers truthfully, a walk position shows its first-round label under the
//! marking plan exactly when the walk reaches its room there for the first
//! time.

use vstd::prelude::*;
use crate::graph::{lemma_walk_len, room_after, walk_from, Graph};
use crate::plan::{all_doors, door_plan, plan_ok, step_ok, WalkStep};
use crate::problem::{DEGREE, LABELS};
use crate::rewrite_identify::{count_repr, is_repr, marking};
use crate::soundness::{lemma_room_in_range, lemma_seen_tail, room_at, seen_from};
use crate::table::row_ok;

verus! {

/// The labels as they stand, and the room reached, after a plan is walked
/// from room `x` on the given labels.
pub open spec fn after(
    doors: Seq<Seq<usize>>,
    labels: Seq<usize>,
    x: int,
    plan: Seq<WalkStep>,
) -> (Seq<usize>, int)
    decreases plan.len(),
{
    if plan.len() == 0 {
        (labels, x)
    } else {
        match plan[0] {
            WalkStep::Edge(d) => after(
                doors,
                labels,
                doors[x][d as int] as int,
                plan.drop_first(),
            ),
            WalkStep::Rewrite(l) => after(doors, labels.update(x, l), x, plan.drop_first()),
        }
    }
}

/// Walking two plans one after the other shows what the first shows and
/// then what the second shows from where, and on the labels with which, the
/// first ends.
pub proof fn lemma_walk_split(
    doors: Seq<Seq<usize>>,
    labels: Seq<usize>,
    x: int,
    a: Seq<WalkStep>,
    b: Seq<WalkStep>,
)
    ensures
        walk_from(doors, labels, x, a + b) == walk_from(doors, labels, x, a) + walk_from(
            doors,
            after(doors, labels, x, a).0,
            after(doors, labels, x, a).1,
            b,
        ),
        after(doors, labels, x, a + b) == after(
            doors,
            after(doors, labels, x, a).0,
            after(doors, labels, x, a).1,
            b,
        ),
    decreases a.len(),
{
    if a.len() == 0 {
        assert(a + b =~= b);
        assert(walk_from(doors, labels, x, a) =~= Seq::<usize>::empty());
        assert(walk_from(doors, labels, x, b) =~= Seq::<usize>::empty() + walk_from(
            doors,
            labels,
            x,
            b,
        ));
    } else {
        let all = a + b;
        assert(all[0] == a[0]);
        assert(all.drop_first() =~= a.drop_first() + b);
        match a[0] {
            WalkStep::Edge(d) => {
                let y = doors[x][d as int] as int;
                lemma_walk_split(doors, labels, y, a.drop_first(), b);
                assert(walk_from(doors, labels, x, all) =~= walk_from(doors, labels, x, a)
                    + walk_from(
                    doors,
                    after(doors, labels, x, a).0,
                    after(doors, labels, x, a).1,
                    b,
                ));
            },
            WalkStep::Rewrite(l) => {
                lemma_walk_split(doors, labels.update(x, l), x, a.drop_first(), b);
                assert(walk_from(doors, labels, x, all) =~= walk_from(doors, labels, x, a)
                    + walk_from(
                    doors,
                    after(doors, labels, x, a).0,
                    after(doors, labels, x, a).1,
                    b,
                ));
            },
        }
    }
}

/// The labels as they stand when the marking plan arrives at walk position
/// `k`: a room that the walk has reached before bears its own label raised by
/// one, every other room its own label.
pub open spec fn marked_labels(g: Graph, walk: Seq<usize>, k: int) -> Seq<usize>
    decreases k,
{
    if k <= 0 {
        g.labels@
    } else {
        let r = room_at(g, walk, k - 1);
        marked_labels(g, walk, k - 1).update(
            r,
            ((g.labels@[r] + 1) % (LABELS as int)) as usize,
        )
    }
}

/// The walk reaches the room of position `i` at an earlier position.
pub open spec fn seen_before(g: Graph, walk: Seq<usize>, i: int) -> bool {
    exists|j: int| 0 <= j < i && #[trigger] room_at(g, walk, j) == room_at(g, walk, i)
}

/// The room of every walk position is a room, and the walk leads from it to
/// the room of the next position.
pub proof fn lemma_rooms(g: Graph, walk: Seq<usize>, k: int)
    requires
        g.wf(),
        all_doors(walk),
        0 <= k <= walk.len(),
    ensures
        0 <= room_at(g, walk, k) < g.labels@.len(),
        k < walk.len() ==> room_at(g, walk, k + 1) == g.doors()[room_at(g, walk, k)][walk[k] as int],
{
    assert(all_doors(walk.take(k))) by {
        assert forall|q: int| 0 <= q < walk.take(k).len() implies #[trigger] walk.take(k)[q]
            < DEGREE by {
            assert(walk.take(k)[q] == walk[q]);
        }
    }
    lemma_room_in_range(g, g.start_node as int, walk.take(k));
    if k < walk.len() {
        let longer = walk.take(k + 1);
        assert(longer.drop_last() =~= walk.take(k));
        assert(longer.last() == walk[k]);
    }
}

/// The labels that stand when the marking plan arrives at position `k` are,
/// room by room, the room's own label or that label raised by one, as the
/// walk has or has not reached the room before position `k`.
pub proof fn lemma_marked_labels(g: Graph, walk: Seq<usize>, k: int, r: int)
    requires
        g.wf(),
        all_doors(walk),
        0 <= k <= walk.len() + 1,
        0 <= r < g.labels@.len(),
    ensures
        marked_labels(g, walk, k).len() == g.labels@.len(),
        marked_labels(g, walk, k)[r] == if exists|j: int|
            0 <= j < k && #[trigger] room_at(g, walk, j) == r {
            ((g.labels@[r] + 1) % (LABELS as int)) as usize
        } else {
            g.labels@[r]
        },
    decreases k,
{
    if k > 0 {
        lemma_marked_labels(g, walk, k - 1, r);
        lemma_rooms(g, walk, k - 1);
        let here = room_at(g, walk, k - 1);
        if here == r {
        } else if exists|j: int| 0 <= j < k && #[trigger] room_at(g, walk, j) == r {
            let j = choose|j: int| 0 <= j < k && #[trigger] room_at(g, walk, j) == r;
            assert(j < k - 1);
        } else {
            assert forall|j: int| 0 <= j < k - 1 implies #[trigger] room_at(g, walk, j) != r by {}
        }
    }
}

/// The first-round trace shows at every position the label of its room.
pub proof fn lemma_first_labels(g: Graph, walk: Seq<usize>, k: int)
    requires
        g.wf(),
        all_doors(walk),
        0 <= k <= walk.len(),
    ensures
        g.trace(door_plan(walk))[k] == g.labels@[room_at(g, walk, k)],
        g.trace(door_plan(walk)).len() == walk.len() + 1,
{
    lemma_seen_tail(g, g.start_node as int, walk.take(k), walk.skip(k));
    assert(walk.take(k) + walk.skip(k) =~= walk);
    let tail = seen_from(g, room_at(g, walk, k), walk.skip(k));
    assert(tail[0] == g.labels@[room_at(g, walk, k)]);
    assert(seen_from(g, g.start_node as int, walk).skip(k)[0] == seen_from(
        g,
        g.start_node as int,
        walk,
    )[k]);
}

/// After the first `2 k` steps of the marking plan the walk stands in the
/// room of position `k`, on the marked labels.
pub proof fn lemma_marking_state(g: Graph, walk: Seq<usize>, k: int)
    requires
        g.wf(),
        all_doors(walk),
        0 <= k <= walk.len(),
    ensures
        after(
            g.doors(),
            g.labels@,
            g.start_node as int,
            marking(walk, g.trace(door_plan(walk))).take(2 * k),
        ) == (marked_labels(g, walk, k), room_at(g, walk, k)),
    decreases k,
{
    let first = g.trace(door_plan(walk));
    let plan = marking(walk, first);
    if k == 0 {
        assert(plan.take(0) =~= Seq::<WalkStep>::empty());
        assert(walk.take(0) =~= Seq::<usize>::empty());
    } else {
        lemma_marking_state(g, walk, k - 1);
        lemma_rooms(g, walk, k - 1);
        lemma_first_labels(g, walk, k - 1);
        let before = plan.take(2 * (k - 1));
        let here = room_at(g, walk, k - 1);
        let labels = marked_labels(g, walk, k - 1);
        let write = WalkStep::Rewrite(((first[k - 1] + 1) % (LABELS as int)) as usize);
        let go = WalkStep::Edge(walk[k - 1]);
        let two = seq![write, go];
        assert(plan[2 * (k - 1)] == write);
        assert(plan[2 * (k - 1) + 1] == go);
        assert(plan.take(2 * k) =~= before + two);
        lemma_walk_split(g.doors(), g.labels@, g.start_node as int, before, two);
        let written = labels.update(here, ((first[k - 1] + 1) % (LABELS as int)) as usize);
        let next = g.doors()[here][walk[k - 1] as int] as int;
        let none = Seq::<WalkStep>::empty();
        assert(two[0] == write);
        assert(two.drop_first() =~= seq![go]);
        assert(seq![go][0] == go);
        assert(seq![go].drop_first() =~= none);
        assert(after(g.doors(), written, next, none) == (written, next));
        assert(after(g.doors(), written, here, seq![go]) == (written, next));
        assert(after(g.doors(), labels, here, two) == (written, next));
        assert(first[k - 1] == g.labels@[here]);
        assert(marked_labels(g, walk, k) == written);
        assert(room_at(g, walk, k) == next);
    }
}

/// The last label that a plan shows is the label that stands on the room in
/// which it ends.
pub proof fn lemma_last_label(
    doors: Seq<Seq<usize>>,
    labels: Seq<usize>,
    x: int,
    plan: Seq<WalkStep>,
)
    requires
        plan.len() > 0,
        0 <= x < labels.len(),
        crate::table::is_table(doors),
        doors.len() == labels.len(),
        crate::plan::doors_ok(plan),
    ensures
        walk_from(doors, labels, x, plan).len() == plan.len(),
        walk_from(doors, labels, x, plan).last() == after(doors, labels, x, plan).0[after(
            doors,
            labels,
            x,
            plan,
        ).1],
        0 <= after(doors, labels, x, plan).1 < labels.len(),
        after(doors, labels, x, plan).0.len() == labels.len(),
    decreases plan.len(),
{
    lemma_walk_len(doors, labels, x, plan);
    let rest = plan.drop_first();
    assert(crate::plan::doors_ok(rest)) by {
        assert forall|i: int| 0 <= i < rest.len() implies match #[trigger] rest[i] {
            WalkStep::Edge(d) => d < DEGREE,
            WalkStep::Rewrite(_) => true,
        } by {
            assert(rest[i] == plan[i + 1]);
        }
    }
    assert(row_ok(doors[x], doors.len()));
    let first_ok = match plan[0] {
        WalkStep::Edge(d) => d < DEGREE,
        WalkStep::Rewrite(_) => true,
    };
    assert(first_ok);
    let none = Seq::<WalkStep>::empty();
    match plan[0] {
        WalkStep::Edge(d) => {
            let y = doors[x][d as int] as int;
            if rest.len() == 0 {
                assert(rest =~= none);
                assert(walk_from(doors, labels, y, rest) =~= Seq::<usize>::empty());
                assert(after(doors, labels, y, rest) == (labels, y));
                assert(walk_from(doors, labels, x, plan) =~= seq![labels[y]]);
            }
            if rest.len() > 0 {
                lemma_last_label(doors, labels, y, rest);
                lemma_walk_len(doors, labels, y, rest);
                let shown = walk_from(doors, labels, x, plan);
                assert(shown == seq![labels[y]] + walk_from(doors, labels, y, rest));
                assert(shown.last() == walk_from(doors, labels, y, rest).last());
            }
        },
        WalkStep::Rewrite(l) => {
            let written = labels.update(x, l);
            if rest.len() == 0 {
                assert(rest =~= none);
                assert(walk_from(doors, written, x, rest) =~= Seq::<usize>::empty());
                assert(after(doors, written, x, rest) == (written, x));
                assert(walk_from(doors, labels, x, plan) =~= seq![l]);
            }
            if rest.len() > 0 {
                lemma_last_label(doors, written, x, rest);
                lemma_walk_len(doors, written, x, rest);
                let shown = walk_from(doors, labels, x, plan);
                assert(shown == seq![l] + walk_from(doors, written, x, rest));
                assert(shown.last() == walk_from(doors, written, x, rest).last());
            }
        },
    }
}

/// Against a graph that answers truthfully, a walk position is a
/// representative exactly when the walk has not reached its room before.
pub proof fn lemma_marking_shows_first_visits(
    g: Graph,
    walk: Seq<usize>,
    first: Seq<usize>,
    second: Seq<usize>,
    i: int,
)
    requires
        g.wf(),
        all_doors(walk),
        first == g.trace(door_plan(walk)),
        second == g.trace(marking(walk, first)),
        0 <= i <= walk.len(),
    ensures
        is_repr(first, second, i) <==> !seen_before(g, walk, i),
{
    let plan = marking(walk, first);
    let start = g.start_node as int;
    lemma_rooms(g, walk, i);
    lemma_first_labels(g, walk, i);
    lemma_marking_state(g, walk, i);
    lemma_marked_labels(g, walk, i, room_at(g, walk, i));
    let here = room_at(g, walk, i);
    // what the marking plan shows on arrival at position i
    assert(second[2 * i] == marked_labels(g, walk, i)[here]) by {
        if i == 0 {
            assert(walk.take(0) =~= Seq::<usize>::empty());
        } else {
            let head = plan.take(2 * i);
            let tail = plan.skip(2 * i);
            assert(head + tail =~= plan);
            lemma_walk_split(g.doors(), g.labels@, start, head, tail);
            assert(crate::plan::doors_ok(head)) by {
                assert forall|q: int| 0 <= q < head.len() implies match #[trigger] head[q] {
                    WalkStep::Edge(d) => d < DEGREE,
                    WalkStep::Rewrite(_) => true,
                } by {
                    assert(head[q] == plan[q]);
                    if q % 2 == 1 {
                        assert(walk[q / 2] < DEGREE);
                    }
                }
            }
            lemma_last_label(g.doors(), g.labels@, start, head);
            let shown = walk_from(g.doors(), g.labels@, start, plan);
            let head_shown = walk_from(g.doors(), g.labels@, start, head);
            assert(shown[2 * i - 1] == head_shown[2 * i - 1]);
            assert(head_shown.last() == head_shown[2 * i - 1]);
            assert(second[2 * i] == shown[2 * i - 1]);
        }
    }
    let own = g.labels@[here];
    assert(own < LABELS);
    assert((own + 1) % (LABELS as int) != own);
    if seen_before(g, walk, i) {
        let j = choose|j: int| 0 <= j < i && #[trigger] room_at(g, walk, j) == room_at(g, walk, i);
        assert(room_at(g, walk, j) == here);
    } else {
        assert forall|j: int| 0 <= j < i implies #[trigger] room_at(g, walk, j) != here by {}
    }
}


/// Number of rooms that the walk reaches at its positions below `m`: the
/// positions at which it stands in a room for the first time.
pub open spec fn rooms_reached(g: Graph, walk: Seq<usize>, m: int) -> nat
    decreases m,
{
    if m <= 0 {
        0
    } else {
        rooms_reached(g, walk, m - 1) + if seen_before(g, walk, m - 1) {
            0nat
        } else {
            1nat
        }
    }
}

/// Against a graph that answers truthfully, the representatives among the
/// positions below `m` are as many as the rooms that the walk reaches there.
pub proof fn lemma_reprs_are_rooms_reached(
    g: Graph,
    walk: Seq<usize>,
    first: Seq<usize>,
    second: Seq<usize>,
    repr: Seq<bool>,
    m: int,
)
    requires
        g.wf(),
        all_doors(walk),
        first == g.trace(door_plan(walk)),
        second == g.trace(marking(walk, first)),
        0 <= m <= walk.len() + 1,
        forall|i: int| 0 <= i < m ==> #[trigger] repr[i] == is_repr(first, second, i),
    ensures
        count_repr(repr, m) == rooms_reached(g, walk, m),
    decreases m,
{
    if m > 0 {
        lemma_reprs_are_rooms_reached(g, walk, first, second, repr, m - 1);
        lemma_marking_shows_first_visits(g, walk, first, second, m - 1);
        assert(repr[m - 1] == is_repr(first, second, m - 1));
    }
}

/// Whatever a valid plan shows on labels of the alphabet are labels of the
/// alphabet.
pub proof fn lemma_walk_shows_labels(
    doors: Seq<Seq<usize>>,
    labels: Seq<usize>,
    x: int,
    plan: Seq<WalkStep>,
)
    requires
        crate::table::is_table(doors),
        doors.len() == labels.len(),
        forall|i: int| 0 <= i < labels.len() ==> #[trigger] labels[i] < LABELS,
        0 <= x < labels.len(),
        plan_ok(plan),
    ensures
        forall|j: int|
            0 <= j < walk_from(doors, labels, x, plan).len() ==> #[trigger] walk_from(
                doors,
                labels,
                x,
                plan,
            )[j] < LABELS,
    decreases plan.len(),
{
    if plan.len() > 0 {
        let rest = plan.drop_first();
        assert(plan_ok(rest)) by {
            assert forall|i: int| 0 <= i < rest.len() implies step_ok(#[trigger] rest[i]) by {
                assert(rest[i] == plan[i + 1]);
            }
        }
        assert(step_ok(plan[0]));
        assert(row_ok(doors[x], doors.len()));
        let shown = walk_from(doors, labels, x, plan);
        match plan[0] {
            WalkStep::Edge(d) => {
                let y = doors[x][d as int] as int;
                lemma_walk_shows_labels(doors, labels, y, rest);
                let tail = walk_from(doors, labels, y, rest);
                assert(shown == seq![labels[y]] + tail);
                assert forall|j: int| 0 <= j < shown.len() implies #[trigger] shown[j]
                    < LABELS by {
                    if j > 0 {
                        assert(shown[j] == tail[j - 1]);
                    }
                }
            },
            WalkStep::Rewrite(l) => {
                let written = labels.update(x, l);
                lemma_walk_shows_labels(doors, written, x, rest);
                let tail = walk_from(doors, written, x, rest);
                assert(shown == seq![l] + tail);
                assert forall|j: int| 0 <= j < shown.len() implies #[trigger] shown[j]
                    < LABELS by {
                    if j > 0 {
                        assert(shown[j] == tail[j - 1]);
                    }
                }
            },
        }
    }
}

/// The trace of a valid plan is made of labels of the alphabet.
pub proof fn lemma_trace_shows_labels(g: Graph, plan: Seq<WalkStep>)
    requires
        g.wf(),
        plan_ok(plan),
    ensures
        forall|j: int| 0 <= j < g.trace(plan).len() ==> #[trigger] g.trace(plan)[j] < LABELS,
        g.trace(plan).len() == plan.len() + 1,
{
    lemma_walk_shows_labels(g.doors(), g.labels@, g.start_node as int, plan);
    lemma_walk_len(g.doors(), g.labels@, g.start_node as int, plan);
    let shown = walk_from(g.doors(), g.labels@, g.start_node as int, plan);
    assert forall|j: int| 0 <= j < g.trace(plan).len() implies #[trigger] g.trace(plan)[j]
        < LABELS by {
        if j > 0 {
            assert(g.trace(plan)[j] == shown[j - 1]);
        }
    }
}

/// Every number below the count of representatives is the number of a
/// representative.
pub proof fn lemma_repr_numbers(repr: Seq<bool>, m: int, r: int) -> (p: int)
    requires
        0 <= r < count_repr(repr, m),
    ensures
        0 <= p < m,
        repr[p],
        count_repr(repr, p) == r,
    decreases m,
{
    if m <= 0 {
        0
    } else if repr[m - 1] && count_repr(repr, m - 1) == r {
        m - 1
    } else {
        lemma_repr_numbers(repr, m - 1, r)
    }
}

} // verus!
