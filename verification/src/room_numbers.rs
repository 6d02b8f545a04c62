//! Why the numbering plans find the room of every walk position: against a
//! graph that answers truthfully, the traces of the numbering plans spell at
//! every position the number that the first position in its room was given,
//! so two positions get the same room exactly when the walk stands in the
//! same room at both.

use vstd::prelude::*;
use crate::first_visits::{
    after,
    lemma_first_labels,
    lemma_last_label,
    lemma_rooms,
    lemma_walk_split,
    seen_before,
};
use crate::graph::{walk_from, Graph};
use crate::plan::{all_doors, door_plan, WalkStep};
use crate::problem::{DEGREE, LABELS};
use crate::rewrite_identify::{
    kept,
    located_ok,
    walked,
    count_repr,
    digit_value,
    label_positions,
    label_share,
    lemma_numbering_ok,
    lemma_plan_doors,
    numbering,
    offset,
    room_of,
    weights,
};
use crate::soundness::room_at;

verus! {

/// The digit that a numbering plan writes at the representative `i`.
pub open spec fn digit_at(first: Seq<usize>, repr: Seq<bool>, base: int, i: int) -> usize {
    ((label_positions(first, repr, first[i], i).len() as int / base) % (LABELS as int)) as usize
}

/// The labels as they stand when a numbering plan arrives at walk position
/// `k`: the room of every representative before `k` bears its digit.
pub open spec fn numbered_labels(
    g: Graph,
    walk: Seq<usize>,
    first: Seq<usize>,
    repr: Seq<bool>,
    base: int,
    k: int,
) -> Seq<usize>
    decreases k,
{
    if k <= 0 {
        g.labels@
    } else {
        let before = numbered_labels(g, walk, first, repr, base, k - 1);
        if repr[k - 1] {
            before.update(room_at(g, walk, k - 1), digit_at(first, repr, base, k - 1))
        } else {
            before
        }
    }
}

/// The representatives are the positions at which the walk stands in a room
/// for the first time.
pub open spec fn first_visits(g: Graph, walk: Seq<usize>, repr: Seq<bool>) -> bool {
    forall|i: int| 0 <= i <= walk.len() ==> (#[trigger] repr[i] <==> !seen_before(g, walk, i))
}

/// When a numbering plan arrives at position `k` it stands in the room of
/// that position, on the numbered labels, and has taken as many steps as
/// there are positions and representatives before `k`.
pub proof fn lemma_numbering_state(
    g: Graph,
    walk: Seq<usize>,
    first: Seq<usize>,
    repr: Seq<bool>,
    base: int,
    k: int,
)
    requires
        g.wf(),
        all_doors(walk),
        0 <= k <= walk.len(),
    ensures
        after(g.doors(), g.labels@, g.start_node as int, numbering(walk, first, repr, base, k)) == (
            numbered_labels(g, walk, first, repr, base, k),
            room_at(g, walk, k),
        ),
        numbering(walk, first, repr, base, k).len() == offset(repr, k),
    decreases k,
{
    let start = g.start_node as int;
    let none = Seq::<WalkStep>::empty();
    if k == 0 {
        assert(walk.take(0) =~= Seq::<usize>::empty());
    } else {
        let i = k - 1;
        lemma_numbering_state(g, walk, first, repr, base, i);
        lemma_rooms(g, walk, i);
        let head = numbering(walk, first, repr, base, i);
        let labels = numbered_labels(g, walk, first, repr, base, i);
        let here = room_at(g, walk, i);
        let write = if repr[i] {
            seq![WalkStep::Rewrite(digit_at(first, repr, base, i))]
        } else {
            none
        };
        let go = seq![WalkStep::Edge(walk[i])];
        assert(numbering(walk, first, repr, base, k) == head + write + go);
        let written = numbered_labels(g, walk, first, repr, base, k);
        assert(after(g.doors(), labels, here, write) == (written, here)) by {
            if repr[i] {
                assert(write[0] == WalkStep::Rewrite(digit_at(first, repr, base, i)));
                assert(write.drop_first() =~= none);
                assert(after(g.doors(), written, here, none) == (written, here));
            }
        }
        let next = g.doors()[here][walk[i] as int] as int;
        assert(after(g.doors(), written, here, go) == (written, next)) by {
            assert(go[0] == WalkStep::Edge(walk[i]));
            assert(go.drop_first() =~= none);
            assert(after(g.doors(), written, next, none) == (written, next));
        }
        lemma_walk_split(g.doors(), g.labels@, start, head, write);
        lemma_walk_split(g.doors(), g.labels@, start, head + write, go);
    }
}

/// A numbering plan leaves on the room of a representative the digit that it
/// wrote there.
pub proof fn lemma_numbered_labels(
    g: Graph,
    walk: Seq<usize>,
    first: Seq<usize>,
    repr: Seq<bool>,
    base: int,
    k: int,
    j: int,
)
    requires
        g.wf(),
        all_doors(walk),
        first_visits(g, walk, repr),
        0 <= j < k <= walk.len() + 1,
    ensures
        numbered_labels(g, walk, first, repr, base, k).len() == g.labels@.len(),
        repr[j] ==> numbered_labels(g, walk, first, repr, base, k)[room_at(g, walk, j)] == digit_at(
            first,
            repr,
            base,
            j,
        ),
    decreases k,
{
    lemma_rooms(g, walk, j);
    lemma_rooms(g, walk, k - 1);
    if j < k - 1 {
        lemma_numbered_labels(g, walk, first, repr, base, k - 1, j);
        if repr[k - 1] && repr[j] {
            assert(!seen_before(g, walk, k - 1));
            assert(room_at(g, walk, j) != room_at(g, walk, k - 1));
        }
    } else {
        lemma_labels_len(g, walk, first, repr, base, k - 1);
    }
}

/// A numbering plan writes on the rooms of the graph.
pub proof fn lemma_labels_len(
    g: Graph,
    walk: Seq<usize>,
    first: Seq<usize>,
    repr: Seq<bool>,
    base: int,
    k: int,
)
    requires
        g.wf(),
        all_doors(walk),
        k <= walk.len() + 1,
    ensures
        numbered_labels(g, walk, first, repr, base, k).len() == g.labels@.len(),
    decreases k,
{
    if k > 0 {
        lemma_labels_len(g, walk, first, repr, base, k - 1);
        lemma_rooms(g, walk, k - 1);
    }
}

/// A numbering plan begins with the numbering plan for fewer positions.
pub proof fn lemma_numbering_prefix(
    walk: Seq<usize>,
    first: Seq<usize>,
    repr: Seq<bool>,
    base: int,
    i: int,
    m: int,
)
    requires
        0 <= i <= m,
    ensures
        numbering(walk, first, repr, base, i).is_prefix_of(numbering(walk, first, repr, base, m)),
    decreases m,
{
    if i < m {
        lemma_numbering_prefix(walk, first, repr, base, i, m - 1);
    }
}

/// Against a graph that answers truthfully, a numbering plan shows at a
/// position the digit written at the first position in the same room.
pub proof fn lemma_numbering_shows(
    g: Graph,
    walk: Seq<usize>,
    first: Seq<usize>,
    repr: Seq<bool>,
    base: int,
    i: int,
    j: int,
)
    requires
        g.wf(),
        all_doors(walk),
        first_visits(g, walk, repr),
        base >= 1,
        0 <= j < i <= walk.len(),
        repr[j],
        room_at(g, walk, j) == room_at(g, walk, i),
    ensures
        g.trace(numbering(walk, first, repr, base, walk.len() as int + 1))[offset(repr, i)] == digit_at(
            first,
            repr,
            base,
            j,
        ),
{
    let start = g.start_node as int;
    let plan = numbering(walk, first, repr, base, walk.len() as int + 1);
    let head = numbering(walk, first, repr, base, i);
    lemma_numbering_prefix(walk, first, repr, base, i, walk.len() as int + 1);
    lemma_numbering_state(g, walk, first, repr, base, i);
    lemma_numbered_labels(g, walk, first, repr, base, i, j);
    lemma_numbering_ok(walk, first, repr, base, i);
    lemma_plan_doors(head);
    let tail = plan.skip(head.len() as int);
    assert(head + tail =~= plan);
    lemma_walk_split(g.doors(), g.labels@, start, head, tail);
    lemma_last_label(g.doors(), g.labels@, start, head);
    let shown = crate::graph::walk_from(g.doors(), g.labels@, start, plan);
    let head_shown = crate::graph::walk_from(g.doors(), g.labels@, start, head);
    assert(shown[head.len() - 1] == head_shown[head.len() - 1]);
    assert(head_shown.last() == head_shown[head.len() - 1]);
    assert(g.trace(plan)[head.len() as int] == shown[head.len() - 1]);
}


/// Number of rooms with the label `l` that the walk reaches at its positions
/// below `m`.
pub open spec fn reached_with(g: Graph, walk: Seq<usize>, l: usize, m: int) -> nat
    decreases m,
{
    if m <= 0 {
        0
    } else {
        reached_with(g, walk, l, m - 1) + if !seen_before(g, walk, m - 1) && g.labels@[room_at(
            g,
            walk,
            m - 1,
        )] == l {
            1nat
        } else {
            0nat
        }
    }
}

/// The digits of the numbering plans suffice for the rooms that the walk
/// reaches: no label is borne by more of them than a graph of `n` rooms with
/// balanced labels has rooms of one label.
pub open spec fn numbers_fit(g: Graph, walk: Seq<usize>, n: nat) -> bool {
    forall|l: usize|
        l < LABELS ==> #[trigger] reached_with(g, walk, l, walk.len() as int + 1) <= label_share(
            n as int,
        )
}

/// The traces are what the graph shows for the numbering plans, one plan
/// for every digit.
pub open spec fn truthful_numbers(
    g: Graph,
    walk: Seq<usize>,
    first: Seq<usize>,
    repr: Seq<bool>,
    third: Seq<Vec<usize>>,
    n: nat,
) -> bool {
    let w = weights(label_share(n as int), 1);
    &&& third.len() == w.len()
    &&& forall|t: int|
        0 <= t < w.len() ==> (#[trigger] third[t])@ == g.trace(
            numbering(walk, first, repr, w[t] as int, walk.len() as int + 1),
        )
}

/// Against a graph that answers truthfully, the representatives of a label
/// below `m` are as many as the rooms with that label that the walk reaches
/// there.
pub proof fn lemma_positions_reached(
    g: Graph,
    walk: Seq<usize>,
    first: Seq<usize>,
    repr: Seq<bool>,
    l: usize,
    m: int,
)
    requires
        g.wf(),
        all_doors(walk),
        first == g.trace(door_plan(walk)),
        first_visits(g, walk, repr),
        0 <= m <= walk.len() + 1,
    ensures
        label_positions(first, repr, l, m).len() == reached_with(g, walk, l, m),
    decreases m,
{
    if m > 0 {
        lemma_positions_reached(g, walk, first, repr, l, m - 1);
        lemma_first_labels(g, walk, m - 1);
        assert(repr[m - 1] <==> !seen_before(g, walk, m - 1));
    }
}

/// A representative stands in the list of its label at the place that its
/// number within the label names.
pub proof fn lemma_positions_index(first: Seq<usize>, repr: Seq<bool>, l: usize, m: int, p: int)
    requires
        0 <= p < m <= usize::MAX,
        repr[p],
        first[p] == l,
    ensures
        label_positions(first, repr, l, p).len() < label_positions(first, repr, l, m).len(),
        label_positions(first, repr, l, m)[label_positions(first, repr, l, p).len() as int] == p,
    decreases m,
{
    if p < m - 1 {
        lemma_positions_index(first, repr, l, m - 1, p);
    }
}

/// A later representative has a greater number.
pub proof fn lemma_count_repr_strict(repr: Seq<bool>, a: int, b: int)
    requires
        0 <= a < b,
        repr[a],
    ensures
        count_repr(repr, a) < count_repr(repr, b),
{
    crate::rewrite_identify::lemma_count_repr_mono(repr, a + 1, b);
}

/// The digits that the traces show at a place, from the `j`-th trace on,
/// spell a number as far as it lies above the weight of the `j`-th digit.
pub proof fn lemma_digits_spell(
    traces: Seq<Vec<usize>>,
    place: int,
    c: int,
    limit: int,
    base: int,
    j: int,
    all: Seq<usize>,
)
    requires
        base >= 1,
        0 <= c < limit <= usize::MAX,
        0 <= j <= traces.len(),
        all.len() == traces.len(),
        all.skip(j) == weights(limit, base),
        forall|t: int|
            0 <= t < traces.len() ==> (#[trigger] traces[t])@[place] == (c / (all[t] as int)) % (
            LABELS as int),
    ensures
        digit_value(traces, place, j) == c / base,
    decreases traces.len() - j,
{
    if base >= limit {
        assert(all.skip(j).len() == 0);
        vstd::arithmetic::div_mod::lemma_basic_div(c, base);
    } else {
        let rest = weights(limit, base * 4);
        assert(all.skip(j) == seq![base as usize] + rest);
        assert(all.skip(j)[0] == base as usize);
        assert(all[j] == base);
        assert(all.skip(j + 1) =~= rest) by {
            assert(all.skip(j + 1) =~= all.skip(j).skip(1));
            assert((seq![base as usize] + rest).skip(1) =~= rest);
        }
        lemma_digits_spell(traces, place, c, limit, base * 4, j + 1, all);
        vstd::arithmetic::div_mod::lemma_div_denominator(c, base, 4);
        vstd::arithmetic::div_mod::lemma_fundamental_div_mod(c / base, 4);
        assert(traces[j]@[place] == (c / base) % 4);
    }
}

/// The first position at which the walk stands in the room of position `i`.
pub proof fn lemma_first_visit(g: Graph, walk: Seq<usize>, i: int) -> (j: int)
    requires
        0 <= i,
    ensures
        0 <= j <= i,
        !seen_before(g, walk, j),
        room_at(g, walk, j) == room_at(g, walk, i),
    decreases i,
{
    if seen_before(g, walk, i) {
        let q = choose|q: int| 0 <= q < i && #[trigger] room_at(g, walk, q) == room_at(g, walk, i);
        lemma_first_visit(g, walk, q)
    } else {
        i
    }
}

/// Against a graph that answers truthfully, and where the digits suffice,
/// the room found for a position is the number of the first position in the
/// same room, and the number that the traces spell at a position that is no
/// representative is the number of a representative of its label.
pub proof fn lemma_room_number(
    g: Graph,
    walk: Seq<usize>,
    first: Seq<usize>,
    repr: Seq<bool>,
    third: Seq<Vec<usize>>,
    n: nat,
    i: int,
    j: int,
)
    requires
        g.wf(),
        all_doors(walk),
        walk.len() < usize::MAX,
        n <= usize::MAX,
        first == g.trace(door_plan(walk)),
        first_visits(g, walk, repr),
        truthful_numbers(g, walk, first, repr, third, n),
        numbers_fit(g, walk, n),
        0 <= j <= i <= walk.len(),
        repr[j],
        room_at(g, walk, j) == room_at(g, walk, i),
    ensures
        room_of(first, repr, third, i) == count_repr(repr, j),
        !repr[i] ==> digit_value(third, offset(repr, i), 0) < label_positions(
            first,
            repr,
            first[i],
            first.len() as int,
        ).len(),
{
    if j < i {
        assert(seen_before(g, walk, i));
    }
    if !repr[i] {
        let limit = label_share(n as int);
        let w = weights(limit, 1);
        let l = first[j];
        let c = label_positions(first, repr, l, j).len() as int;
        let place = offset(repr, i);
        let len = walk.len() as int + 1;
        lemma_first_labels(g, walk, i);
        lemma_first_labels(g, walk, j);
        lemma_rooms(g, walk, j);
        assert(first[i] == l);
        assert(l < LABELS);
        lemma_positions_index(first, repr, l, len, j);
        lemma_positions_reached(g, walk, first, repr, l, len);
        assert(reached_with(g, walk, l, len) <= limit);
        crate::rewrite_identify::lemma_weights_positive(limit, 1);
        assert forall|t: int| 0 <= t < third.len() implies (#[trigger] third[t])@[place] == (c / (
        w[t] as int)) % (LABELS as int) by {
            lemma_numbering_shows(g, walk, first, repr, w[t] as int, i, j);
        }
        assert(w.skip(0) =~= w);
        lemma_digits_spell(third, place, c, limit, 1, 0, w);
        assert(digit_value(third, place, 0) == c);
    }
}

/// Against a graph that answers truthfully, and where the digits suffice,
/// two positions are found to lie in the same room exactly when the walk
/// stands in the same room at both.
pub proof fn lemma_same_room(
    g: Graph,
    walk: Seq<usize>,
    first: Seq<usize>,
    repr: Seq<bool>,
    third: Seq<Vec<usize>>,
    n: nat,
    a: int,
    b: int,
)
    requires
        g.wf(),
        all_doors(walk),
        walk.len() < usize::MAX,
        n <= usize::MAX,
        first == g.trace(door_plan(walk)),
        first_visits(g, walk, repr),
        truthful_numbers(g, walk, first, repr, third, n),
        numbers_fit(g, walk, n),
        0 <= a <= walk.len(),
        0 <= b <= walk.len(),
    ensures
        room_of(first, repr, third, a) == room_of(first, repr, third, b) <==> room_at(g, walk, a)
            == room_at(g, walk, b),
{
    let ja = lemma_first_visit(g, walk, a);
    let jb = lemma_first_visit(g, walk, b);
    assert(repr[ja] && repr[jb]);
    lemma_room_number(g, walk, first, repr, third, n, a, ja);
    lemma_room_number(g, walk, first, repr, third, n, b, jb);
    if ja < jb {
        lemma_count_repr_strict(repr, ja, jb);
        if room_at(g, walk, a) == room_at(g, walk, b) {
            assert(room_at(g, walk, ja) == room_at(g, walk, jb));
            assert(seen_before(g, walk, jb));
        }
    }
    if jb < ja {
        lemma_count_repr_strict(repr, jb, ja);
        if room_at(g, walk, a) == room_at(g, walk, b) {
            assert(room_at(g, walk, jb) == room_at(g, walk, ja));
            assert(seen_before(g, walk, ja));
        }
    }
}


/// Two positions are found to lie in the same room exactly when the walk
/// stands in the same room of the graph at both.
pub open spec fn tells_rooms(g: Graph, walk: Seq<usize>, ixs: Seq<usize>) -> bool {
    forall|a: int, b: int|
        0 <= a <= walk.len() && 0 <= b <= walk.len() ==> ((#[trigger] ixs[a] == #[trigger] ixs[b])
            <==> room_at(g, walk, a) == room_at(g, walk, b))
}

/// The rooms found for the positions fit the walk and its trace: the room of
/// every position bears the label seen there, and the door walked from it
/// leads to the room of the next position.
pub open spec fn follows(
    walk: Seq<usize>,
    first: Seq<usize>,
    ixs: Seq<usize>,
    labels: Seq<usize>,
    doors: Seq<Seq<Option<usize>>>,
) -> bool {
    &&& forall|i: int| 0 <= i <= walk.len() ==> labels[(#[trigger] ixs[i]) as int] == first[i]
    &&& forall|i: int|
        0 <= i < walk.len() ==> doors[ixs[i] as int][(#[trigger] walk[i]) as int] == Some(
            ixs[i + 1],
        )
}

/// The door that the walk last took from a room is taken at some position
/// in that room, no earlier than any other at which the walk takes it.
pub proof fn lemma_walked_last(ixs: Seq<usize>, walk: Seq<usize>, r: int, d: int, m: int, i: int) -> (q:
    int)
    requires
        0 <= i < m,
        ixs[i] == r,
        walk[i] == d,
    ensures
        i <= q < m,
        ixs[q] == r,
        walk[q] == d,
        walked(ixs, walk, r, d, m) == Some(ixs[q + 1]),
    decreases m,
{
    if ixs[m - 1] == r && walk[m - 1] == d {
        m - 1
    } else {
        lemma_walked_last(ixs, walk, r, d, m - 1, i)
    }
}

/// Where the positions are told apart as the rooms of the graph are, the
/// labels and doors that the walk gives to the rooms found fit the walk and
/// its trace.
pub proof fn lemma_located_follows(
    g: Graph,
    walk: Seq<usize>,
    first: Seq<usize>,
    ixs: Seq<usize>,
    first_at: Seq<usize>,
    last_at: Seq<usize>,
    labels: Seq<usize>,
    doors: Seq<Seq<Option<usize>>>,
    n: usize,
)
    requires
        g.wf(),
        all_doors(walk),
        first == g.trace(door_plan(walk)),
        located_ok(n, walk, first, ixs, first_at, last_at, labels, doors),
        tells_rooms(g, walk, ixs),
    ensures
        follows(walk, first, ixs, labels, doors),
{
    assert forall|i: int| 0 <= i <= walk.len() implies labels[(#[trigger] ixs[i]) as int]
        == first[i] by {
        let r = ixs[i] as int;
        let p = first_at[r] as int;
        assert(first_at[r] <= last_at[r]);
        assert(ixs[p] == ixs[i]);
        lemma_first_labels(g, walk, i);
        lemma_first_labels(g, walk, p);
    }
    assert forall|i: int| 0 <= i < walk.len() implies doors[ixs[i] as int][(
    #[trigger] walk[i]) as int] == Some(ixs[i + 1]) by {
        let r = ixs[i] as int;
        let d = walk[i] as int;
        let q = lemma_walked_last(ixs, walk, r, d, walk.len() as int, i);
        assert(doors[r][d] == walked(ixs, walk, r, d, walk.len() as int));
        assert(ixs[q] == ixs[i]);
        lemma_rooms(g, walk, q);
        lemma_rooms(g, walk, i);
        assert(room_at(g, walk, q + 1) == room_at(g, walk, i + 1));
        assert(ixs[q + 1] == ixs[i + 1]);
    }
}

/// Where the rooms found for the positions fit the walk and its trace,
/// walking the rest of the walk from the room of position `i` shows the rest
/// of the trace.
pub proof fn lemma_follows_reproduces(
    walk: Seq<usize>,
    first: Seq<usize>,
    ixs: Seq<usize>,
    labels: Seq<usize>,
    doors: Seq<Seq<usize>>,
    i: int,
)
    requires
        0 <= i <= walk.len(),
        first.len() == walk.len() + 1,
        forall|k: int| 0 <= k <= walk.len() ==> labels[(#[trigger] ixs[k]) as int] == first[k],
        forall|k: int|
            0 <= k < walk.len() ==> doors[ixs[k] as int][(#[trigger] walk[k]) as int] == ixs[k + 1],
    ensures
        walk_from(doors, labels, ixs[i] as int, door_plan(walk).skip(i)) == first.skip(i + 1),
    decreases walk.len() - i,
{
    let plan = door_plan(walk).skip(i);
    if i == walk.len() {
        assert(plan =~= Seq::<WalkStep>::empty());
        assert(first.skip(i + 1) =~= Seq::<usize>::empty());
    } else {
        assert(plan[0] == WalkStep::Edge(walk[i]));
        assert(plan.drop_first() =~= door_plan(walk).skip(i + 1));
        assert(doors[ixs[i] as int][walk[i] as int] == ixs[i + 1]);
        assert(labels[ixs[i + 1] as int] == first[i + 1]);
        lemma_follows_reproduces(walk, first, ixs, labels, doors, i + 1);
        assert(first.skip(i + 1) =~= seq![first[i + 1]] + first.skip(i + 2));
    }
}


/// Against a graph that answers truthfully, and where the digits suffice,
/// the rooms found from the traces of the numbering plans, with the labels
/// and doors that the walk gives them, fit the walk and its trace.
pub proof fn lemma_located_truthfully(
    g: Graph,
    walk: Seq<usize>,
    first: Seq<usize>,
    repr: Seq<bool>,
    third: Seq<Vec<usize>>,
    ixs: Seq<usize>,
    first_at: Seq<usize>,
    last_at: Seq<usize>,
    labels: Seq<usize>,
    doors: Seq<Seq<Option<usize>>>,
    n: usize,
)
    requires
        g.wf(),
        all_doors(walk),
        walk.len() < usize::MAX,
        first == g.trace(door_plan(walk)),
        first_visits(g, walk, repr),
        truthful_numbers(g, walk, first, repr, third, n as nat),
        numbers_fit(g, walk, n as nat),
        located_ok(n, walk, first, ixs, first_at, last_at, labels, doors),
        forall|i: int| 0 <= i <= walk.len() ==> #[trigger] ixs[i] == room_of(first, repr, third, i),
    ensures
        follows(walk, first, ixs, labels, doors),
{
    assert forall|a: int, b: int| 0 <= a <= walk.len() && 0 <= b <= walk.len() implies ((
    #[trigger] ixs[a] == #[trigger] ixs[b]) <==> room_at(g, walk, a) == room_at(g, walk, b)) by {
        lemma_same_room(g, walk, first, repr, third, n as nat, a, b);
    }
    lemma_located_follows(g, walk, first, ixs, first_at, last_at, labels, doors, n);
}

/// A graph whose doors keep the targets that fit the walk and its trace
/// shows the trace when the walk is taken on it from the room of the first
/// position.
pub proof fn lemma_solution_reproduces(
    walk: Seq<usize>,
    first: Seq<usize>,
    ixs: Seq<usize>,
    labels: Seq<usize>,
    base: Seq<Seq<Option<usize>>>,
    last: Seq<Seq<Option<usize>>>,
    doors: Seq<Seq<usize>>,
    n: nat,
)
    requires
        all_doors(walk),
        first.len() == walk.len() + 1,
        ixs.len() == walk.len() + 1,
        forall|i: int| 0 <= i < ixs.len() ==> #[trigger] ixs[i] < n,
        follows(walk, first, ixs, labels, base),
        kept(n, base, last),
        forall|u: int, e: int|
            0 <= u < n && 0 <= e < DEGREE ==> last[u][e] == Some(#[trigger] doors[u][e]),
    ensures
        seq![labels[ixs[0] as int]] + walk_from(doors, labels, ixs[0] as int, door_plan(walk))
            == first,
{
    assert forall|k: int| 0 <= k < walk.len() implies doors[ixs[k] as int][(
    #[trigger] walk[k]) as int] == ixs[k + 1] by {
        let u = ixs[k] as int;
        let e = walk[k] as int;
        assert(ixs[k] < n && walk[k] < DEGREE);
        assert(base[u][e] == Some(ixs[k + 1]));
        assert(last[u][e] == Some(doors[u][e]));
    }
    lemma_follows_reproduces(walk, first, ixs, labels, doors, 0);
    assert(door_plan(walk).skip(0) =~= door_plan(walk));
    assert(seq![labels[ixs[0] as int]] + first.skip(1) =~= first);
}

} // verus!
