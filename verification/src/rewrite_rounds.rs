//! When the rewrite solver owes a graph: what its rounds come to against a
//! graph that answers every plan truthfully, stated over the graph, the walk
//! and the discriminator alone.

use vstd::prelude::*;
use crate::graph::Graph;
use crate::plan::{door_plan, WalkStep};
use crate::problem::DEGREE;
use crate::rewrite_identify::{
    all_spelled,
    anchor,
    cands_of,
    chosen,
    digit_value,
    door_probe,
    door_to,
    footprint_plan,
    is_repr,
    label_share,
    lemma_plans_before_mono,
    located_ok,
    marking,
    near_plans,
    numbering,
    numbers_ok,
    open_doors,
    pending_plans,
    plans_before,
    reached,
    resolved,
    room_of,
    rooms_of,
    rooms_with,
    settled,
    settled_known,
    shared,
    some_late,
    some_unknown,
    spelled,
    tail_value,
    weights,
    with_door,
};

verus! {

/// A list of labels that shows the given labels.
pub open spec fn vec_of(s: Seq<usize>) -> Vec<usize> {
    choose|v: Vec<usize>| v@ == s
}

/// The truthful answer of the graph to the plans.
pub open spec fn answers(g: Graph, plans: Seq<Seq<WalkStep>>) -> Seq<Vec<usize>> {
    Seq::new(plans.len(), |i: int| vec_of(g.trace(plans[i])))
}

/// The answer holds for every plan the trace that the graph shows.
pub open spec fn truthful(g: Graph, plans: Seq<Seq<WalkStep>>, res: Seq<Vec<usize>>) -> bool {
    &&& res.len() == plans.len()
    &&& forall|i: int| 0 <= i < res.len() ==> (#[trigger] res[i])@ == g.trace(plans[i])
}

/// The two answers show the same labels.
pub open spec fn same_views(a: Seq<Vec<usize>>, b: Seq<Vec<usize>>) -> bool {
    &&& a.len() == b.len()
    &&& forall|i: int| 0 <= i < a.len() ==> (#[trigger] a[i])@ == b[i]@
}

/// An answer that holds the traces of the plans shows what the truthful
/// answer shows.
pub proof fn lemma_truthful(g: Graph, plans: Seq<Seq<WalkStep>>, res: Seq<Vec<usize>>)
    requires
        truthful(g, plans, res),
    ensures
        same_views(res, answers(g, plans)),
{
    assert forall|i: int| 0 <= i < res.len() implies (#[trigger] res[i])@ == answers(
        g,
        plans,
    )[i]@ by {
        let s = g.trace(plans[i]);
        assert(res[i]@ == s);
        assert(vec_of(s)@ == s);
    }
}

/// The number spelled at a place depends on the labels shown alone.
pub proof fn lemma_digit_value_same(a: Seq<Vec<usize>>, b: Seq<Vec<usize>>, place: int, j: int)
    requires
        same_views(a, b),
    ensures
        digit_value(a, place, j) == digit_value(b, place, j),
    decreases a.len() - j,
{
    if 0 <= j < a.len() {
        lemma_digit_value_same(a, b, place, j + 1);
        assert(a[j]@ == b[j]@);
    }
}

/// The rooms found for the positions depend on the labels shown alone.
pub proof fn lemma_rooms_of_same(
    first: Seq<usize>,
    repr: Seq<bool>,
    a: Seq<Vec<usize>>,
    b: Seq<Vec<usize>>,
)
    requires
        same_views(a, b),
    ensures
        rooms_of(first, repr, a) == rooms_of(first, repr, b),
        numbers_ok(first, repr, a) == numbers_ok(first, repr, b),
{
    assert forall|i: int, place: int| #[trigger]
        digit_value(a, place, i) == #[trigger] digit_value(b, place, i) by {
        lemma_digit_value_same(a, b, place, i);
    }
    assert forall|i: int| 0 <= i < first.len() implies room_of(first, repr, a, i) == room_of(
        first,
        repr,
        b,
        i,
    ) by {
        lemma_digit_value_same(a, b, crate::rewrite_identify::offset(repr, i), 0);
    }
    assert(rooms_of(first, repr, a) =~= rooms_of(first, repr, b));
    if numbers_ok(first, repr, a) {
        assert forall|i: int| 0 <= i < first.len() && !repr[i] implies #[trigger] digit_value(
            b,
            crate::rewrite_identify::offset(repr, i),
            0,
        ) < crate::rewrite_identify::label_positions(
            first,
            repr,
            first[i],
            first.len() as int,
        ).len() by {
            lemma_digit_value_same(a, b, crate::rewrite_identify::offset(repr, i), 0);
            assert(digit_value(a, crate::rewrite_identify::offset(repr, i), 0)
                < crate::rewrite_identify::label_positions(
                first,
                repr,
                first[i],
                first.len() as int,
            ).len());
        }
    }
    if numbers_ok(first, repr, b) {
        assert forall|i: int| 0 <= i < first.len() && !repr[i] implies #[trigger] digit_value(
            a,
            crate::rewrite_identify::offset(repr, i),
            0,
        ) < crate::rewrite_identify::label_positions(
            first,
            repr,
            first[i],
            first.len() as int,
        ).len() by {
            lemma_digit_value_same(a, b, crate::rewrite_identify::offset(repr, i), 0);
            assert(digit_value(b, crate::rewrite_identify::offset(repr, i), 0)
                < crate::rewrite_identify::label_positions(
                first,
                repr,
                first[i],
                first.len() as int,
            ).len());
        }
    }
}

/// The rooms with a footprint depend on the footprints shown alone.
pub proof fn lemma_rooms_with_same(
    a: Seq<Vec<usize>>,
    b: Seq<Vec<usize>>,
    pattern: Seq<usize>,
    m: int,
)
    requires
        same_views(a, b),
        m <= a.len(),
    ensures
        rooms_with(a, pattern, m) == rooms_with(b, pattern, m),
    decreases m,
{
    if m > 0 {
        lemma_rooms_with_same(a, b, pattern, m - 1);
        assert(a[m - 1]@ == b[m - 1]@);
    }
}

/// The candidates behind a probed door depend on the labels shown alone.
pub proof fn lemma_cands_same(
    fa: Seq<Vec<usize>>,
    fb: Seq<Vec<usize>>,
    first_at: Seq<usize>,
    open: Seq<(usize, usize)>,
    ra: Seq<Vec<usize>>,
    rb: Seq<Vec<usize>>,
    k: int,
)
    requires
        same_views(fa, fb),
        same_views(ra, rb),
        0 <= k < ra.len(),
    ensures
        cands_of(fa, first_at, open, ra, k) == cands_of(fb, first_at, open, rb, k),
{
    assert(ra[k]@ == rb[k]@);
    lemma_rooms_with_same(
        fa,
        fb,
        ra[k]@.skip(first_at[open[k].0 as int] + 1),
        fa.len() as int,
    );
}

/// What the probes resolve and what they leave pending depends on the labels
/// shown alone.
pub proof fn lemma_resolved_same(
    base: Seq<Seq<Option<usize>>>,
    fa: Seq<Vec<usize>>,
    fb: Seq<Vec<usize>>,
    first_at: Seq<usize>,
    open: Seq<(usize, usize)>,
    ra: Seq<Vec<usize>>,
    rb: Seq<Vec<usize>>,
    k: int,
)
    requires
        same_views(fa, fb),
        same_views(ra, rb),
        k <= ra.len(),
    ensures
        resolved(base, fa, first_at, open, ra, k) == resolved(base, fb, first_at, open, rb, k),
        shared(fa, first_at, open, ra, k) == shared(fb, first_at, open, rb, k),
        some_unknown(fa, first_at, open, ra, k) == some_unknown(fb, first_at, open, rb, k),
    decreases k,
{
    if k > 0 {
        lemma_resolved_same(base, fa, fb, first_at, open, ra, rb, k - 1);
        lemma_cands_same(fa, fb, first_at, open, ra, rb, k - 1);
    }
    if some_unknown(fa, first_at, open, ra, k) {
        let q = choose|q: int|
            0 <= q < k && (#[trigger] cands_of(fa, first_at, open, ra, q)).len() == 0;
        lemma_cands_same(fa, fb, first_at, open, ra, rb, q);
        assert(cands_of(fb, first_at, open, rb, q).len() == 0);
    }
    if some_unknown(fb, first_at, open, rb, k) {
        let q = choose|q: int|
            0 <= q < k && (#[trigger] cands_of(fb, first_at, open, rb, q)).len() == 0;
        lemma_cands_same(fa, fb, first_at, open, ra, rb, q);
        assert(cands_of(fa, first_at, open, ra, q).len() == 0);
    }
}

/// The number spelled by the last labels depends on the labels shown alone.
pub proof fn lemma_tail_same(a: Seq<Vec<usize>>, b: Seq<Vec<usize>>, from: int, to: int)
    requires
        same_views(a, b),
        0 <= from,
        to <= a.len(),
    ensures
        tail_value(a, from, to) == tail_value(b, from, to),
    decreases to - from,
{
    if from < to {
        lemma_tail_same(a, b, from + 1, to);
        assert(a[from]@ == b[from]@);
    }
}

/// The candidate spelled for a pending door depends on the labels shown
/// alone.
pub proof fn lemma_spelled_same(
    list: Seq<(usize, usize, Seq<usize>)>,
    a: Seq<Vec<usize>>,
    b: Seq<Vec<usize>>,
    m: int,
    i: int,
)
    requires
        same_views(a, b),
        0 <= i < m,
        plans_before(list, m) <= a.len(),
    ensures
        spelled(list, a, i) == spelled(list, b, i),
{
    lemma_plans_before_mono(list, i, i + 1);
    lemma_plans_before_mono(list, i + 1, m);
    lemma_tail_same(a, b, plans_before(list, i), plans_before(list, i + 1));
}

/// What the traces for the pending doors resolve depends on the labels
/// shown alone.
pub proof fn lemma_settled_same(
    table: Seq<Seq<Option<usize>>>,
    known: Seq<Seq<Option<usize>>>,
    list: Seq<(usize, usize, Seq<usize>)>,
    a: Seq<Vec<usize>>,
    b: Seq<Vec<usize>>,
    len: int,
    m: int,
)
    requires
        same_views(a, b),
        m <= len,
        plans_before(list, len) <= a.len(),
    ensures
        settled(table, list, a, m) == settled(table, list, b, m),
        settled_known(known, list, a, m) == settled_known(known, list, b, m),
        all_spelled(list, a, m) == all_spelled(list, b, m),
    decreases m,
{
    if m > 0 {
        lemma_settled_same(table, known, list, a, b, len, m - 1);
        lemma_spelled_same(list, a, b, len, m - 1);
    }
    if all_spelled(list, a, m) {
        assert forall|i: int| 0 <= i < m implies #[trigger] spelled(list, b, i)
            < list[i].2.len() by {
            lemma_spelled_same(list, a, b, len, i);
            assert(spelled(list, a, i) < list[i].2.len());
        }
    }
    if all_spelled(list, b, m) {
        assert forall|i: int| 0 <= i < m implies #[trigger] spelled(list, a, i)
            < list[i].2.len() by {
            lemma_spelled_same(list, a, b, len, i);
            assert(spelled(list, b, i) < list[i].2.len());
        }
    }
}


/// What the classification rounds find of the rooms: for every room its
/// first and its last walk position, its label, and what the walk tells of
/// its doors.
pub struct Rooms {
    pub first_at: Seq<usize>,
    pub last_at: Seq<usize>,
    pub labels: Seq<usize>,
    pub doors: Seq<Seq<Option<usize>>>,
}

/// The rooms are what the walk and the rooms of its positions give.
pub open spec fn rooms_ok(
    n: usize,
    walk: Seq<usize>,
    first: Seq<usize>,
    ixs: Seq<usize>,
    rooms: Rooms,
) -> bool {
    located_ok(n, walk, first, ixs, rooms.first_at, rooms.last_at, rooms.labels, rooms.doors)
}

/// The rooms that the walk and the rooms of its positions give.
pub open spec fn rooms_found(n: usize, walk: Seq<usize>, first: Seq<usize>, ixs: Seq<usize>) -> Rooms {
    choose|rooms: Rooms| rooms_ok(n, walk, first, ixs, rooms)
}

/// The walk and the rooms of its positions give the rooms in one way only.
pub proof fn lemma_rooms_unique(
    n: usize,
    walk: Seq<usize>,
    first: Seq<usize>,
    ixs: Seq<usize>,
    a: Rooms,
    b: Rooms,
)
    requires
        rooms_ok(n, walk, first, ixs, a),
        rooms_ok(n, walk, first, ixs, b),
    ensures
        a == b,
{
    assert forall|r: int| 0 <= r < n implies a.first_at[r] == b.first_at[r] && a.last_at[r]
        == b.last_at[r] by {
        let pa = a.first_at[r] as int;
        let pb = b.first_at[r] as int;
        let qa = a.last_at[r] as int;
        let qb = b.last_at[r] as int;
        assert(a.first_at[r] <= a.last_at[r] && b.first_at[r] <= b.last_at[r]);
        assert(ixs[pa] == r && ixs[pb] == r && ixs[qa] == r && ixs[qb] == r);
    }
    assert(a.first_at =~= b.first_at);
    assert(a.last_at =~= b.last_at);
    assert forall|r: int| 0 <= r < n implies a.labels[r] == b.labels[r] by {
        assert(a.first_at[r] <= a.last_at[r] && b.first_at[r] <= b.last_at[r]);
    }
    assert(a.labels =~= b.labels);
    assert forall|r: int| 0 <= r < n implies #[trigger] a.doors[r] =~= b.doors[r] by {
        assert(a.doors[r][0] == b.doors[r][0]);
        assert forall|d: int| 0 <= d < DEGREE implies a.doors[r][d] == b.doors[r][d] by {
            assert(a.doors[r][d] == crate::rewrite_identify::walked(
                ixs,
                walk,
                r,
                d,
                walk.len() as int,
            ));
        }
    }
    assert(a.doors =~= b.doors);
}

/// The plans of the numbering round.
pub open spec fn numbering_round(
    walk: Seq<usize>,
    first: Seq<usize>,
    repr: Seq<bool>,
    n: nat,
) -> Seq<Seq<WalkStep>> {
    let w = weights(label_share(n as int), 1);
    Seq::new(w.len(), |j: int| numbering(walk, first, repr, w[j] as int, first.len() as int))
}

/// The plans of the footprint round.
pub open spec fn footprint_round(walk: Seq<usize>, probe: Seq<WalkStep>, first_at: Seq<usize>) -> Seq<
    Seq<WalkStep>,
> {
    Seq::new(first_at.len(), |u: int| footprint_plan(walk, probe, first_at[u] as int))
}

/// The plans of the probe round.
pub open spec fn probe_round(
    walk: Seq<usize>,
    probe: Seq<WalkStep>,
    first_at: Seq<usize>,
    open: Seq<(usize, usize)>,
) -> Seq<Seq<WalkStep>> {
    Seq::new(
        open.len(),
        |k: int| door_probe(walk, probe, first_at[open[k].0 as int] as int, open[k].1),
    )
}

/// The footprints that the answer to the footprint round shows.
pub open spec fn footprints_of(first_at: Seq<usize>, res: Seq<Vec<usize>>) -> Seq<Vec<usize>> {
    Seq::new(res.len(), |u: int| vec_of(res[u]@.skip(first_at[u] as int)))
}

/// For every pair of rooms the highest door of the first that the table
/// knows to lead to the second.
pub open spec fn known_of(n: nat, table: Seq<Seq<Option<usize>>>) -> Seq<Seq<Option<usize>>> {
    Seq::new(n, |a: int| Seq::new(n, |b: int| door_to(table[a], b, DEGREE as int)))
}

/// The pending doors are resolved, the last of the list first, against a
/// graph that answers truthfully: for each in turn the walk reaches every
/// candidate by the position from which the door is taken, and the traces
/// spell one of the candidates.
pub open spec fn finishes(
    g: Graph,
    walk: Seq<usize>,
    first_at: Seq<usize>,
    last_at: Seq<usize>,
    known: Seq<Seq<Option<usize>>>,
    pending: Seq<(usize, usize, Seq<usize>)>,
) -> bool
    decreases pending.len(),
{
    pending.len() == 0 || {
        let p = pending.last();
        let end = anchor(first_at, last_at, known, p, p.2.len() as int);
        let res = answers(g, pending_plans(walk, first_at, p, end.0 + 1, end.0 as int, end.1));
        let c = tail_value(res, 0, res.len() as int);
        &&& reached(first_at, p.2, end.0 as int)
        &&& c < p.2.len()
        &&& finishes(
            g,
            walk,
            first_at,
            last_at,
            with_door(known, p.0, p.2[c], p.1),
            pending.drop_last(),
        )
    }
}

/// The doors that the probes leave pending are resolved against a graph that
/// answers truthfully: the traces for the doors resolved without walking
/// back spell a candidate each, and the other doors are resolved one by one.
pub open spec fn resolves_pending(
    g: Graph,
    walk: Seq<usize>,
    first_at: Seq<usize>,
    last_at: Seq<usize>,
    known: Seq<Seq<Option<usize>>>,
    near: Seq<(usize, usize, Seq<usize>)>,
    far: Seq<(usize, usize, Seq<usize>)>,
) -> bool {
    let res = answers(g, near_plans(walk, first_at, last_at, near, near.len() as int));
    &&& all_spelled(near, res, near.len() as int)
    &&& finishes(
        g,
        walk,
        first_at,
        last_at,
        settled_known(known, near, res, near.len() as int),
        far,
    )
}

/// The doors that the walk never took are resolved against a graph that
/// answers truthfully: every probe shows the footprint of some room, a
/// solver that does not walk back finds every candidate early, and the
/// pending doors are resolved.
pub open spec fn resolves_doors(
    g: Graph,
    walk: Seq<usize>,
    probe: Seq<WalkStep>,
    backward: bool,
    n: nat,
    rooms: Rooms,
) -> bool {
    let fps = footprints_of(
        rooms.first_at,
        answers(g, footprint_round(walk, probe, rooms.first_at)),
    );
    let open = open_doors(rooms.doors, n * DEGREE);
    let probes = answers(g, probe_round(walk, probe, rooms.first_at, open));
    let all = shared(fps, rooms.first_at, open, probes, open.len() as int);
    let table = resolved(rooms.doors, fps, rooms.first_at, open, probes, open.len() as int);
    let near = if backward {
        chosen(all, rooms.first_at, rooms.last_at, true, all.len() as int)
    } else {
        all
    };
    let far = if backward {
        chosen(all, rooms.first_at, rooms.last_at, false, all.len() as int)
    } else {
        Seq::empty()
    };
    &&& !some_unknown(fps, rooms.first_at, open, probes, open.len() as int)
    &&& (!backward ==> !some_late(all, rooms.first_at, rooms.last_at))
    &&& resolves_pending(g, walk, rooms.first_at, rooms.last_at, known_of(n, table), near, far)
}

/// The rounds of the solver come to a graph against a graph that answers
/// truthfully, where the walk reaches as many rooms as the solver was made
/// for: the traces of the numbering plans spell at every position that is
/// no representative the number of a representative of its label, and the
/// doors that the walk never took are resolved.
pub open spec fn resolves(
    g: Graph,
    walk: Seq<usize>,
    probe: Seq<WalkStep>,
    backward: bool,
    n: nat,
) -> bool {
    let first = g.trace(door_plan(walk));
    let second = g.trace(marking(walk, first));
    let repr = Seq::new(first.len(), |i: int| is_repr(first, second, i));
    let third = answers(g, numbering_round(walk, first, repr, n));
    &&& numbers_ok(first, repr, third)
    &&& resolves_doors(
        g,
        walk,
        probe,
        backward,
        n,
        rooms_found(n as usize, walk, first, rooms_of(first, repr, third)),
    )
}


/// What a truthful answer to the numbering round gives is what the truthful
/// answer gives.
pub proof fn lemma_round_numbers(
    g: Graph,
    walk: Seq<usize>,
    first: Seq<usize>,
    repr: Seq<bool>,
    n: nat,
    third: Seq<Vec<usize>>,
)
    requires
        truthful(g, numbering_round(walk, first, repr, n), third),
    ensures
        numbers_ok(first, repr, third) == numbers_ok(
            first,
            repr,
            answers(g, numbering_round(walk, first, repr, n)),
        ),
        rooms_of(first, repr, third) == rooms_of(
            first,
            repr,
            answers(g, numbering_round(walk, first, repr, n)),
        ),
{
    lemma_truthful(g, numbering_round(walk, first, repr, n), third);
    lemma_rooms_of_same(first, repr, third, answers(g, numbering_round(walk, first, repr, n)));
}

/// What truthful answers to the footprint round and to the probe round give
/// is what the truthful answers give.
pub proof fn lemma_round_doors(
    g: Graph,
    walk: Seq<usize>,
    probe: Seq<WalkStep>,
    n: nat,
    rooms: Rooms,
    fp_res: Seq<Vec<usize>>,
    fps: Seq<Vec<usize>>,
    probes: Seq<Vec<usize>>,
)
    requires
        truthful(g, footprint_round(walk, probe, rooms.first_at), fp_res),
        fps.len() == fp_res.len(),
        forall|u: int|
            0 <= u < fps.len() ==> (#[trigger] fps[u])@ == fp_res[u]@.skip(
                rooms.first_at[u] as int,
            ),
        truthful(
            g,
            probe_round(walk, probe, rooms.first_at, open_doors(rooms.doors, n * DEGREE)),
            probes,
        ),
    ensures
        ({
            let open = open_doors(rooms.doors, n * DEGREE);
            let sf = footprints_of(
                rooms.first_at,
                answers(g, footprint_round(walk, probe, rooms.first_at)),
            );
            let sp = answers(g, probe_round(walk, probe, rooms.first_at, open));
            &&& resolved(rooms.doors, fps, rooms.first_at, open, probes, open.len() as int)
                == resolved(rooms.doors, sf, rooms.first_at, open, sp, open.len() as int)
            &&& shared(fps, rooms.first_at, open, probes, open.len() as int) == shared(
                sf,
                rooms.first_at,
                open,
                sp,
                open.len() as int,
            )
            &&& some_unknown(fps, rooms.first_at, open, probes, open.len() as int) == some_unknown(
                sf,
                rooms.first_at,
                open,
                sp,
                open.len() as int,
            )
        }),
{
    let open = open_doors(rooms.doors, n * DEGREE);
    let fr = answers(g, footprint_round(walk, probe, rooms.first_at));
    let sf = footprints_of(rooms.first_at, fr);
    let sp = answers(g, probe_round(walk, probe, rooms.first_at, open));
    lemma_truthful(g, footprint_round(walk, probe, rooms.first_at), fp_res);
    lemma_truthful(g, probe_round(walk, probe, rooms.first_at, open), probes);
    assert forall|u: int| 0 <= u < fps.len() implies (#[trigger] fps[u])@ == sf[u]@ by {
        let shown = fr[u]@.skip(rooms.first_at[u] as int);
        assert(fp_res[u]@ == fr[u]@);
        assert(fps[u]@ == shown);
        assert(vec_of(shown)@ == shown);
    }
    assert(same_views(fps, sf));
    lemma_resolved_same(rooms.doors, fps, sf, rooms.first_at, open, probes, sp, open.len() as int);
}

/// What a truthful answer to the plans for the doors resolved without
/// walking back gives is what the truthful answer gives.
pub proof fn lemma_round_near(
    g: Graph,
    walk: Seq<usize>,
    first_at: Seq<usize>,
    last_at: Seq<usize>,
    known: Seq<Seq<Option<usize>>>,
    near: Seq<(usize, usize, Seq<usize>)>,
    res: Seq<Vec<usize>>,
)
    requires
        truthful(g, near_plans(walk, first_at, last_at, near, near.len() as int), res),
        res.len() == plans_before(near, near.len() as int),
    ensures
        ({
            let sr = answers(g, near_plans(walk, first_at, last_at, near, near.len() as int));
            &&& all_spelled(near, res, near.len() as int) == all_spelled(
                near,
                sr,
                near.len() as int,
            )
            &&& settled_known(known, near, res, near.len() as int) == settled_known(
                known,
                near,
                sr,
                near.len() as int,
            )
        }),
{
    let sr = answers(g, near_plans(walk, first_at, last_at, near, near.len() as int));
    lemma_truthful(g, near_plans(walk, first_at, last_at, near, near.len() as int), res);
    lemma_settled_same(known, known, near, res, sr, near.len() as int, near.len() as int);
}

/// The candidate that a truthful answer spells for a pending door is the one
/// that the truthful answer spells.
pub proof fn lemma_round_far(g: Graph, plans: Seq<Seq<WalkStep>>, res: Seq<Vec<usize>>)
    requires
        truthful(g, plans, res),
    ensures
        tail_value(res, 0, res.len() as int) == tail_value(
            answers(g, plans),
            0,
            answers(g, plans).len() as int,
        ),
{
    lemma_truthful(g, plans, res);
    lemma_tail_same(res, answers(g, plans), 0, res.len() as int);
}


/// A numbering plan holds a door for every position but the last and a
/// label for every representative.
pub proof fn lemma_numbering_len(
    walk: Seq<usize>,
    first: Seq<usize>,
    repr: Seq<bool>,
    base: int,
    m: int,
)
    requires
        0 <= m <= walk.len() + 1,
    ensures
        numbering(walk, first, repr, base, m).len() == crate::rewrite_identify::count_repr(
            repr,
            m,
        ) + if m <= walk.len() {
            m
        } else {
            walk.len() as int
        },
    decreases m,
{
    if m > 0 {
        lemma_numbering_len(walk, first, repr, base, m - 1);
    }
}

/// Against a graph that answers the numbering round truthfully, the rounds
/// come to a graph only where the traces spell the number of a
/// representative at every position that is none; and where they do, the
/// rounds come to a graph exactly when the doors are resolved for the rooms
/// that the classification rounds find.
pub proof fn lemma_goal_located(
    g: Graph,
    walk: Seq<usize>,
    probe: Seq<WalkStep>,
    backward: bool,
    n: usize,
    first: Seq<usize>,
    second: Seq<usize>,
    repr: Seq<bool>,
    third: Seq<Vec<usize>>,
    ixs: Seq<usize>,
    rooms: Rooms,
)
    requires
        first == g.trace(door_plan(walk)),
        second == g.trace(marking(walk, first)),
        repr.len() == first.len(),
        forall|i: int| 0 <= i < first.len() ==> #[trigger] repr[i] == is_repr(first, second, i),
        truthful(g, numbering_round(walk, first, repr, n as nat), third),
        numbers_ok(first, repr, third) ==> {
            &&& ixs.len() == first.len()
            &&& forall|i: int|
                0 <= i < first.len() ==> #[trigger] ixs[i] == room_of(first, repr, third, i)
            &&& rooms_ok(n, walk, first, ixs, rooms)
        },
    ensures
        resolves(g, walk, probe, backward, n as nat) ==> numbers_ok(first, repr, third),
        numbers_ok(first, repr, third) ==> resolves(g, walk, probe, backward, n as nat)
            == resolves_doors(g, walk, probe, backward, n as nat, rooms),
{
    let spec_repr = Seq::new(first.len(), |i: int| is_repr(first, second, i));
    assert(repr =~= spec_repr);
    lemma_round_numbers(g, walk, first, repr, n as nat, third);
    if numbers_ok(first, repr, third) {
        let spec_third = answers(g, numbering_round(walk, first, repr, n as nat));
        assert(ixs =~= rooms_of(first, repr, spec_third));
        lemma_rooms_unique(n, walk, first, ixs, rooms, rooms_found(n, walk, first, ixs));
    }
}

/// Where truthful answers to the footprint round and to the probe round
/// show an unknown footprint, or a late candidate to a solver that does not
/// walk back, the doors are not resolved; else they are resolved exactly
/// when the pending doors are.
pub proof fn lemma_goal_probed(
    g: Graph,
    walk: Seq<usize>,
    probe: Seq<WalkStep>,
    backward: bool,
    n: usize,
    rooms: Rooms,
    fp_res: Seq<Vec<usize>>,
    fps: Seq<Vec<usize>>,
    probes: Seq<Vec<usize>>,
    known: Seq<Seq<Option<usize>>>,
    near: Seq<(usize, usize, Seq<usize>)>,
    far: Seq<(usize, usize, Seq<usize>)>,
)
    requires
        truthful(g, footprint_round(walk, probe, rooms.first_at), fp_res),
        fps.len() == fp_res.len(),
        forall|u: int|
            0 <= u < fps.len() ==> (#[trigger] fps[u])@ == fp_res[u]@.skip(
                rooms.first_at[u] as int,
            ),
        truthful(
            g,
            probe_round(walk, probe, rooms.first_at, open_doors(rooms.doors, n * DEGREE)),
            probes,
        ),
        ({
            let open = open_doors(rooms.doors, n * DEGREE);
            let all = shared(fps, rooms.first_at, open, probes, open.len() as int);
            let table = resolved(rooms.doors, fps, rooms.first_at, open, probes, open.len() as int);
            let fails = some_unknown(fps, rooms.first_at, open, probes, open.len() as int) || (
            !backward && some_late(all, rooms.first_at, rooms.last_at));
            !fails ==> {
                &&& backward ==> near == chosen(
                    all,
                    rooms.first_at,
                    rooms.last_at,
                    true,
                    all.len() as int,
                ) && far == chosen(all, rooms.first_at, rooms.last_at, false, all.len() as int)
                &&& !backward ==> near == all && far.len() == 0
                &&& known.len() == n
                &&& forall|a: int| 0 <= a < n ==> (#[trigger] known[a]).len() == n
                &&& forall|a: int, b: int|
                    0 <= a < n && 0 <= b < n ==> #[trigger] known[a][b] == door_to(
                        table[a],
                        b,
                        DEGREE as int,
                    )
            }
        }),
    ensures
        ({
            let open = open_doors(rooms.doors, n * DEGREE);
            let all = shared(fps, rooms.first_at, open, probes, open.len() as int);
            let fails = some_unknown(fps, rooms.first_at, open, probes, open.len() as int) || (
            !backward && some_late(all, rooms.first_at, rooms.last_at));
            &&& fails ==> !resolves_doors(g, walk, probe, backward, n as nat, rooms)
            &&& !fails ==> resolves_doors(g, walk, probe, backward, n as nat, rooms)
                == resolves_pending(g, walk, rooms.first_at, rooms.last_at, known, near, far)
        }),
{
    lemma_round_doors(g, walk, probe, n as nat, rooms, fp_res, fps, probes);
    let open = open_doors(rooms.doors, n * DEGREE);
    let all = shared(fps, rooms.first_at, open, probes, open.len() as int);
    let table = resolved(rooms.doors, fps, rooms.first_at, open, probes, open.len() as int);
    let fails = some_unknown(fps, rooms.first_at, open, probes, open.len() as int) || (!backward
        && some_late(all, rooms.first_at, rooms.last_at));
    if !fails {
        assert(known =~~= known_of(n as nat, table));
        if !backward {
            assert(far =~= Seq::empty());
        }
    }
}

/// Against a truthful answer to the plans for the doors resolved without
/// walking back, the pending doors are resolved exactly when the traces
/// spell a candidate for each and the other doors are resolved one by one.
pub proof fn lemma_goal_settled(
    g: Graph,
    walk: Seq<usize>,
    first_at: Seq<usize>,
    last_at: Seq<usize>,
    known: Seq<Seq<Option<usize>>>,
    near: Seq<(usize, usize, Seq<usize>)>,
    far: Seq<(usize, usize, Seq<usize>)>,
    res: Seq<Vec<usize>>,
)
    requires
        truthful(g, near_plans(walk, first_at, last_at, near, near.len() as int), res),
        res.len() == plans_before(near, near.len() as int),
    ensures
        resolves_pending(g, walk, first_at, last_at, known, near, far) == (all_spelled(
            near,
            res,
            near.len() as int,
        ) && finishes(
            g,
            walk,
            first_at,
            last_at,
            settled_known(known, near, res, near.len() as int),
            far,
        )),
{
    lemma_round_near(g, walk, first_at, last_at, known, near, res);
}

/// Against a truthful answer to the plans for the last pending door, the
/// pending doors are resolved one by one exactly when the walk reaches
/// every candidate of that door in time, the traces spell one of them, and
/// the doors before it are resolved one by one.
pub proof fn lemma_goal_round(
    g: Graph,
    walk: Seq<usize>,
    first_at: Seq<usize>,
    last_at: Seq<usize>,
    known: Seq<Seq<Option<usize>>>,
    pending: Seq<(usize, usize, Seq<usize>)>,
    res: Seq<Vec<usize>>,
)
    requires
        pending.len() > 0,
        ({
            let p = pending.last();
            let end = anchor(first_at, last_at, known, p, p.2.len() as int);
            truthful(g, pending_plans(walk, first_at, p, end.0 + 1, end.0 as int, end.1), res)
        }),
    ensures
        ({
            let p = pending.last();
            let end = anchor(first_at, last_at, known, p, p.2.len() as int);
            let c = tail_value(res, 0, res.len() as int);
            finishes(g, walk, first_at, last_at, known, pending) == (reached(
                first_at,
                p.2,
                end.0 as int,
            ) && c < p.2.len() && finishes(
                g,
                walk,
                first_at,
                last_at,
                with_door(known, p.0, p.2[c], p.1),
                pending.drop_last(),
            ))
        }),
{
    let p = pending.last();
    let end = anchor(first_at, last_at, known, p, p.2.len() as int);
    lemma_round_far(g, pending_plans(walk, first_at, p, end.0 + 1, end.0 as int, end.1), res);
}

} // verus!
