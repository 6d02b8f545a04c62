//! The constraint-search solver: one long walk, then a depth-first search
//! that assigns every walk position to a room.

use vstd::prelude::*;
use vstd::seq_lib::{to_multiset_build, to_multiset_insert};
use rand_pcg::Pcg64Mcg;
use crate::error::SolveError;
use crate::graph::walk_from;
use crate::plan::{all_doors, door_plan, random_doors, WalkStep};
use crate::problem::{DEGREE, LABELS};
use crate::rng::{random_below, seeded_rng};
use crate::search_state::{
    blank, complete, lemma_merge_effect, lemma_unassigned_less, merge_score_spec, merge_spec,
    mergeable_spec, unassigned, walk_ok, SearchState, StateView,
};
use crate::search_cost::{
    expansions, expansions_after, expansions_from, lemma_expansions_after,
    lemma_expansions_blank, lemma_expansions_bound, lemma_expansions_first, lemma_tries, tries,
};
use crate::table::{is_table, row_ok, table};

verus! {

/// Doors walked per room in the one plan of the search.
pub const WALK_FACTOR: usize = 18;

/// Expansions after which the search gives up.
pub const MAX_EXPANSIONS: usize = 200000;

/// Range of the number drawn to order candidates that are otherwise equal.
pub const TIE_RANGE: usize = 1000;

/// A room that a walk position may be merged into, with what orders it among
/// the candidates.
#[derive(Debug, Clone, Copy)]
pub struct Candidate {
    pub room: usize,
    pub score: i32,
    pub degree: usize,
    pub tie: usize,
}

/// `a` is tried no later than `b`: higher score first, then higher degree,
/// then lower tie number.
pub open spec fn ranks_before(a: Candidate, b: Candidate) -> bool {
    a.score > b.score || (a.score == b.score && (a.degree > b.degree || (a.degree == b.degree
        && a.tie <= b.tie)))
}

/// `a` is tried before `b` wherever both stand.
pub open spec fn ranks_ahead(a: Candidate, b: Candidate) -> bool {
    a.score > b.score || (a.score == b.score && (a.degree > b.degree || (a.degree == b.degree
        && a.tie < b.tie)))
}

/// The candidates stand in the order in which they are tried.
pub open spec fn ranked(s: Seq<Candidate>) -> bool {
    forall|i: int, j: int| 0 <= i < j < s.len() ==> ranks_before(#[trigger] s[i], #[trigger] s[j])
}

fn comes_ahead(a: &Candidate, b: &Candidate) -> (ahead: bool)
    ensures
        ahead == ranks_ahead(*a, *b),
{
    a.score > b.score || (a.score == b.score && (a.degree > b.degree || (a.degree == b.degree
        && a.tie < b.tie)))
}

/// Puts candidates into the order in which they are tried.
pub fn sort_candidates(items: &Vec<Candidate>) -> (sorted: Vec<Candidate>)
    ensures
        ranked(sorted@),
        sorted@.to_multiset() == items@.to_multiset(),
        sorted@.len() == items@.len(),
        forall|i: int| 0 <= i < sorted@.len() ==> items@.contains(#[trigger] sorted@[i]),
{
    let mut sorted: Vec<Candidate> = Vec::new();
    let mut i: usize = 0;
    proof {
        assert(items@.take(0) =~= Seq::<Candidate>::empty());
    }
    while i < items.len()
        invariant
            i <= items.len(),
            ranked(sorted@),
            sorted@.len() == i,
            sorted@.to_multiset() == items@.take(i as int).to_multiset(),
            forall|k: int| 0 <= k < sorted@.len() ==> items@.contains(#[trigger] sorted@[k]),
        decreases items.len() - i,
    {
        let x = items[i];
        let mut p: usize = 0;
        while p < sorted.len() && !comes_ahead(&x, &sorted[p])
            invariant
                p <= sorted@.len(),
                forall|q: int| 0 <= q < p ==> ranks_before(#[trigger] sorted@[q], x),
            decreases sorted@.len() - p,
        {
            p += 1;
        }
        let ghost before = sorted@;
        sorted.insert(p, x);
        proof {
            assert(items@.take(i as int + 1) =~= items@.take(i as int).push(x));
            to_multiset_build(items@.take(i as int), x);
            to_multiset_insert(before, p as int, x);
            assert(sorted@ == before.insert(p as int, x));
            assert(sorted@.to_multiset() =~= items@.take(i as int + 1).to_multiset());
            assert forall|a: int, b: int| 0 <= a < b < sorted@.len() implies ranks_before(
                #[trigger] sorted@[a],
                #[trigger] sorted@[b],
            ) by {
                if b < p {
                    assert(sorted@[a] == before[a] && sorted@[b] == before[b]);
                } else if b == p {
                    assert(sorted@[a] == before[a]);
                } else if a < p {
                    assert(sorted@[a] == before[a] && sorted@[b] == before[b - 1]);
                } else if a == p {
                    assert(sorted@[b] == before[b - 1]);
                    assert(ranks_ahead(x, before[p as int]));
                    if b - 1 > p {
                        assert(ranks_before(before[p as int], before[b - 1]));
                    }
                } else {
                    assert(sorted@[a] == before[a - 1] && sorted@[b] == before[b - 1]);
                }
            }
            assert forall|k: int| 0 <= k < sorted@.len() implies items@.contains(
                #[trigger] sorted@[k],
            ) by {
                if k < p {
                    assert(sorted@[k] == before[k]);
                } else if k == p {
                    assert(items@[i as int] == x);
                } else {
                    assert(sorted@[k] == before[k - 1]);
                }
            }
        }
        i += 1;
    }
    proof {
        assert(items@.take(items@.len() as int) =~= items@);
    }
    sorted
}

/// Number of rooms below `m` that walk position `i` can be merged into.
pub open spec fn merge_targets(
    s: StateView,
    walk: Seq<usize>,
    trace: Seq<usize>,
    i: int,
    m: usize,
) -> nat
    decreases m,
{
    if m == 0 {
        0
    } else {
        merge_targets(s, walk, trace, i, (m - 1) as usize) + if mergeable_spec(
            s,
            (m - 1) as usize,
            walk,
            trace,
            i,
        ) {
            1nat
        } else {
            0nat
        }
    }
}

/// Number of moves open for walk position `i`: the existing rooms that it
/// can be merged into, and a new room while not all rooms exist.
pub open spec fn options(s: StateView, walk: Seq<usize>, trace: Seq<usize>, i: int) -> nat {
    merge_targets(s, walk, trace, i, s.assigned) + if s.assigned < s.rooms() {
        1nat
    } else {
        0nat
    }
}

/// Walk position `ix` is the one that the search assigns next: among the
/// positions not yet assigned, the first one with the fewest open moves.
pub open spec fn picks(s: StateView, walk: Seq<usize>, trace: Seq<usize>, ix: usize) -> bool {
    &&& ix < s.positions()
    &&& s.to_id[ix as int] is None
    &&& forall|j: int|
        0 <= j < s.positions() && (#[trigger] s.to_id[j]) is None ==> options(
            s,
            walk,
            trace,
            ix as int,
        ) <= options(s, walk, trace, j)
    &&& forall|j: int|
        0 <= j < ix && (#[trigger] s.to_id[j]) is None ==> options(s, walk, trace, ix as int)
            < options(s, walk, trace, j)
}

/// A move that the search can make: the position that it assigns next is
/// merged, without conflict, into an existing room or the next new one.
pub open spec fn is_move(
    s: StateView,
    walk: Seq<usize>,
    trace: Seq<usize>,
    ix: usize,
    u: usize,
) -> bool {
    &&& picks(s, walk, trace, ix)
    &&& u <= s.assigned
    &&& u < s.rooms()
    &&& mergeable_spec(s, u, walk, trace, ix as int)
    &&& merge_spec(s, u, walk, trace, ix).ok
}

/// Some run of at most `depth` moves of the search leads from the state to
/// one in which every position is assigned.
pub open spec fn solvable_in(
    s: StateView,
    walk: Seq<usize>,
    trace: Seq<usize>,
    depth: nat,
) -> bool
    decreases depth,
{
    complete(s) || (depth > 0 && exists|ix: usize, u: usize| #[trigger]
        is_move(s, walk, trace, ix, u) && solvable_in(
            merge_spec(s, u, walk, trace, ix).state,
            walk,
            trace,
            (depth - 1) as nat,
        ))
}

/// Some run of moves of the search leads from the state to one in which
/// every position is assigned: the search, which tries every move, succeeds
/// from the state unless its expansions run out.
pub open spec fn solvable(s: StateView, walk: Seq<usize>, trace: Seq<usize>) -> bool {
    solvable_in(s, walk, trace, unassigned(s.to_id))
}

/// Candidates listed by rising room, all below a bound, are no more than
/// the bound.
pub proof fn lemma_rising_rooms(items: Seq<Candidate>, bound: int)
    requires
        forall|j: int, k: int|
            0 <= j < k < items.len() ==> (#[trigger] items[j]).room < (#[trigger] items[k]).room,
        forall|k: int| 0 <= k < items.len() ==> (#[trigger] items[k]).room < bound,
        0 <= bound,
    ensures
        items.len() <= bound,
{
    if items.len() > 0 {
        lemma_rising_at(items, items.len() - 1);
        assert(items[items.len() - 1].room < bound);
    }
}

proof fn lemma_rising_at(items: Seq<Candidate>, i: int)
    requires
        forall|j: int, k: int|
            0 <= j < k < items.len() ==> (#[trigger] items[j]).room < (#[trigger] items[k]).room,
        0 <= i < items.len(),
    ensures
        items[i].room >= i,
    decreases i,
{
    if i > 0 {
        lemma_rising_at(items, i - 1);
        assert(items[i - 1].room < items[i].room);
    }
}

/// Some run of at most `depth` moves of the search leads from the state to
/// the state `last`, in which every position is assigned.
pub open spec fn leads_in(
    s: StateView,
    walk: Seq<usize>,
    trace: Seq<usize>,
    depth: nat,
    last: StateView,
) -> bool
    decreases depth,
{
    (complete(s) && last == s) || (depth > 0 && exists|ix: usize, u: usize| #[trigger]
        is_move(s, walk, trace, ix, u) && leads_in(
            merge_spec(s, u, walk, trace, ix).state,
            walk,
            trace,
            (depth - 1) as nat,
            last,
        ))
}

/// Some run of moves of the search leads from the state to the state
/// `last`, in which every position is assigned.
pub open spec fn leads(s: StateView, walk: Seq<usize>, trace: Seq<usize>, last: StateView) -> bool {
    leads_in(s, walk, trace, unassigned(s.to_id), last)
}

/// A move followed by a run of moves is a run of moves.
pub proof fn lemma_move_leads(
    s: StateView,
    walk: Seq<usize>,
    trace: Seq<usize>,
    ix: usize,
    u: usize,
    last: StateView,
)
    requires
        s.wf(),
        walk_ok(walk, trace),
        s.positions() == trace.len(),
        is_move(s, walk, trace, ix, u),
        leads(merge_spec(s, u, walk, trace, ix).state, walk, trace, last),
    ensures
        leads(s, walk, trace, last),
{
    lemma_move_depth(s, walk, trace, ix, u);
}

/// The move into room `u` leads nowhere, as far as the expansions made tell:
/// while they have not run out, the state after the move is not solvable.
pub open spec fn refuted(
    s: StateView,
    walk: Seq<usize>,
    trace: Seq<usize>,
    ix: usize,
    u: usize,
    calls: usize,
) -> bool {
    calls <= MAX_EXPANSIONS && is_move(s, walk, trace, ix, u) ==> !solvable(
        merge_spec(s, u, walk, trace, ix).state,
        walk,
        trace,
    )
}

/// Only one position is the one that the search assigns next.
pub proof fn lemma_pick_unique(
    s: StateView,
    walk: Seq<usize>,
    trace: Seq<usize>,
    ix: usize,
    jx: usize,
)
    requires
        picks(s, walk, trace, ix),
        picks(s, walk, trace, jx),
    ensures
        ix == jx,
{
    if ix < jx {
        assert(s.to_id[ix as int] is None);
        assert(options(s, walk, trace, jx as int) < options(s, walk, trace, ix as int));
        assert(s.to_id[jx as int] is None);
        assert(options(s, walk, trace, ix as int) <= options(s, walk, trace, jx as int));
    }
    if jx < ix {
        assert(s.to_id[jx as int] is None);
        assert(options(s, walk, trace, ix as int) < options(s, walk, trace, jx as int));
        assert(s.to_id[ix as int] is None);
        assert(options(s, walk, trace, jx as int) <= options(s, walk, trace, ix as int));
    }
}

/// A move leaves one position less to assign.
pub proof fn lemma_move_depth(
    s: StateView,
    walk: Seq<usize>,
    trace: Seq<usize>,
    ix: usize,
    u: usize,
)
    requires
        s.wf(),
        walk_ok(walk, trace),
        s.positions() == trace.len(),
        is_move(s, walk, trace, ix, u),
    ensures
        unassigned(merge_spec(s, u, walk, trace, ix).state.to_id) + 1 == unassigned(s.to_id),
{
    lemma_merge_effect(s, u, walk, trace, ix);
    lemma_unassigned_less(s.to_id, ix as int, u);
}

/// A state from which every move leads to a state that is not solvable is
/// not solvable.
pub proof fn lemma_no_move_left(s: StateView, walk: Seq<usize>, trace: Seq<usize>, ix: usize)
    requires
        s.wf(),
        walk_ok(walk, trace),
        s.positions() == trace.len(),
        picks(s, walk, trace, ix),
        forall|u: usize| #[trigger]
            is_move(s, walk, trace, ix, u) ==> !solvable(
                merge_spec(s, u, walk, trace, ix).state,
                walk,
                trace,
            ),
    ensures
        !solvable(s, walk, trace),
{
    assert(!complete(s)) by {
        assert(s.to_id[ix as int] is None);
    }
    let depth = unassigned(s.to_id);
    if solvable_in(s, walk, trace, depth) {
        let (jx, u) = choose|jx: usize, u: usize| #[trigger]
            is_move(s, walk, trace, jx, u) && solvable_in(
                merge_spec(s, u, walk, trace, jx).state,
                walk,
                trace,
                (depth - 1) as nat,
            );
        assert(picks(s, walk, trace, jx));
        lemma_pick_unique(s, walk, trace, ix, jx);
        lemma_move_depth(s, walk, trace, ix, u);
        let merged = merge_spec(s, u, walk, trace, ix).state;
        assert(unassigned(merged.to_id) == depth - 1);
        assert(solvable(merged, walk, trace));
        assert(is_move(s, walk, trace, ix, u));
    }
}

/// When every room that bears the label of the position has been tried, and
/// the next new room too, and each of these moves led nowhere, the state is
/// not solvable.
pub proof fn lemma_all_tried(
    s: StateView,
    walk: Seq<usize>,
    trace: Seq<usize>,
    ix: usize,
    items: Seq<Candidate>,
    sorted: Seq<Candidate>,
    calls: usize,
)
    requires
        s.wf(),
        walk_ok(walk, trace),
        s.positions() == trace.len(),
        picks(s, walk, trace, ix),
        calls <= MAX_EXPANSIONS,
        forall|u: int|
            0 <= u < s.assigned && s.labels[u] == Some(trace[ix as int]) ==> exists|k: int|
                0 <= k < items.len() && (#[trigger] items[k]).room == u,
        sorted.to_multiset() == items.to_multiset(),
        forall|q: int|
            0 <= q < sorted.len() ==> refuted(s, walk, trace, ix, (#[trigger] sorted[q]).room, calls),
        refuted(s, walk, trace, ix, s.assigned, calls),
    ensures
        !solvable(s, walk, trace),
{
    assert forall|u: usize| #[trigger] is_move(s, walk, trace, ix, u) implies !solvable(
        merge_spec(s, u, walk, trace, ix).state,
        walk,
        trace,
    ) by {
        if u < s.assigned {
            assert(crate::search_state::label_fits(s, u as int, trace[ix as int]));
            assert(s.labels[u as int] == Some(trace[ix as int]));
            let k = choose|k: int| 0 <= k < items.len() && (#[trigger] items[k]).room == u;
            let c = items[k];
            items.to_multiset_ensures();
            sorted.to_multiset_ensures();
            assert(items.contains(c));
            assert(items.to_multiset().count(c) > 0);
            assert(sorted.to_multiset().count(c) > 0);
            assert(sorted.contains(c));
            let q = choose|q: int| 0 <= q < sorted.len() && sorted[q] == c;
            assert(refuted(s, walk, trace, ix, sorted[q].room, calls));
        } else {
            assert(u == s.assigned);
        }
    }
    lemma_no_move_left(s, walk, trace, ix);
}

proof fn lemma_targets_bound(s: StateView, walk: Seq<usize>, trace: Seq<usize>, i: int, m: usize)
    ensures
        merge_targets(s, walk, trace, i, m) <= m,
    decreases m,
{
    if m > 0 {
        lemma_targets_bound(s, walk, trace, i, (m - 1) as usize);
    }
}

/// Picks the walk position to assign next: among the positions not yet
/// assigned, the first one with the fewest open moves. `None` when every
/// position is assigned.
pub fn pick_position(state: &SearchState, walk: &Vec<usize>, walk_labels: &Vec<usize>) -> (best:
    Option<usize>)
    requires
        state@.wf(),
        walk_ok(walk@, walk_labels@),
        state@.positions() == walk_labels@.len(),
    ensures
        match best {
            None => complete(state@),
            Some(ix) => {
                &&& ix < state@.positions()
                &&& state@.to_id[ix as int] is None
                &&& forall|j: int|
                    0 <= j < state@.positions() && (#[trigger] state@.to_id[j]) is None
                        ==> options(state@, walk@, walk_labels@, ix as int) <= options(
                        state@,
                        walk@,
                        walk_labels@,
                        j,
                    )
                &&& forall|j: int|
                    0 <= j < ix && (#[trigger] state@.to_id[j]) is None ==> options(
                        state@,
                        walk@,
                        walk_labels@,
                        ix as int,
                    ) < options(state@, walk@, walk_labels@, j)
                &&& state@.assigned == 0 ==> ix == 0
            },
        },
{
    let mut best: Option<usize> = None;
    let mut min_options: usize = usize::MAX;
    let mut i: usize = 0;
    while i < walk_labels.len()
        invariant
            i <= walk_labels@.len(),
            state@.wf(),
            walk_ok(walk@, walk_labels@),
            state@.positions() == walk_labels@.len(),
            match best {
                None => forall|j: int| 0 <= j < i ==> (#[trigger] state@.to_id[j]) is Some,
                Some(ix) => {
                    &&& ix < i
                    &&& state@.to_id[ix as int] is None
                    &&& min_options == options(state@, walk@, walk_labels@, ix as int)
                    &&& forall|j: int|
                        0 <= j < i && (#[trigger] state@.to_id[j]) is None ==> options(
                            state@,
                            walk@,
                            walk_labels@,
                            ix as int,
                        ) <= options(state@, walk@, walk_labels@, j)
                    &&& forall|j: int|
                        0 <= j < ix && (#[trigger] state@.to_id[j]) is None ==> options(
                            state@,
                            walk@,
                            walk_labels@,
                            ix as int,
                        ) < options(state@, walk@, walk_labels@, j)
                },
            },
        decreases walk_labels@.len() - i,
    {
        if state.to_id[i].is_none() {
            let mut num_options: usize = 0;
            let mut u: usize = 0;
            while u < state.assigned
                invariant
                    u <= state@.assigned,
                    i < walk_labels@.len(),
                    state@.wf(),
                    walk_ok(walk@, walk_labels@),
                    state@.positions() == walk_labels@.len(),
                    num_options == merge_targets(state@, walk@, walk_labels@, i as int, u),
                    num_options <= u,
                decreases state@.assigned - u,
            {
                if state.mergeable(u, walk, walk_labels, i) {
                    num_options += 1;
                }
                u += 1;
            }
            if state.assigned < state.labels.len() {
                num_options += 1;
            }
            let better = match best {
                None => true,
                Some(_) => num_options < min_options,
            };
            if better {
                min_options = num_options;
                best = Some(i);
            }
        }
        i += 1;
    }
    proof {
        if let Some(ix) = best {
            if state@.assigned == 0 && ix > 0 {
                assert(state@.to_id[0] is None);
                assert(options(state@, walk@, walk_labels@, ix as int) < options(
                    state@,
                    walk@,
                    walk_labels@,
                    0,
                ));
            }
        }
    }
    best
}

/// The constraint-search solver for a graph of `n` rooms.
pub struct Solver6 {
    pub n: usize,
    /// The doors of the one plan.
    pub walk: Vec<usize>,
    /// Expansions made so far.
    pub dfs_calls: usize,
    /// Whether candidates are ranked by their degree alone.
    pub plain: bool,
    pub rng: Pcg64Mcg,
}

/// The constraint-search solver that ranks the rooms to try by their degree
/// alone. It searches as `Solver6` does in every other respect.
pub struct Solver5 {
    pub inner: Solver6,
}

/// A graph that a solver has arrived at: the label of every room, the door
/// table and the starting room.
#[derive(Debug)]
pub struct Solution {
    pub labels: Vec<usize>,
    pub edges: Vec<Vec<usize>>,
    pub starting_room: usize,
}

/// The doors known after a search, by their targets alone.
pub open spec fn targets(s: StateView) -> Seq<Seq<Option<usize>>> {
    Seq::new(s.edges.len(), |a: int| Seq::new(s.edges[a].len(), |e: int| s.edges[a][e].to))
}

/// The positions assigned in `old` are assigned to the same rooms in `new`.
pub open spec fn extends(old: StateView, new: StateView) -> bool {
    forall|i: int|
        0 <= i < old.to_id.len() && (#[trigger] old.to_id[i]) is Some ==> new.to_id[i]
            == old.to_id[i]
}

impl Solver6 {
    /// A solver for a graph of `n` rooms, drawing from a generator with a
    /// fixed seed.
    pub fn new(n: usize) -> (solver: Self)
        requires
            n * WALK_FACTOR <= usize::MAX,
        ensures
            solver.n == n,
            solver.dfs_calls == 0,
            !solver.plain,
            solver.walk@.len() == n * WALK_FACTOR,
            all_doors(solver.walk@),
    {
        Self::with_seed(n, 42)
    }

    /// A solver for a graph of `n` rooms, drawing from generators with the
    /// given seed.
    pub fn with_seed(n: usize, seed: u64) -> (solver: Self)
        requires
            n * WALK_FACTOR <= usize::MAX,
        ensures
            solver.n == n,
            solver.dfs_calls == 0,
            !solver.plain,
            solver.walk@.len() == n * WALK_FACTOR,
            all_doors(solver.walk@),
    {
        let mut rng = seeded_rng(seed);
        let walk = random_doors(&mut rng, n * WALK_FACTOR);
        Self { n, walk, dfs_calls: 0, plain: false, rng: seeded_rng(seed) }
    }

    /// The one plan that the solver asks the oracle to walk.
    pub fn plan(&self) -> (doors: Vec<usize>)
        ensures
            doors@ == self.walk@,
    {
        let doors = self.walk.clone();
        proof {
            assert(doors@ =~= self.walk@);
        }
        doors
    }

    /// The rooms that walk position `ix` may be merged into as far as their
    /// labels tell, in rising order, each with its score, its degree and a
    /// number drawn to break ties.
    fn candidates(
        &mut self,
        state: &SearchState,
        walk: &Vec<usize>,
        walk_labels: &Vec<usize>,
        ix: usize,
    ) -> (items: Vec<Candidate>)
        requires
            state@.wf(),
            walk_ok(walk@, walk_labels@),
            state@.positions() == walk_labels@.len(),
            ix < walk_labels@.len(),
        ensures
            final(self).n == old(self).n,
            final(self).plain == old(self).plain,
            final(self).walk == old(self).walk,
            final(self).dfs_calls == old(self).dfs_calls,
            forall|k: int|
                0 <= k < items@.len() ==> {
                    let c = #[trigger] items@[k];
                    &&& c.room < state@.assigned
                    &&& state@.labels[c.room as int] == Some(walk_labels@[ix as int])
                    &&& c.score == if old(self).plain {
                        0
                    } else {
                        merge_score_spec(state@, c.room, walk@, walk_labels@, ix as int)
                    }
                    &&& c.degree == state@.degree[c.room as int]
                    &&& c.tie < TIE_RANGE
                    &&& old(self).plain ==> c.tie == 0
                },
            forall|j: int, k: int|
                0 <= j < k < items@.len() ==> (#[trigger] items@[j]).room < (
                #[trigger] items@[k]).room,
            forall|u: int|
                0 <= u < state@.assigned && state@.labels[u] == Some(walk_labels@[ix as int])
                    ==> exists|k: int| 0 <= k < items@.len() && (#[trigger] items@[k]).room == u,
    {
        let mut items: Vec<Candidate> = Vec::new();
        let mut u: usize = 0;
        while u < state.assigned
            invariant
                u <= state@.assigned,
                state@.wf(),
                walk_ok(walk@, walk_labels@),
                state@.positions() == walk_labels@.len(),
                ix < walk_labels@.len(),
                self.n == old(self).n,
                self.plain == old(self).plain,
                self.walk == old(self).walk,
                self.dfs_calls == old(self).dfs_calls,
                forall|k: int|
                    0 <= k < items@.len() ==> {
                        let c = #[trigger] items@[k];
                        &&& c.room < u
                        &&& state@.labels[c.room as int] == Some(walk_labels@[ix as int])
                        &&& c.score == if old(self).plain {
                            0
                        } else {
                            merge_score_spec(state@, c.room, walk@, walk_labels@, ix as int)
                        }
                        &&& c.degree == state@.degree[c.room as int]
                        &&& c.tie < TIE_RANGE
                        &&& old(self).plain ==> c.tie == 0
                    },
                forall|j: int, k: int|
                    0 <= j < k < items@.len() ==> (#[trigger] items@[j]).room < (
                    #[trigger] items@[k]).room,
                forall|v: int|
                    0 <= v < u && state@.labels[v] == Some(walk_labels@[ix as int])
                        ==> exists|k: int|
                        0 <= k < items@.len() && (#[trigger] items@[k]).room == v,
            decreases state@.assigned - u,
        {
            let fits = match state.labels[u] {
                Some(l) => l == walk_labels[ix],
                None => false,
            };
            if fits {
                let c = if self.plain {
                    Candidate { room: u, score: 0, degree: state.degree[u], tie: 0 }
                } else {
                    Candidate {
                        room: u,
                        score: state.merge_score(u, walk, walk_labels, ix),
                        degree: state.degree[u],
                        tie: random_below(&mut self.rng, TIE_RANGE),
                    }
                };
                let ghost before = items@;
                items.push(c);
                proof {
                    assert forall|v: int|
                        0 <= v < u + 1 && state@.labels[v] == Some(
                            walk_labels@[ix as int],
                        ) implies exists|k: int|
                        0 <= k < items@.len() && (#[trigger] items@[k]).room == v by {
                        if v < u {
                            let k = choose|k: int|
                                0 <= k < before.len() && (#[trigger] before[k]).room == v;
                            assert(items@[k].room == v);
                        } else {
                            assert(items@[before.len() as int].room == v);
                        }
                    }
                }
            }
            u += 1;
        }
        items
    }

    /// Tries one move: merges walk position `ix` into room `u` and searches
    /// on. The move is taken back when it meets a conflict or the search
    /// fails after it.
    fn try_room(
        &mut self,
        state: &mut SearchState,
        walk: &Vec<usize>,
        walk_labels: &Vec<usize>,
        ix: usize,
        u: usize,
    ) -> (found: bool)
        requires
            old(state)@.wf(),
            walk_ok(walk@, walk_labels@),
            old(state)@.positions() == walk_labels@.len(),
            old(state)@.fits(walk@, walk_labels@),
            old(state)@.rooms() == old(self).n,
            ix < walk_labels@.len(),
            old(state)@.to_id[ix as int] is None,
            u <= old(state)@.assigned,
            u < old(state)@.rooms(),
            mergeable_spec(old(state)@, u, walk@, walk_labels@, ix as int),
        ensures
            final(self).n == old(self).n,
            final(self).plain == old(self).plain,
            final(self).walk == old(self).walk,
            final(state)@.wf(),
            final(state)@.rooms() == old(state)@.rooms(),
            final(state)@.positions() == old(state)@.positions(),
            found ==> complete(final(state)@) && final(state)@.fits(walk@, walk_labels@)
                && extends(old(state)@, final(state)@) && final(state)@.to_id[ix as int] == Some(u),
            !found ==> final(state)@ == old(state)@,
            !crate::search_state::merge_spec(old(state)@, u, walk@, walk_labels@, ix).ok
                ==> !found,
            crate::search_state::merge_spec(old(state)@, u, walk@, walk_labels@, ix).ok
                && old(self).dfs_calls > MAX_EXPANSIONS ==> !found,
            crate::search_state::merge_spec(old(state)@, u, walk@, walk_labels@, ix).ok
                && old(self).dfs_calls <= MAX_EXPANSIONS && complete(
                crate::search_state::merge_spec(old(state)@, u, walk@, walk_labels@, ix).state,
            ) ==> found,
            final(self).dfs_calls >= old(self).dfs_calls,
            !found && final(self).dfs_calls <= MAX_EXPANSIONS && merge_spec(
                old(state)@,
                u,
                walk@,
                walk_labels@,
                ix,
            ).ok ==> !solvable(
                merge_spec(old(state)@, u, walk@, walk_labels@, ix).state,
                walk@,
                walk_labels@,
            ),
            found ==> leads(
                merge_spec(old(state)@, u, walk@, walk_labels@, ix).state,
                walk@,
                walk_labels@,
                final(state)@,
            ),
            final(self).dfs_calls <= old(self).dfs_calls + expansions_after(
                old(self).n as nat,
                old(state)@.to_id,
            ),
        decreases unassigned(old(state)@.to_id), 0nat,
    {
        let ghost origin = state@;
        let (undo_ops, success) = state.merge(u, walk, walk_labels, ix);
        if success {
            proof {
                lemma_merge_effect(origin, u, walk@, walk_labels@, ix);
                lemma_unassigned_less(origin.to_id, ix as int, u);
                lemma_expansions_after(self.n as nat, origin.to_id, ix as int, u);
            }
            let ghost merged = state@;
            if self.dfs(state, walk, walk_labels) {
                proof {
                    lemma_extends(origin, merged, state@, ix as int);
                    assert(merged.to_id[ix as int] is Some);
                }
                return true;
            }
        }
        state.undo(undo_ops);
        false
    }

    /// Assigns the walk positions that are not yet assigned, one by one.
    /// The position with the fewest open moves comes first; the rooms that
    /// bear its label are tried in the order of their rank, then a new room.
    /// A move that meets a conflict, or after which the search fails, is
    /// taken back.
    ///
    /// When the search succeeds every position is assigned, what was
    /// assigned before is unchanged, and the assignment fits the walk. When
    /// it fails the state is as it was, and no run of moves assigns every
    /// position unless the expansions have run out. The search makes no more
    /// expansions than one for every state that moves can lead to.
    #[verifier::rlimit(40)]
    pub fn dfs(&mut self, state: &mut SearchState, walk: &Vec<usize>, walk_labels: &Vec<usize>) -> (found:
        bool)
        requires
            old(state)@.wf(),
            walk_ok(walk@, walk_labels@),
            old(state)@.positions() == walk_labels@.len(),
            old(state)@.fits(walk@, walk_labels@),
            old(state)@.rooms() == old(self).n,
        ensures
            final(self).n == old(self).n,
            final(self).plain == old(self).plain,
            final(self).walk == old(self).walk,
            final(state)@.wf(),
            final(state)@.rooms() == old(state)@.rooms(),
            final(state)@.positions() == old(state)@.positions(),
            found ==> complete(final(state)@) && final(state)@.fits(walk@, walk_labels@)
                && extends(old(state)@, final(state)@),
            found && old(state)@.assigned == 0 ==> final(state)@.to_id[0] == Some(0usize),
            !found ==> final(state)@ == old(state)@,
            old(self).dfs_calls > MAX_EXPANSIONS ==> !found,
            old(self).dfs_calls <= MAX_EXPANSIONS && complete(old(state)@) ==> found,
            final(self).dfs_calls >= old(self).dfs_calls,
            !found && final(self).dfs_calls <= MAX_EXPANSIONS ==> !solvable(
                old(state)@,
                walk@,
                walk_labels@,
            ),
            found ==> leads(old(state)@, walk@, walk_labels@, final(state)@),
            final(self).dfs_calls <= old(self).dfs_calls + expansions_from(
                old(self).n as nat,
                old(state)@.to_id,
            ),
        decreases unassigned(old(state)@.to_id), 1nat,
    {
        proof {
            lemma_expansions_first(self.n as nat, state@.to_id);
        }
        if self.dfs_calls > MAX_EXPANSIONS {
            return false;
        }
        self.dfs_calls += 1;
        let ix = match pick_position(state, walk, walk_labels) {
            None => {
                return true;
            },
            Some(ix) => ix,
        };
        let nu = state.next_vertex();
        let items = self.candidates(state, walk, walk_labels, ix);
        let merge_candidates = sort_candidates(&items);
        let ghost origin = state@;
        let ghost rest = expansions_after(self.n as nat, origin.to_id);
        let ghost base = old(self).dfs_calls as int + 1;
        let ghost mut spent: nat = 0;
        proof {
            lemma_tries(0, rest);
            lemma_rising_rooms(items@, origin.assigned as int);
            assert(picks(origin, walk@, walk_labels@, ix));
            assert forall|q: int| 0 <= q < merge_candidates@.len() implies (
            #[trigger] merge_candidates@[q]).room < origin.assigned by {
                let c = merge_candidates@[q];
                assert(items@.contains(c));
                let k = choose|k: int| 0 <= k < items@.len() && items@[k] == c;
                assert(items@[k].room < origin.assigned);
            }
        }
        let mut k: usize = 0;
        while k < merge_candidates.len()
            invariant
                k <= merge_candidates@.len(),
                self.n == old(self).n,
                self.plain == old(self).plain,
                self.walk == old(self).walk,
                old(self).dfs_calls <= MAX_EXPANSIONS,
                origin.assigned == 0 ==> ix == 0,
                state@ == origin,
                origin == old(state)@,
                origin.wf(),
                walk_ok(walk@, walk_labels@),
                origin.positions() == walk_labels@.len(),
                origin.fits(walk@, walk_labels@),
                origin.rooms() == self.n,
                ix < walk_labels@.len(),
                origin.to_id[ix as int] is None,
                forall|q: int|
                    0 <= q < merge_candidates@.len() ==> (#[trigger] merge_candidates@[q]).room
                        < origin.assigned,
                self.dfs_calls >= old(self).dfs_calls,
                merge_candidates@.len() <= self.n,
                base == old(self).dfs_calls + 1,
                rest == expansions_after(self.n as nat, origin.to_id),
                spent == tries(k as nat, rest),
                self.dfs_calls <= base + spent,
                picks(origin, walk@, walk_labels@, ix),
                forall|q: int|
                    0 <= q < k ==> refuted(
                        origin,
                        walk@,
                        walk_labels@,
                        ix,
                        (#[trigger] merge_candidates@[q]).room,
                        self.dfs_calls,
                    ),
            decreases merge_candidates@.len() - k,
        {
            let u = merge_candidates[k].room;
            let ghost calls = self.dfs_calls;
            if state.mergeable(u, walk, walk_labels, ix) {
                if self.try_room(state, walk, walk_labels, ix, u) {
                    proof {
                        lemma_move_leads(origin, walk@, walk_labels@, ix, u, state@);
                        lemma_expansions_bound(
                            old(self).dfs_calls as int,
                            self.dfs_calls as int,
                            self.n as nat,
                            k as nat,
                            origin.to_id,
                            ix as int,
                        );
                    }
                    return true;
                }
            }
            proof {
                lemma_tries(k as nat, rest);
                spent = spent + rest;
                assert forall|q: int| 0 <= q < k + 1 implies refuted(
                    origin,
                    walk@,
                    walk_labels@,
                    ix,
                    (#[trigger] merge_candidates@[q]).room,
                    self.dfs_calls,
                ) by {
                    if q < k {
                        assert(refuted(
                            origin,
                            walk@,
                            walk_labels@,
                            ix,
                            merge_candidates@[q].room,
                            calls,
                        ));
                    }
                }
            }
            k += 1;
        }
        let ghost calls = self.dfs_calls;
        if nu < self.n && state.mergeable(nu, walk, walk_labels, ix) {
            if self.try_room(state, walk, walk_labels, ix, nu) {
                proof {
                    lemma_move_leads(origin, walk@, walk_labels@, ix, nu, state@);
                    lemma_expansions_bound(
                        old(self).dfs_calls as int,
                        self.dfs_calls as int,
                        self.n as nat,
                        k as nat,
                        origin.to_id,
                        ix as int,
                    );
                }
                return true;
            }
        }
        proof {
            lemma_expansions_bound(
                old(self).dfs_calls as int,
                self.dfs_calls as int,
                self.n as nat,
                k as nat,
                origin.to_id,
                ix as int,
            );
            if self.dfs_calls <= MAX_EXPANSIONS {
                assert forall|q: int| 0 <= q < merge_candidates@.len() implies refuted(
                    origin,
                    walk@,
                    walk_labels@,
                    ix,
                    (#[trigger] merge_candidates@[q]).room,
                    self.dfs_calls,
                ) by {
                    assert(refuted(
                        origin,
                        walk@,
                        walk_labels@,
                        ix,
                        merge_candidates@[q].room,
                        calls,
                    ));
                }
                lemma_all_tried(
                    origin,
                    walk@,
                    walk_labels@,
                    ix,
                    items@,
                    merge_candidates@,
                    self.dfs_calls,
                );
            }
        }
        false
    }
}

/// What extends a state with one more position assigned extends the state.
proof fn lemma_extends(origin: StateView, merged: StateView, last: StateView, ix: int)
    requires
        0 <= ix < origin.to_id.len(),
        origin.to_id[ix] is None,
        merged.to_id.len() == origin.to_id.len(),
        forall|i: int| 0 <= i < origin.to_id.len() && i != ix ==> merged.to_id[i] == origin.to_id[i],
        extends(merged, last),
    ensures
        extends(origin, last),
{
    assert forall|i: int| 0 <= i < origin.to_id.len() && (#[trigger] origin.to_id[i]) is Some implies last.to_id[i]
        == origin.to_id[i] by {
        assert(merged.to_id[i] is Some);
    }
}


/// `c` copies of the room `v`.
pub open spec fn repeat(v: usize, c: nat) -> Seq<usize> {
    Seq::new(c, |i: int| v)
}

/// The rooms below `m` from which an edge to room `u` waits to be answered,
/// each as often as edges wait, in rising order.
pub open spec fn waiting(adj: Seq<Seq<usize>>, u: int, m: int) -> Seq<usize>
    decreases m,
{
    if m <= 0 {
        Seq::empty()
    } else {
        waiting(adj, u, m - 1) + repeat((m - 1) as usize, adj[m - 1][u] as nat)
    }
}

/// A row of doors with the unknown doors filled: each in turn takes the last
/// room of the list that is left, and the room `u` itself once the list is
/// used up. Known doors stay.
pub open spec fn fill_row(row: Seq<Option<usize>>, list: Seq<usize>, u: usize) -> Seq<usize>
    decreases row.len(),
{
    if row.len() == 0 {
        Seq::empty()
    } else {
        match row[0] {
            Some(t) => seq![t] + fill_row(row.drop_first(), list, u),
            None => if list.len() > 0 {
                seq![list.last()] + fill_row(row.drop_first(), list.drop_last(), u)
            } else {
                seq![u] + fill_row(row.drop_first(), list, u)
            },
        }
    }
}

/// The door table that a finished search leaves: what the search knows of a
/// door stays, and the other doors of a room are filled from the rooms from
/// which an edge to it waits to be answered.
pub open spec fn filled(s: StateView) -> Seq<Seq<usize>> {
    Seq::new(
        s.edges.len(),
        |u: int| fill_row(targets(s)[u], waiting(s.adj, u, s.rooms()), u as usize),
    )
}

/// A filled row is as long as the row, keeps the known doors, and names only
/// rooms of the row, of the list, or the room itself.
pub proof fn lemma_fill_row(row: Seq<Option<usize>>, list: Seq<usize>, u: usize, n: int)
    requires
        u < n,
        forall|e: int| 0 <= e < row.len() && (#[trigger] row[e]) is Some ==> row[e].unwrap() < n,
        forall|k: int| 0 <= k < list.len() ==> #[trigger] list[k] < n,
    ensures
        fill_row(row, list, u).len() == row.len(),
        forall|e: int|
            0 <= e < row.len() && (#[trigger] row[e]) is Some ==> fill_row(row, list, u)[e]
                == row[e].unwrap(),
        forall|e: int| 0 <= e < row.len() ==> #[trigger] fill_row(row, list, u)[e] < n,
    decreases row.len(),
{
    if row.len() > 0 {
        let rest = row.drop_first();
        let left = if row[0] is None && list.len() > 0 {
            list.drop_last()
        } else {
            list
        };
        assert forall|e: int| 0 <= e < rest.len() && (#[trigger] rest[e]) is Some implies rest[e].unwrap()
            < n by {
            assert(rest[e] == row[e + 1]);
        }
        assert forall|k: int| 0 <= k < left.len() implies #[trigger] left[k] < n by {
            assert(left[k] == list[k]);
        }
        lemma_fill_row(rest, left, u, n);
        let out = fill_row(row, list, u);
        assert forall|e: int| 0 <= e < row.len() && (#[trigger] row[e]) is Some implies out[e]
            == row[e].unwrap() by {
            if e > 0 {
                assert(rest[e - 1] == row[e]);
                assert(out[e] == fill_row(rest, left, u)[e - 1]);
            }
        }
        assert forall|e: int| 0 <= e < row.len() implies #[trigger] out[e] < n by {
            if e > 0 {
                assert(out[e] == fill_row(rest, left, u)[e - 1]);
            } else if row[0] is None && list.len() > 0 {
                assert(list.last() == list[list.len() - 1]);
            }
        }
    }
}

/// The waiting rooms are rooms.
pub proof fn lemma_waiting(adj: Seq<Seq<usize>>, u: int, m: int)
    requires
        0 <= m <= usize::MAX,
    ensures
        forall|k: int| 0 <= k < waiting(adj, u, m).len() ==> #[trigger] waiting(adj, u, m)[k] < m,
    decreases m,
{
    if m > 0 {
        lemma_waiting(adj, u, m - 1);
        let before = waiting(adj, u, m - 1);
        let all = waiting(adj, u, m);
        assert forall|k: int| 0 <= k < all.len() implies #[trigger] all[k] < m by {
            if k < before.len() {
                assert(all[k] == before[k]);
            }
        }
    }
}

/// Walking the rest of the walk from the room of position `i` on the filled
/// door table shows the rest of the trace.
pub proof fn lemma_reproduces(
    s: StateView,
    walk: Seq<usize>,
    trace: Seq<usize>,
    labels: Seq<usize>,
    i: int,
)
    requires
        s.wf(),
        complete(s),
        s.fits(walk, trace),
        walk_ok(walk, trace),
        s.positions() == trace.len(),
        labels.len() == s.rooms(),
        forall|u: int| 0 <= u < s.rooms() ==> s.labels[u] == Some(#[trigger] labels[u]),
        0 <= i <= walk.len(),
    ensures
        walk_from(filled(s), labels, s.to_id[i].unwrap() as int, door_plan(walk).skip(i))
            == trace.skip(i + 1),
    decreases walk.len() - i,
{
    let plan = door_plan(walk).skip(i);
    if i == walk.len() {
        assert(plan =~= Seq::<WalkStep>::empty());
        assert(trace.skip(i + 1) =~= Seq::<usize>::empty());
    } else {
        let r = s.to_id[i].unwrap() as int;
        let next = s.to_id[i + 1].unwrap() as int;
        let d = walk[i] as int;
        assert(s.to_id[i] is Some && s.to_id[i + 1] is Some);
        assert(r < s.assigned && next < s.assigned);
        assert(plan[0] == WalkStep::Edge(walk[i]));
        assert(plan.drop_first() =~= door_plan(walk).skip(i + 1));
        assert(s.edges[r][d].to == Some(next as usize));
        lemma_waiting(s.adj, r, s.rooms());
        assert forall|e: int|
            0 <= e < targets(s)[r].len() && (#[trigger] targets(s)[r][e]) is Some implies targets(
            s,
        )[r][e].unwrap() < s.rooms() by {
            assert(crate::search_state::door_ok(s.edges[r][e], s.assigned as int));
        }
        lemma_fill_row(targets(s)[r], waiting(s.adj, r, s.rooms()), r as usize, s.rooms());
        assert(targets(s)[r][d] == Some(next as usize));
        assert(filled(s)[r][d] == next);
        assert(s.labels[next] == Some(trace[i + 1]));
        lemma_reproduces(s, walk, trace, labels, i + 1);
        assert(trace.skip(i + 1) =~= seq![trace[i + 1]] + trace.skip(i + 2));
    }
}

/// Decides whether a walk and a trace fit together.
pub fn check_walk(walk: &Vec<usize>, walk_labels: &Vec<usize>) -> (ok: bool)
    ensures
        ok == walk_ok(walk@, walk_labels@),
{
    let k = walk_labels.len();
    if walk.len() == usize::MAX || k != walk.len() + 1 {
        return false;
    }
    let mut i: usize = 0;
    while i < walk.len()
        invariant
            i <= walk@.len(),
            forall|k: int| 0 <= k < i ==> #[trigger] walk@[k] < DEGREE,
        decreases walk@.len() - i,
    {
        if walk[i] >= DEGREE {
            return false;
        }
        i += 1;
    }
    let mut j: usize = 0;
    while j < walk_labels.len()
        invariant
            j <= walk_labels@.len(),
            forall|k: int| 0 <= k < j ==> #[trigger] walk_labels@[k] < LABELS,
        decreases walk_labels@.len() - j,
    {
        if walk_labels[j] >= LABELS {
            return false;
        }
        j += 1;
    }
    true
}

/// The labels of the rooms, if every room has one.
pub fn known_labels(labels: &Vec<Option<usize>>) -> (known: Option<Vec<usize>>)
    ensures
        known is Some <==> forall|u: int| 0 <= u < labels@.len() ==> (#[trigger] labels@[u]) is Some,
        known is Some ==> known.unwrap()@.len() == labels@.len() && forall|u: int|
            0 <= u < labels@.len() ==> labels@[u] == Some(#[trigger] known.unwrap()@[u]),
{
    let mut known: Vec<usize> = Vec::new();
    let mut u: usize = 0;
    while u < labels.len()
        invariant
            u <= labels@.len(),
            known@.len() == u,
            forall|k: int| 0 <= k < u ==> labels@[k] == Some(#[trigger] known@[k]),
        decreases labels@.len() - u,
    {
        match labels[u] {
            Some(l) => known.push(l),
            None => {
                return None;
            },
        }
        u += 1;
    }
    proof {
        assert forall|k: int| 0 <= k < labels@.len() implies (#[trigger] labels@[k]) is Some by {
            assert(labels@[k] == Some(known@[k]));
        }
    }
    Some(known)
}

/// Fills the doors that a finished search has left unknown.
pub fn fill_doors(state: &SearchState) -> (edges: Vec<Vec<usize>>)
    requires
        state@.wf(),
    ensures
        table(edges@) == filled(state@),
        is_table(table(edges@)),
{
    let n = state.labels.len();
    let mut edges: Vec<Vec<usize>> = Vec::new();
    let mut u: usize = 0;
    while u < n
        invariant
            u <= n,
            n == state@.rooms(),
            state@.wf(),
            edges@.len() == u,
            forall|k: int| 0 <= k < u ==> (#[trigger] edges@[k])@ == filled(state@)[k],
            forall|k: int| 0 <= k < u ==> row_ok((#[trigger] edges@[k])@, n as nat),
        decreases n - u,
    {
        let mut no_edge: Vec<usize> = Vec::new();
        let mut v: usize = 0;
        while v < n
            invariant
                v <= n,
                u < n,
                n == state@.rooms(),
                state@.wf(),
                no_edge@ == waiting(state@.adj, u as int, v as int),
            decreases n - v,
        {
            proof {
                assert(state@.adj[v as int] == state.adj@[v as int]@);
            }
            let count = state.adj[v][u];
            let ghost base = no_edge@;
            let mut c: usize = 0;
            while c < count
                invariant
                    c <= count,
                    no_edge@ == base + repeat(v, c as nat),
                decreases count - c,
            {
                no_edge.push(v);
                c += 1;
                proof {
                    assert(no_edge@ =~= base + repeat(v, c as nat));
                }
            }
            v += 1;
        }
        let ghost list = no_edge@;
        let ghost full = targets(state@)[u as int];
        let mut row: Vec<usize> = Vec::new();
        let mut e: usize = 0;
        proof {
            assert(state@.edges[u as int] == state.edges@[u as int]@);
            assert(full.skip(0) =~= full);
        }
        while e < DEGREE
            invariant
                e <= DEGREE,
                u < n,
                n == state@.rooms(),
                state@.wf(),
                state@.edges[u as int] == state.edges@[u as int]@,
                full == targets(state@)[u as int],
                full.len() == DEGREE,
                row@.len() == e,
                fill_row(full, list, u) == row@ + fill_row(full.skip(e as int), no_edge@, u),
            decreases DEGREE - e,
        {
            let ghost rest = full.skip(e as int);
            let ghost before = row@;
            let ghost left = no_edge@;
            proof {
                assert(rest[0] == full[e as int]);
                assert(rest.drop_first() =~= full.skip(e as int + 1));
            }
            match state.edges[u][e].to {
                Some(t) => {
                    row.push(t);
                },
                None => {
                    match no_edge.pop() {
                        Some(w) => {
                            row.push(w);
                            proof {
                                assert(no_edge@ =~= left.drop_last());
                            }
                        },
                        None => {
                            row.push(u);
                        },
                    }
                },
            }
            proof {
                assert(row@ + fill_row(rest.drop_first(), no_edge@, u) =~= before + fill_row(
                    rest,
                    left,
                    u,
                ));
            }
            e += 1;
        }
        proof {
            assert(full.skip(DEGREE as int) =~= Seq::<Option<usize>>::empty());
            assert(row@ =~= fill_row(full, list, u));
            lemma_waiting(state@.adj, u as int, n as int);
            assert forall|d: int| 0 <= d < full.len() && (#[trigger] full[d]) is Some implies full[d].unwrap()
                < n by {
                assert(crate::search_state::door_ok(
                    state@.edges[u as int][d],
                    state@.assigned as int,
                ));
            }
            lemma_fill_row(full, list, u, n as int);
        }
        edges.push(row);
        u += 1;
    }
    proof {
        assert(table(edges@) =~= filled(state@));
    }
    edges
}

/// The search for a graph of `n` rooms can succeed on the walk and its
/// trace: some run of its moves leads from the state in which nothing is
/// assigned to one in which every position is assigned.
pub open spec fn searchable(n: usize, walk: Seq<usize>, trace: Seq<usize>) -> bool {
    exists|s: StateView| #[trigger] blank(s, n as int, walk, trace) && solvable(s, walk, trace)
}

/// Where the one state in which nothing is assigned is not solvable, the
/// search cannot succeed.
pub proof fn lemma_search_fails(start: StateView, n: usize, walk: Seq<usize>, trace: Seq<usize>)
    requires
        blank(start, n as int, walk, trace),
        !solvable(start, walk, trace),
    ensures
        !searchable(n, walk, trace),
{
    if searchable(n, walk, trace) {
        let s = choose|s: StateView| #[trigger]
            blank(s, n as int, walk, trace) && solvable(s, walk, trace);
        crate::search_state::lemma_blank_unique(s, start, n as int, walk, trace);
    }
}

/// The search for a graph of `n` rooms can end in the state `last`: some run
/// of its moves leads there from the state in which nothing is assigned.
pub open spec fn search_ends_in(
    n: usize,
    walk: Seq<usize>,
    trace: Seq<usize>,
    last: StateView,
) -> bool {
    exists|s: StateView| #[trigger] blank(s, n as int, walk, trace) && leads(s, walk, trace, last)
}

/// The search for a graph of `n` rooms can end with fewer rooms than `n`,
/// so that a room is left without a label.
pub open spec fn search_ends_short(n: usize, walk: Seq<usize>, trace: Seq<usize>) -> bool {
    exists|last: StateView| #[trigger]
        search_ends_in(n, walk, trace, last) && last.assigned < n
}

/// The graph is one that the search for a graph of `n` rooms can end with:
/// the search can end in a state with all `n` rooms, whose labels and doors,
/// the unknown doors filled, are those of the graph.
pub open spec fn search_gives(
    n: usize,
    walk: Seq<usize>,
    trace: Seq<usize>,
    labels: Seq<usize>,
    doors: Seq<Seq<usize>>,
) -> bool {
    exists|last: StateView| #[trigger]
        search_ends_in(n, walk, trace, last) && last.assigned == n && doors == filled(last)
            && labels.len() == n && forall|u: int|
            0 <= u < n ==> last.labels[u] == Some(#[trigger] labels[u])
}

impl Solver6 {
    /// Searches for an assignment of all walk positions that fits the walk
    /// and its trace. The search tries every move, so it fails only where no
    /// run of moves assigns every position, or where its expansions run out.
    pub fn reconstruct_graph(&mut self, walk: &Vec<usize>, walk_labels: &Vec<usize>) -> (res:
        Result<SearchState, SolveError>)
        requires
            walk_ok(walk@, walk_labels@),
        ensures
            final(self).n == old(self).n,
            final(self).plain == old(self).plain,
            final(self).walk == old(self).walk,
            match res {
                Ok(state) => {
                    &&& state@.wf()
                    &&& state@.rooms() == old(self).n
                    &&& state@.positions() == walk_labels@.len()
                    &&& complete(state@)
                    &&& state@.fits(walk@, walk_labels@)
                    &&& state@.to_id[0] == Some(0usize)
                    &&& search_ends_in(old(self).n, walk@, walk_labels@, state@)
                },
                Err(e) => e is SearchFailed,
            },
            final(self).dfs_calls >= old(self).dfs_calls,
            final(self).dfs_calls <= old(self).dfs_calls + expansions(
                old(self).n as nat,
                walk_labels@.len(),
            ),
            res is Err && final(self).dfs_calls <= MAX_EXPANSIONS ==> !searchable(
                old(self).n,
                walk@,
                walk_labels@,
            ),
    {
        let mut state = SearchState::new(self.n, walk, walk_labels);
        let ghost start = state@;
        proof {
            assert(blank(start, self.n as int, walk@, walk_labels@));
            lemma_expansions_blank(self.n as nat, start.to_id);
        }
        if !self.dfs(&mut state, walk, walk_labels) {
            proof {
                if self.dfs_calls <= MAX_EXPANSIONS {
                    lemma_search_fails(start, self.n, walk@, walk_labels@);
                }
            }
            return Err(SolveError::SearchFailed);
        }
        Ok(state)
    }

    /// Turns the oracle's trace of the plan into a graph: searches for an
    /// assignment of the walk positions, fills the doors that the walk never
    /// took, and starts in the room of the first position.
    ///
    /// A graph that comes out is one that the search can end with, and shows
    /// the trace when the plan is walked on it. The search fails only where
    /// no run of its moves assigns every position of the walk, or where its
    /// expansions run out; a label is unknown only where the search can end
    /// with fewer rooms than the graph has.
    pub fn solve(&mut self, walk_labels: &Vec<usize>) -> (res: Result<Solution, SolveError>)
        ensures
            final(self).n == old(self).n,
            final(self).plain == old(self).plain,
            final(self).walk == old(self).walk,
            res is Err ==> res->Err_0 is BadResponse || res->Err_0 is SearchFailed
                || res->Err_0 is UnknownLabel,
            res matches Err(e) && e is BadResponse <==> !walk_ok(old(self).walk@, walk_labels@),
            final(self).dfs_calls >= old(self).dfs_calls,
            final(self).dfs_calls <= old(self).dfs_calls + expansions(
                old(self).n as nat,
                walk_labels@.len(),
            ),
            res matches Err(e) && e is SearchFailed && final(self).dfs_calls <= MAX_EXPANSIONS
                ==> !searchable(old(self).n, old(self).walk@, walk_labels@),
            res matches Err(e) && e is UnknownLabel ==> search_ends_short(
                old(self).n,
                old(self).walk@,
                walk_labels@,
            ),
            res matches Ok(solution) ==> {
                &&& search_gives(
                    old(self).n,
                    old(self).walk@,
                    walk_labels@,
                    solution.labels@,
                    table(solution.edges@),
                )
                &&& solution.labels@.len() == old(self).n
                &&& is_table(table(solution.edges@))
                &&& table(solution.edges@).len() == old(self).n
                &&& solution.starting_room == 0
                &&& seq![solution.labels@[0]] + walk_from(
                    table(solution.edges@),
                    solution.labels@,
                    0,
                    door_plan(old(self).walk@),
                ) == walk_labels@
            },
    {
        let walk = self.plan();
        if !check_walk(&walk, walk_labels) {
            return Err(SolveError::BadResponse);
        }
        let state = match self.reconstruct_graph(&walk, walk_labels) {
            Ok(state) => state,
            Err(e) => {
                return Err(e);
            },
        };
        let edges = fill_doors(&state);
        let labels = match known_labels(&state.labels) {
            Some(labels) => labels,
            None => {
                proof {
                    let u = choose|u: int|
                        0 <= u < state.labels@.len() && (#[trigger] state.labels@[u]) is None;
                    assert(state@.labels[u] is None);
                    assert(state@.assigned < self.n);
                    assert(search_ends_in(self.n, walk@, walk_labels@, state@));
                }
                return Err(SolveError::UnknownLabel);
            },
        };
        proof {
            assert(state@.assigned == self.n) by {
                if state@.assigned < self.n {
                    assert(state@.labels[state@.assigned as int] is Some);
                }
            }
            assert(search_ends_in(self.n, walk@, walk_labels@, state@));
            lemma_reproduces(state@, walk@, walk_labels@, labels@, 0);
            assert(door_plan(walk@).skip(0) =~= door_plan(walk@));
            assert(state@.to_id[0] is Some);
            assert(state@.labels[0] == Some(walk_labels@[0]));
            assert(walk_labels@ =~= seq![walk_labels@[0]] + walk_labels@.skip(1));
        }
        Ok(Solution { labels, edges, starting_room: 0 })
    }
}


impl Solver5 {
    /// A solver for a graph of `n` rooms, drawing its plan from a generator
    /// with a fixed seed.
    pub fn new(n: usize) -> (solver: Self)
        requires
            n * WALK_FACTOR <= usize::MAX,
        ensures
            solver.inner.n == n,
            solver.inner.dfs_calls == 0,
            solver.inner.plain,
            solver.inner.walk@.len() == n * WALK_FACTOR,
            all_doors(solver.inner.walk@),
    {
        Self::with_seed(n, 42)
    }

    /// A solver for a graph of `n` rooms, drawing its plan from a generator
    /// with the given seed.
    pub fn with_seed(n: usize, seed: u64) -> (solver: Self)
        requires
            n * WALK_FACTOR <= usize::MAX,
        ensures
            solver.inner.n == n,
            solver.inner.dfs_calls == 0,
            solver.inner.plain,
            solver.inner.walk@.len() == n * WALK_FACTOR,
            all_doors(solver.inner.walk@),
    {
        let mut rng = seeded_rng(seed);
        let walk = random_doors(&mut rng, n * WALK_FACTOR);
        Self { inner: Solver6 { n, walk, dfs_calls: 0, plain: true, rng: seeded_rng(seed) } }
    }

    /// The one plan that the solver asks the oracle to walk.
    pub fn plan(&self) -> (doors: Vec<usize>)
        ensures
            doors@ == self.inner.walk@,
    {
        self.inner.plan()
    }

    /// Assigns the walk positions that are not yet assigned, trying the
    /// rooms that bear a position's label in the order of falling degree.
    pub fn dfs(&mut self, state: &mut SearchState, walk: &Vec<usize>, walk_labels: &Vec<usize>) -> (found:
        bool)
        requires
            old(state)@.wf(),
            walk_ok(walk@, walk_labels@),
            old(state)@.positions() == walk_labels@.len(),
            old(state)@.fits(walk@, walk_labels@),
            old(state)@.rooms() == old(self).inner.n,
        ensures
            final(self).inner.n == old(self).inner.n,
            final(self).inner.plain == old(self).inner.plain,
            final(self).inner.walk == old(self).inner.walk,
            final(state)@.wf(),
            final(state)@.rooms() == old(state)@.rooms(),
            final(state)@.positions() == old(state)@.positions(),
            found ==> complete(final(state)@) && final(state)@.fits(walk@, walk_labels@)
                && extends(old(state)@, final(state)@),
            !found ==> final(state)@ == old(state)@,
            old(self).inner.dfs_calls > MAX_EXPANSIONS ==> !found,
            old(self).inner.dfs_calls <= MAX_EXPANSIONS && complete(old(state)@) ==> found,
            final(self).inner.dfs_calls >= old(self).inner.dfs_calls,
            !found && final(self).inner.dfs_calls <= MAX_EXPANSIONS ==> !solvable(
                old(state)@,
                walk@,
                walk_labels@,
            ),
            found ==> leads(old(state)@, walk@, walk_labels@, final(state)@),
            final(self).inner.dfs_calls <= old(self).inner.dfs_calls + expansions_from(
                old(self).inner.n as nat,
                old(state)@.to_id,
            ),
    {
        self.inner.dfs(state, walk, walk_labels)
    }

    /// Searches for an assignment of all walk positions that fits the walk
    /// and its trace.
    pub fn reconstruct_graph(&mut self, walk: &Vec<usize>, walk_labels: &Vec<usize>) -> (res:
        Result<SearchState, SolveError>)
        requires
            walk_ok(walk@, walk_labels@),
        ensures
            final(self).inner.n == old(self).inner.n,
            final(self).inner.walk == old(self).inner.walk,
            match res {
                Ok(state) => {
                    &&& state@.wf()
                    &&& state@.rooms() == old(self).inner.n
                    &&& state@.positions() == walk_labels@.len()
                    &&& complete(state@)
                    &&& state@.fits(walk@, walk_labels@)
                    &&& state@.to_id[0] == Some(0usize)
                    &&& search_ends_in(old(self).inner.n, walk@, walk_labels@, state@)
                },
                Err(e) => e is SearchFailed,
            },
            final(self).inner.dfs_calls >= old(self).inner.dfs_calls,
            final(self).inner.dfs_calls <= old(self).inner.dfs_calls + expansions(
                old(self).inner.n as nat,
                walk_labels@.len(),
            ),
            res is Err && final(self).inner.dfs_calls <= MAX_EXPANSIONS ==> !searchable(
                old(self).inner.n,
                walk@,
                walk_labels@,
            ),
    {
        self.inner.reconstruct_graph(walk, walk_labels)
    }

    /// Turns the oracle's trace of the plan into a graph that shows the
    /// trace when the plan is walked on it.
    pub fn solve(&mut self, walk_labels: &Vec<usize>) -> (res: Result<Solution, SolveError>)
        ensures
            final(self).inner.n == old(self).inner.n,
            final(self).inner.walk == old(self).inner.walk,
            res is Err ==> res->Err_0 is BadResponse || res->Err_0 is SearchFailed
                || res->Err_0 is UnknownLabel,
            res matches Err(e) && e is BadResponse <==> !walk_ok(
                old(self).inner.walk@,
                walk_labels@,
            ),
            final(self).inner.dfs_calls >= old(self).inner.dfs_calls,
            final(self).inner.dfs_calls <= old(self).inner.dfs_calls + expansions(
                old(self).inner.n as nat,
                walk_labels@.len(),
            ),
            res matches Err(e) && e is SearchFailed && final(self).inner.dfs_calls
                <= MAX_EXPANSIONS ==> !searchable(
                old(self).inner.n,
                old(self).inner.walk@,
                walk_labels@,
            ),
            res matches Err(e) && e is UnknownLabel ==> search_ends_short(
                old(self).inner.n,
                old(self).inner.walk@,
                walk_labels@,
            ),
            res matches Ok(solution) ==> {
                &&& search_gives(
                    old(self).inner.n,
                    old(self).inner.walk@,
                    walk_labels@,
                    solution.labels@,
                    table(solution.edges@),
                )
                &&& solution.labels@.len() == old(self).inner.n
                &&& is_table(table(solution.edges@))
                &&& table(solution.edges@).len() == old(self).inner.n
                &&& solution.starting_room == 0
                &&& seq![solution.labels@[0]] + walk_from(
                    table(solution.edges@),
                    solution.labels@,
                    0,
                    door_plan(old(self).inner.walk@),
                ) == walk_labels@
            },
    {
        self.inner.solve(walk_labels)
    }
}

} // verus!
