//! The rewrite-encoded identifier solver for the rewriting oracle: rooms are
//! told apart by numbers written onto them as labels during a walk.
//!
//! The classification rounds find for every walk position the room it lies
//! in. The doors that the walk never took are then resolved by footprints
//! and, where footprints are shared, by numbers written onto the candidates.

use vstd::prelude::*;
use crate::csp::Solution;
use crate::error::SolveError;
use crate::first_visits::{
    lemma_marking_shows_first_visits, lemma_repr_numbers, lemma_reprs_are_rooms_reached,
    lemma_trace_shows_labels, rooms_reached, seen_before,
};
use crate::graph::{walk_from, Graph};
use crate::rewrite_rounds::{
    finishes, footprint_round, lemma_goal_located, lemma_goal_probed, lemma_goal_round,
    lemma_goal_settled, lemma_numbering_len, numbering_round, probe_round, resolves,
    resolves_doors, resolves_pending, truthful, Rooms,
};
use crate::room_numbers::{
    first_visits, follows, lemma_located_truthfully, lemma_solution_reproduces, numbers_fit,
    truthful_numbers,
};
use crate::plan::{
    all_doors, door_plan, doors_ok, plan_of_doors, plan_ok, random_doors, step_ok, WalkStep,
};
use crate::problem::{DEGREE, LABELS};
use crate::table::{is_table, row_ok, table};
use crate::rng::{random_below, seeded_rng};
use crate::walk_identify::{check_doors, same_from, suffix};

verus! {

/// Door steps of the discriminator.
pub const DISCRIMINATOR_LEN: usize = 6;

/// Most rooms of a graph that this solver takes on: the numbers that it
/// spells stay below the number of doors, and four times that number must
/// be a number of this machine.
pub const MAX_ROOMS: usize = usize::MAX / 24;

/// The trace has the length and is made of labels.
pub open spec fn trace_ok(trace: Seq<usize>, len: nat) -> bool {
    &&& trace.len() == len
    &&& forall|i: int| 0 <= i < trace.len() ==> #[trigger] trace[i] < LABELS
}

/// Decides whether a trace has the length and is made of labels.
pub fn check_trace(trace: &Vec<usize>, len: usize) -> (ok: bool)
    ensures
        ok == trace_ok(trace@, len as nat),
{
    if trace.len() != len {
        return false;
    }
    let mut i: usize = 0;
    while i < trace.len()
        invariant
            i <= trace@.len(),
            forall|k: int| 0 <= k < i ==> #[trigger] trace@[k] < LABELS,
        decreases trace@.len() - i,
    {
        if trace[i] >= LABELS {
            return false;
        }
        i += 1;
    }
    true
}

/// The marking plan: before every door of the walk, the label seen at that
/// position in the first round, raised by one, is written.
pub open spec fn marking(walk: Seq<usize>, first: Seq<usize>) -> Seq<WalkStep> {
    Seq::new(
        2 * walk.len(),
        |k: int|
            if k % 2 == 0 {
                WalkStep::Rewrite(((first[k / 2] + 1) % (LABELS as int)) as usize)
            } else {
                WalkStep::Edge(walk[k / 2])
            },
    )
}

/// Whether walk position `i` is a representative: the marking plan shows
/// there the label of the first round, so no mark was on the room yet.
pub open spec fn is_repr(first: Seq<usize>, second: Seq<usize>, i: int) -> bool {
    first[i] == second[2 * i]
}

/// Number of representatives among the positions below `m`.
pub open spec fn count_repr(repr: Seq<bool>, m: int) -> nat
    decreases m,
{
    if m <= 0 {
        0
    } else {
        count_repr(repr, m - 1) + if repr[m - 1] {
            1nat
        } else {
            0nat
        }
    }
}

/// The representatives below `m` that show the label `l`, in rising order.
pub open spec fn label_positions(first: Seq<usize>, repr: Seq<bool>, l: usize, m: int) -> Seq<
    usize,
>
    decreases m,
{
    if m <= 0 {
        Seq::empty()
    } else if repr[m - 1] && first[m - 1] == l {
        label_positions(first, repr, l, m - 1).push((m - 1) as usize)
    } else {
        label_positions(first, repr, l, m - 1)
    }
}

/// The weights of the digits in which the numbers of the representatives
/// are written: powers of four below the limit.
pub open spec fn weights(limit: int, base: int) -> Seq<usize>
    decreases
            (if base < limit {
                limit - base
            } else {
                0
            }),
{
    if base <= 0 || base >= limit {
        Seq::empty()
    } else {
        seq![base as usize] + weights(limit, base * 4)
    }
}

/// Most representatives of one label in a graph of `n` rooms with balanced
/// labels.
pub open spec fn label_share(n: int) -> int {
    (n + LABELS - 1) / (LABELS as int)
}

/// The numbering plan for one digit, as far as the positions below `m`:
/// every representative is given the digit of its number among the
/// representatives of its label, then the door of the walk is taken.
pub open spec fn numbering(
    walk: Seq<usize>,
    first: Seq<usize>,
    repr: Seq<bool>,
    base: int,
    m: int,
) -> Seq<WalkStep>
    decreases m,
{
    if m <= 0 {
        Seq::empty()
    } else {
        let i = m - 1;
        let digit = (label_positions(first, repr, first[i], i).len() as int / base) % (
        LABELS as int);
        let write = if repr[i] {
            seq![WalkStep::Rewrite(digit as usize)]
        } else {
            Seq::empty()
        };
        let go = if i < walk.len() {
            seq![WalkStep::Edge(walk[i])]
        } else {
            Seq::empty()
        };
        numbering(walk, first, repr, base, i) + write + go
    }
}

/// Where a numbering plan stands when it arrives at position `i`.
pub open spec fn offset(repr: Seq<bool>, i: int) -> int {
    i + count_repr(repr, i)
}

/// The number spelled by the labels that the traces from the `j`-th on show
/// at a place, the first trace giving the lowest digit.
pub open spec fn digit_value(traces: Seq<Vec<usize>>, place: int, j: int) -> int
    decreases traces.len() - j,
{
    if j < 0 || j >= traces.len() {
        0
    } else {
        traces[j]@[place] + 4 * digit_value(traces, place, j + 1)
    }
}

/// The room of every walk position, given the representatives and the
/// traces of the numbering plans: a representative founds the room with its
/// number among all representatives; another position lies in the room of
/// the representative of its label whose number the traces spell there.
pub open spec fn room_of(
    first: Seq<usize>,
    repr: Seq<bool>,
    third: Seq<Vec<usize>>,
    i: int,
) -> int {
    if repr[i] {
        count_repr(repr, i) as int
    } else {
        let list = label_positions(first, repr, first[i], first.len() as int);
        let p = list[digit_value(third, offset(repr, i), 0)] as int;
        count_repr(repr, p) as int
    }
}

/// The room of every walk position.
pub open spec fn rooms_of(first: Seq<usize>, repr: Seq<bool>, third: Seq<Vec<usize>>) -> Seq<
    usize,
> {
    Seq::new(first.len(), |i: int| room_of(first, repr, third, i) as usize)
}

/// The traces of the numbering plans spell, at every position that is no
/// representative, the number of a representative of its label.
pub open spec fn numbers_ok(first: Seq<usize>, repr: Seq<bool>, third: Seq<Vec<usize>>) -> bool {
    forall|i: int|
        0 <= i < first.len() && !repr[i] ==> #[trigger] digit_value(third, offset(repr, i), 0)
            < label_positions(first, repr, first[i], first.len() as int).len()
}

/// The solver that resolves every pending door from the walk alone and
/// fails the trial where that cannot be done. Its rounds are those of
/// `Solver4` without walking back.
pub struct Solver3 {
    inner: Solver4,
}

impl Solver3 {
    #[verifier::type_invariant]
    spec fn inv(self) -> bool {
        !self.inner.backward
    }

    /// The rounds of the solver.
    pub closed spec fn rounds(self) -> Solver4 {
        self.inner
    }

    /// A solver for a graph of `n` rooms that does not walk back, with the
    /// discriminator and the walk drawn from a generator with a fixed seed.
    pub fn new(n: usize) -> (solver: Self)
        requires
            2 <= n <= MAX_ROOMS,
        ensures
            solver.rounds().rooms() == n,
            !solver.rounds().walks_back(),
            base_ok(n, solver.rounds().probe(), solver.rounds().walk()),
    {
        Self::with_seed(n, 42)
    }

    /// A solver for a graph of `n` rooms that does not walk back, with the
    /// discriminator and the walk drawn from a generator with the given
    /// seed.
    pub fn with_seed(n: usize, seed: u64) -> (solver: Self)
        requires
            2 <= n <= MAX_ROOMS,
        ensures
            solver.rounds().rooms() == n,
            !solver.rounds().walks_back(),
            base_ok(n, solver.rounds().probe(), solver.rounds().walk()),
    {
        Solver3 { inner: Solver4::with_seed(n, false, seed) }
    }

    /// Hands out the rounds, to be run against an oracle.
    pub fn into_rounds(self) -> (rounds: Solver4)
        ensures
            rounds == self.rounds(),
            !rounds.walks_back(),
    {
        proof {
            use_type_invariant(&self);
        }
        self.inner
    }

    /// Runs the solver's rounds against a graph that answers every plan
    /// truthfully. A graph comes out exactly when the walk reaches as many
    /// rooms of the graph as the solver was made for and the rounds after
    /// the walk resolve without walking back.
    pub fn solve(self, hidden: &Graph) -> (res: Result<Solution, SolveError>)
        requires
            hidden.wf(),
        ensures
            res matches Ok(solution) ==> {
                &&& solution.labels@.len() == self.rounds().rooms()
                &&& solution.starting_room == 0
                &&& is_table(table(solution.edges@))
                &&& table(solution.edges@).len() == self.rounds().rooms()
                &&& solution.labels@[0] == hidden.labels@[hidden.start_node as int]
            },
            numbers_fit(*hidden, self.rounds().walk(), self.rounds().rooms()) ==> (
            res matches Ok(solution) ==> seq![solution.labels@[0]] + walk_from(
                table(solution.edges@),
                solution.labels@,
                0,
                door_plan(self.rounds().walk()),
            ) == hidden.trace(door_plan(self.rounds().walk()))),
            (res matches Err(e) && e is WrongRoomCount) <==> rooms_reached(
                *hidden,
                self.rounds().walk(),
                self.rounds().walk().len() as int + 1,
            ) != self.rounds().rooms(),
            res matches Err(e) ==> e is WrongRoomCount || e is BadResponse || e is UnknownSignature
                || e is CandidateTooLate,
            res is Ok <==> rooms_reached(
                *hidden,
                self.rounds().walk(),
                self.rounds().walk().len() as int + 1,
            ) == self.rounds().rooms() && resolves(
                *hidden,
                self.rounds().walk(),
                self.rounds().probe(),
                false,
                self.rounds().rooms(),
            ),
    {
        proof {
            use_type_invariant(&self);
        }
        self.inner.solve(hidden)
    }
}

/// The solver before its first round.
pub struct Solver4 {
    n: usize,
    backward: bool,
    discriminator: Vec<WalkStep>,
    random_walk: Vec<usize>,
}

/// The solver after its first round, with the labels seen along the walk.
pub struct Marked {
    n: usize,
    backward: bool,
    discriminator: Vec<WalkStep>,
    random_walk: Vec<usize>,
    first: Vec<usize>,
}

/// The solver after its second round, with the representatives.
pub struct Numbered {
    n: usize,
    backward: bool,
    discriminator: Vec<WalkStep>,
    random_walk: Vec<usize>,
    first: Vec<usize>,
    repr: Vec<bool>,
    pos_by_labels: Vec<Vec<usize>>,
}

/// What every stage of the solver holds: the number of rooms, the
/// discriminator and the walk.
pub open spec fn base_ok(n: usize, discriminator: Seq<WalkStep>, walk: Seq<usize>) -> bool {
    &&& 2 <= n <= MAX_ROOMS
    &&& discriminator.len() == 2 * DISCRIMINATOR_LEN
    &&& plan_ok(discriminator)
    &&& walk.len() == n * DEGREE - DISCRIMINATOR_LEN - 1
    &&& all_doors(walk)
}

impl Solver4 {
    #[verifier::type_invariant]
    spec fn inv(self) -> bool {
        base_ok(self.n, self.discriminator@, self.random_walk@)
    }

    /// Number of rooms.
    pub closed spec fn rooms(self) -> nat {
        self.n as nat
    }

    /// Whether doors left open by the forward stage are resolved by walking
    /// on to a neighbour.
    pub closed spec fn walks_back(self) -> bool {
        self.backward
    }

    /// The random walk.
    pub closed spec fn walk(self) -> Seq<usize> {
        self.random_walk@
    }

    /// The discriminator.
    pub closed spec fn probe(self) -> Seq<WalkStep> {
        self.discriminator@
    }

    /// A solver for a graph of `n` rooms. The discriminator takes the doors
    /// `0` to `5` in turn and writes a drawn label after each; the walk has
    /// `6 n - 7` drawn doors. Both are drawn from a generator with a fixed
    /// seed.
    pub fn new(n: usize) -> (solver: Self)
        requires
            2 <= n <= MAX_ROOMS,
        ensures
            solver.rooms() == n,
            solver.walks_back(),
            base_ok(n, solver.probe(), solver.walk()),
    {
        Self::with_seed(n, true, 42)
    }

    /// A solver for a graph of `n` rooms that walks back or not, with the
    /// discriminator and the walk drawn from a generator with the given
    /// seed.
    pub fn with_seed(n: usize, backward: bool, seed: u64) -> (solver: Self)
        requires
            2 <= n <= MAX_ROOMS,
        ensures
            solver.rooms() == n,
            solver.walks_back() == backward,
            base_ok(n, solver.probe(), solver.walk()),
            forall|i: int|
                0 <= i < DISCRIMINATOR_LEN ==> #[trigger] solver.probe()[2 * i] == WalkStep::Edge(
                    i as usize,
                ),
    {
        let mut rng = seeded_rng(seed);
        let mut discriminator: Vec<WalkStep> = Vec::new();
        let mut i: usize = 0;
        while i < DISCRIMINATOR_LEN
            invariant
                i <= DISCRIMINATOR_LEN,
                discriminator@.len() == 2 * i,
                plan_ok(discriminator@),
                forall|k: int|
                    0 <= k < i ==> #[trigger] discriminator@[2 * k] == WalkStep::Edge(k as usize),
            decreases DISCRIMINATOR_LEN - i,
        {
            let ghost before = discriminator@;
            discriminator.push(WalkStep::Edge(i % DEGREE));
            discriminator.push(WalkStep::Rewrite(random_below(&mut rng, LABELS)));
            proof {
                assert forall|k: int| 0 <= k < i + 1 implies #[trigger] discriminator@[2 * k]
                    == WalkStep::Edge(k as usize) by {
                    if k < i {
                        assert(discriminator@[2 * k] == before[2 * k]);
                    }
                }
                assert forall|k: int| 0 <= k < discriminator@.len() implies step_ok(
                    #[trigger] discriminator@[k],
                ) by {
                    if k < before.len() {
                        assert(discriminator@[k] == before[k]);
                        assert(step_ok(before[k]));
                    }
                }
            }
            i += 1;
        }
        let random_walk = random_doors(&mut rng, n * DEGREE - DISCRIMINATOR_LEN - 1);
        Self { n, backward, discriminator, random_walk }
    }

    /// A solver for a graph of `n` rooms with a given discriminator and
    /// walk, if they are a discriminator and a walk for that size.
    pub fn with_walks(
        n: usize,
        backward: bool,
        discriminator: Vec<WalkStep>,
        random_walk: Vec<usize>,
    ) -> (solver: Option<Self>)
        ensures
            solver is Some <==> base_ok(n, discriminator@, random_walk@),
            solver matches Some(s) ==> s.rooms() == n && s.walks_back() == backward && s.probe()
                == discriminator@ && s.walk() == random_walk@,
    {
        if n < 2 || n > MAX_ROOMS {
            return None;
        }
        if discriminator.len() != 2 * DISCRIMINATOR_LEN || random_walk.len() != n * DEGREE
            - DISCRIMINATOR_LEN - 1 {
            return None;
        }
        if !check_plan(&discriminator) || !check_doors(&random_walk) {
            return None;
        }
        Some(Self { n, backward, discriminator, random_walk })
    }

    /// The plan of the first round: the walk.
    pub fn first_plan(&self) -> (doors: Vec<usize>)
        ensures
            doors@ == self.walk(),
    {
        let doors = self.random_walk.clone();
        proof {
            assert(doors@ =~= self.random_walk@);
        }
        doors
    }

    /// Takes the trace of the walk.
    pub fn mark(self, first: &Vec<usize>) -> (res: Result<Marked, SolveError>)
        ensures
            match res {
                Ok(m) => {
                    &&& trace_ok(first@, self.walk().len() + 1)
                    &&& m.rooms() == self.rooms()
                    &&& m.walks_back() == self.walks_back()
                    &&& m.walk() == self.walk()
                    &&& m.probe() == self.probe()
                    &&& m.seen() == first@
                },
                Err(e) => e is BadResponse && !trace_ok(first@, self.walk().len() + 1),
            },
    {
        proof {
            use_type_invariant(&self);
        }
        if !check_trace(first, self.random_walk.len() + 1) {
            return Err(SolveError::BadResponse);
        }
        let seen = first.clone();
        proof {
            assert(seen@ =~= first@);
        }
        Ok(
            Marked {
                n: self.n,
                backward: self.backward,
                discriminator: self.discriminator,
                random_walk: self.random_walk,
                first: seen,
            },
        )
    }
}

/// Decides whether every step names a door or a label that exists.
pub fn check_plan(plan: &Vec<WalkStep>) -> (ok: bool)
    ensures
        ok == plan_ok(plan@),
{
    let mut i: usize = 0;
    while i < plan.len()
        invariant
            i <= plan@.len(),
            forall|k: int| 0 <= k < i ==> step_ok(#[trigger] plan@[k]),
        decreases plan@.len() - i,
    {
        let ok = match plan[i] {
            WalkStep::Edge(d) => d < DEGREE,
            WalkStep::Rewrite(l) => l < LABELS,
        };
        if !ok {
            return false;
        }
        i += 1;
    }
    true
}

impl Marked {
    #[verifier::type_invariant]
    spec fn inv(self) -> bool {
        &&& base_ok(self.n, self.discriminator@, self.random_walk@)
        &&& trace_ok(self.first@, self.random_walk@.len() + 1)
    }

    /// Number of rooms.
    pub closed spec fn rooms(self) -> nat {
        self.n as nat
    }

    /// Whether doors left open by the forward stage are resolved by walking
    /// on to a neighbour.
    pub closed spec fn walks_back(self) -> bool {
        self.backward
    }

    /// The random walk.
    pub closed spec fn walk(self) -> Seq<usize> {
        self.random_walk@
    }

    /// The discriminator.
    pub closed spec fn probe(self) -> Seq<WalkStep> {
        self.discriminator@
    }

    /// The labels seen along the walk.
    pub closed spec fn seen(self) -> Seq<usize> {
        self.first@
    }

    /// The plan of the second round.
    pub fn marking_plan(&self) -> (plan: Vec<WalkStep>)
        ensures
            plan@ == marking(self.walk(), self.seen()),
            plan_ok(plan@),
    {
        proof {
            use_type_invariant(self);
        }
        let mut walk: Vec<WalkStep> = Vec::new();
        let mut i: usize = 0;
        while i < self.random_walk.len()
            invariant
                i <= self.random_walk@.len(),
                self.inv(),
                walk@.len() == 2 * i,
                plan_ok(walk@),
                forall|k: int|
                    0 <= k < 2 * i ==> #[trigger] walk@[k] == marking(
                        self.random_walk@,
                        self.first@,
                    )[k],
            decreases self.random_walk@.len() - i,
        {
            let ghost before = walk@;
            walk.push(WalkStep::Rewrite((self.first[i] + 1) % LABELS));
            walk.push(WalkStep::Edge(self.random_walk[i]));
            proof {
                assert forall|k: int| 0 <= k < 2 * (i + 1) implies #[trigger] walk@[k] == marking(
                    self.random_walk@,
                    self.first@,
                )[k] by {
                    if k < 2 * i {
                        assert(walk@[k] == before[k]);
                    }
                }
                assert forall|k: int| 0 <= k < walk@.len() implies step_ok(#[trigger] walk@[k]) by {
                    if k < 2 * i {
                        assert(walk@[k] == before[k]);
                        assert(step_ok(before[k]));
                    }
                }
            }
            i += 1;
        }
        proof {
            assert(walk@ =~= marking(self.random_walk@, self.first@));
        }
        walk
    }

    /// Takes the trace of the marking plan and finds the representatives.
    /// They must be as many as the graph has rooms.
    pub fn number(self, second: &Vec<usize>) -> (res: Result<Numbered, SolveError>)
        ensures
            match res {
                Ok(m) => {
                    &&& trace_ok(second@, 2 * self.walk().len() + 1)
                    &&& m.rooms() == self.rooms()
                    &&& m.walks_back() == self.walks_back()
                    &&& m.walk() == self.walk()
                    &&& m.probe() == self.probe()
                    &&& m.seen() == self.seen()
                    &&& m.reprs().len() == self.seen().len()
                    &&& forall|i: int|
                        0 <= i < self.seen().len() ==> #[trigger] m.reprs()[i] == is_repr(
                            self.seen(),
                            second@,
                            i,
                        )
                    &&& count_repr(m.reprs(), self.seen().len() as int) == self.rooms()
                },
                Err(SolveError::BadResponse) => !trace_ok(second@, 2 * self.walk().len() + 1),
                Err(SolveError::WrongRoomCount) => {
                    &&& trace_ok(second@, 2 * self.walk().len() + 1)
                    &&& count_repr(
                        Seq::new(self.seen().len(), |i: int| is_repr(self.seen(), second@, i)),
                        self.seen().len() as int,
                    ) != self.rooms()
                },
                Err(_) => false,
            },
    {
        proof {
            use_type_invariant(&self);
        }
        let random_walk_len = self.random_walk.len();
        if !check_trace(second, 2 * random_walk_len + 1) {
            return Err(SolveError::BadResponse);
        }
        let ghost wanted = Seq::new(self.first@.len(), |i: int| is_repr(self.first@, second@, i));
        let mut repr: Vec<bool> = Vec::new();
        let mut new_ix: usize = 0;
        let mut pos_by_labels: Vec<Vec<usize>> = Vec::new();
        let mut l: usize = 0;
        while l < LABELS
            invariant
                l <= LABELS,
                pos_by_labels@.len() == l,
                forall|q: int| 0 <= q < l ==> (#[trigger] pos_by_labels@[q])@.len() == 0,
            decreases LABELS - l,
        {
            pos_by_labels.push(Vec::new());
            l += 1;
        }
        let mut i: usize = 0;
        proof {
            assert forall|q: int| 0 <= q < LABELS implies (#[trigger] pos_by_labels@[q])@
                == label_positions(self.first@, repr@, q as usize, 0) by {
                assert(pos_by_labels@[q]@ =~= Seq::<usize>::empty());
            }
        }
        while i <= random_walk_len
            invariant
                i <= random_walk_len + 1,
                self.inv(),
                random_walk_len == self.random_walk@.len(),
                trace_ok(second@, (2 * random_walk_len + 1) as nat),
                repr@.len() == i,
                forall|k: int| 0 <= k < i ==> #[trigger] repr@[k] == wanted[k],
                wanted == Seq::new(self.first@.len(), |k: int| is_repr(self.first@, second@, k)),
                new_ix == count_repr(repr@, i as int),
                new_ix <= i,
                pos_by_labels@.len() == LABELS,
                forall|q: int|
                    0 <= q < LABELS ==> (#[trigger] pos_by_labels@[q])@ == label_positions(
                        self.first@,
                        repr@,
                        q as usize,
                        i as int,
                    ),
            decreases random_walk_len + 1 - i,
        {
            let ghost before = repr@;
            let ghost lists = pos_by_labels@;
            let is = self.first[i] == second[2 * i];
            if is {
                new_ix += 1;
                pos_by_labels[self.first[i]].push(i);
            }
            repr.push(is);
            proof {
                lemma_count_repr_same(before, repr@, i as int);
                assert forall|q: int| 0 <= q < LABELS implies (#[trigger] pos_by_labels@[q])@
                    == label_positions(self.first@, repr@, q as usize, i as int + 1) by {
                    lemma_label_positions_same(self.first@, before, repr@, q as usize, i as int);
                    assert(lists[q]@ == label_positions(self.first@, before, q as usize, i as int));
                    if !(is && q == self.first@[i as int]) {
                        assert(pos_by_labels@[q]@ == lists[q]@);
                    }
                }
            }
            i += 1;
        }
        proof {
            assert(repr@ =~= wanted);
        }
        if new_ix != self.n {
            return Err(SolveError::WrongRoomCount);
        }
        Ok(
            Numbered {
                n: self.n,
                backward: self.backward,
                discriminator: self.discriminator,
                random_walk: self.random_walk,
                first: self.first,
                repr,
                pos_by_labels,
            },
        )
    }
}

/// The room that the walk leaves room `r` for through door `d`, going by the
/// last of the positions below `m` at which it does so.
pub open spec fn walked(ixs: Seq<usize>, walk: Seq<usize>, r: int, d: int, m: int) -> Option<
    usize,
>
    decreases m,
{
    if m <= 0 {
        None
    } else if ixs[m - 1] == r && walk[m - 1] == d {
        Some(ixs[m])
    } else {
        walked(ixs, walk, r, d, m - 1)
    }
}

/// The answer to the numbering plans has one trace of labels for every plan,
/// each one label longer than the plan.
pub open spec fn numbered_ok(third: Seq<Vec<usize>>, plans: nat, len: nat) -> bool {
    &&& third.len() == plans
    &&& forall|j: int| 0 <= j < third.len() ==> trace_ok((#[trigger] third[j])@, len)
}

/// Some walk position lies in room `r`.
pub open spec fn visited(ixs: Seq<usize>, r: int) -> bool {
    exists|i: int| 0 <= i < ixs.len() && #[trigger] ixs[i] == r
}

/// The solver after its third round: every walk position has its room.
pub struct Located {
    n: usize,
    backward: bool,
    discriminator: Vec<WalkStep>,
    random_walk: Vec<usize>,
    first: Vec<usize>,
    ixs: Vec<usize>,
    rw_pos: Vec<usize>,
    rw_last_pos: Vec<usize>,
    labels: Vec<usize>,
    edges: Vec<Vec<Option<usize>>>,
}

/// For every room the first and the last walk position that lies in it, the
/// label seen at the first, and behind every door the room that the walk
/// last left for through it.
pub open spec fn located_ok(
    n: usize,
    walk: Seq<usize>,
    first: Seq<usize>,
    ixs: Seq<usize>,
    rw_pos: Seq<usize>,
    rw_last_pos: Seq<usize>,
    labels: Seq<usize>,
    edges: Seq<Seq<Option<usize>>>,
) -> bool {
    &&& ixs.len() == walk.len() + 1
    &&& forall|i: int| 0 <= i < ixs.len() ==> #[trigger] ixs[i] < n
    &&& rw_pos.len() == n
    &&& rw_last_pos.len() == n
    &&& labels.len() == n
    &&& edges.len() == n
    &&& forall|r: int|
        0 <= r < n ==> {
            &&& (#[trigger] rw_pos[r]) <= rw_last_pos[r] < ixs.len()
            &&& ixs[rw_pos[r] as int] == r
            &&& ixs[rw_last_pos[r] as int] == r
            &&& labels[r] == first[rw_pos[r] as int]
            &&& forall|i: int| 0 <= i < rw_pos[r] ==> #[trigger] ixs[i] != r
            &&& forall|i: int| rw_last_pos[r] < i < ixs.len() ==> #[trigger] ixs[i] != r
        }
    &&& forall|r: int, d: int|
        0 <= r < n && 0 <= d < DEGREE ==> (#[trigger] edges[r]).len() == DEGREE
            && #[trigger] edges[r][d] == walked(ixs, walk, r, d, walk.len() as int)
}

impl Numbered {
    #[verifier::type_invariant]
    spec fn inv(self) -> bool {
        &&& base_ok(self.n, self.discriminator@, self.random_walk@)
        &&& trace_ok(self.first@, self.random_walk@.len() + 1)
        &&& self.repr@.len() == self.first@.len()
        &&& count_repr(self.repr@, self.first@.len() as int) == self.n
        &&& self.pos_by_labels@.len() == LABELS
        &&& forall|q: int|
            0 <= q < LABELS ==> (#[trigger] self.pos_by_labels@[q])@ == label_positions(
                self.first@,
                self.repr@,
                q as usize,
                self.first@.len() as int,
            )
    }

    /// Number of rooms.
    pub closed spec fn rooms(self) -> nat {
        self.n as nat
    }

    /// Whether doors left open by the forward stage are resolved by walking
    /// on to a neighbour.
    pub closed spec fn walks_back(self) -> bool {
        self.backward
    }

    /// The random walk.
    pub closed spec fn walk(self) -> Seq<usize> {
        self.random_walk@
    }

    /// The discriminator.
    pub closed spec fn probe(self) -> Seq<WalkStep> {
        self.discriminator@
    }

    /// The labels seen along the walk.
    pub closed spec fn seen(self) -> Seq<usize> {
        self.first@
    }

    /// Which walk positions are representatives.
    pub closed spec fn reprs(self) -> Seq<bool> {
        self.repr@
    }

    /// The plans of the third round: one numbering plan for every digit.
    pub fn numbering_plans(&self) -> (plans: Vec<Vec<WalkStep>>)
        ensures
            plans@.len() == weights(label_share(self.rooms() as int), 1).len(),
            forall|j: int|
                0 <= j < plans@.len() ==> (#[trigger] plans@[j])@ == numbering(
                    self.walk(),
                    self.seen(),
                    self.reprs(),
                    weights(label_share(self.rooms() as int), 1)[j] as int,
                    self.seen().len() as int,
                ),
    {
        proof {
            use_type_invariant(self);
        }
        let limit = (self.n + LABELS - 1) / LABELS;
        let random_walk_len = self.random_walk.len();
        let mut walks: Vec<Vec<WalkStep>> = Vec::new();
        let mut base: usize = 1;
        let ghost mut done: Seq<usize> = Seq::empty();
        proof {
            assert(done + weights(limit as int, 1) =~= weights(limit as int, 1));
        }
        while base < limit
            invariant
                1 <= base,
                limit <= MAX_ROOMS,
                self.inv(),
                random_walk_len == self.random_walk@.len(),
                limit == label_share(self.n as int),
                weights(limit as int, 1) == done + weights(limit as int, base as int),
                walks@.len() == done.len(),
                forall|j: int|
                    0 <= j < walks@.len() ==> (#[trigger] walks@[j])@ == numbering(
                        self.random_walk@,
                        self.first@,
                        self.repr@,
                        done[j] as int,
                        self.first@.len() as int,
                    ),
            decreases
                    (if base < limit {
                        limit - base
                    } else {
                        0
                    }),
        {
            let mut counter: Vec<usize> = vec![0; LABELS];
            let mut walk: Vec<WalkStep> = Vec::new();
            let mut i: usize = 0;
            while i <= random_walk_len
                invariant
                    i <= random_walk_len + 1,
                    1 <= base,
                    self.inv(),
                    random_walk_len == self.random_walk@.len(),
                    counter@.len() == LABELS,
                    forall|q: int|
                        0 <= q < LABELS ==> #[trigger] counter@[q] == label_positions(
                            self.first@,
                            self.repr@,
                            q as usize,
                            i as int,
                        ).len(),
                    forall|q: int| 0 <= q < LABELS ==> #[trigger] counter@[q] <= i,
                    walk@ == numbering(
                        self.random_walk@,
                        self.first@,
                        self.repr@,
                        base as int,
                        i as int,
                    ),
                decreases random_walk_len + 1 - i,
            {
                let ghost before = walk@;
                if self.repr[i] {
                    let li = self.first[i];
                    walk.push(WalkStep::Rewrite(counter[li] / base % LABELS));
                    counter[li] += 1;
                }
                if i < random_walk_len {
                    walk.push(WalkStep::Edge(self.random_walk[i]));
                }
                i += 1;
                proof {
                    assert(walk@ =~= numbering(
                        self.random_walk@,
                        self.first@,
                        self.repr@,
                        base as int,
                        i as int,
                    ));
                }
            }
            let ghost plans = walks@;
            walks.push(walk);
            proof {
                let rest = weights(limit as int, base as int);
                assert(rest =~= seq![base] + weights(limit as int, base * 4));
                assert(done.push(base) + weights(limit as int, base * 4) =~= done + rest);
                assert forall|j: int| 0 <= j < walks@.len() implies (#[trigger] walks@[j])@
                    == numbering(
                    self.random_walk@,
                    self.first@,
                    self.repr@,
                    done.push(base)[j] as int,
                    self.first@.len() as int,
                ) by {
                    if j < plans.len() {
                        assert(walks@[j] == plans[j]);
                    }
                }
                done = done.push(base);
            }
            base = base * 4;
        }
        proof {
            assert(weights(limit as int, base as int) =~= Seq::<usize>::empty());
            assert(done + Seq::<usize>::empty() =~= done);
        }
        walks
    }

    /// Number of numbering plans.
    fn digits(&self) -> (count: usize)
        ensures
            count == weights(label_share(self.rooms() as int), 1).len(),
            count <= MAX_ROOMS,
    {
        proof {
            use_type_invariant(self);
        }
        let limit = (self.n + LABELS - 1) / LABELS;
        let mut count: usize = 0;
        let mut base: usize = 1;
        while base < limit
            invariant
                1 <= base,
                limit <= MAX_ROOMS,
                count < base,
                count <= limit,
                weights(limit as int, 1).len() == count + weights(limit as int, base as int).len(),
            decreases
                    (if base < limit {
                        limit - base
                    } else {
                        0
                    }),
        {
            proof {
                let rest = weights(limit as int, base as int);
                assert(rest =~= seq![base] + weights(limit as int, base * 4));
            }
            count += 1;
            base = base * 4;
        }
        count
    }

    /// Takes the traces of the numbering plans and finds the room of every
    /// walk position, and with it the first and last position of every room,
    /// its label, and what the walk tells of its doors.
    pub fn locate(self, third: &Vec<Vec<usize>>) -> (res: Result<Located, SolveError>)
        ensures
            match res {
                Ok(m) => {
                    &&& numbered_ok(
                        third@,
                        weights(label_share(self.rooms() as int), 1).len(),
                        self.walk().len() + self.rooms() + 1,
                    )
                    &&& numbers_ok(self.seen(), self.reprs(), third@)
                    &&& m.rooms() == self.rooms()
                    &&& m.walks_back() == self.walks_back()
                    &&& m.walk() == self.walk()
                    &&& m.probe() == self.probe()
                    &&& forall|i: int|
                        0 <= i < self.seen().len() ==> #[trigger] m.room_at()[i] == room_of(
                            self.seen(),
                            self.reprs(),
                            third@,
                            i,
                        )
                    &&& located_ok(
                        self.rooms() as usize,
                        self.walk(),
                        self.seen(),
                        m.room_at(),
                        m.first_at(),
                        m.last_at(),
                        m.room_labels(),
                        m.doors(),
                    )
                },
                Err(SolveError::BadResponse) => !numbered_ok(
                    third@,
                    weights(label_share(self.rooms() as int), 1).len(),
                    self.walk().len() + self.rooms() + 1,
                ) || !numbers_ok(self.seen(), self.reprs(), third@),
                Err(SolveError::WrongRoomCount) => {
                    &&& numbered_ok(
                        third@,
                        weights(label_share(self.rooms() as int), 1).len(),
                        self.walk().len() + self.rooms() + 1,
                    )
                    &&& numbers_ok(self.seen(), self.reprs(), third@)
                    &&& exists|r: int|
                        0 <= r < self.rooms() && !#[trigger] visited(
                            rooms_of(self.seen(), self.reprs(), third@),
                            r,
                        )
                },
                Err(_) => false,
            },
    {
        proof {
            use_type_invariant(&self);
        }
        let random_walk_len = self.random_walk.len();
        let plans = self.digits();
        let trace_len = random_walk_len + self.n + 1;
        if third.len() != plans {
            return Err(SolveError::BadResponse);
        }
        let mut j: usize = 0;
        while j < third.len()
            invariant
                j <= third@.len(),
                trace_len == self.random_walk@.len() + self.n + 1,
                third@.len() == weights(label_share(self.n as int), 1).len(),
                forall|q: int| 0 <= q < j ==> trace_ok((#[trigger] third@[q])@, trace_len as nat),
            decreases third@.len() - j,
        {
            if !check_trace(&third[j], trace_len) {
                return Err(SolveError::BadResponse);
            }
            j += 1;
        }
        // The number of every position among the representatives.
        let mut numbers: Vec<usize> = Vec::new();
        let mut count: usize = 0;
        let mut i: usize = 0;
        while i <= random_walk_len
            invariant
                i <= random_walk_len + 1,
                self.inv(),
                random_walk_len == self.random_walk@.len(),
                numbers@.len() == i,
                count == count_repr(self.repr@, i as int),
                count <= i,
                forall|k: int| 0 <= k < i ==> #[trigger] numbers@[k] == count_repr(self.repr@, k),
            decreases random_walk_len + 1 - i,
        {
            numbers.push(count);
            if self.repr[i] {
                count += 1;
            }
            i += 1;
        }
        let ghost wanted = rooms_of(self.first@, self.repr@, third@);
        let mut ixs: Vec<usize> = Vec::new();
        let mut i: usize = 0;
        while i <= random_walk_len
            invariant
                i <= random_walk_len + 1,
                self.inv(),
                random_walk_len == self.random_walk@.len(),
                trace_len == random_walk_len + self.n + 1,
                numbered_ok(third@, plans as nat, trace_len as nat),
                numbers@.len() == random_walk_len + 1,
                forall|k: int|
                    0 <= k <= random_walk_len ==> #[trigger] numbers@[k] == count_repr(
                        self.repr@,
                        k,
                    ),
                ixs@.len() == i,
                forall|k: int|
                    0 <= k < i ==> #[trigger] ixs@[k] == room_of(
                        self.first@,
                        self.repr@,
                        third@,
                        k,
                    ) && ixs@[k] < self.n,
                forall|k: int|
                    0 <= k < i && !self.repr@[k] ==> #[trigger] digit_value(
                        third@,
                        offset(self.repr@, k),
                        0,
                    ) < label_positions(
                        self.first@,
                        self.repr@,
                        self.first@[k],
                        self.first@.len() as int,
                    ).len(),
            decreases random_walk_len + 1 - i,
        {
            proof {
                lemma_count_repr_mono(self.repr@, i as int, self.first@.len() as int);
            }
            if self.repr[i] {
                proof {
                    lemma_count_repr_mono(self.repr@, i as int + 1, self.first@.len() as int);
                }
                ixs.push(numbers[i]);
            } else {
                let place = i + numbers[i];
                let list = &self.pos_by_labels[self.first[i]];
                let ghost spelled = label_positions(
                    self.first@,
                    self.repr@,
                    self.first@[i as int],
                    self.first@.len() as int,
                );
                proof {
                    lemma_label_positions(
                        self.first@,
                        self.repr@,
                        self.first@[i as int],
                        self.first@.len() as int,
                    );
                }
                let mut repr_num: usize = 0;
                let mut j: usize = third.len();
                while j > 0
                    invariant
                        j <= third@.len(),
                        place < trace_len,
                        i < self.first@.len(),
                        !self.repr@[i as int],
                        place == offset(self.repr@, i as int),
                        list@ == spelled,
                        spelled == label_positions(
                            self.first@,
                            self.repr@,
                            self.first@[i as int],
                            self.first@.len() as int,
                        ),
                        numbered_ok(third@, plans as nat, trace_len as nat),
                        repr_num == digit_value(third@, place as int, j as int),
                        repr_num < list@.len() || j == third@.len(),
                        list@.len() <= MAX_ROOMS * DEGREE,
                    decreases j,
                {
                    j -= 1;
                    proof {
                        assert(trace_ok(third@[j as int]@, trace_len as nat));
                    }
                    let label = third[j][place];
                    repr_num = repr_num * LABELS + label;
                    if repr_num >= list.len() {
                        proof {
                            lemma_digit_mono(third@, place as int, j as int);
                            assert(!numbers_ok(self.first@, self.repr@, third@)) by {
                                assert(digit_value(third@, offset(self.repr@, i as int), 0)
                                    >= spelled.len());
                            }
                        }
                        return Err(SolveError::BadResponse);
                    }
                }
                if repr_num >= list.len() {
                    proof {
                        assert(!numbers_ok(self.first@, self.repr@, third@)) by {
                            assert(digit_value(third@, offset(self.repr@, i as int), 0)
                                >= spelled.len());
                        }
                    }
                    return Err(SolveError::BadResponse);
                }
                let p = list[repr_num];
                proof {
                    assert(spelled[repr_num as int] == p);
                    lemma_count_repr_mono(self.repr@, p as int + 1, self.first@.len() as int);
                }
                ixs.push(numbers[p]);
            }
            i += 1;
        }
        proof {
            assert(numbers_ok(self.first@, self.repr@, third@));
            assert(ixs@ =~= wanted);
        }
        // First and last position of every room, labels and walked doors.
        let mut rw_pos: Vec<Option<usize>> = vec![None; self.n];
        let mut rw_last_pos: Vec<usize> = vec![0; self.n];
        let mut labels: Vec<usize> = vec![0; self.n];
        let mut edges: Vec<Vec<Option<usize>>> = vec![vec![None; DEGREE]; self.n];
        let mut i: usize = 0;
        while i < ixs.len()
            invariant
                i <= ixs@.len(),
                self.inv(),
                random_walk_len == self.random_walk@.len(),
                ixs@.len() == random_walk_len + 1,
                forall|k: int| 0 <= k < ixs@.len() ==> #[trigger] ixs@[k] < self.n,
                rw_pos@.len() == self.n,
                rw_last_pos@.len() == self.n,
                labels@.len() == self.n,
                edges@.len() == self.n,
                forall|r: int| 0 <= r < self.n ==> (#[trigger] edges@[r])@.len() == DEGREE,
                forall|r: int|
                    0 <= r < self.n ==> match #[trigger] rw_pos@[r] {
                        Some(p) => {
                            &&& p <= rw_last_pos@[r] < i
                            &&& ixs@[p as int] == r
                            &&& ixs@[rw_last_pos@[r] as int] == r
                            &&& labels@[r] == self.first@[p as int]
                            &&& forall|k: int| 0 <= k < p ==> #[trigger] ixs@[k] != r
                            &&& forall|k: int| rw_last_pos@[r] < k < i ==> #[trigger] ixs@[k] != r
                        },
                        None => forall|k: int| 0 <= k < i ==> #[trigger] ixs@[k] != r,
                    },
                forall|r: int, d: int|
                    0 <= r < self.n && 0 <= d < DEGREE ==> #[trigger] edges@[r]@[d] == walked(
                        ixs@,
                        self.random_walk@,
                        r,
                        d,
                        if i <= random_walk_len {
                            i as int
                        } else {
                            random_walk_len as int
                        },
                    ),
            decreases ixs@.len() - i,
        {
            let r = ixs[i];
            let ghost firsts = rw_pos@;
            let ghost lasts = rw_last_pos@;
            let ghost names = labels@;
            let ghost doors = edges@;
            rw_last_pos[r] = i;
            if rw_pos[r].is_none() {
                rw_pos[r] = Some(i);
                labels[r] = self.first[i];
            }
            if i < random_walk_len {
                edges[r][self.random_walk[i]] = Some(ixs[i + 1]);
            }
            proof {
                assert forall|q: int| 0 <= q < self.n implies match #[trigger] rw_pos@[q] {
                    Some(p) => {
                        &&& p <= rw_last_pos@[q] < i + 1
                        &&& ixs@[p as int] == q
                        &&& ixs@[rw_last_pos@[q] as int] == q
                        &&& labels@[q] == self.first@[p as int]
                        &&& forall|k: int| 0 <= k < p ==> #[trigger] ixs@[k] != q
                        &&& forall|k: int| rw_last_pos@[q] < k < i + 1 ==> #[trigger] ixs@[k] != q
                    },
                    None => forall|k: int| 0 <= k < i + 1 ==> #[trigger] ixs@[k] != q,
                } by {
                    if q != r {
                        assert(rw_pos@[q] == firsts[q]);
                        assert(rw_last_pos@[q] == lasts[q]);
                        assert(labels@[q] == names[q]);
                    } else {
                        match firsts[q] {
                            Some(p) => {
                                assert(rw_pos@[q] == firsts[q]);
                            },
                            None => {},
                        }
                    }
                }
                assert forall|q: int, d: int|
                    0 <= q < self.n && 0 <= d < DEGREE implies #[trigger] edges@[q]@[d] == walked(
                    ixs@,
                    self.random_walk@,
                    q,
                    d,
                    if i + 1 <= random_walk_len {
                        i as int + 1
                    } else {
                        random_walk_len as int
                    },
                ) by {
                    assert(doors[q]@[d] == walked(
                        ixs@,
                        self.random_walk@,
                        q,
                        d,
                        if i <= random_walk_len {
                            i as int
                        } else {
                            random_walk_len as int
                        },
                    ));
                    if q != r {
                        assert(edges@[q] == doors[q]);
                    }
                }
            }
            i += 1;
        }
        let mut firsts: Vec<usize> = Vec::new();
        let mut r: usize = 0;
        while r < self.n
            invariant
                r <= self.n,
                rw_pos@.len() == self.n,
                firsts@.len() == r,
                forall|q: int| 0 <= q < r ==> rw_pos@[q] == Some(#[trigger] firsts@[q]),
                wanted == ixs@,
                wanted == rooms_of(self.first@, self.repr@, third@),
                numbers_ok(self.first@, self.repr@, third@),
                numbered_ok(
                    third@,
                    weights(label_share(self.n as int), 1).len(),
                    (self.random_walk@.len() + self.n + 1) as nat,
                ),
                forall|q: int|
                    0 <= q < self.n && (#[trigger] rw_pos@[q]) is None ==> forall|k: int|
                        0 <= k < ixs@.len() ==> #[trigger] ixs@[k] != q,
            decreases self.n - r,
        {
            match rw_pos[r] {
                Some(p) => firsts.push(p),
                None => {
                    proof {
                        assert(!visited(wanted, r as int)) by {
                            if visited(wanted, r as int) {
                                let k = choose|k: int|
                                    0 <= k < wanted.len() && #[trigger] wanted[k] == r;
                                assert(ixs@[k] != r);
                            }
                        }
                        assert(numbered_ok(
                            third@,
                            weights(label_share(self.rooms() as int), 1).len(),
                            self.walk().len() + self.rooms() + 1,
                        ));
                        assert(numbers_ok(self.seen(), self.reprs(), third@));
                        assert(!visited(rooms_of(self.seen(), self.reprs(), third@), r as int));
                    }
                    return Err(SolveError::WrongRoomCount);
                },
            }
            r += 1;
        }
        let ghost doors = Seq::new(edges@.len(), |q: int| edges@[q]@);
        proof {
            assert forall|q: int| 0 <= q < self.n implies {
                &&& (#[trigger] firsts@[q]) <= rw_last_pos@[q] < ixs@.len()
                &&& ixs@[firsts@[q] as int] == q
                &&& ixs@[rw_last_pos@[q] as int] == q
                &&& labels@[q] == self.first@[firsts@[q] as int]
                &&& forall|k: int| 0 <= k < firsts@[q] ==> #[trigger] ixs@[k] != q
                &&& forall|k: int| rw_last_pos@[q] < k < ixs@.len() ==> #[trigger] ixs@[k] != q
            } by {
                assert(rw_pos@[q] == Some(firsts@[q]));
            }
            assert forall|q: int, d: int| 0 <= q < self.n && 0 <= d < DEGREE implies (
            #[trigger] doors[q]).len() == DEGREE && #[trigger] doors[q][d] == walked(
                ixs@,
                self.random_walk@,
                q,
                d,
                self.random_walk@.len() as int,
            ) by {
                assert(edges@[q]@[d] == walked(
                    ixs@,
                    self.random_walk@,
                    q,
                    d,
                    random_walk_len as int,
                ));
            }
            assert forall|q: int, d: int|
                0 <= q < self.n && 0 <= d < DEGREE && (#[trigger] edges@[q]@[d]) is Some implies edges@[q]@[d].unwrap()
                < self.n by {
                lemma_walked_room(ixs@, self.random_walk@, q, d, random_walk_len as int, self.n);
            }
            assert forall|q: int| 0 <= q < self.n implies #[trigger] labels@[q] < LABELS by {
                assert(rw_pos@[q] == Some(firsts@[q]));
            }
        }
        Ok(
            Located {
                n: self.n,
                backward: self.backward,
                discriminator: self.discriminator,
                random_walk: self.random_walk,
                first: self.first,
                ixs,
                rw_pos: firsts,
                rw_last_pos,
                labels,
                edges,
            },
        )
    }
}

/// The doors of the solver's table, as a sequence of sequences.
pub open spec fn option_table(edges: Seq<Vec<Option<usize>>>) -> Seq<Seq<Option<usize>>> {
    Seq::new(edges.len(), |q: int| edges[q]@)
}

impl Located {
    #[verifier::type_invariant]
    spec fn inv(self) -> bool {
        &&& base_ok(self.n, self.discriminator@, self.random_walk@)
        &&& trace_ok(self.first@, self.random_walk@.len() + 1)
        &&& located_ok(
            self.n,
            self.random_walk@,
            self.first@,
            self.ixs@,
            self.rw_pos@,
            self.rw_last_pos@,
            self.labels@,
            option_table(self.edges@),
        )
        &&& forall|q: int, d: int|
            0 <= q < self.n && 0 <= d < DEGREE && (#[trigger] self.edges@[q]@[d]) is Some
                ==> self.edges@[q]@[d].unwrap() < self.n
        &&& forall|q: int| 0 <= q < self.n ==> #[trigger] self.labels@[q] < LABELS
    }

    /// Number of rooms.
    pub closed spec fn rooms(self) -> nat {
        self.n as nat
    }

    /// Whether doors left open by the forward stage are resolved by walking
    /// on to a neighbour.
    pub closed spec fn walks_back(self) -> bool {
        self.backward
    }

    /// The random walk.
    pub closed spec fn walk(self) -> Seq<usize> {
        self.random_walk@
    }

    /// The discriminator.
    pub closed spec fn probe(self) -> Seq<WalkStep> {
        self.discriminator@
    }

    /// The room of every walk position.
    pub closed spec fn room_at(self) -> Seq<usize> {
        self.ixs@
    }

    /// The first walk position of every room.
    pub closed spec fn first_at(self) -> Seq<usize> {
        self.rw_pos@
    }

    /// The last walk position of every room.
    pub closed spec fn last_at(self) -> Seq<usize> {
        self.rw_last_pos@
    }

    /// The label of every room.
    pub closed spec fn room_labels(self) -> Seq<usize> {
        self.labels@
    }

    /// What is known of the doors.
    pub closed spec fn doors(self) -> Seq<Seq<Option<usize>>> {
        option_table(self.edges@)
    }
}

/// The count of representatives does not fall.
pub proof fn lemma_count_repr_mono(repr: Seq<bool>, a: int, b: int)
    requires
        a <= b,
    ensures
        count_repr(repr, a) <= count_repr(repr, b),
        count_repr(repr, a) <= if a < 0 {
            0
        } else {
            a
        },
    decreases b - a,
{
    lemma_count_repr_bound(repr, a);
    if a < b {
        lemma_count_repr_mono(repr, a + 1, b);
    }
}

proof fn lemma_count_repr_bound(repr: Seq<bool>, a: int)
    ensures
        count_repr(repr, a) <= if a < 0 {
            0
        } else {
            a
        },
    decreases a,
{
    if a > 0 {
        lemma_count_repr_bound(repr, a - 1);
    }
}

/// The representatives of a label are representatives with that label, in
/// rising order, and no more than positions.
pub proof fn lemma_label_positions(first: Seq<usize>, repr: Seq<bool>, l: usize, m: int)
    requires
        0 <= m <= usize::MAX,
    ensures
        label_positions(first, repr, l, m).len() <= m,
        forall|k: int|
            0 <= k < label_positions(first, repr, l, m).len() ==> {
                let p = #[trigger] label_positions(first, repr, l, m)[k];
                p < m && repr[p as int] && first[p as int] == l
            },
    decreases m,
{
    if m > 0 {
        lemma_label_positions(first, repr, l, m - 1);
        let before = label_positions(first, repr, l, m - 1);
        let all = label_positions(first, repr, l, m);
        assert forall|k: int| 0 <= k < all.len() implies {
            let p = #[trigger] all[k];
            p < m && repr[p as int] && first[p as int] == l
        } by {
            if k < before.len() {
                assert(all[k] == before[k]);
            }
        }
    }
}

/// A number spelled from the lowest digit on is no smaller than what its
/// higher digits spell.
pub proof fn lemma_digit_mono(traces: Seq<Vec<usize>>, place: int, j: int)
    requires
        0 <= j <= traces.len(),
    ensures
        digit_value(traces, place, 0) >= digit_value(traces, place, j) >= 0,
    decreases j,
{
    lemma_digit_nonneg(traces, place, j);
    if j > 0 {
        lemma_digit_nonneg(traces, place, j - 1);
        lemma_digit_mono(traces, place, j - 1);
    }
}

proof fn lemma_digit_nonneg(traces: Seq<Vec<usize>>, place: int, j: int)
    ensures
        digit_value(traces, place, j) >= 0,
    decreases traces.len() - j,
{
    if 0 <= j < traces.len() {
        lemma_digit_nonneg(traces, place, j + 1);
    }
}

/// The room that the walk leaves for is a room.
pub proof fn lemma_walked_room(
    ixs: Seq<usize>,
    walk: Seq<usize>,
    r: int,
    d: int,
    m: int,
    n: usize,
)
    requires
        0 <= m < ixs.len(),
        forall|i: int| 0 <= i < ixs.len() ==> #[trigger] ixs[i] < n,
    ensures
        walked(ixs, walk, r, d, m) is Some ==> walked(ixs, walk, r, d, m).unwrap() < n,
    decreases m,
{
    if m > 0 {
        lemma_walked_room(ixs, walk, r, d, m - 1, n);
    }
}

/// The count of representatives below `m` looks only at the positions below
/// `m`.
pub proof fn lemma_count_repr_same(a: Seq<bool>, b: Seq<bool>, m: int)
    requires
        0 <= m <= a.len(),
        m <= b.len(),
        forall|k: int| 0 <= k < m ==> a[k] == b[k],
    ensures
        count_repr(a, m) == count_repr(b, m),
    decreases m,
{
    if m > 0 {
        lemma_count_repr_same(a, b, m - 1);
    }
}

/// The representatives of a label below `m` are found by looking only at
/// the positions below `m`.
pub proof fn lemma_label_positions_same(
    first: Seq<usize>,
    a: Seq<bool>,
    b: Seq<bool>,
    l: usize,
    m: int,
)
    requires
        0 <= m <= a.len(),
        m <= b.len(),
        forall|k: int| 0 <= k < m ==> a[k] == b[k],
    ensures
        label_positions(first, a, l, m) == label_positions(first, b, l, m),
    decreases m,
{
    if m > 0 {
        lemma_label_positions_same(first, a, b, l, m - 1);
    }
}

/// The plan that walks to a walk position and then runs the discriminator.
pub open spec fn footprint_plan(walk: Seq<usize>, probe: Seq<WalkStep>, pos: int) -> Seq<
    WalkStep,
> {
    door_plan(walk.take(pos)) + probe
}

/// The plan that walks to a walk position, takes a door, and then runs the
/// discriminator.
pub open spec fn door_probe(walk: Seq<usize>, probe: Seq<WalkStep>, pos: int, e: usize) -> Seq<
    WalkStep,
> {
    door_plan(walk.take(pos)) + seq![WalkStep::Edge(e)] + probe
}

/// The doors without a target among the first `k` doors in row-major order,
/// each as room and door.
pub open spec fn open_doors(edges: Seq<Seq<Option<usize>>>, k: int) -> Seq<(usize, usize)>
    decreases k,
{
    if k <= 0 {
        Seq::empty()
    } else {
        let u = (k - 1) / (DEGREE as int);
        let e = (k - 1) % (DEGREE as int);
        if edges[u][e] is None {
            open_doors(edges, k - 1).push((u as usize, e as usize))
        } else {
            open_doors(edges, k - 1)
        }
    }
}

/// The rooms below `m` with the given footprint, in rising order.
pub open spec fn rooms_with(fps: Seq<Vec<usize>>, pattern: Seq<usize>, m: int) -> Seq<usize>
    decreases m,
{
    if m <= 0 {
        Seq::empty()
    } else if fps[m - 1]@ == pattern {
        rooms_with(fps, pattern, m - 1).push((m - 1) as usize)
    } else {
        rooms_with(fps, pattern, m - 1)
    }
}

/// The first `upto` doors of a walk as a plan.
pub fn walk_prefix(walk: &Vec<usize>, upto: usize) -> (plan: Vec<WalkStep>)
    requires
        upto <= walk@.len(),
    ensures
        plan@ == door_plan(walk@.take(upto as int)),
{
    let mut plan: Vec<WalkStep> = Vec::new();
    let mut i: usize = 0;
    while i < upto
        invariant
            i <= upto <= walk@.len(),
            plan@ == door_plan(walk@.take(i as int)),
        decreases upto - i,
    {
        plan.push(WalkStep::Edge(walk[i]));
        i += 1;
        proof {
            assert(plan@ =~= door_plan(walk@.take(i as int)));
        }
    }
    plan
}

/// Adds the steps of one plan to the end of another.
pub fn append_plan(plan: &mut Vec<WalkStep>, more: &Vec<WalkStep>)
    ensures
        final(plan)@ == old(plan)@ + more@,
{
    let ghost start = plan@;
    let mut i: usize = 0;
    while i < more.len()
        invariant
            i <= more@.len(),
            plan@ == start + more@.take(i as int),
        decreases more@.len() - i,
    {
        plan.push(more[i]);
        i += 1;
        proof {
            assert(plan@ =~= start + more@.take(i as int));
        }
    }
    proof {
        assert(more@.take(more@.len() as int) =~= more@);
    }
}

/// The solver with the footprint of every room.
pub struct Printed {
    core: Located,
    fps: Vec<Vec<usize>>,
}

/// The answer to the footprint plans has a trace for every room, each one
/// label longer than its plan.
pub open spec fn footprints_ok(first_at: Seq<usize>, fp_res: Seq<Vec<usize>>) -> bool {
    &&& fp_res.len() == first_at.len()
    &&& forall|u: int|
        0 <= u < fp_res.len() ==> (#[trigger] fp_res[u])@.len() == first_at[u] + 2
            * DISCRIMINATOR_LEN + 1
}

impl Located {
    /// The plans of the footprint round: for every room the walk up to its
    /// first position, then the discriminator.
    pub fn footprint_plans(&self) -> (plans: Vec<Vec<WalkStep>>)
        ensures
            plans@.len() == self.rooms(),
            forall|u: int|
                0 <= u < plans@.len() ==> (#[trigger] plans@[u])@ == footprint_plan(
                    self.walk(),
                    self.probe(),
                    self.first_at()[u] as int,
                ),
    {
        proof {
            use_type_invariant(self);
        }
        let mut fp_plans: Vec<Vec<WalkStep>> = Vec::new();
        let mut u: usize = 0;
        while u < self.n
            invariant
                u <= self.n,
                self.inv(),
                fp_plans@.len() == u,
                forall|q: int|
                    0 <= q < u ==> (#[trigger] fp_plans@[q])@ == footprint_plan(
                        self.random_walk@,
                        self.discriminator@,
                        self.rw_pos@[q] as int,
                    ),
            decreases self.n - u,
        {
            let mut plan = walk_prefix(&self.random_walk, self.rw_pos[u]);
            append_plan(&mut plan, &self.discriminator);
            fp_plans.push(plan);
            u += 1;
        }
        fp_plans
    }

    /// Takes the traces of the footprint plans: the footprint of a room is
    /// what its trace shows from the room's first position on.
    pub fn print(self, fp_res: &Vec<Vec<usize>>) -> (res: Result<Printed, SolveError>)
        ensures
            match res {
                Ok(p) => {
                    &&& footprints_ok(self.first_at(), fp_res@)
                    &&& p.located() == self
                    &&& p.footprints().len() == self.rooms()
                    &&& forall|u: int|
                        0 <= u < self.rooms() ==> #[trigger] p.footprints()[u] == fp_res@[u]@.skip(
                            self.first_at()[u] as int,
                        )
                },
                Err(e) => e is BadResponse && !footprints_ok(self.first_at(), fp_res@),
            },
    {
        proof {
            use_type_invariant(&self);
        }
        if fp_res.len() != self.n {
            return Err(SolveError::BadResponse);
        }
        let mut fps: Vec<Vec<usize>> = Vec::new();
        let mut u: usize = 0;
        while u < self.n
            invariant
                u <= self.n,
                self.inv(),
                fp_res@.len() == self.n,
                fps@.len() == u,
                forall|q: int|
                    0 <= q < u ==> (#[trigger] fp_res@[q])@.len() == self.rw_pos@[q] + 2
                        * DISCRIMINATOR_LEN + 1,
                forall|q: int|
                    0 <= q < u ==> (#[trigger] fps@[q])@ == fp_res@[q]@.skip(
                        self.rw_pos@[q] as int,
                    ),
            decreases self.n - u,
        {
            if fp_res[u].len() != self.rw_pos[u] + 2 * DISCRIMINATOR_LEN + 1 {
                return Err(SolveError::BadResponse);
            }
            fps.push(suffix(&fp_res[u], self.rw_pos[u]));
            u += 1;
        }
        Ok(Printed { core: self, fps })
    }
}

/// A door that footprints could not resolve: the room, the door, and the
/// rooms that share the footprint seen behind it.
#[derive(Debug)]
pub struct Pending {
    pub room: usize,
    pub door: usize,
    pub rooms: Vec<usize>,
}

impl Printed {
    #[verifier::type_invariant]
    spec fn inv(self) -> bool {
        self.fps@.len() == self.core.n
    }

    /// The solver as it stood before the footprint round.
    pub closed spec fn located(self) -> Located {
        self.core
    }

    /// The footprint of every room.
    pub closed spec fn footprints(self) -> Seq<Seq<usize>> {
        Seq::new(self.fps@.len(), |u: int| self.fps@[u]@)
    }

    /// The doors that the walk left without a target, in row-major order.
    pub fn open_list(&self) -> (open: Vec<(usize, usize)>)
        ensures
            open@ == open_doors(self.located().doors(), self.located().rooms() * DEGREE),
            forall|k: int|
                0 <= k < open@.len() ==> (#[trigger] open@[k]).0 < self.located().rooms()
                    && open@[k].1 < DEGREE,
    {
        proof {
            use_type_invariant(self);
            use_type_invariant(&self.core);
        }
        let mut open: Vec<(usize, usize)> = Vec::new();
        let mut u: usize = 0;
        while u < self.core.n
            invariant
                u <= self.core.n,
                self.core.inv(),
                open@ == open_doors(option_table(self.core.edges@), u * DEGREE),
                forall|k: int|
                    0 <= k < open@.len() ==> (#[trigger] open@[k]).0 < self.core.n && open@[k].1
                        < DEGREE,
            decreases self.core.n - u,
        {
            let mut e: usize = 0;
            while e < DEGREE
                invariant
                    e <= DEGREE,
                    u < self.core.n,
                    self.core.inv(),
                    open@ == open_doors(option_table(self.core.edges@), u * DEGREE + e),
                    forall|k: int|
                        0 <= k < open@.len() ==> (#[trigger] open@[k]).0 < self.core.n
                            && open@[k].1 < DEGREE,
                decreases DEGREE - e,
            {
                proof {
                    let k = u * DEGREE + e + 1;
                    assert((k - 1) / (DEGREE as int) == u && (k - 1) % (DEGREE as int) == e) by {
                        vstd::arithmetic::div_mod::lemma_fundamental_div_mod_converse(
                            k - 1,
                            DEGREE as int,
                            u as int,
                            e as int,
                        );
                    }
                    assert(option_table(self.core.edges@)[u as int] == self.core.edges@[u as int]@);
                    assert(option_table(self.core.edges@)[u as int][e as int] == walked(
                        self.core.ixs@,
                        self.core.random_walk@,
                        u as int,
                        e as int,
                        self.core.random_walk@.len() as int,
                    ));
                    assert(option_table(self.core.edges@)[u as int].len() == DEGREE);
                }
                if self.core.edges[u][e].is_none() {
                    open.push((u, e));
                }
                e += 1;
            }
            proof {
                assert((u + 1) * DEGREE == u * DEGREE + DEGREE) by (nonlinear_arith);
            }
            u += 1;
        }
        open
    }

    /// The plans of the probe round: for every door that the walk left
    /// without a target, the walk up to the first position of its room, the
    /// door, and the discriminator.
    pub fn edge_plans(&self) -> (plans: Vec<Vec<WalkStep>>)
        ensures
            plans@.len() == open_doors(
                self.located().doors(),
                self.located().rooms() * DEGREE,
            ).len(),
            forall|k: int|
                0 <= k < plans@.len() ==> {
                    let (u, e) = open_doors(
                        self.located().doors(),
                        self.located().rooms() * DEGREE,
                    )[k];
                    (#[trigger] plans@[k])@ == door_probe(
                        self.located().walk(),
                        self.located().probe(),
                        self.located().first_at()[u as int] as int,
                        e,
                    )
                },
    {
        proof {
            use_type_invariant(self);
            use_type_invariant(&self.core);
        }
        let open = self.open_list();
        let mut edge_plans: Vec<Vec<WalkStep>> = Vec::new();
        let mut k: usize = 0;
        while k < open.len()
            invariant
                k <= open@.len(),
                self.core.inv(),
                forall|q: int|
                    0 <= q < open@.len() ==> (#[trigger] open@[q]).0 < self.core.n && open@[q].1
                        < DEGREE,
                edge_plans@.len() == k,
                forall|q: int|
                    0 <= q < k ==> (#[trigger] edge_plans@[q])@ == door_probe(
                        self.core.random_walk@,
                        self.core.discriminator@,
                        self.core.rw_pos@[open@[q].0 as int] as int,
                        open@[q].1,
                    ),
            decreases open@.len() - k,
        {
            let (u, e) = open[k];
            let mut plan = walk_prefix(&self.core.random_walk, self.core.rw_pos[u]);
            plan.push(WalkStep::Edge(e));
            append_plan(&mut plan, &self.core.discriminator);
            proof {
                assert(plan@ =~= door_probe(
                    self.core.random_walk@,
                    self.core.discriminator@,
                    self.core.rw_pos@[u as int] as int,
                    e,
                ));
            }
            edge_plans.push(plan);
            k += 1;
        }
        edge_plans
    }

    /// The rooms with the footprint that a trace shows from position `from`
    /// on, in rising order.
    fn rooms_like(&self, trace: &Vec<usize>, from: usize) -> (rooms: Vec<usize>)
        requires
            from <= trace@.len(),
        ensures
            rooms@ == rooms_with(self.fps@, trace@.skip(from as int), self.fps@.len() as int),
            forall|k: int| 0 <= k < rooms@.len() ==> #[trigger] rooms@[k] < self.fps@.len(),
    {
        let mut rooms: Vec<usize> = Vec::new();
        let mut w: usize = 0;
        while w < self.fps.len()
            invariant
                w <= self.fps@.len(),
                from <= trace@.len(),
                rooms@ == rooms_with(self.fps@, trace@.skip(from as int), w as int),
                forall|k: int| 0 <= k < rooms@.len() ==> #[trigger] rooms@[k] < w,
            decreases self.fps@.len() - w,
        {
            if same_from(trace, from, &self.fps[w]) {
                rooms.push(w);
            }
            w += 1;
        }
        rooms
    }
}


/// A pending door as a value: the room, the door, and the candidate rooms.
pub open spec fn pview(p: Pending) -> (usize, usize, Seq<usize>) {
    (p.room, p.door, p.rooms@)
}

/// The pending doors of a list as values.
pub open spec fn pviews(list: Seq<Pending>) -> Seq<(usize, usize, Seq<usize>)> {
    Seq::new(list.len(), |i: int| pview(list[i]))
}

/// The answer to the door probes has a trace for every probe, each one
/// label longer than its plan.
pub open spec fn probes_ok(
    open: Seq<(usize, usize)>,
    first_at: Seq<usize>,
    edges_res: Seq<Vec<usize>>,
) -> bool {
    &&& edges_res.len() == open.len()
    &&& forall|k: int|
        0 <= k < open.len() ==> (#[trigger] edges_res[k])@.len() == first_at[open[k].0 as int]
            + 2 * DISCRIMINATOR_LEN + 2
}

/// The rooms whose footprint the `k`-th probe shows behind its door.
pub open spec fn cands_of(
    fps: Seq<Vec<usize>>,
    first_at: Seq<usize>,
    open: Seq<(usize, usize)>,
    edges_res: Seq<Vec<usize>>,
    k: int,
) -> Seq<usize> {
    rooms_with(fps, edges_res[k]@.skip(first_at[open[k].0 as int] + 1), fps.len() as int)
}

/// The door table after the first `k` probes: a door whose probe shows the
/// footprint of one room alone leads to that room.
pub open spec fn resolved(
    base: Seq<Seq<Option<usize>>>,
    fps: Seq<Vec<usize>>,
    first_at: Seq<usize>,
    open: Seq<(usize, usize)>,
    edges_res: Seq<Vec<usize>>,
    k: int,
) -> Seq<Seq<Option<usize>>>
    decreases k,
{
    if k <= 0 {
        base
    } else {
        let before = resolved(base, fps, first_at, open, edges_res, k - 1);
        let cands = cands_of(fps, first_at, open, edges_res, k - 1);
        let (u, e) = open[k - 1];
        if cands.len() == 1 {
            before.update(u as int, before[u as int].update(e as int, Some(cands[0])))
        } else {
            before
        }
    }
}

/// The doors among the first `k` probes whose probe shows a footprint that
/// several rooms share, each with those rooms.
pub open spec fn shared(
    fps: Seq<Vec<usize>>,
    first_at: Seq<usize>,
    open: Seq<(usize, usize)>,
    edges_res: Seq<Vec<usize>>,
    k: int,
) -> Seq<(usize, usize, Seq<usize>)>
    decreases k,
{
    if k <= 0 {
        Seq::empty()
    } else {
        let before = shared(fps, first_at, open, edges_res, k - 1);
        let cands = cands_of(fps, first_at, open, edges_res, k - 1);
        if cands.len() > 1 {
            before.push((open[k - 1].0, open[k - 1].1, cands))
        } else {
            before
        }
    }
}

/// Every candidate is first reached by the walk no later than the room of
/// the door is last reached.
pub open spec fn early(p: (usize, usize, Seq<usize>), first_at: Seq<usize>, last_at: Seq<usize>) -> bool {
    forall|i: int|
        0 <= i < p.2.len() ==> first_at[#[trigger] p.2[i] as int] <= last_at[p.0 as int]
}

/// Every candidate is first reached by the walk before the room of the door
/// is last reached.
pub open spec fn strictly_early(
    p: (usize, usize, Seq<usize>),
    first_at: Seq<usize>,
    last_at: Seq<usize>,
) -> bool {
    forall|i: int|
        0 <= i < p.2.len() ==> first_at[#[trigger] p.2[i] as int] < last_at[p.0 as int]
}

/// The pending doors among the first `m` that are early, or those that are
/// not.
pub open spec fn chosen(
    list: Seq<(usize, usize, Seq<usize>)>,
    first_at: Seq<usize>,
    last_at: Seq<usize>,
    want_early: bool,
    m: int,
) -> Seq<(usize, usize, Seq<usize>)>
    decreases m,
{
    if m <= 0 {
        Seq::empty()
    } else if early(list[m - 1], first_at, last_at) == want_early {
        chosen(list, first_at, last_at, want_early, m - 1).push(list[m - 1])
    } else {
        chosen(list, first_at, last_at, want_early, m - 1)
    }
}

/// The highest door below `m` of the row that leads to room `b`.
pub open spec fn door_to(row: Seq<Option<usize>>, b: int, m: int) -> Option<usize>
    decreases m,
{
    if m <= 0 {
        None
    } else if row[m - 1] == Some(b as usize) {
        Some((m - 1) as usize)
    } else {
        door_to(row, b, m - 1)
    }
}

/// The door table and the candidates are those of a graph of `n` rooms.
pub open spec fn table_ok(n: usize, edges: Seq<Seq<Option<usize>>>) -> bool {
    &&& edges.len() == n
    &&& forall|u: int| 0 <= u < n ==> (#[trigger] edges[u]).len() == DEGREE
    &&& forall|u: int, e: int|
        0 <= u < n && 0 <= e < DEGREE && (#[trigger] edges[u][e]) is Some ==> edges[u][e].unwrap()
            < n
}

/// Every pending door is a door of the graph with at least two candidates,
/// all rooms of the graph.
pub open spec fn pending_ok(n: usize, list: Seq<(usize, usize, Seq<usize>)>) -> bool {
    forall|i: int|
        0 <= i < list.len() ==> {
            let p = #[trigger] list[i];
            &&& p.0 < n
            &&& p.1 < DEGREE
            &&& 2 <= p.2.len() <= n
            &&& forall|j: int| 0 <= j < p.2.len() ==> #[trigger] p.2[j] < n
        }
}

/// For every pair of rooms a door known to lead from the first to the
/// second, if any.
pub open spec fn known_ok(n: usize, known: Seq<Seq<Option<usize>>>) -> bool {
    &&& known.len() == n
    &&& forall|a: int| 0 <= a < n ==> (#[trigger] known[a]).len() == n
    &&& forall|a: int, b: int|
        0 <= a < n && 0 <= b < n && (#[trigger] known[a][b]) is Some ==> known[a][b].unwrap()
            < DEGREE
}

/// The solver after the probe round: the door table with what unique
/// footprints resolved, the doors still pending, and the doors known between
/// rooms.
pub struct Probed {
    core: Located,
    edges: Vec<Vec<Option<usize>>>,
    trivial: Vec<Pending>,
    rest: Vec<Pending>,
    known: Vec<Vec<Option<usize>>>,
}

/// A copy of a table of doors.
pub fn copy_doors(edges: &Vec<Vec<Option<usize>>>) -> (copy: Vec<Vec<Option<usize>>>)
    ensures
        option_table(copy@) == option_table(edges@),
{
    let mut copy: Vec<Vec<Option<usize>>> = Vec::new();
    let mut u: usize = 0;
    while u < edges.len()
        invariant
            u <= edges@.len(),
            copy@.len() == u,
            forall|q: int| 0 <= q < u ==> (#[trigger] copy@[q])@ == edges@[q]@,
        decreases edges@.len() - u,
    {
        let mut row: Vec<Option<usize>> = Vec::new();
        let mut e: usize = 0;
        while e < edges[u].len()
            invariant
                u < edges@.len(),
                e <= edges@[u as int]@.len(),
                row@ == edges@[u as int]@.take(e as int),
            decreases edges@[u as int]@.len() - e,
        {
            row.push(edges[u][e]);
            e += 1;
            proof {
                assert(row@ =~= edges@[u as int]@.take(e as int));
            }
        }
        proof {
            assert(edges@[u as int]@.take(edges@[u as int]@.len() as int) =~= edges@[u as int]@);
        }
        copy.push(row);
        u += 1;
    }
    proof {
        assert(option_table(copy@) =~= option_table(edges@));
    }
    copy
}

/// For every pair of rooms the highest door that the table has from the
/// first to the second.
pub fn known_doors(n: usize, edges: &Vec<Vec<Option<usize>>>) -> (known: Vec<Vec<Option<usize>>>)
    requires
        table_ok(n, option_table(edges@)),
    ensures
        known_ok(n, option_table(known@)),
        forall|a: int, b: int|
            0 <= a < n && 0 <= b < n ==> #[trigger] option_table(known@)[a][b] == door_to(
                option_table(edges@)[a],
                b,
                DEGREE as int,
            ),
{
    let mut known: Vec<Vec<Option<usize>>> = vec![vec![None; n]; n];
    let mut u: usize = 0;
    while u < n
        invariant
            u <= n,
            table_ok(n, option_table(edges@)),
            known@.len() == n,
            forall|a: int| 0 <= a < n ==> (#[trigger] known@[a])@.len() == n,
            forall|a: int, b: int|
                0 <= a < n && 0 <= b < n ==> #[trigger] known@[a]@[b] == if a < u {
                    door_to(option_table(edges@)[a], b, DEGREE as int)
                } else {
                    None
                },
        decreases n - u,
    {
        let mut e: usize = 0;
        while e < DEGREE
            invariant
                e <= DEGREE,
                u < n,
                table_ok(n, option_table(edges@)),
                known@.len() == n,
                forall|a: int| 0 <= a < n ==> (#[trigger] known@[a])@.len() == n,
                forall|a: int, b: int|
                    0 <= a < n && 0 <= b < n ==> #[trigger] known@[a]@[b] == if a < u {
                        door_to(option_table(edges@)[a], b, DEGREE as int)
                    } else if a == u {
                        door_to(option_table(edges@)[a], b, e as int)
                    } else {
                        None
                    },
            decreases DEGREE - e,
        {
            proof {
                assert(option_table(edges@)[u as int] == edges@[u as int]@);
                assert(option_table(edges@)[u as int].len() == DEGREE);
            }
            let ghost before = known@;
            if let Some(t) = edges[u][e] {
                proof {
                    assert(option_table(edges@)[u as int][e as int] is Some);
                }
                known[u][t] = Some(e);
            }
            proof {
                assert forall|a: int, b: int| 0 <= a < n && 0 <= b < n implies #[trigger] known@[a]@[b]
                    == if a < u {
                    door_to(option_table(edges@)[a], b, DEGREE as int)
                } else if a == u {
                    door_to(option_table(edges@)[a], b, e as int + 1)
                } else {
                    None
                } by {
                    assert(before[a]@[b] == if a < u {
                        door_to(option_table(edges@)[a], b, DEGREE as int)
                    } else if a == u {
                        door_to(option_table(edges@)[a], b, e as int)
                    } else {
                        None
                    });
                    if a != u {
                        assert(known@[a] == before[a]);
                    }
                }
            }
            e += 1;
        }
        u += 1;
    }
    proof {
        assert forall|a: int, b: int|
            0 <= a < n && 0 <= b < n && (#[trigger] option_table(known@)[a][b]) is Some implies option_table(
            known@,
        )[a][b].unwrap() < DEGREE by {
            assert(known@[a]@[b] == door_to(option_table(edges@)[a], b, DEGREE as int));
            lemma_door_to(option_table(edges@)[a], b, DEGREE as int);
        }
        assert forall|a: int, b: int| 0 <= a < n && 0 <= b < n implies #[trigger] option_table(
            known@,
        )[a][b] == door_to(option_table(edges@)[a], b, DEGREE as int) by {
            assert(known@[a]@[b] == door_to(option_table(edges@)[a], b, DEGREE as int));
        }
    }
    known
}

/// The door found is a door below `m` that leads to the room.
pub proof fn lemma_door_to(row: Seq<Option<usize>>, b: int, m: int)
    requires
        m <= usize::MAX,
    ensures
        door_to(row, b, m) matches Some(e) ==> e < m && row[e as int] == Some(b as usize),
    decreases m,
{
    if m > 0 {
        lemma_door_to(row, b, m - 1);
    }
}

/// The rooms with a footprint are rooms, in rising order, and no more than
/// the rooms looked at.
pub proof fn lemma_rooms_with(fps: Seq<Vec<usize>>, pattern: Seq<usize>, m: int)
    requires
        0 <= m <= usize::MAX,
    ensures
        rooms_with(fps, pattern, m).len() <= m,
        forall|k: int|
            0 <= k < rooms_with(fps, pattern, m).len() ==> #[trigger] rooms_with(
                fps,
                pattern,
                m,
            )[k] < m,
    decreases m,
{
    if m > 0 {
        lemma_rooms_with(fps, pattern, m - 1);
        let before = rooms_with(fps, pattern, m - 1);
        let all = rooms_with(fps, pattern, m);
        assert forall|k: int| 0 <= k < all.len() implies #[trigger] all[k] < m by {
            if k < before.len() {
                assert(all[k] == before[k]);
            }
        }
    }
}


/// Choosing among the first `m` pending doors looks only at those.
pub proof fn lemma_chosen_prefix(
    a: Seq<(usize, usize, Seq<usize>)>,
    b: Seq<(usize, usize, Seq<usize>)>,
    first_at: Seq<usize>,
    last_at: Seq<usize>,
    want_early: bool,
    m: int,
)
    requires
        0 <= m <= a.len(),
        m <= b.len(),
        forall|i: int| 0 <= i < m ==> a[i] == b[i],
    ensures
        chosen(a, first_at, last_at, want_early, m) == chosen(b, first_at, last_at, want_early, m),
    decreases m,
{
    if m > 0 {
        lemma_chosen_prefix(a, b, first_at, last_at, want_early, m - 1);
    }
}

/// What is chosen among valid pending doors is valid.
pub proof fn lemma_chosen_ok(
    n: usize,
    list: Seq<(usize, usize, Seq<usize>)>,
    first_at: Seq<usize>,
    last_at: Seq<usize>,
    want_early: bool,
    m: int,
)
    requires
        0 <= m <= list.len(),
        pending_ok(n, list),
    ensures
        pending_ok(n, chosen(list, first_at, last_at, want_early, m)),
        chosen(list, first_at, last_at, want_early, m).len() <= m,
    decreases m,
{
    if m > 0 {
        lemma_chosen_ok(n, list, first_at, last_at, want_early, m - 1);
        let before = chosen(list, first_at, last_at, want_early, m - 1);
        let all = chosen(list, first_at, last_at, want_early, m);
        assert forall|i: int| 0 <= i < all.len() implies {
            let p = #[trigger] all[i];
            &&& p.0 < n
            &&& p.1 < DEGREE
            &&& 2 <= p.2.len() <= n
            &&& forall|j: int| 0 <= j < p.2.len() ==> #[trigger] p.2[j] < n
        } by {
            if i < before.len() {
                assert(all[i] == before[i]);
            } else {
                assert(all[i] == list[m - 1]);
            }
        }
    }
}

/// Some probe among the first `k` shows a footprint that no room has.
pub open spec fn some_unknown(
    fps: Seq<Vec<usize>>,
    first_at: Seq<usize>,
    open: Seq<(usize, usize)>,
    edges_res: Seq<Vec<usize>>,
    k: int,
) -> bool {
    exists|q: int| 0 <= q < k && (#[trigger] cands_of(fps, first_at, open, edges_res, q)).len() == 0
}

/// Some pending door has a candidate that the walk first reaches no earlier
/// than it last reaches the room of the door.
pub open spec fn some_late(
    list: Seq<(usize, usize, Seq<usize>)>,
    first_at: Seq<usize>,
    last_at: Seq<usize>,
) -> bool {
    exists|i: int| 0 <= i < list.len() && !strictly_early(#[trigger] list[i], first_at, last_at)
}

impl Printed {
    /// Decides whether an answer has the shape of an answer to the door
    /// probes.
    fn check_probes(&self, open: &Vec<(usize, usize)>, edges_res: &Vec<Vec<usize>>) -> (ok: bool)
        requires
            forall|k: int|
                0 <= k < open@.len() ==> (#[trigger] open@[k]).0 < self.core.n && open@[k].1
                    < DEGREE,
        ensures
            ok == probes_ok(open@, self.core.rw_pos@, edges_res@),
    {
        proof {
            use_type_invariant(&self.core);
        }
        if edges_res.len() != open.len() {
            return false;
        }
        let mut k: usize = 0;
        while k < open.len()
            invariant
                k <= open@.len(),
                self.core.inv(),
                edges_res@.len() == open@.len(),
                forall|q: int|
                    0 <= q < open@.len() ==> (#[trigger] open@[q]).0 < self.core.n && open@[q].1
                        < DEGREE,
                forall|q: int|
                    0 <= q < k ==> (#[trigger] edges_res@[q])@.len()
                        == self.core.rw_pos@[open@[q].0 as int] + 2 * DISCRIMINATOR_LEN + 2,
            decreases open@.len() - k,
        {
            if edges_res[k].len() != self.core.rw_pos[open[k].0] + 2 * DISCRIMINATOR_LEN + 2 {
                return false;
            }
            k += 1;
        }
        true
    }

    /// Takes the traces of the door probes. A door whose probe shows the
    /// footprint of one room alone leads to that room; a door whose probe
    /// shows a footprint that several rooms share stays pending with those
    /// rooms as candidates; a footprint that no room has fails the trial.
    ///
    /// A solver that walks back keeps apart the pending doors all of whose
    /// candidates the walk first reaches no later than it last reaches the
    /// door's room. A solver that does not walk back needs every candidate to
    /// be reached strictly before, and fails the trial otherwise.
    pub fn probe(self, edges_res: &Vec<Vec<usize>>) -> (res: Result<Probed, SolveError>)
        ensures
            ({
                let core = self.located();
                let open = open_doors(core.doors(), core.rooms() * DEGREE);
                let all = shared(
                    self.prints(),
                    core.first_at(),
                    open,
                    edges_res@,
                    open.len() as int,
                );
                match res {
                    Ok(p) => {
                        &&& probes_ok(open, core.first_at(), edges_res@)
                        &&& !some_unknown(
                            self.prints(),
                            core.first_at(),
                            open,
                            edges_res@,
                            open.len() as int,
                        )
                        &&& p.located() == core
                        &&& p.table() == resolved(
                            core.doors(),
                            self.prints(),
                            core.first_at(),
                            open,
                            edges_res@,
                            open.len() as int,
                        )
                        &&& core.walks_back() ==> p.near() == chosen(
                            all,
                            core.first_at(),
                            core.last_at(),
                            true,
                            all.len() as int,
                        ) && p.far() == chosen(
                            all,
                            core.first_at(),
                            core.last_at(),
                            false,
                            all.len() as int,
                        )
                        &&& !core.walks_back() ==> p.near() == all && p.far().len() == 0
                            && !some_late(all, core.first_at(), core.last_at())
                        &&& forall|a: int, b: int|
                            0 <= a < core.rooms() && 0 <= b < core.rooms()
                                ==> #[trigger] p.known_door()[a][b] == door_to(
                                p.table()[a],
                                b,
                                DEGREE as int,
                            )
                    },
                    Err(SolveError::BadResponse) => !probes_ok(open, core.first_at(), edges_res@),
                    Err(SolveError::UnknownSignature) => probes_ok(
                        open,
                        core.first_at(),
                        edges_res@,
                    ) && some_unknown(
                        self.prints(),
                        core.first_at(),
                        open,
                        edges_res@,
                        open.len() as int,
                    ),
                    Err(SolveError::CandidateTooLate) => {
                        &&& probes_ok(open, core.first_at(), edges_res@)
                        &&& !some_unknown(
                            self.prints(),
                            core.first_at(),
                            open,
                            edges_res@,
                            open.len() as int,
                        )
                        &&& !core.walks_back()
                        &&& some_late(all, core.first_at(), core.last_at())
                    },
                    Err(_) => false,
                }
            }),
    {
        proof {
            use_type_invariant(&self);
            use_type_invariant(&self.core);
        }
        let open = self.open_list();
        if !self.check_probes(&open, edges_res) {
            return Err(SolveError::BadResponse);
        }
        let n = self.core.n;
        let ghost base = option_table(self.core.edges@);
        let ghost first_at = self.core.rw_pos@;
        let ghost last_at = self.core.rw_last_pos@;
        let mut edges = copy_doors(&self.core.edges);
        let mut trivial: Vec<Pending> = Vec::new();
        let mut rest: Vec<Pending> = Vec::new();
        let mut edge_ok = true;
        let mut k: usize = 0;
        proof {
            assert(table_ok(n, base)) by {
                assert forall|u: int| 0 <= u < n implies (#[trigger] base[u]).len() == DEGREE by {
                    assert(base[u][0] == walked(
                        self.core.ixs@,
                        self.core.random_walk@,
                        u,
                        0,
                        self.core.random_walk@.len() as int,
                    ));
                }
                assert forall|u: int, e: int|
                    0 <= u < n && 0 <= e < DEGREE && (#[trigger] base[u][e]) is Some implies base[u][e].unwrap()
                    < n by {
                    assert(self.core.edges@[u]@[e] is Some);
                }
            }
            assert(pviews(trivial@) =~= Seq::<(usize, usize, Seq<usize>)>::empty());
            assert(pviews(rest@) =~= Seq::<(usize, usize, Seq<usize>)>::empty());
        }
        while k < open.len()
            invariant
                k <= open@.len(),
                n == self.core.n,
                self.core.inv(),
                self.fps@.len() == n,
                base == option_table(self.core.edges@),
                first_at == self.core.rw_pos@,
                last_at == self.core.rw_last_pos@,
                probes_ok(open@, first_at, edges_res@),
                open@ == open_doors(option_table(self.core.edges@), n * DEGREE),
                forall|q: int|
                    0 <= q < open@.len() ==> (#[trigger] open@[q]).0 < n && open@[q].1 < DEGREE,
                option_table(edges@) == resolved(base, self.fps@, first_at, open@, edges_res@, k as int),
                table_ok(n, option_table(edges@)),
                !some_unknown(self.fps@, first_at, open@, edges_res@, k as int),
                ({
                    let all = shared(self.fps@, first_at, open@, edges_res@, k as int);
                    &&& pending_ok(n, all)
                    &&& all.len() <= k
                    &&& if self.core.backward {
                        &&& pviews(trivial@) == chosen(all, first_at, last_at, true, all.len() as int)
                        &&& pviews(rest@) == chosen(all, first_at, last_at, false, all.len() as int)
                    } else {
                        &&& pviews(trivial@) == all
                        &&& rest@.len() == 0
                        &&& edge_ok == !some_late(all, first_at, last_at)
                    }
                }),
            decreases open@.len() - k,
        {
            let (u, e) = open[k];
            let ghost all = shared(self.fps@, first_at, open@, edges_res@, k as int);
            let ghost cands = cands_of(self.fps@, first_at, open@, edges_res@, k as int);
            let ghost before = option_table(edges@);
            let rooms = self.rooms_like(&edges_res[k], self.core.rw_pos[u] + 1);
            proof {
                assert(rooms@ == cands);
                lemma_rooms_with(
                    self.fps@,
                    edges_res@[k as int]@.skip(first_at[u as int] + 1),
                    n as int,
                );
            }
            if rooms.len() == 0 {
                proof {
                    assert(some_unknown(self.fps@, first_at, open@, edges_res@, open@.len() as int));
                }
                return Err(SolveError::UnknownSignature);
            }
            if rooms.len() > 1 {
                let mut is_early = true;
                let mut is_strict = true;
                let mut i: usize = 0;
                while i < rooms.len()
                    invariant
                        i <= rooms@.len(),
                        u < n,
                        n == self.core.n,
                        self.core.inv(),
                        first_at == self.core.rw_pos@,
                        last_at == self.core.rw_last_pos@,
                        forall|j: int| 0 <= j < rooms@.len() ==> #[trigger] rooms@[j] < n,
                        is_early == forall|j: int|
                            0 <= j < i ==> first_at[#[trigger] rooms@[j] as int]
                                <= last_at[u as int],
                        is_strict == forall|j: int|
                            0 <= j < i ==> first_at[#[trigger] rooms@[j] as int]
                                < last_at[u as int],
                    decreases rooms@.len() - i,
                {
                    let w = rooms[i];
                    if self.core.rw_last_pos[u] < self.core.rw_pos[w] {
                        is_early = false;
                    }
                    if !(self.core.rw_pos[w] < self.core.rw_last_pos[u]) {
                        is_strict = false;
                    }
                    i += 1;
                }
                let ghost list = rooms@;
                let pending = Pending { room: u, door: e, rooms };
                let ghost pv = pview(pending);
                proof {
                    assert(pv.2 == list);
                    assert(pv.0 == u);
                    assert forall|j: int| 0 <= j < list.len() implies #[trigger] pv.2[j]
                        == list[j] by {}
                }
                let ghost longer = all.push(pv);
                let ghost near = pviews(trivial@);
                let ghost far = pviews(rest@);
                proof {
                    assert(is_early == early(pv, first_at, last_at));
                    assert(is_strict == strictly_early(pv, first_at, last_at));
                    assert(shared(self.fps@, first_at, open@, edges_res@, k as int + 1) == longer);
                    lemma_chosen_prefix(longer, all, first_at, last_at, true, all.len() as int);
                    lemma_chosen_prefix(longer, all, first_at, last_at, false, all.len() as int);
                    assert(longer[all.len() as int] == pv);
                    assert(pending_ok(n, longer)) by {
                        assert forall|i: int| 0 <= i < longer.len() implies {
                            let p = #[trigger] longer[i];
                            &&& p.0 < n
                            &&& p.1 < DEGREE
                            &&& 2 <= p.2.len() <= n
                            &&& forall|j: int| 0 <= j < p.2.len() ==> #[trigger] p.2[j] < n
                        } by {
                            if i < all.len() {
                                assert(longer[i] == all[i]);
                            }
                        }
                    }
                    if !self.core.backward {
                        if some_late(longer, first_at, last_at) {
                            let i = choose|i: int|
                                0 <= i < longer.len() && !strictly_early(
                                    #[trigger] longer[i],
                                    first_at,
                                    last_at,
                                );
                            if i < all.len() {
                                assert(longer[i] == all[i]);
                                assert(some_late(all, first_at, last_at));
                            }
                        }
                        if some_late(all, first_at, last_at) {
                            let i = choose|i: int|
                                0 <= i < all.len() && !strictly_early(
                                    #[trigger] all[i],
                                    first_at,
                                    last_at,
                                );
                            assert(longer[i] == all[i]);
                        }
                    }
                }
                if !self.core.backward {
                    if !is_strict {
                        edge_ok = false;
                    }
                    trivial.push(pending);
                    proof {
                        assert(pviews(trivial@) =~= near.push(pv));
                    }
                } else if is_early {
                    trivial.push(pending);
                    proof {
                        assert(pviews(trivial@) =~= near.push(pv));
                        assert(pviews(rest@) =~= far);
                    }
                } else {
                    rest.push(pending);
                    proof {
                        assert(pviews(rest@) =~= far.push(pv));
                        assert(pviews(trivial@) =~= near);
                    }
                }
            } else {
                proof {
                    assert(option_table(edges@)[u as int] == edges@[u as int]@);
                    assert(option_table(edges@)[u as int].len() == DEGREE);
                }
                edges[u][e] = Some(rooms[0]);
                proof {
                    assert(option_table(edges@) =~= before.update(
                        u as int,
                        before[u as int].update(e as int, Some(cands[0])),
                    ));
                    assert(table_ok(n, option_table(edges@))) by {
                        assert forall|a: int, d: int|
                            0 <= a < n && 0 <= d < DEGREE && (#[trigger] option_table(
                                edges@,
                            )[a][d]) is Some implies option_table(edges@)[a][d].unwrap() < n by {
                            if !(a == u && d == e) {
                                assert(before[a][d] is Some);
                            }
                        }
                    }
                }
            }
            proof {
                assert(!some_unknown(self.fps@, first_at, open@, edges_res@, k as int + 1)) by {
                    if some_unknown(self.fps@, first_at, open@, edges_res@, k as int + 1) {
                        let q = choose|q: int|
                            0 <= q < k + 1 && (#[trigger] cands_of(
                                self.fps@,
                                first_at,
                                open@,
                                edges_res@,
                                q,
                            )).len() == 0;
                        if q < k {
                            assert(some_unknown(self.fps@, first_at, open@, edges_res@, k as int));
                        }
                    }
                }
            }
            k += 1;
        }
        if !self.core.backward && !edge_ok {
            return Err(SolveError::CandidateTooLate);
        }
        let known = known_doors(n, &edges);
        proof {
            let all = shared(self.fps@, first_at, open@, edges_res@, open@.len() as int);
            lemma_chosen_ok(n, all, first_at, last_at, true, all.len() as int);
            lemma_chosen_ok(n, all, first_at, last_at, false, all.len() as int);
            if !self.core.backward {
                assert(pviews(rest@) =~= Seq::<(usize, usize, Seq<usize>)>::empty());
            }
        }
        Ok(Probed { core: self.core, edges, trivial, rest, known })
    }

    /// The footprint of every room, as the solver holds it.
    pub closed spec fn prints(self) -> Seq<Vec<usize>> {
        self.fps@
    }
}

impl Probed {
    #[verifier::type_invariant]
    spec fn inv(self) -> bool {
        &&& table_ok(self.core.n, option_table(self.edges@))
        &&& pending_ok(self.core.n, pviews(self.trivial@))
        &&& pending_ok(self.core.n, pviews(self.rest@))
        &&& known_ok(self.core.n, option_table(self.known@))
    }

    /// The solver as it stood before the footprint round.
    pub closed spec fn located(self) -> Located {
        self.core
    }

    /// The door table.
    pub closed spec fn table(self) -> Seq<Seq<Option<usize>>> {
        option_table(self.edges@)
    }

    /// The pending doors that are resolved without walking back.
    pub closed spec fn near(self) -> Seq<(usize, usize, Seq<usize>)> {
        pviews(self.trivial@)
    }

    /// The pending doors that are resolved by walking back.
    pub closed spec fn far(self) -> Seq<(usize, usize, Seq<usize>)> {
        pviews(self.rest@)
    }

    /// For every pair of rooms a door known to lead from the first to the
    /// second.
    pub closed spec fn known_door(self) -> Seq<Seq<Option<usize>>> {
        option_table(self.known@)
    }
}


/// The place among the first `m` candidates of the room that the walk first
/// reaches at position `i`, if there is one; the last place counts.
pub open spec fn cand_index(first_at: Seq<usize>, v: Seq<usize>, i: int, m: int) -> Option<usize>
    decreases m,
{
    if m <= 0 {
        None
    } else if first_at[v[m - 1] as int] == i {
        Some((m - 1) as usize)
    } else {
        cand_index(first_at, v, i, m - 1)
    }
}

/// The walk through the positions below `m` in which every candidate, where
/// the walk first reaches it, is given one digit of its place among the
/// candidates; the doors of the walk are taken at the positions below
/// `steps`.
pub open spec fn coded_walk(
    walk: Seq<usize>,
    first_at: Seq<usize>,
    v: Seq<usize>,
    base: int,
    m: int,
    steps: int,
) -> Seq<WalkStep>
    decreases m,
{
    if m <= 0 {
        Seq::empty()
    } else {
        let i = m - 1;
        let write = match cand_index(first_at, v, i, v.len() as int) {
            Some(k) => seq![WalkStep::Rewrite(((k as int / base) % (LABELS as int)) as usize)],
            None => Seq::empty(),
        };
        let go = if i < steps {
            seq![WalkStep::Edge(walk[i])]
        } else {
            Seq::empty()
        };
        coded_walk(walk, first_at, v, base, i, steps) + write + go
    }
}

/// The plans for one pending door: one for every digit of the candidates'
/// places. Each walks, writing digits, up to position `upto`, takes the
/// bridge door if there is one, and takes the pending door.
pub open spec fn pending_plans(
    walk: Seq<usize>,
    first_at: Seq<usize>,
    p: (usize, usize, Seq<usize>),
    m: int,
    steps: int,
    bridge: Option<usize>,
) -> Seq<Seq<WalkStep>> {
    let bases = weights(p.2.len() as int, 1);
    Seq::new(
        bases.len(),
        |j: int|
            coded_walk(walk, first_at, p.2, bases[j] as int, m, steps) + match bridge {
                Some(d) => seq![WalkStep::Edge(d)],
                None => Seq::empty(),
            } + seq![WalkStep::Edge(p.1)],
    )
}

/// The plans for the first `m` pending doors that are resolved without
/// walking back, one door after another.
pub open spec fn near_plans(
    walk: Seq<usize>,
    first_at: Seq<usize>,
    last_at: Seq<usize>,
    list: Seq<(usize, usize, Seq<usize>)>,
    m: int,
) -> Seq<Seq<WalkStep>>
    decreases m,
{
    if m <= 0 {
        Seq::empty()
    } else {
        let p = list[m - 1];
        let upto = last_at[p.0 as int] as int;
        near_plans(walk, first_at, last_at, list, m - 1) + pending_plans(
            walk,
            first_at,
            p,
            upto,
            upto,
            None,
        )
    }
}

/// The number spelled by the last labels of the traces from `from` up to
/// `to`, the first trace giving the lowest digit.
pub open spec fn tail_value(res: Seq<Vec<usize>>, from: int, to: int) -> int
    decreases to - from,
{
    if from >= to {
        0
    } else {
        res[from]@.last() + 4 * tail_value(res, from + 1, to)
    }
}

/// A number spelled from the lowest digit on is no smaller than what its
/// higher digits spell.
pub proof fn lemma_tail_mono(res: Seq<Vec<usize>>, from: int, mid: int, to: int)
    requires
        from <= mid <= to,
    ensures
        tail_value(res, from, to) >= tail_value(res, mid, to) >= 0,
    decreases mid - from,
{
    lemma_tail_nonneg(res, mid, to);
    if from < mid {
        lemma_tail_nonneg(res, from + 1, to);
        lemma_tail_mono(res, from + 1, mid, to);
    }
}

proof fn lemma_tail_nonneg(res: Seq<Vec<usize>>, from: int, to: int)
    ensures
        tail_value(res, from, to) >= 0,
    decreases to - from,
{
    if from < to {
        lemma_tail_nonneg(res, from + 1, to);
    }
}

/// The answer has one trace of labels for every plan, each one label longer
/// than its plan.
pub open spec fn steps_answered(plans: Seq<Vec<WalkStep>>, res: Seq<Vec<usize>>) -> bool {
    &&& res.len() == plans.len()
    &&& forall|k: int|
        0 <= k < plans.len() ==> trace_ok((#[trigger] res[k])@, plans[k]@.len() + 1)
}

/// Decides whether an answer has the shape of an answer to the plans.
pub fn check_steps(plans: &Vec<Vec<WalkStep>>, res: &Vec<Vec<usize>>) -> (ok: bool)
    ensures
        ok == steps_answered(plans@, res@),
{
    if res.len() != plans.len() {
        return false;
    }
    let mut k: usize = 0;
    while k < plans.len()
        invariant
            k <= plans@.len(),
            res@.len() == plans@.len(),
            forall|q: int|
                0 <= q < k ==> trace_ok((#[trigger] res@[q])@, plans@[q]@.len() + 1),
        decreases plans@.len() - k,
    {
        let len = plans[k].len();
        if len == usize::MAX {
            proof {
                let got = res@[k as int].len();
                assert(!trace_ok(res@[k as int]@, plans@[k as int]@.len() + 1));
            }
            return false;
        }
        if !check_trace(&res[k], len + 1) {
            return false;
        }
        k += 1;
    }
    true
}

/// The number that the last labels of the traces from `from` up to `to`
/// spell, if it is below `bound`.
pub fn read_number(res: &Vec<Vec<usize>>, from: usize, to: usize, bound: usize) -> (number:
    Option<usize>)
    requires
        from <= to <= res@.len(),
        bound <= MAX_ROOMS,
        forall|k: int| from <= k < to ==> (#[trigger] res@[k])@.len() > 0 && res@[k]@.last() < LABELS,
    ensures
        number is Some <==> tail_value(res@, from as int, to as int) < bound,
        number matches Some(c) ==> c == tail_value(res@, from as int, to as int),
{
    let mut cand_ix: usize = 0;
    let mut i: usize = to;
    while i > from
        invariant
            from <= i <= to <= res@.len(),
            bound <= MAX_ROOMS,
            forall|k: int|
                from <= k < to ==> (#[trigger] res@[k])@.len() > 0 && res@[k]@.last() < LABELS,
            cand_ix == tail_value(res@, i as int, to as int),
            cand_ix < bound || i == to,
        decreases i,
    {
        i -= 1;
        let trace = &res[i];
        let label = trace[trace.len() - 1];
        cand_ix = cand_ix * LABELS + label;
        if cand_ix >= bound {
            proof {
                lemma_tail_mono(res@, from as int, i as int, to as int);
            }
            return None;
        }
    }
    if cand_ix >= bound {
        return None;
    }
    Some(cand_ix)
}

/// For every walk position the place of the candidate that the walk first
/// reaches there.
fn candidate_places(first_at: &Vec<usize>, v: &Vec<usize>, positions: usize) -> (places: Vec<
    Option<usize>,
>)
    requires
        forall|j: int| 0 <= j < v@.len() ==> #[trigger] v@[j] < first_at@.len(),
        forall|r: int| 0 <= r < first_at@.len() ==> #[trigger] first_at@[r] < positions,
    ensures
        places@.len() == positions,
        forall|i: int|
            0 <= i < positions ==> #[trigger] places@[i] == cand_index(
                first_at@,
                v@,
                i,
                v@.len() as int,
            ),
{
    let mut places: Vec<Option<usize>> = vec![None; positions];
    let mut k: usize = 0;
    while k < v.len()
        invariant
            k <= v@.len(),
            places@.len() == positions,
            forall|j: int| 0 <= j < v@.len() ==> #[trigger] v@[j] < first_at@.len(),
            forall|r: int| 0 <= r < first_at@.len() ==> #[trigger] first_at@[r] < positions,
            forall|i: int|
                0 <= i < positions ==> #[trigger] places@[i] == cand_index(
                    first_at@,
                    v@,
                    i,
                    k as int,
                ),
        decreases v@.len() - k,
    {
        let w = v[k];
        places[first_at[w]] = Some(k);
        k += 1;
    }
    places
}

/// The plans for one pending door.
fn plans_for(
    walk: &Vec<usize>,
    first_at: &Vec<usize>,
    pending: &Pending,
    m: usize,
    steps: usize,
    bridge: Option<usize>,
) -> (plans: Vec<Vec<WalkStep>>)
    requires
        m <= walk@.len() + 1,
        steps <= walk@.len(),
        2 <= pending.rooms@.len() <= MAX_ROOMS,
        forall|j: int| 0 <= j < pending.rooms@.len() ==> #[trigger] pending.rooms@[j] < first_at@.len(),
        forall|r: int| 0 <= r < first_at@.len() ==> #[trigger] first_at@[r] <= walk@.len(),
        walk@.len() < usize::MAX,
    ensures
        option_plans(plans@) == pending_plans(
            walk@,
            first_at@,
            pview(*pending),
            m as int,
            steps as int,
            bridge,
        ),
{
    let places = candidate_places(first_at, &pending.rooms, walk.len() + 1);
    let limit = pending.rooms.len();
    let ghost bases = weights(limit as int, 1);
    let ghost wanted = pending_plans(
        walk@,
        first_at@,
        pview(*pending),
        m as int,
        steps as int,
        bridge,
    );
    let mut plans: Vec<Vec<WalkStep>> = Vec::new();
    let mut base: usize = 1;
    let ghost mut done: Seq<usize> = Seq::empty();
    proof {
        assert(done + weights(limit as int, 1) =~= weights(limit as int, 1));
    }
    while base < limit
        invariant
            1 <= base,
            limit == pending.rooms@.len(),
            limit <= MAX_ROOMS,
            m <= walk@.len() + 1,
            steps <= walk@.len(),
            places@.len() == walk@.len() + 1,
            forall|i: int|
                0 <= i <= walk@.len() ==> #[trigger] places@[i] == cand_index(
                    first_at@,
                    pending.rooms@,
                    i,
                    pending.rooms@.len() as int,
                ),
            bases == weights(limit as int, 1),
            bases == done + weights(limit as int, base as int),
            plans@.len() == done.len(),
            wanted == pending_plans(
                walk@,
                first_at@,
                pview(*pending),
                m as int,
                steps as int,
                bridge,
            ),
            forall|j: int| 0 <= j < plans@.len() ==> (#[trigger] plans@[j])@ == wanted[j],
        decreases
                (if base < limit {
                    limit - base
                } else {
                    0
                }),
    {
        let mut plan: Vec<WalkStep> = Vec::new();
        let mut i: usize = 0;
        while i < m
            invariant
                i <= m <= walk@.len() + 1,
                1 <= base,
                steps <= walk@.len(),
                places@.len() == walk@.len() + 1,
                forall|q: int|
                    0 <= q <= walk@.len() ==> #[trigger] places@[q] == cand_index(
                        first_at@,
                        pending.rooms@,
                        q,
                        pending.rooms@.len() as int,
                    ),
                plan@ == coded_walk(
                    walk@,
                    first_at@,
                    pending.rooms@,
                    base as int,
                    i as int,
                    steps as int,
                ),
            decreases m - i,
        {
            if let Some(k) = places[i] {
                plan.push(WalkStep::Rewrite(k / base % LABELS));
            }
            if i < steps {
                plan.push(WalkStep::Edge(walk[i]));
            }
            i += 1;
            proof {
                assert(plan@ =~= coded_walk(
                    walk@,
                    first_at@,
                    pending.rooms@,
                    base as int,
                    i as int,
                    steps as int,
                ));
            }
        }
        if let Some(d) = bridge {
            plan.push(WalkStep::Edge(d));
        }
        plan.push(WalkStep::Edge(pending.door));
        let ghost sofar = plans@;
        proof {
            let rest = weights(limit as int, base as int);
            assert(rest =~= seq![base] + weights(limit as int, base * 4));
            assert(done.push(base) + weights(limit as int, base * 4) =~= done + rest);
            assert(bases[done.len() as int] == base);
            assert(plan@ =~= wanted[done.len() as int]);
        }
        plans.push(plan);
        proof {
            assert forall|j: int| 0 <= j < plans@.len() implies (#[trigger] plans@[j])@
                == wanted[j] by {
                if j < sofar.len() {
                    assert(plans@[j] == sofar[j]);
                }
            }
            done = done.push(base);
        }
        base = base * 4;
    }
    proof {
        assert(weights(limit as int, base as int) =~= Seq::<usize>::empty());
        assert(done + Seq::<usize>::empty() =~= done);
        assert(option_plans(plans@) =~= wanted);
    }
    plans
}

/// The plans held by a vector of vectors.
pub open spec fn option_plans(plans: Seq<Vec<WalkStep>>) -> Seq<Seq<WalkStep>> {
    Seq::new(plans.len(), |j: int| plans[j]@)
}


/// Number of plans for the first `m` pending doors.
pub open spec fn plans_before(list: Seq<(usize, usize, Seq<usize>)>, m: int) -> int
    decreases m,
{
    if m <= 0 {
        0
    } else {
        plans_before(list, m - 1) + weights(list[m - 1].2.len() as int, 1).len()
    }
}

/// The candidate that the traces for the `i`-th pending door spell.
pub open spec fn spelled(
    list: Seq<(usize, usize, Seq<usize>)>,
    res: Seq<Vec<usize>>,
    i: int,
) -> int {
    tail_value(res, plans_before(list, i), plans_before(list, i + 1))
}

/// Every one of the first `m` pending doors has a candidate spelled.
pub open spec fn all_spelled(
    list: Seq<(usize, usize, Seq<usize>)>,
    res: Seq<Vec<usize>>,
    m: int,
) -> bool {
    forall|i: int| 0 <= i < m ==> #[trigger] spelled(list, res, i) < list[i].2.len()
}

/// A table of doors with one door given a target.
pub open spec fn with_door(
    table: Seq<Seq<Option<usize>>>,
    u: usize,
    e: usize,
    target: usize,
) -> Seq<Seq<Option<usize>>> {
    table.update(u as int, table[u as int].update(e as int, Some(target)))
}

/// The door table after the first `m` pending doors are resolved, each
/// leading to the candidate that its traces spell.
pub open spec fn settled(
    table: Seq<Seq<Option<usize>>>,
    list: Seq<(usize, usize, Seq<usize>)>,
    res: Seq<Vec<usize>>,
    m: int,
) -> Seq<Seq<Option<usize>>>
    decreases m,
{
    if m <= 0 {
        table
    } else {
        let p = list[m - 1];
        with_door(settled(table, list, res, m - 1), p.0, p.1, p.2[spelled(list, res, m - 1)])
    }
}

/// The doors known between rooms after the first `m` pending doors are
/// resolved: the door resolved last between two rooms is the one known.
pub open spec fn settled_known(
    known: Seq<Seq<Option<usize>>>,
    list: Seq<(usize, usize, Seq<usize>)>,
    res: Seq<Vec<usize>>,
    m: int,
) -> Seq<Seq<Option<usize>>>
    decreases m,
{
    if m <= 0 {
        known
    } else {
        let p = list[m - 1];
        with_door(settled_known(known, list, res, m - 1), p.0, p.2[spelled(list, res, m - 1)], p.1)
    }
}

/// The solver in its last stage: the pending doors left are resolved one by
/// one, the last of the list first.
pub struct Backward {
    core: Located,
    edges: Vec<Vec<Option<usize>>>,
    rest: Vec<Pending>,
    known: Vec<Vec<Option<usize>>>,
}

/// Sets one door of a table.
fn set_door(edges: &mut Vec<Vec<Option<usize>>>, u: usize, e: usize, target: usize)
    requires
        u < old(edges)@.len(),
        e < old(edges)@[u as int]@.len(),
    ensures
        option_table(final(edges)@) == with_door(option_table(old(edges)@), u, e, target),
{
    edges[u][e] = Some(target);
    proof {
        assert(option_table(edges@) =~= with_door(option_table(old(edges)@), u, e, target));
    }
}

/// Setting a door keeps a table a table.
proof fn lemma_with_door(n: usize, table: Seq<Seq<Option<usize>>>, u: usize, e: usize, target: usize)
    requires
        table_ok(n, table),
        u < n,
        e < DEGREE,
        target < n,
    ensures
        table_ok(n, with_door(table, u, e, target)),
{
    let after = with_door(table, u, e, target);
    assert forall|a: int, d: int|
        0 <= a < n && 0 <= d < DEGREE && (#[trigger] after[a][d]) is Some implies after[a][d].unwrap()
        < n by {
        if !(a == u && d == e) {
            assert(table[a][d] is Some);
        }
    }
}

/// Noting a known door keeps the known doors valid.
proof fn lemma_with_known(n: usize, known: Seq<Seq<Option<usize>>>, a: usize, b: usize, e: usize)
    requires
        known_ok(n, known),
        a < n,
        b < n,
        e < DEGREE,
    ensures
        known_ok(n, with_door(known, a, b, e)),
{
    let after = with_door(known, a, b, e);
    assert forall|x: int, y: int|
        0 <= x < n && 0 <= y < n && (#[trigger] after[x][y]) is Some implies after[x][y].unwrap()
        < DEGREE by {
        if !(x == a && y == b) {
            assert(known[x][y] is Some);
        }
    }
}

impl Probed {
    /// The plans of the round that resolves pending doors without walking
    /// back. For every such door and every digit of the places of its
    /// candidates, one plan: the walk up to the position at which the door's
    /// room is last reached, with the digit written onto every candidate
    /// where the walk first reaches it, and then the door.
    pub fn trivial_plans(&self) -> (plans: Vec<Vec<WalkStep>>)
        ensures
            option_plans(plans@) == near_plans(
                self.located().walk(),
                self.located().first_at(),
                self.located().last_at(),
                self.near(),
                self.near().len() as int,
            ),
            plans@.len() == plans_before(self.near(), self.near().len() as int),
    {
        proof {
            use_type_invariant(self);
            use_type_invariant(&self.core);
        }
        let mut edge_plans: Vec<Vec<WalkStep>> = Vec::new();
        let mut i: usize = 0;
        while i < self.trivial.len()
            invariant
                i <= self.trivial@.len(),
                self.inv(),
                self.core.inv(),
                option_plans(edge_plans@) == near_plans(
                    self.core.random_walk@,
                    self.core.rw_pos@,
                    self.core.rw_last_pos@,
                    pviews(self.trivial@),
                    i as int,
                ),
                edge_plans@.len() == plans_before(pviews(self.trivial@), i as int),
            decreases self.trivial@.len() - i,
        {
            let pending = &self.trivial[i];
            proof {
                assert(pviews(self.trivial@)[i as int] == pview(*pending));
            }
            proof {
                assert(self.core.rw_pos@[pending.room as int]
                    <= self.core.rw_last_pos@[pending.room as int]);
            }
            let upto = self.core.rw_last_pos[pending.room];
            let mut more = plans_for(
                &self.core.random_walk,
                &self.core.rw_pos,
                pending,
                upto,
                upto,
                None,
            );
            let ghost before = edge_plans@;
            let ghost added = more@;
            edge_plans.append(&mut more);
            proof {
                assert(edge_plans@ == before + added);
                assert(option_plans(edge_plans@) =~= option_plans(before) + option_plans(added));
            }
            i += 1;
        }
        edge_plans
    }

    /// Takes the traces of those plans. The last label of a trace is the
    /// digit that its plan wrote onto the room behind the door, so the
    /// traces for one door spell the place of that room among the
    /// candidates.
    pub fn settle(self, res: &Vec<Vec<usize>>) -> (out: Result<Backward, SolveError>)
        ensures
            ({
                let core = self.located();
                let plans = near_plans(
                    core.walk(),
                    core.first_at(),
                    core.last_at(),
                    self.near(),
                    self.near().len() as int,
                );
                let shaped = res@.len() == plans.len() && forall|k: int|
                    0 <= k < plans.len() ==> trace_ok((#[trigger] res@[k])@, plans[k].len() + 1);
                match out {
                    Ok(b) => {
                        &&& shaped
                        &&& all_spelled(self.near(), res@, self.near().len() as int)
                        &&& b.located() == core
                        &&& b.pending() == self.far()
                        &&& b.table() == settled(
                            self.table(),
                            self.near(),
                            res@,
                            self.near().len() as int,
                        )
                        &&& b.known_door() == settled_known(
                            self.known_door(),
                            self.near(),
                            res@,
                            self.near().len() as int,
                        )
                    },
                    Err(e) => e is BadResponse && !(shaped && all_spelled(
                        self.near(),
                        res@,
                        self.near().len() as int,
                    )),
                }
            }),
    {
        proof {
            use_type_invariant(&self);
            use_type_invariant(&self.core);
        }
        let plans = self.trivial_plans();
        if !check_steps(&plans, res) {
            proof {
                assert forall|k: int| 0 <= k < plans@.len() implies option_plans(plans@)[k].len()
                    == (#[trigger] plans@[k])@.len() by {}
            }
            return Err(SolveError::BadResponse);
        }
        let n = self.core.n;
        let ghost list = pviews(self.trivial@);
        let ghost table0 = option_table(self.edges@);
        let ghost known0 = option_table(self.known@);
        let mut edges = copy_doors(&self.edges);
        let mut known = copy_doors(&self.known);
        let mut start: usize = 0;
        let mut i: usize = 0;
        while i < self.trivial.len()
            invariant
                i <= self.trivial@.len(),
                n == self.core.n,
                self.inv(),
                self.core.inv(),
                list == pviews(self.trivial@),
                res@.len() == plans_before(list, list.len() as int),
                forall|k: int|
                    0 <= k < res@.len() ==> (#[trigger] res@[k])@.len() > 0 && res@[k]@.last()
                        < LABELS,
                start == plans_before(list, i as int),
                start <= res@.len(),
                all_spelled(list, res@, i as int),
                option_table(edges@) == settled(table0, list, res@, i as int),
                option_table(known@) == settled_known(known0, list, res@, i as int),
                table_ok(n, option_table(edges@)),
                known_ok(n, option_table(known@)),
            decreases self.trivial@.len() - i,
        {
            let pending = &self.trivial[i];
            proof {
                assert(list[i as int] == pview(*pending));
                lemma_plans_before_mono(list, i as int + 1, list.len() as int);
            }
            let count = digits_for(pending.rooms.len());
            proof {
                assert(list[i as int].2.len() == pending.rooms@.len());
                assert(plans_before(list, i as int + 1) == plans_before(list, i as int) + weights(
                    list[i as int].2.len() as int,
                    1,
                ).len());
            }
            let total = res.len();
            let end = start + count;
            let cand_ix = match read_number(res, start, end, pending.rooms.len()) {
                Some(c) => c,
                None => {
                    proof {
                        assert(!(spelled(list, res@, i as int) < list[i as int].2.len()));
                        assert(!all_spelled(list, res@, list.len() as int));
                    }
                    return Err(SolveError::BadResponse);
                },
            };
            let target = pending.rooms[cand_ix];
            proof {
                assert(list[i as int].2[cand_ix as int] < n);
                lemma_with_door(n, option_table(edges@), pending.room, pending.door, target);
                lemma_with_known(n, option_table(known@), pending.room, target, pending.door);
                assert(option_table(edges@)[pending.room as int] == edges@[pending.room as int]@);
                assert(option_table(known@)[pending.room as int] == known@[pending.room as int]@);
            }
            set_door(&mut edges, pending.room, pending.door, target);
            set_door(&mut known, pending.room, target, pending.door);
            start = end;
            i += 1;
            proof {
                assert forall|q: int| 0 <= q < i implies #[trigger] spelled(list, res@, q)
                    < list[q].2.len() by {
                    if q < i - 1 {
                        assert(all_spelled(list, res@, i as int - 1));
                    }
                }
            }
        }
        proof {
            assert(pending_ok(n, pviews(self.rest@)));
        }
        Ok(Backward { core: self.core, edges, rest: self.rest, known })
    }
}

/// Number of digits in which places among `count` candidates are written.
pub fn digits_for(count: usize) -> (digits: usize)
    requires
        count <= MAX_ROOMS,
    ensures
        digits == weights(count as int, 1).len(),
        digits <= MAX_ROOMS,
{
    let mut digits: usize = 0;
    let mut base: usize = 1;
    while base < count
        invariant
            1 <= base,
            count <= MAX_ROOMS,
            digits < base,
            digits <= count,
            weights(count as int, 1).len() == digits + weights(count as int, base as int).len(),
        decreases
                (if base < count {
                    count - base
                } else {
                    0
                }),
    {
        proof {
            let rest = weights(count as int, base as int);
            assert(rest =~= seq![base] + weights(count as int, base * 4));
        }
        digits += 1;
        base = base * 4;
    }
    digits
}

/// The number of plans does not fall with the number of pending doors.
pub proof fn lemma_plans_before_mono(list: Seq<(usize, usize, Seq<usize>)>, a: int, b: int)
    requires
        a <= b,
    ensures
        plans_before(list, a) <= plans_before(list, b),
        0 <= plans_before(list, a),
    decreases b - a,
{
    lemma_plans_before_nonneg(list, a);
    if a < b {
        lemma_plans_before_mono(list, a + 1, b);
    }
}

proof fn lemma_plans_before_nonneg(list: Seq<(usize, usize, Seq<usize>)>, a: int)
    ensures
        0 <= plans_before(list, a),
    decreases a,
{
    if a > 0 {
        lemma_plans_before_nonneg(list, a - 1);
    }
}


/// Where the walk to a pending door ends, going by the first `m`
/// candidates: at the position at which the door's room is last reached, or,
/// if the walk first reaches a candidate later than that and a door is known
/// to lead from the candidate to the room, at that candidate's first
/// position, from where that door is taken as a bridge. Of several such
/// candidates the one reached last counts.
pub open spec fn anchor(
    first_at: Seq<usize>,
    last_at: Seq<usize>,
    known: Seq<Seq<Option<usize>>>,
    p: (usize, usize, Seq<usize>),
    m: int,
) -> (usize, Option<usize>)
    decreases m,
{
    if m <= 0 {
        (last_at[p.0 as int], None)
    } else {
        let before = anchor(first_at, last_at, known, p, m - 1);
        let w = p.2[m - 1] as int;
        if before.0 < first_at[w] && known[w][p.0 as int] is Some {
            (first_at[w], known[w][p.0 as int])
        } else {
            before
        }
    }
}

/// The walk first reaches every candidate no later than position `upto`.
pub open spec fn reached(first_at: Seq<usize>, v: Seq<usize>, upto: int) -> bool {
    forall|j: int| 0 <= j < v.len() ==> first_at[#[trigger] v[j] as int] <= upto
}

/// Every door of the table has a target.
pub open spec fn complete_table(n: nat, table: Seq<Seq<Option<usize>>>) -> bool {
    forall|u: int, e: int| 0 <= u < n && 0 <= e < DEGREE ==> (#[trigger] table[u][e]) is Some
}

impl Backward {
    #[verifier::type_invariant]
    spec fn inv(self) -> bool {
        &&& table_ok(self.core.n, option_table(self.edges@))
        &&& pending_ok(self.core.n, pviews(self.rest@))
        &&& known_ok(self.core.n, option_table(self.known@))
    }

    /// The solver as it stood before the footprint round.
    pub closed spec fn located(self) -> Located {
        self.core
    }

    /// The door table.
    pub closed spec fn table(self) -> Seq<Seq<Option<usize>>> {
        option_table(self.edges@)
    }

    /// The doors still pending.
    pub closed spec fn pending(self) -> Seq<(usize, usize, Seq<usize>)> {
        pviews(self.rest@)
    }

    /// For every pair of rooms a door known to lead from the first to the
    /// second.
    pub closed spec fn known_door(self) -> Seq<Seq<Option<usize>>> {
        option_table(self.known@)
    }

    /// Where the walk to the last pending door ends, and the bridge door
    /// taken from there.
    fn find_anchor(&self) -> (found: (usize, Option<usize>))
        requires
            self.rest@.len() > 0,
        ensures
            found == anchor(
                self.core.rw_pos@,
                self.core.rw_last_pos@,
                option_table(self.known@),
                pviews(self.rest@).last(),
                pviews(self.rest@).last().2.len() as int,
            ),
            found.0 <= self.core.random_walk@.len(),
            found.1 matches Some(d) ==> d < DEGREE,
    {
        proof {
            use_type_invariant(self);
            use_type_invariant(&self.core);
        }
        let pending = &self.rest[self.rest.len() - 1];
        let u = pending.room;
        let ghost p = pview(*pending);
        proof {
            assert(pviews(self.rest@).last() == p);
            assert(pviews(self.rest@)[self.rest@.len() - 1] == p);
        }
        proof {
            assert(self.core.rw_pos@[u as int] <= self.core.rw_last_pos@[u as int]);
        }
        let mut last_pos = self.core.rw_last_pos[u];
        let mut bridge: Option<usize> = None;
        let mut i: usize = 0;
        while i < pending.rooms.len()
            invariant
                i <= pending.rooms@.len(),
                self.inv(),
                self.core.inv(),
                p == pview(*pending),
                u == pending.room,
                u < self.core.n,
                forall|j: int|
                    0 <= j < pending.rooms@.len() ==> #[trigger] pending.rooms@[j] < self.core.n,
                (last_pos, bridge) == anchor(
                    self.core.rw_pos@,
                    self.core.rw_last_pos@,
                    option_table(self.known@),
                    p,
                    i as int,
                ),
                last_pos <= self.core.random_walk@.len(),
                bridge matches Some(d) ==> d < DEGREE,
            decreases pending.rooms@.len() - i,
        {
            let w = pending.rooms[i];
            proof {
                assert(option_table(self.known@)[w as int] == self.known@[w as int]@);
                assert(option_table(self.known@)[w as int].len() == self.core.n);
            }
            if last_pos < self.core.rw_pos[w] {
                if let Some(d) = self.known[w][u] {
                    proof {
                        assert(option_table(self.known@)[w as int][u as int] is Some);
                    }
                    last_pos = self.core.rw_pos[w];
                    bridge = Some(d);
                }
            }
            i += 1;
        }
        (last_pos, bridge)
    }

    /// The plans that resolve the last pending door, or `None` when no door
    /// is pending. The plans walk, writing digits onto the candidates, to
    /// the door's room: to the position at which the walk last reaches it,
    /// or on to a candidate that the walk first reaches later and from which
    /// a known door leads to the room. A candidate that the walk first
    /// reaches later still cannot bear its digit, and fails the trial.
    pub fn next_plans(&self) -> (res: Result<Option<Vec<Vec<WalkStep>>>, SolveError>)
        ensures
            ({
                let core = self.located();
                let p = self.pending().last();
                let end = anchor(
                    core.first_at(),
                    core.last_at(),
                    self.known_door(),
                    p,
                    p.2.len() as int,
                );
                match res {
                    Ok(None) => self.pending().len() == 0,
                    Ok(Some(plans)) => {
                        &&& self.pending().len() > 0
                        &&& reached(core.first_at(), p.2, end.0 as int)
                        &&& option_plans(plans@) == pending_plans(
                            core.walk(),
                            core.first_at(),
                            p,
                            end.0 + 1,
                            end.0 as int,
                            end.1,
                        )
                    },
                    Err(e) => {
                        &&& e is CandidateTooLate
                        &&& self.pending().len() > 0
                        &&& !reached(core.first_at(), p.2, end.0 as int)
                    },
                }
            }),
    {
        proof {
            use_type_invariant(self);
            use_type_invariant(&self.core);
        }
        if self.rest.len() == 0 {
            return Ok(None);
        }
        let (last_pos, bridge) = self.find_anchor();
        let pending = &self.rest[self.rest.len() - 1];
        proof {
            assert(pviews(self.rest@).last() == pview(*pending));
            assert(pviews(self.rest@)[self.rest@.len() - 1] == pview(*pending));
        }
        let mut i: usize = 0;
        while i < pending.rooms.len()
            invariant
                i <= pending.rooms@.len(),
                self.core.inv(),
                self.rest@.len() > 0,
                pviews(self.rest@).last() == pview(*pending),
                (last_pos, bridge) == anchor(
                    self.core.rw_pos@,
                    self.core.rw_last_pos@,
                    option_table(self.known@),
                    pviews(self.rest@).last(),
                    pviews(self.rest@).last().2.len() as int,
                ),
                forall|j: int|
                    0 <= j < pending.rooms@.len() ==> #[trigger] pending.rooms@[j] < self.core.n,
                forall|j: int|
                    0 <= j < i ==> self.core.rw_pos@[#[trigger] pending.rooms@[j] as int]
                        <= last_pos,
            decreases pending.rooms@.len() - i,
        {
            if self.core.rw_pos[pending.rooms[i]] > last_pos {
                proof {
                    let p = pviews(self.rest@).last();
                    assert(p.2[i as int] == pending.rooms@[i as int]);
                    assert(!reached(self.core.rw_pos@, p.2, last_pos as int));
                }
                return Err(SolveError::CandidateTooLate);
            }
            i += 1;
        }
        let plans = plans_for(
            &self.core.random_walk,
            &self.core.rw_pos,
            pending,
            last_pos + 1,
            last_pos,
            bridge,
        );
        Ok(Some(plans))
    }

    /// Takes the traces of the plans for the last pending door: the door
    /// leads to the candidate whose place the last labels of the traces
    /// spell.
    pub fn absorb(self, res: &Vec<Vec<usize>>) -> (out: Result<Backward, SolveError>)
        ensures
            ({
                let core = self.located();
                let p = self.pending().last();
                let end = anchor(
                    core.first_at(),
                    core.last_at(),
                    self.known_door(),
                    p,
                    p.2.len() as int,
                );
                let plans = pending_plans(
                    core.walk(),
                    core.first_at(),
                    p,
                    end.0 + 1,
                    end.0 as int,
                    end.1,
                );
                let shaped = res@.len() == plans.len() && forall|k: int|
                    0 <= k < plans.len() ==> trace_ok((#[trigger] res@[k])@, plans[k].len() + 1);
                let c = tail_value(res@, 0, res@.len() as int);
                let ready = self.pending().len() > 0 && reached(core.first_at(), p.2, end.0 as int);
                match out {
                    Ok(b) => {
                        &&& ready
                        &&& shaped
                        &&& c < p.2.len()
                        &&& b.located() == core
                        &&& b.pending() == self.pending().drop_last()
                        &&& b.table() == with_door(self.table(), p.0, p.1, p.2[c])
                        &&& b.known_door() == with_door(self.known_door(), p.0, p.2[c], p.1)
                    },
                    Err(SolveError::CandidateTooLate) => self.pending().len() > 0 && !reached(
                        core.first_at(),
                        p.2,
                        end.0 as int,
                    ),
                    Err(SolveError::BadResponse) => !ready || !(shaped && c < p.2.len()),
                    Err(_) => false,
                }
            }),
    {
        proof {
            use_type_invariant(&self);
            use_type_invariant(&self.core);
        }
        let plans = match self.next_plans() {
            Ok(Some(plans)) => plans,
            Ok(None) => {
                return Err(SolveError::BadResponse);
            },
            Err(e) => {
                return Err(e);
            },
        };
        if !check_steps(&plans, res) {
            proof {
                assert forall|k: int| 0 <= k < plans@.len() implies option_plans(plans@)[k].len()
                    == (#[trigger] plans@[k])@.len() by {}
            }
            return Err(SolveError::BadResponse);
        }
        proof {
            assert forall|k: int| 0 <= k < plans@.len() implies option_plans(plans@)[k].len()
                == (#[trigger] plans@[k])@.len() by {}
        }
        let n = self.core.n;
        let mut rest = self.rest;
        let ghost list = pviews(rest@);
        let pending = match rest.pop() {
            Some(pending) => pending,
            None => {
                return Err(SolveError::BadResponse);
            },
        };
        proof {
            assert(pview(pending) == list.last());
            assert(list[list.len() - 1] == pview(pending));
            assert(pviews(rest@) =~= list.drop_last());
            assert(pending_ok(n, pviews(rest@))) by {
                assert forall|i: int| 0 <= i < pviews(rest@).len() implies {
                    let p = #[trigger] pviews(rest@)[i];
                    &&& p.0 < n
                    &&& p.1 < DEGREE
                    &&& 2 <= p.2.len() <= n
                    &&& forall|j: int| 0 <= j < p.2.len() ==> #[trigger] p.2[j] < n
                } by {
                    assert(pviews(rest@)[i] == list[i]);
                }
            }
        }
        let cand_ix = match read_number(res, 0, res.len(), pending.rooms.len()) {
            Some(c) => c,
            None => {
                return Err(SolveError::BadResponse);
            },
        };
        let target = pending.rooms[cand_ix];
        let mut edges = self.edges;
        let mut known = self.known;
        proof {
            assert(list.last().2[cand_ix as int] < n);
            lemma_with_door(n, option_table(edges@), pending.room, pending.door, target);
            lemma_with_known(n, option_table(known@), pending.room, target, pending.door);
            assert(option_table(edges@)[pending.room as int] == edges@[pending.room as int]@);
            assert(option_table(known@)[pending.room as int] == known@[pending.room as int]@);
        }
        set_door(&mut edges, pending.room, pending.door, target);
        set_door(&mut known, pending.room, target, pending.door);
        Ok(Backward { core: self.core, edges, rest, known })
    }

    /// The graph that the solver has arrived at, once no door is pending and
    /// every door has a target. The starting room is the room of the first
    /// walk position.
    pub fn finish(self) -> (res: Result<Solution, SolveError>)
        ensures
            match res {
                Ok(solution) => {
                    &&& self.pending().len() == 0
                    &&& complete_table(self.located().rooms(), self.table())
                    &&& solution.labels@ == self.located().room_labels()
                    &&& solution.starting_room == 0
                    &&& is_table(table(solution.edges@))
                    &&& table(solution.edges@).len() == self.located().rooms()
                    &&& forall|u: int, e: int|
                        0 <= u < self.located().rooms() && 0 <= e < DEGREE ==> self.table()[u][e]
                            == Some(#[trigger] table(solution.edges@)[u][e])
                },
                Err(e) => e is UnresolvedDoor && !(self.pending().len() == 0 && complete_table(
                    self.located().rooms(),
                    self.table(),
                )),
            },
    {
        proof {
            use_type_invariant(&self);
            use_type_invariant(&self.core);
        }
        if self.rest.len() != 0 {
            return Err(SolveError::UnresolvedDoor);
        }
        let n = self.core.n;
        let mut edges: Vec<Vec<usize>> = Vec::new();
        let mut u: usize = 0;
        while u < n
            invariant
                u <= n,
                n == self.core.n,
                table_ok(n, option_table(self.edges@)),
                edges@.len() == u,
                forall|a: int| 0 <= a < u ==> row_ok((#[trigger] edges@[a])@, n as nat),
                forall|a: int, e: int|
                    0 <= a < u && 0 <= e < DEGREE ==> option_table(self.edges@)[a][e] == Some(
                        #[trigger] edges@[a]@[e],
                    ),
            decreases n - u,
        {
            proof {
                assert(option_table(self.edges@)[u as int] == self.edges@[u as int]@);
                assert(option_table(self.edges@)[u as int].len() == DEGREE);
            }
            let mut row: Vec<usize> = Vec::new();
            let mut e: usize = 0;
            while e < DEGREE
                invariant
                    e <= DEGREE,
                    u < n,
                    n == self.core.n,
                    table_ok(n, option_table(self.edges@)),
                    option_table(self.edges@)[u as int] == self.edges@[u as int]@,
                    self.edges@[u as int]@.len() == DEGREE,
                    row@.len() == e,
                    forall|d: int| 0 <= d < e ==> #[trigger] row@[d] < n,
                    forall|d: int|
                        0 <= d < e ==> self.edges@[u as int]@[d] == Some(#[trigger] row@[d]),
                decreases DEGREE - e,
            {
                match self.edges[u][e] {
                    Some(t) => {
                        proof {
                            assert(option_table(self.edges@)[u as int][e as int] is Some);
                        }
                        row.push(t);
                    },
                    None => {
                        proof {
                            assert(option_table(self.edges@)[u as int][e as int] is None);
                        }
                        return Err(SolveError::UnresolvedDoor);
                    },
                }
                e += 1;
            }
            edges.push(row);
            u += 1;
        }
        let labels = self.core.labels.clone();
        proof {
            assert(labels@ =~= self.core.labels@);
            assert forall|a: int| 0 <= a < table(edges@).len() implies row_ok(
                #[trigger] table(edges@)[a],
                table(edges@).len(),
            ) by {
                assert(row_ok(edges@[a]@, n as nat));
            }
            assert forall|a: int, e: int| 0 <= a < n && 0 <= e < DEGREE implies (
            #[trigger] option_table(self.edges@)[a][e]) is Some by {
                assert(option_table(self.edges@)[a][e] == Some(edges@[a]@[e]));
            }
            assert forall|a: int, e: int|
                0 <= a < n && 0 <= e < DEGREE implies option_table(self.edges@)[a][e] == Some(
                #[trigger] table(edges@)[a][e],
            ) by {
                assert(option_table(self.edges@)[a][e] == Some(edges@[a]@[e]));
            }
        }
        Ok(Solution { labels, edges, starting_room: 0 })
    }
}


/// A walk through doors is a valid plan.
pub proof fn lemma_door_plan_ok(doors: Seq<usize>)
    requires
        all_doors(doors),
    ensures
        plan_ok(door_plan(doors)),
{
    assert forall|i: int| 0 <= i < door_plan(doors).len() implies step_ok(
        #[trigger] door_plan(doors)[i],
    ) by {
        assert(doors[i] < DEGREE);
    }
}

/// Two valid plans, one after the other, are a valid plan.
pub proof fn lemma_concat_ok(a: Seq<WalkStep>, b: Seq<WalkStep>)
    requires
        plan_ok(a),
        plan_ok(b),
    ensures
        plan_ok(a + b),
{
    assert forall|i: int| 0 <= i < (a + b).len() implies step_ok(#[trigger] (a + b)[i]) by {
        if i < a.len() {
            assert((a + b)[i] == a[i]);
            assert(step_ok(a[i]));
        } else {
            assert((a + b)[i] == b[i - a.len()]);
            assert(step_ok(b[i - a.len()]));
        }
    }
}

/// A valid plan names only doors that exist.
pub proof fn lemma_plan_doors(plan: Seq<WalkStep>)
    requires
        plan_ok(plan),
    ensures
        doors_ok(plan),
{
    assert forall|i: int| 0 <= i < plan.len() implies match #[trigger] plan[i] {
        WalkStep::Edge(d) => d < DEGREE,
        WalkStep::Rewrite(_) => true,
    } by {
        assert(step_ok(plan[i]));
    }
}

/// A numbering plan is a valid plan.
pub proof fn lemma_numbering_ok(
    walk: Seq<usize>,
    first: Seq<usize>,
    repr: Seq<bool>,
    base: int,
    m: int,
)
    requires
        all_doors(walk),
        base >= 1,
        m <= walk.len() + 1,
    ensures
        plan_ok(numbering(walk, first, repr, base, m)),
    decreases m,
{
    if m > 0 {
        lemma_numbering_ok(walk, first, repr, base, m - 1);
        let i = m - 1;
        let digit = (label_positions(first, repr, first[i], i).len() as int / base) % (
        LABELS as int);
        let write = if repr[i] {
            seq![WalkStep::Rewrite(digit as usize)]
        } else {
            Seq::empty()
        };
        let go = if i < walk.len() {
            seq![WalkStep::Edge(walk[i])]
        } else {
            Seq::empty()
        };
        assert(plan_ok(write));
        assert(plan_ok(go)) by {
            if i < walk.len() {
                assert(walk[i] < DEGREE);
            }
        }
        lemma_concat_ok(numbering(walk, first, repr, base, i), write);
        lemma_concat_ok(numbering(walk, first, repr, base, i) + write, go);
    } else {
        assert(numbering(walk, first, repr, base, m) =~= Seq::<WalkStep>::empty());
    }
}

/// The weights of digits are positive.
pub proof fn lemma_weights_positive(limit: int, base: int)
    requires
        base >= 1,
        limit <= usize::MAX,
    ensures
        forall|j: int|
            0 <= j < weights(limit, base).len() ==> #[trigger] weights(limit, base)[j] >= 1,
    decreases
            (if base < limit {
                limit - base
            } else {
                0
            }),
{
    if base < limit {
        lemma_weights_positive(limit, base * 4);
        let all = weights(limit, base);
        let rest = weights(limit, base * 4);
        assert forall|j: int| 0 <= j < all.len() implies #[trigger] all[j] >= 1 by {
            if j > 0 {
                assert(all[j] == rest[j - 1]);
            }
        }
    }
}

/// A walk with digits written onto candidates is a valid plan.
pub proof fn lemma_coded_ok(
    walk: Seq<usize>,
    first_at: Seq<usize>,
    v: Seq<usize>,
    base: int,
    m: int,
    steps: int,
)
    requires
        all_doors(walk),
        base >= 1,
        steps <= walk.len(),
    ensures
        plan_ok(coded_walk(walk, first_at, v, base, m, steps)),
    decreases m,
{
    if m > 0 {
        lemma_coded_ok(walk, first_at, v, base, m - 1, steps);
        let i = m - 1;
        let write = match cand_index(first_at, v, i, v.len() as int) {
            Some(k) => seq![WalkStep::Rewrite(((k as int / base) % (LABELS as int)) as usize)],
            None => Seq::empty(),
        };
        let go = if i < steps {
            seq![WalkStep::Edge(walk[i])]
        } else {
            Seq::empty()
        };
        assert(plan_ok(write));
        assert(plan_ok(go)) by {
            if i < steps {
                assert(walk[i] < DEGREE);
            }
        }
        lemma_concat_ok(coded_walk(walk, first_at, v, base, i, steps), write);
        lemma_concat_ok(coded_walk(walk, first_at, v, base, i, steps) + write, go);
    } else {
        assert(coded_walk(walk, first_at, v, base, m, steps) =~= Seq::<WalkStep>::empty());
    }
}

/// The plans for a pending door are valid plans.
pub proof fn lemma_pending_plans_ok(
    walk: Seq<usize>,
    first_at: Seq<usize>,
    p: (usize, usize, Seq<usize>),
    m: int,
    steps: int,
    bridge: Option<usize>,
)
    requires
        all_doors(walk),
        steps <= walk.len(),
        p.1 < DEGREE,
        p.2.len() <= usize::MAX,
        bridge matches Some(d) ==> d < DEGREE,
    ensures
        forall|j: int|
            0 <= j < pending_plans(walk, first_at, p, m, steps, bridge).len() ==> plan_ok(
                #[trigger] pending_plans(walk, first_at, p, m, steps, bridge)[j],
            ),
{
    let bases = weights(p.2.len() as int, 1);
    lemma_weights_positive(p.2.len() as int, 1);
    let plans = pending_plans(walk, first_at, p, m, steps, bridge);
    assert forall|j: int| 0 <= j < plans.len() implies plan_ok(#[trigger] plans[j]) by {
        lemma_coded_ok(walk, first_at, p.2, bases[j] as int, m, steps);
        let over = match bridge {
            Some(d) => seq![WalkStep::Edge(d)],
            None => Seq::empty(),
        };
        assert(plan_ok(over));
        assert(plan_ok(seq![WalkStep::Edge(p.1)]));
        lemma_concat_ok(coded_walk(walk, first_at, p.2, bases[j] as int, m, steps), over);
        lemma_concat_ok(
            coded_walk(walk, first_at, p.2, bases[j] as int, m, steps) + over,
            seq![WalkStep::Edge(p.1)],
        );
    }
}

/// The plans for the pending doors that are resolved without walking back
/// are valid plans.
pub proof fn lemma_near_plans_ok(
    n: usize,
    walk: Seq<usize>,
    first_at: Seq<usize>,
    last_at: Seq<usize>,
    list: Seq<(usize, usize, Seq<usize>)>,
    m: int,
)
    requires
        all_doors(walk),
        pending_ok(n, list),
        0 <= m <= list.len(),
        last_at.len() == n,
        forall|r: int| 0 <= r < n ==> #[trigger] last_at[r] <= walk.len(),
    ensures
        forall|j: int|
            0 <= j < near_plans(walk, first_at, last_at, list, m).len() ==> plan_ok(
                #[trigger] near_plans(walk, first_at, last_at, list, m)[j],
            ),
    decreases m,
{
    if m > 0 {
        lemma_near_plans_ok(n, walk, first_at, last_at, list, m - 1);
        let p = list[m - 1];
        let upto = last_at[p.0 as int] as int;
        lemma_pending_plans_ok(walk, first_at, p, upto, upto, None);
        let before = near_plans(walk, first_at, last_at, list, m - 1);
        let more = pending_plans(walk, first_at, p, upto, upto, None);
        let all = near_plans(walk, first_at, last_at, list, m);
        assert forall|j: int| 0 <= j < all.len() implies plan_ok(#[trigger] all[j]) by {
            if j < before.len() {
                assert(all[j] == before[j]);
            } else {
                assert(all[j] == more[j - before.len()]);
            }
        }
    }
}

/// The truthful answer of a graph to plans.
pub fn answer_steps(hidden: &Graph, plans: &Vec<Vec<WalkStep>>) -> (results: Vec<Vec<usize>>)
    requires
        hidden.wf(),
        forall|i: int| 0 <= i < plans@.len() ==> plan_ok(#[trigger] plans@[i]@),
    ensures
        results@.len() == plans@.len(),
        forall|i: int|
            0 <= i < plans@.len() ==> (#[trigger] results@[i])@ == hidden.trace(plans@[i]@),
{
    proof {
        assert forall|i: int| 0 <= i < plans@.len() implies doors_ok(#[trigger] plans@[i]@) by {
            lemma_plan_doors(plans@[i]@);
        }
    }
    hidden.walk_all(plans)
}

impl Solver4 {
    /// Runs the solver's rounds against a graph that answers every plan
    /// truthfully, as the rewriting oracle does, and returns the graph that
    /// the solver arrives at.
    ///
    /// A graph comes out exactly when the walk reaches as many rooms of the
    /// graph as the solver was made for and the rounds after the walk
    /// resolve: the traces of the numbering plans spell the number of a
    /// representative wherever one is read, every probe shows the footprint
    /// of some room, and every pending door has its candidates reached in
    /// time and one of them spelled. The trial fails with `WrongRoomCount`
    /// exactly when the walk does not reach as many rooms; the truthful
    /// traces always have the shape of an answer, and no door is ever left
    /// without a target.
    ///
    /// The graph that comes out starts in its first room, which bears the
    /// label of the room in which the graph asked starts. Where no label is
    /// borne by more of the rooms that the walk reaches than the digits of
    /// the numbering plans can tell apart, the graph that comes out shows,
    /// when the walk is taken on it, the trace that the graph asked shows.
    /// That is so for every graph of as many rooms as the solver was made
    /// for whose labels are balanced.
    pub fn solve(self, hidden: &Graph) -> (res: Result<Solution, SolveError>)
        requires
            hidden.wf(),
        ensures
            res matches Ok(solution) ==> {
                &&& solution.labels@.len() == self.rooms()
                &&& solution.starting_room == 0
                &&& is_table(table(solution.edges@))
                &&& table(solution.edges@).len() == self.rooms()
                &&& solution.labels@[0] == hidden.labels@[hidden.start_node as int]
            },
            numbers_fit(*hidden, self.walk(), self.rooms()) ==> (res matches Ok(solution) ==> seq![
                solution.labels@[0],
            ] + walk_from(table(solution.edges@), solution.labels@, 0, door_plan(self.walk()))
                == hidden.trace(door_plan(self.walk()))),
            (res matches Err(e) && e is WrongRoomCount) <==> rooms_reached(
                *hidden,
                self.walk(),
                self.walk().len() as int + 1,
            ) != self.rooms(),
            res matches Err(e) ==> e is WrongRoomCount || e is BadResponse || e is UnknownSignature
                || e is CandidateTooLate,
            res is Ok <==> rooms_reached(*hidden, self.walk(), self.walk().len() as int + 1)
                == self.rooms() && resolves(
                *hidden,
                self.walk(),
                self.probe(),
                self.walks_back(),
                self.rooms(),
            ),
    {
        proof {
            use_type_invariant(&self);
            lemma_door_plan_ok(self.random_walk@);
            lemma_plan_doors(door_plan(self.random_walk@));
            lemma_trace_shows_labels(*hidden, door_plan(self.random_walk@));
        }
        let ghost n = self.n;
        let ghost walk = self.random_walk@;
        let ghost probe = self.discriminator@;
        let ghost backward = self.backward;
        let ghost goal = resolves(*hidden, walk, probe, backward, n as nat);
        let first = hidden.walk(plan_of_doors(&self.first_plan()));
        let marked = match self.mark(&first) {
            Ok(marked) => marked,
            Err(e) => {
                return Err(e);
            },
        };
        let marking_plan = marked.marking_plan();
        proof {
            lemma_plan_doors(marking_plan@);
            lemma_trace_shows_labels(*hidden, marking_plan@);
        }
        let second = hidden.walk(marking_plan);
        proof {
            lemma_reprs_are_rooms_reached(
                *hidden,
                walk,
                first@,
                second@,
                Seq::new(first@.len(), |i: int| is_repr(first@, second@, i)),
                walk.len() as int + 1,
            );
        }
        let numbered = match marked.number(&second) {
            Ok(numbered) => numbered,
            Err(e) => {
                return Err(e);
            },
        };
        proof {
            lemma_reprs_are_rooms_reached(
                *hidden,
                walk,
                first@,
                second@,
                numbered.reprs(),
                walk.len() as int + 1,
            );
            assert(rooms_reached(*hidden, walk, walk.len() as int + 1) == n);
            assert forall|i: int| 0 <= i <= walk.len() implies (#[trigger] numbered.reprs()[i]
                <==> !seen_before(*hidden, walk, i)) by {
                lemma_marking_shows_first_visits(*hidden, walk, first@, second@, i);
            }
        }
        let ghost reprs = numbered.reprs();
        let ghost fit = numbers_fit(*hidden, walk, n as nat);
        let numbering_plans = numbered.numbering_plans();
        proof {
            use_type_invariant(&numbered);
            lemma_weights_positive(label_share(numbered.n as int), 1);
            assert forall|j: int| 0 <= j < numbering_plans@.len() implies plan_ok(
                #[trigger] numbering_plans@[j]@,
            ) by {
                lemma_numbering_ok(
                    numbered.random_walk@,
                    numbered.first@,
                    numbered.repr@,
                    weights(label_share(numbered.n as int), 1)[j] as int,
                    numbered.first@.len() as int,
                );
            }
        }
        let third = answer_steps(hidden, &numbering_plans);
        proof {
            use_type_invariant(&numbered);
            assert(truthful(*hidden, numbering_round(walk, first@, reprs, n as nat), third@));
            assert forall|j: int| 0 <= j < third@.len() implies trace_ok(
                (#[trigger] third@[j])@,
                (walk.len() + n + 1) as nat,
            ) by {
                lemma_trace_shows_labels(*hidden, numbering_plans@[j]@);
                lemma_numbering_len(
                    walk,
                    first@,
                    reprs,
                    weights(label_share(n as int), 1)[j] as int,
                    walk.len() as int + 1,
                );
            }
            assert(truthful_numbers(*hidden, walk, first@, reprs, third@, n as nat));
            let rooms = rooms_of(numbered.seen(), numbered.reprs(), third@);
            assert forall|r: int| 0 <= r < n implies #[trigger] visited(rooms, r) by {
                let p = lemma_repr_numbers(numbered.reprs(), walk.len() as int + 1, r);
                assert(rooms[p] == r);
            }
        }
        let located = match numbered.locate(&third) {
            Ok(located) => located,
            Err(e) => {
                proof {
                    let none = Rooms {
                        first_at: Seq::empty(),
                        last_at: Seq::empty(),
                        labels: Seq::empty(),
                        doors: Seq::empty(),
                    };
                    lemma_goal_located(
                        *hidden,
                        walk,
                        probe,
                        backward,
                        n,
                        first@,
                        second@,
                        reprs,
                        third@,
                        Seq::empty(),
                        none,
                    );
                }
                return Err(e);
            },
        };
        let ghost start_label = hidden.labels@[hidden.start_node as int];
        proof {
            use_type_invariant(&located);
            assert(first@[0] == start_label);
            assert(second@[0] == start_label);
            assert(is_repr(first@, second@, 0));
            assert(numbered.reprs()[0]);
            assert(located.room_at()[0] == room_of(numbered.seen(), numbered.reprs(), third@, 0));
            assert(located.ixs@[0] == 0);
            assert(located.rw_pos@[0] <= located.rw_last_pos@[0]);
            if located.rw_pos@[0] > 0 {
                assert(located.ixs@[0] != 0);
            }
            assert(located.labels@[0] == start_label);
            if fit {
                lemma_located_truthfully(
                    *hidden,
                    walk,
                    first@,
                    reprs,
                    third@,
                    located.ixs@,
                    located.rw_pos@,
                    located.rw_last_pos@,
                    located.labels@,
                    option_table(located.edges@),
                    n,
                );
            }
        }
        let ghost ixs = located.ixs@;
        let ghost found = located;
        let ghost rooms = Rooms {
            first_at: located.rw_pos@,
            last_at: located.rw_last_pos@,
            labels: located.labels@,
            doors: option_table(located.edges@),
        };
        proof {
            lemma_goal_located(
                *hidden,
                walk,
                probe,
                backward,
                n,
                first@,
                second@,
                reprs,
                third@,
                ixs,
                rooms,
            );
            assert(goal == resolves_doors(*hidden, walk, probe, backward, n as nat, rooms));
            assert(fit ==> follows(walk, first@, ixs, found.room_labels(), found.doors()));
            assert(ixs.len() == walk.len() + 1);
            assert(forall|i: int| 0 <= i < ixs.len() ==> #[trigger] ixs[i] < n);
        }
        let footprint_plans = located.footprint_plans();
        proof {
            use_type_invariant(&located);
            assert forall|u: int| 0 <= u < footprint_plans@.len() implies plan_ok(
                #[trigger] footprint_plans@[u]@,
            ) by {
                let pos = located.rw_pos@[u] as int;
                assert(located.rw_pos@[u] <= located.rw_last_pos@[u]);
                lemma_prefix_doors(located.random_walk@, pos);
                lemma_door_plan_ok(located.random_walk@.take(pos));
                lemma_concat_ok(door_plan(located.random_walk@.take(pos)), located.discriminator@);
            }
        }
        let prints = answer_steps(hidden, &footprint_plans);
        proof {
            assert forall|u: int| 0 <= u < prints@.len() implies (#[trigger] prints@[u])@.len()
                == located.rw_pos@[u] + 2 * DISCRIMINATOR_LEN + 1 by {
                lemma_trace_shows_labels(*hidden, footprint_plans@[u]@);
                assert(located.rw_pos@[u] <= located.rw_last_pos@[u]);
            }
            assert(truthful(*hidden, footprint_round(walk, probe, rooms.first_at), prints@));
        }
        let printed = match located.print(&prints) {
            Ok(printed) => printed,
            Err(e) => {
                return Err(e);
            },
        };
        let edge_plans = printed.edge_plans();
        proof {
            use_type_invariant(&printed);
            use_type_invariant(&printed.core);
            let core = printed.core;
            let open = open_doors(option_table(core.edges@), core.n * DEGREE);
            lemma_open_doors(option_table(core.edges@), core.n as int, core.n * DEGREE);
            assert forall|k: int| 0 <= k < edge_plans@.len() implies plan_ok(
                #[trigger] edge_plans@[k]@,
            ) by {
                let (u, e) = open[k];
                assert(open[k].0 < core.n && open[k].1 < DEGREE);
                let pos = core.rw_pos@[u as int] as int;
                assert(core.rw_pos@[u as int] <= core.rw_last_pos@[u as int]);
                lemma_prefix_doors(core.random_walk@, pos);
                lemma_door_plan_ok(core.random_walk@.take(pos));
                assert(plan_ok(seq![WalkStep::Edge(e)]));
                lemma_concat_ok(door_plan(core.random_walk@.take(pos)), seq![WalkStep::Edge(e)]);
                lemma_concat_ok(
                    door_plan(core.random_walk@.take(pos)) + seq![WalkStep::Edge(e)],
                    core.discriminator@,
                );
            }
        }
        let probes = answer_steps(hidden, &edge_plans);
        let ghost core = printed.core;
        let ghost fps = printed.prints();
        proof {
            use_type_invariant(&printed.core);
            assert(core == found);
            assert(core.n == n);
            let open = open_doors(rooms.doors, n * DEGREE);
            lemma_open_doors(rooms.doors, n as int, n * DEGREE);
            assert forall|k: int| 0 <= k < probes@.len() implies (#[trigger] probes@[k])@.len()
                == rooms.first_at[open[k].0 as int] + 2 * DISCRIMINATOR_LEN + 2 by {
                lemma_trace_shows_labels(*hidden, edge_plans@[k]@);
                assert(open[k].0 < n && open[k].1 < DEGREE);
                assert(core.rw_pos@[open[k].0 as int] <= core.rw_last_pos@[open[k].0 as int]);
            }
            assert(truthful(*hidden, probe_round(walk, probe, rooms.first_at, open), probes@));
            assert forall|u: int| 0 <= u < fps.len() implies (#[trigger] fps[u])@
                == prints@[u]@.skip(rooms.first_at[u] as int) by {
                assert(printed.footprints()[u] == fps[u]@);
            }
            assert forall|u: int| 0 <= u < n implies (#[trigger] core.doors()[u]).len()
                == DEGREE by {
                assert(core.doors()[u][0] == core.doors()[u][0]);
            }
            assert(table_shaped(n as nat, core.doors()));
        }
        let probed = match printed.probe(&probes) {
            Ok(probed) => probed,
            Err(e) => {
                proof {
                    lemma_goal_probed(
                        *hidden,
                        walk,
                        probe,
                        backward,
                        n,
                        rooms,
                        prints@,
                        fps,
                        probes@,
                        Seq::empty(),
                        Seq::empty(),
                        Seq::empty(),
                    );
                }
                return Err(e);
            },
        };
        proof {
            use_type_invariant(&probed);
            lemma_goal_probed(
                *hidden,
                walk,
                probe,
                backward,
                n,
                rooms,
                prints@,
                fps,
                probes@,
                probed.known_door(),
                probed.near(),
                probed.far(),
            );
            assert(goal == resolves_pending(
                *hidden,
                walk,
                rooms.first_at,
                rooms.last_at,
                probed.known_door(),
                probed.near(),
                probed.far(),
            ));
            lemma_probed_holds(
                n,
                core.doors(),
                fps,
                core.first_at(),
                core.last_at(),
                probes@,
                core.walks_back(),
                probed.near(),
                probed.far(),
            );
            lemma_probed_keeps(
                n,
                core.doors(),
                fps,
                core.first_at(),
                core.last_at(),
                probes@,
                core.walks_back(),
                probed.near(),
                probed.far(),
            );
        }
        let trivial_plans = probed.trivial_plans();
        proof {
            use_type_invariant(&probed);
            use_type_invariant(&probed.core);
            let core = probed.core;
            assert forall|r: int| 0 <= r < core.n implies #[trigger] core.rw_last_pos@[r]
                <= core.random_walk@.len() by {
                assert(core.rw_pos@[r] <= core.rw_last_pos@[r]);
            }
            lemma_near_plans_ok(
                core.n,
                core.random_walk@,
                core.rw_pos@,
                core.rw_last_pos@,
                pviews(probed.trivial@),
                probed.trivial@.len() as int,
            );
            assert forall|j: int| 0 <= j < trivial_plans@.len() implies plan_ok(
                #[trigger] trivial_plans@[j]@,
            ) by {
                assert(option_plans(trivial_plans@)[j] == trivial_plans@[j]@);
            }
        }
        let near = answer_steps(hidden, &trivial_plans);
        let ghost early_table = probed.table();
        let ghost early_doors = probed.near();
        let ghost late_doors = probed.far();
        let ghost early_known = probed.known_door();
        proof {
            let plans = near_plans(
                walk,
                rooms.first_at,
                rooms.last_at,
                early_doors,
                early_doors.len() as int,
            );
            assert forall|k: int| 0 <= k < plans.len() implies (#[trigger] near@[k])@
                == hidden.trace(plans[k]) && trace_ok(near@[k]@, plans[k].len() + 1) by {
                assert(option_plans(trivial_plans@)[k] == trivial_plans@[k]@);
                lemma_trace_shows_labels(*hidden, trivial_plans@[k]@);
            }
            assert(truthful(*hidden, plans, near@));
            lemma_goal_settled(
                *hidden,
                walk,
                rooms.first_at,
                rooms.last_at,
                early_known,
                early_doors,
                late_doors,
                near@,
            );
        }
        let mut last = match probed.settle(&near) {
            Ok(last) => last,
            Err(e) => {
                return Err(e);
            },
        };
        proof {
            assert(goal == finishes(
                *hidden,
                walk,
                rooms.first_at,
                rooms.last_at,
                last.known_door(),
                last.pending(),
            ));
            lemma_settled(n, early_table, early_doors, near@, early_doors.len() as int);
            lemma_settled_keeps(
                n,
                core.doors(),
                early_table,
                early_doors,
                near@,
                early_doors.len() as int,
            );
            assert forall|u: int, e: int| 0 <= u < n && 0 <= e < DEGREE implies (
            #[trigger] last.table()[u][e]) is Some || listed(late_doors, u, e) by {
                if early_table[u][e] is None && !listed(late_doors, u, e) {
                    assert(listed(early_doors, u, e));
                    let k = choose|k: int|
                        0 <= k < early_doors.len() && (#[trigger] early_doors[k]).0 == u
                            && early_doors[k].1 == e;
                    assert(last.table()[early_doors[k].0 as int][early_doors[k].1 as int] is Some);
                }
            }
        }
        loop
            invariant
                hidden.wf(),
                last.located().rooms() == n,
                rooms_reached(*hidden, walk, walk.len() as int + 1) == n,
                walk == self.walk(),
                n == self.rooms(),
                last.located().room_labels()[0] == start_label,
                start_label == hidden.labels@[hidden.start_node as int],
                doors_held(n as nat, last.table(), Seq::empty(), last.pending()),
                last.located() == core,
                fit ==> follows(walk, first@, ixs, core.room_labels(), core.doors()),
                ixs.len() == walk.len() + 1,
                forall|i: int| 0 <= i < ixs.len() ==> #[trigger] ixs[i] < n,
                ixs[0] == 0,
                all_doors(walk),
                first@ == hidden.trace(door_plan(walk)),
                first@.len() == walk.len() + 1,
                kept(n as nat, core.doors(), last.table()),
                all_open(core.doors(), last.pending()),
                rooms.first_at == core.first_at(),
                rooms.last_at == core.last_at(),
                core.walk() == walk,
                goal == finishes(
                    *hidden,
                    walk,
                    rooms.first_at,
                    rooms.last_at,
                    last.known_door(),
                    last.pending(),
                ),
                goal == resolves(
                    *hidden,
                    self.walk(),
                    self.probe(),
                    self.walks_back(),
                    self.rooms(),
                ),
            ensures
                last.pending().len() == 0,
            decreases last.pending().len(),
        {
            let plans = match last.next_plans() {
                Ok(Some(plans)) => plans,
                Ok(None) => {
                    break ;
                },
                Err(e) => {
                    return Err(e);
                },
            };
            proof {
                use_type_invariant(&last);
                use_type_invariant(&last.core);
                let core = last.core;
                let p = pviews(last.rest@).last();
                assert(pviews(last.rest@)[last.rest@.len() - 1] == p);
                assert forall|r: int| 0 <= r < core.n implies #[trigger] core.rw_last_pos@[r]
                    <= core.random_walk@.len() by {
                    assert(core.rw_pos@[r] <= core.rw_last_pos@[r]);
                }
                let end = anchor(
                    core.rw_pos@,
                    core.rw_last_pos@,
                    option_table(last.known@),
                    p,
                    p.2.len() as int,
                );
                lemma_anchor(
                    core.n,
                    core.random_walk@.len() as int,
                    core.rw_pos@,
                    core.rw_last_pos@,
                    option_table(last.known@),
                    p,
                    p.2.len() as int,
                );
                lemma_pending_plans_ok(
                    core.random_walk@,
                    core.rw_pos@,
                    p,
                    end.0 + 1,
                    end.0 as int,
                    end.1,
                );
                assert forall|j: int| 0 <= j < plans@.len() implies plan_ok(
                    #[trigger] plans@[j]@,
                ) by {
                    assert(option_plans(plans@)[j] == plans@[j]@);
                }
            }
            let traces = answer_steps(hidden, &plans);
            let ghost table_before = last.table();
            let ghost pending_before = last.pending();
            let ghost known_before = last.known_door();
            proof {
                let p = pending_before.last();
                let end = anchor(
                    rooms.first_at,
                    rooms.last_at,
                    known_before,
                    p,
                    p.2.len() as int,
                );
                let wanted = pending_plans(
                    walk,
                    rooms.first_at,
                    p,
                    end.0 + 1,
                    end.0 as int,
                    end.1,
                );
                assert forall|k: int| 0 <= k < wanted.len() implies (#[trigger] traces@[k])@
                    == hidden.trace(wanted[k]) && trace_ok(traces@[k]@, wanted[k].len() + 1) by {
                    assert(option_plans(plans@)[k] == plans@[k]@);
                    lemma_trace_shows_labels(*hidden, plans@[k]@);
                }
                assert(truthful(*hidden, wanted, traces@));
                lemma_goal_round(
                    *hidden,
                    walk,
                    rooms.first_at,
                    rooms.last_at,
                    known_before,
                    pending_before,
                    traces@,
                );
            }
            last = match last.absorb(&traces) {
                Ok(next) => next,
                Err(e) => {
                    return Err(e);
                },
            };
            proof {
                let p = pending_before.last();
                assert(pending_before[pending_before.len() - 1] == p);
                assert forall|u: int, e: int| 0 <= u < n && 0 <= e < DEGREE implies (
                #[trigger] last.table()[u][e]) is Some || listed(last.pending(), u, e) by {
                    if table_before[u][e] is None {
                        assert(listed(pending_before, u, e));
                        let k = choose|k: int|
                            0 <= k < pending_before.len() && (#[trigger] pending_before[k]).0 == u
                                && pending_before[k].1 == e;
                        if k < pending_before.len() - 1 {
                            assert(last.pending()[k] == pending_before[k]);
                        }
                    }
                }
                assert(p.0 < n && p.1 < DEGREE);
                assert(core.doors()[p.0 as int][p.1 as int] is None);
                assert forall|i: int| 0 <= i < last.pending().len() implies core.doors()[(
                #[trigger] last.pending()[i]).0 as int][last.pending()[i].1 as int] is None by {
                    assert(last.pending()[i] == pending_before[i]);
                }
            }
        }
        proof {
            use_type_invariant(&last);
            use_type_invariant(&last.core);
            assert forall|u: int, e: int| 0 <= u < n && 0 <= e < DEGREE implies (
            #[trigger] last.table()[u][e]) is Some by {
                assert(!listed(Seq::<(usize, usize, Seq<usize>)>::empty(), u, e));
                assert(!listed(last.pending(), u, e));
            }
        }
        let ghost table_end = last.table();
        let res = last.finish();
        proof {
            if fit {
                if res is Ok {
                    let solution = res->Ok_0;
                    let doors = table(solution.edges@);
                    let labels = solution.labels@;
                    lemma_solution_reproduces(
                        walk,
                        first@,
                        ixs,
                        labels,
                        core.doors(),
                        table_end,
                        doors,
                        n as nat,
                    );
                }
            }
        }
        res
    }
}

/// The first doors of a walk are doors.
pub proof fn lemma_prefix_doors(walk: Seq<usize>, k: int)
    requires
        all_doors(walk),
        0 <= k <= walk.len(),
    ensures
        all_doors(walk.take(k)),
{
    assert forall|i: int| 0 <= i < walk.take(k).len() implies #[trigger] walk.take(k)[i]
        < DEGREE by {
        assert(walk.take(k)[i] == walk[i]);
    }
}

/// The doors without a target are doors of rooms of the table.
pub proof fn lemma_open_doors(edges: Seq<Seq<Option<usize>>>, n: int, k: int)
    requires
        0 <= k <= n * DEGREE,
        n * DEGREE <= usize::MAX,
    ensures
        forall|i: int|
            0 <= i < open_doors(edges, k).len() ==> (#[trigger] open_doors(edges, k)[i]).0 < n
                && open_doors(edges, k)[i].1 < DEGREE,
    decreases k,
{
    if k > 0 {
        lemma_open_doors(edges, n, k - 1);
        let before = open_doors(edges, k - 1);
        let all = open_doors(edges, k);
        assert forall|i: int| 0 <= i < all.len() implies (#[trigger] all[i]).0 < n && all[i].1
            < DEGREE by {
            if i < before.len() {
                assert(all[i] == before[i]);
            } else {
                assert((k - 1) / (DEGREE as int) < n) by (nonlinear_arith)
                    requires
                        0 <= k - 1 < n * DEGREE,
                ;
            }
        }
    }
}

/// The walk to a pending door ends at a walk position, and its bridge is a
/// door.
pub proof fn lemma_anchor(
    n: usize,
    len: int,
    first_at: Seq<usize>,
    last_at: Seq<usize>,
    known: Seq<Seq<Option<usize>>>,
    p: (usize, usize, Seq<usize>),
    m: int,
)
    requires
        known_ok(n, known),
        p.0 < n,
        0 <= m <= p.2.len(),
        forall|j: int| 0 <= j < p.2.len() ==> #[trigger] p.2[j] < n,
        first_at.len() == n,
        last_at.len() == n,
        forall|r: int| 0 <= r < n ==> #[trigger] first_at[r] <= len,
        forall|r: int| 0 <= r < n ==> #[trigger] last_at[r] <= len,
    ensures
        anchor(first_at, last_at, known, p, m).0 <= len,
        anchor(first_at, last_at, known, p, m).1 matches Some(d) ==> d < DEGREE,
    decreases m,
{
    if m > 0 {
        lemma_anchor(n, len, first_at, last_at, known, p, m - 1);
        let w = p.2[m - 1] as int;
        assert(p.2[m - 1] < n);
        assert(first_at[w] <= len);
    } else {
        assert(last_at[p.0 as int] <= len);
    }
}


/// The list of pending doors holds door `e` of room `u`.
pub open spec fn listed(list: Seq<(usize, usize, Seq<usize>)>, u: int, e: int) -> bool {
    exists|k: int| 0 <= k < list.len() && (#[trigger] list[k]).0 == u && list[k].1 == e
}

/// Every door of the table has a target or is held by one of two lists of
/// pending doors.
pub open spec fn doors_held(
    n: nat,
    table: Seq<Seq<Option<usize>>>,
    near: Seq<(usize, usize, Seq<usize>)>,
    far: Seq<(usize, usize, Seq<usize>)>,
) -> bool {
    forall|u: int, e: int|
        0 <= u < n && 0 <= e < DEGREE ==> (#[trigger] table[u][e]) is Some || listed(near, u, e)
            || listed(far, u, e)
}

/// The table has a row of doors for each of `n` rooms.
pub open spec fn table_shaped(n: nat, table: Seq<Seq<Option<usize>>>) -> bool {
    &&& table.len() == n
    &&& forall|u: int| 0 <= u < n ==> (#[trigger] table[u]).len() == DEGREE
}

/// A door without a target among the first `k` doors is among the open
/// doors.
pub proof fn lemma_open_doors_all(edges: Seq<Seq<Option<usize>>>, k: int, q: int) -> (i: int)
    requires
        0 <= q < k <= usize::MAX,
        edges[q / (DEGREE as int)][q % (DEGREE as int)] is None,
    ensures
        0 <= i < open_doors(edges, k).len(),
        open_doors(edges, k)[i] == ((q / (DEGREE as int)) as usize, (q % (DEGREE as int)) as usize),
    decreases k,
{
    if q == k - 1 {
        open_doors(edges, k - 1).len() as int
    } else {
        let i = lemma_open_doors_all(edges, k - 1, q);
        i
    }
}

/// After the first `k` probes, none of which showed an unknown footprint,
/// every probed door has a target or is pending, and every door that had a
/// target has one still.
pub proof fn lemma_resolved(
    n: nat,
    base: Seq<Seq<Option<usize>>>,
    fps: Seq<Vec<usize>>,
    first_at: Seq<usize>,
    open: Seq<(usize, usize)>,
    edges_res: Seq<Vec<usize>>,
    k: int,
)
    requires
        table_shaped(n, base),
        0 <= k <= open.len(),
        forall|i: int| 0 <= i < open.len() ==> (#[trigger] open[i]).0 < n && open[i].1 < DEGREE,
        !some_unknown(fps, first_at, open, edges_res, k),
    ensures
        table_shaped(n, resolved(base, fps, first_at, open, edges_res, k)),
        forall|u: int, e: int|
            0 <= u < n && 0 <= e < DEGREE && (#[trigger] base[u][e]) is Some ==> resolved(
                base,
                fps,
                first_at,
                open,
                edges_res,
                k,
            )[u][e] is Some,
        forall|i: int|
            0 <= i < k ==> resolved(base, fps, first_at, open, edges_res, k)[(
            #[trigger] open[i]).0 as int][open[i].1 as int] is Some || listed(
                shared(fps, first_at, open, edges_res, k),
                open[i].0 as int,
                open[i].1 as int,
            ),
    decreases k,
{
    if k > 0 {
        assert(!some_unknown(fps, first_at, open, edges_res, k - 1)) by {
            if some_unknown(fps, first_at, open, edges_res, k - 1) {
                let q = choose|q: int|
                    0 <= q < k - 1 && (#[trigger] cands_of(fps, first_at, open, edges_res, q)).len()
                        == 0;
                assert(some_unknown(fps, first_at, open, edges_res, k));
            }
        }
        lemma_resolved(n, base, fps, first_at, open, edges_res, k - 1);
        let before = resolved(base, fps, first_at, open, edges_res, k - 1);
        let after = resolved(base, fps, first_at, open, edges_res, k);
        let list = shared(fps, first_at, open, edges_res, k - 1);
        let longer = shared(fps, first_at, open, edges_res, k);
        let cands = cands_of(fps, first_at, open, edges_res, k - 1);
        let (u, e) = open[k - 1];
        assert(open[k - 1].0 < n && open[k - 1].1 < DEGREE);
        assert(cands.len() != 0);
        assert forall|i: int| 0 <= i < k implies after[(#[trigger] open[i]).0 as int][open[i].1 as int] is Some
            || listed(longer, open[i].0 as int, open[i].1 as int) by {
            let a = open[i].0 as int;
            let b = open[i].1 as int;
            if i < k - 1 {
                if before[a][b] is Some {
                } else {
                    assert(listed(list, a, b));
                    let j = choose|j: int|
                        0 <= j < list.len() && (#[trigger] list[j]).0 == a && list[j].1 == b;
                    assert(longer[j] == list[j]);
                }
            } else {
                if cands.len() > 1 {
                    assert(longer[list.len() as int].0 == a && longer[list.len() as int].1 == b);
                }
            }
        }
    }
}

/// A pending door is among those chosen as early or among those chosen as
/// not early.
pub proof fn lemma_chosen_all(
    list: Seq<(usize, usize, Seq<usize>)>,
    first_at: Seq<usize>,
    last_at: Seq<usize>,
    m: int,
    i: int,
) -> (j: int)
    requires
        0 <= i < m <= list.len(),
    ensures
        0 <= j < chosen(list, first_at, last_at, early(list[i], first_at, last_at), m).len(),
        chosen(list, first_at, last_at, early(list[i], first_at, last_at), m)[j] == list[i],
    decreases m,
{
    let want = early(list[i], first_at, last_at);
    if i == m - 1 {
        chosen(list, first_at, last_at, want, m - 1).len() as int
    } else {
        let j = lemma_chosen_all(list, first_at, last_at, m - 1, i);
        j
    }
}

/// After the first `m` pending doors are resolved, each of them has a
/// target, and every door that had a target has one still.
pub proof fn lemma_settled(
    n: usize,
    table: Seq<Seq<Option<usize>>>,
    list: Seq<(usize, usize, Seq<usize>)>,
    res: Seq<Vec<usize>>,
    m: int,
)
    requires
        table_shaped(n as nat, table),
        pending_ok(n, list),
        0 <= m <= list.len(),
    ensures
        table_shaped(n as nat, settled(table, list, res, m)),
        forall|u: int, e: int|
            0 <= u < n && 0 <= e < DEGREE && (#[trigger] table[u][e]) is Some ==> settled(
                table,
                list,
                res,
                m,
            )[u][e] is Some,
        forall|i: int|
            0 <= i < m ==> settled(table, list, res, m)[(#[trigger] list[i]).0 as int][list[i].1 as int] is Some,
    decreases m,
{
    if m > 0 {
        lemma_settled(n, table, list, res, m - 1);
        let before = settled(table, list, res, m - 1);
        let after = settled(table, list, res, m);
        let p = list[m - 1];
        assert(p.0 < n && p.1 < DEGREE);
        assert forall|i: int| 0 <= i < m implies after[(#[trigger] list[i]).0 as int][list[i].1 as int] is Some by {
            assert(list[i].0 < n && list[i].1 < DEGREE);
            if i < m - 1 {
                assert(before[list[i].0 as int][list[i].1 as int] is Some);
            }
        }
    }
}

/// Once the probes are taken, every door has a target or is pending.
pub proof fn lemma_probed_holds(
    n: usize,
    base: Seq<Seq<Option<usize>>>,
    fps: Seq<Vec<usize>>,
    first_at: Seq<usize>,
    last_at: Seq<usize>,
    edges_res: Seq<Vec<usize>>,
    backward: bool,
    near: Seq<(usize, usize, Seq<usize>)>,
    far: Seq<(usize, usize, Seq<usize>)>,
)
    requires
        table_shaped(n as nat, base),
        n * DEGREE <= usize::MAX,
        ({
            let open = open_doors(base, n * DEGREE);
            let all = shared(fps, first_at, open, edges_res, open.len() as int);
            &&& !some_unknown(fps, first_at, open, edges_res, open.len() as int)
            &&& backward ==> near == chosen(all, first_at, last_at, true, all.len() as int) && far
                == chosen(all, first_at, last_at, false, all.len() as int)
            &&& !backward ==> near == all
        }),
    ensures
        doors_held(
            n as nat,
            resolved(
                base,
                fps,
                first_at,
                open_doors(base, n * DEGREE),
                edges_res,
                open_doors(base, n * DEGREE).len() as int,
            ),
            near,
            far,
        ),
{
    let open = open_doors(base, n * DEGREE);
    let all = shared(fps, first_at, open, edges_res, open.len() as int);
    let table = resolved(base, fps, first_at, open, edges_res, open.len() as int);
    lemma_open_doors(base, n as int, n * DEGREE);
    lemma_resolved(n as nat, base, fps, first_at, open, edges_res, open.len() as int);
    assert forall|u: int, e: int| 0 <= u < n && 0 <= e < DEGREE implies (#[trigger] table[u][e]) is Some
        || listed(near, u, e) || listed(far, u, e) by {
        if base[u][e] is None {
            let q = u * DEGREE + e;
            assert(q / (DEGREE as int) == u && q % (DEGREE as int) == e) by {
                vstd::arithmetic::div_mod::lemma_fundamental_div_mod_converse(
                    q,
                    DEGREE as int,
                    u,
                    e,
                );
            }
            assert(0 <= q < n * DEGREE) by (nonlinear_arith)
                requires
                    0 <= u < n,
                    0 <= e < DEGREE,
                    q == u * DEGREE + e,
            ;
            let i = lemma_open_doors_all(base, n * DEGREE, q);
            assert(open[i].0 == u && open[i].1 == e);
            if table[u][e] is None {
                assert(listed(all, u, e));
                let k = choose|k: int|
                    0 <= k < all.len() && (#[trigger] all[k]).0 == u && all[k].1 == e;
                if backward {
                    let j = lemma_chosen_all(all, first_at, last_at, all.len() as int, k);
                    if early(all[k], first_at, last_at) {
                        assert(near[j] == all[k]);
                        assert(listed(near, u, e));
                    } else {
                        assert(far[j] == all[k]);
                        assert(listed(far, u, e));
                    }
                } else {
                    assert(near[k] == all[k]);
                    assert(listed(near, u, e));
                }
            }
        }
    }
}


/// Every door that has a target in the first table has the same target in
/// the second.
pub open spec fn kept(n: nat, base: Seq<Seq<Option<usize>>>, table: Seq<Seq<Option<usize>>>) -> bool {
    forall|u: int, e: int|
        0 <= u < n && 0 <= e < DEGREE && (#[trigger] base[u][e]) is Some ==> table[u][e]
            == base[u][e]
}

/// No pending door of the list has a target in the table.
pub open spec fn all_open(
    base: Seq<Seq<Option<usize>>>,
    list: Seq<(usize, usize, Seq<usize>)>,
) -> bool {
    forall|i: int|
        0 <= i < list.len() ==> base[(#[trigger] list[i]).0 as int][list[i].1 as int] is None
}

/// The open doors have no target.
pub proof fn lemma_open_are_open(edges: Seq<Seq<Option<usize>>>, k: int)
    requires
        0 <= k <= usize::MAX,
    ensures
        forall|i: int|
            0 <= i < open_doors(edges, k).len() ==> edges[(#[trigger] open_doors(
                edges,
                k,
            )[i]).0 as int][open_doors(edges, k)[i].1 as int] is None,
    decreases k,
{
    if k > 0 {
        lemma_open_are_open(edges, k - 1);
        let before = open_doors(edges, k - 1);
        let all = open_doors(edges, k);
        assert forall|i: int| 0 <= i < all.len() implies edges[(#[trigger] all[i]).0 as int][all[i].1 as int] is None by {
            if i < before.len() {
                assert(all[i] == before[i]);
            }
        }
    }
}

/// The probes give targets to open doors only, and the doors that they leave
/// pending are open doors.
pub proof fn lemma_resolved_keeps(
    n: nat,
    base: Seq<Seq<Option<usize>>>,
    fps: Seq<Vec<usize>>,
    first_at: Seq<usize>,
    open: Seq<(usize, usize)>,
    edges_res: Seq<Vec<usize>>,
    k: int,
)
    requires
        table_shaped(n, base),
        0 <= k <= open.len(),
        forall|i: int| 0 <= i < open.len() ==> (#[trigger] open[i]).0 < n && open[i].1 < DEGREE,
        forall|i: int|
            0 <= i < open.len() ==> base[(#[trigger] open[i]).0 as int][open[i].1 as int] is None,
    ensures
        table_shaped(n, resolved(base, fps, first_at, open, edges_res, k)),
        kept(n, base, resolved(base, fps, first_at, open, edges_res, k)),
        all_open(base, shared(fps, first_at, open, edges_res, k)),
    decreases k,
{
    if k > 0 {
        lemma_resolved_keeps(n, base, fps, first_at, open, edges_res, k - 1);
        let list = shared(fps, first_at, open, edges_res, k - 1);
        let longer = shared(fps, first_at, open, edges_res, k);
        assert(open[k - 1].0 < n && open[k - 1].1 < DEGREE);
        assert(base[open[k - 1].0 as int][open[k - 1].1 as int] is None);
        assert forall|i: int| 0 <= i < longer.len() implies base[(#[trigger] longer[i]).0 as int][longer[i].1 as int] is None by {
            if i < list.len() {
                assert(longer[i] == list[i]);
            }
        }
    }
}

/// The doors chosen from a list of open doors are open doors.
pub proof fn lemma_chosen_open(
    base: Seq<Seq<Option<usize>>>,
    list: Seq<(usize, usize, Seq<usize>)>,
    first_at: Seq<usize>,
    last_at: Seq<usize>,
    want_early: bool,
    m: int,
)
    requires
        all_open(base, list),
        0 <= m <= list.len(),
    ensures
        all_open(base, chosen(list, first_at, last_at, want_early, m)),
    decreases m,
{
    if m > 0 {
        lemma_chosen_open(base, list, first_at, last_at, want_early, m - 1);
        let before = chosen(list, first_at, last_at, want_early, m - 1);
        let all = chosen(list, first_at, last_at, want_early, m);
        assert(base[list[m - 1].0 as int][list[m - 1].1 as int] is None);
        assert forall|i: int| 0 <= i < all.len() implies base[(#[trigger] all[i]).0 as int][all[i].1 as int] is None by {
            if i < before.len() {
                assert(all[i] == before[i]);
            }
        }
    }
}

/// Resolving pending doors that were open gives targets to open doors only.
pub proof fn lemma_settled_keeps(
    n: usize,
    base: Seq<Seq<Option<usize>>>,
    table: Seq<Seq<Option<usize>>>,
    list: Seq<(usize, usize, Seq<usize>)>,
    res: Seq<Vec<usize>>,
    m: int,
)
    requires
        table_shaped(n as nat, table),
        pending_ok(n, list),
        all_open(base, list),
        kept(n as nat, base, table),
        0 <= m <= list.len(),
    ensures
        kept(n as nat, base, settled(table, list, res, m)),
    decreases m,
{
    if m > 0 {
        lemma_settled_keeps(n, base, table, list, res, m - 1);
        lemma_settled(n, table, list, res, m - 1);
        let p = list[m - 1];
        assert(p.0 < n && p.1 < DEGREE);
        assert(base[list[m - 1].0 as int][list[m - 1].1 as int] is None);
    }
}

/// After the probes, the targets that the walk gave are as they were, and
/// the pending doors are doors to which the walk gave no target.
pub proof fn lemma_probed_keeps(
    n: usize,
    base: Seq<Seq<Option<usize>>>,
    fps: Seq<Vec<usize>>,
    first_at: Seq<usize>,
    last_at: Seq<usize>,
    edges_res: Seq<Vec<usize>>,
    backward: bool,
    near: Seq<(usize, usize, Seq<usize>)>,
    far: Seq<(usize, usize, Seq<usize>)>,
)
    requires
        table_shaped(n as nat, base),
        n * DEGREE <= usize::MAX,
        ({
            let open = open_doors(base, n * DEGREE);
            let all = shared(fps, first_at, open, edges_res, open.len() as int);
            &&& backward ==> near == chosen(all, first_at, last_at, true, all.len() as int) && far
                == chosen(all, first_at, last_at, false, all.len() as int)
            &&& !backward ==> near == all && far.len() == 0
        }),
    ensures
        kept(
            n as nat,
            base,
            resolved(
                base,
                fps,
                first_at,
                open_doors(base, n * DEGREE),
                edges_res,
                open_doors(base, n * DEGREE).len() as int,
            ),
        ),
        all_open(base, near),
        all_open(base, far),
{
    let open = open_doors(base, n * DEGREE);
    let all = shared(fps, first_at, open, edges_res, open.len() as int);
    lemma_open_doors(base, n as int, n * DEGREE);
    lemma_open_are_open(base, n * DEGREE);
    lemma_resolved_keeps(n as nat, base, fps, first_at, open, edges_res, open.len() as int);
    if backward {
        lemma_chosen_open(base, all, first_at, last_at, true, all.len() as int);
        lemma_chosen_open(base, all, first_at, last_at, false, all.len() as int);
    }
}

} // verus!
