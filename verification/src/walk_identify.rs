//! The walk-and-identify solver for the basic oracle: every room is known by
//! the labels seen along one fixed run of doors walked from it.

use vstd::prelude::*;
use crate::csp::Solution;
use crate::error::SolveError;
use crate::plan::{all_doors, random_doors};
use crate::problem::{DEGREE, LABELS};
use crate::rng::seeded_rng;

verus! {

/// Doors of the random walk per room.
pub const WALK_FACTOR: usize = 5;

/// Doors of the distinguishing run per room, plus one.
pub const MAGIC_FACTOR: usize = 13;

/// The signature of walk position `i`: what the trace of the plan that
/// stops the walk at `i` shows from there on.
pub open spec fn signature(results: Seq<Vec<usize>>, i: int) -> Seq<usize> {
    results[i]@.skip(i)
}

/// No earlier position has the signature of position `i`.
pub open spec fn is_first(results: Seq<Vec<usize>>, i: int) -> bool {
    forall|j: int| 0 <= j < i ==> #[trigger] signature(results, j) != signature(results, i)
}

/// The positions below `m` that are the first with their signature, in
/// rising order.
pub open spec fn firsts(results: Seq<Vec<usize>>, m: int) -> Seq<usize>
    decreases m,
{
    if m <= 0 {
        Seq::empty()
    } else if is_first(results, m - 1) {
        firsts(results, m - 1).push((m - 1) as usize)
    } else {
        firsts(results, m - 1)
    }
}

/// The first plans: the walk stopped at every position, each followed by the
/// distinguishing run.
pub open spec fn first_plan(walk: Seq<usize>, magic: Seq<usize>, i: int) -> Seq<usize> {
    walk.take(i) + magic
}

/// The probe for door `e` of the room first seen at position `ix`: the walk
/// up to there, the door, and the distinguishing run.
pub open spec fn probe_plan(walk: Seq<usize>, magic: Seq<usize>, ix: int, e: usize) -> Seq<usize> {
    walk.take(ix) + seq![e] + magic
}

/// The answer has one trace for every plan, each one label longer than its
/// plan and made of labels.
pub open spec fn answers(plans: Seq<Vec<usize>>, results: Seq<Vec<usize>>) -> bool {
    &&& results.len() == plans.len()
    &&& forall|i: int| 0 <= i < plans.len() ==> (#[trigger] results[i])@.len() == plans[i]@.len() + 1
    &&& forall|i: int, j: int|
        0 <= i < results.len() && 0 <= j < results[i]@.len() ==> #[trigger] results[i]@[j]
            < LABELS
}

/// Decides whether an answer has the shape of an answer to the plans.
pub fn check_answers(plans: &Vec<Vec<usize>>, results: &Vec<Vec<usize>>) -> (ok: bool)
    ensures
        ok == answers(plans@, results@),
{
    if results.len() != plans.len() {
        return false;
    }
    let mut i: usize = 0;
    while i < plans.len()
        invariant
            i <= plans@.len(),
            results@.len() == plans@.len(),
            forall|k: int| 0 <= k < i ==> (#[trigger] results@[k])@.len() == plans@[k]@.len() + 1,
            forall|k: int, j: int|
                0 <= k < i && 0 <= j < results@[k]@.len() ==> #[trigger] results@[k]@[j] < LABELS,
        decreases plans@.len() - i,
    {
        let n = plans[i].len();
        if n == usize::MAX || results[i].len() != n + 1 {
            proof {
                let ghost m = results@[i as int]@.len();
                assert(results@[i as int]@.len() <= usize::MAX) by {
                    assert(results@[i as int].len() == results@[i as int]@.len());
                }
            }
            return false;
        }
        let mut j: usize = 0;
        while j < results[i].len()
            invariant
                i < results@.len(),
                j <= results@[i as int]@.len(),
                forall|m: int| 0 <= m < j ==> #[trigger] results@[i as int]@[m] < LABELS,
            decreases results@[i as int]@.len() - j,
        {
            if results[i][j] >= LABELS {
                return false;
            }
            j += 1;
        }
        i += 1;
    }
    true
}

/// The part of a trace from position `from` on.
pub fn suffix(trace: &Vec<usize>, from: usize) -> (tail: Vec<usize>)
    requires
        from <= trace@.len(),
    ensures
        tail@ == trace@.skip(from as int),
{
    let mut tail: Vec<usize> = Vec::new();
    let mut i: usize = from;
    while i < trace.len()
        invariant
            from <= i <= trace@.len(),
            tail@ == trace@.subrange(from as int, i as int),
        decreases trace@.len() - i,
    {
        tail.push(trace[i]);
        i += 1;
        proof {
            assert(tail@ =~= trace@.subrange(from as int, i as int));
        }
    }
    proof {
        assert(trace@.subrange(from as int, trace@.len() as int) =~= trace@.skip(from as int));
    }
    tail
}

/// Decides whether a trace from position `from` on is the given signature.
pub fn same_from(trace: &Vec<usize>, from: usize, pattern: &Vec<usize>) -> (same: bool)
    requires
        from <= trace@.len(),
    ensures
        same == (trace@.skip(from as int) == pattern@),
{
    if trace.len() - from != pattern.len() {
        return false;
    }
    let mut i: usize = 0;
    while i < pattern.len()
        invariant
            i <= pattern@.len(),
            from <= trace@.len(),
            trace@.len() <= usize::MAX,
            trace@.len() - from == pattern@.len(),
            forall|k: int| 0 <= k < i ==> trace@[from + k] == pattern@[k],
        decreases pattern@.len() - i,
    {
        if trace[from + i] != pattern[i] {
            proof {
                assert(trace@.skip(from as int)[i as int] == trace@[from + i]);
            }
            return false;
        }
        i += 1;
    }
    proof {
        assert(trace@.skip(from as int) =~= pattern@);
    }
    true
}

/// The first of the signatures that a trace shows from position `from` on.
pub fn find_signature(patterns: &Vec<Vec<usize>>, trace: &Vec<usize>, from: usize) -> (found:
    Option<usize>)
    requires
        from <= trace@.len(),
    ensures
        match found {
            Some(j) => {
                &&& j < patterns@.len()
                &&& patterns@[j as int]@ == trace@.skip(from as int)
                &&& forall|k: int|
                    0 <= k < j ==> (#[trigger] patterns@[k])@ != trace@.skip(from as int)
            },
            None => forall|k: int|
                0 <= k < patterns@.len() ==> (#[trigger] patterns@[k])@ != trace@.skip(
                    from as int,
                ),
        },
{
    let mut j: usize = 0;
    while j < patterns.len()
        invariant
            j <= patterns@.len(),
            from <= trace@.len(),
            forall|k: int| 0 <= k < j ==> (#[trigger] patterns@[k])@ != trace@.skip(from as int),
        decreases patterns@.len() - j,
    {
        if same_from(trace, from, &patterns[j]) {
            return Some(j);
        }
        j += 1;
    }
    None
}

/// The solver before its first round: the random walk and the run of doors
/// that tells rooms apart.
pub struct Solver {
    n: usize,
    random_walk: Vec<usize>,
    magic: Vec<usize>,
}

/// The solver after its first round: for every room the walk position at
/// which it was first seen, its label and its signature.
pub struct Classified {
    n: usize,
    random_walk: Vec<usize>,
    magic: Vec<usize>,
    ixs: Vec<usize>,
    labels: Vec<usize>,
    patterns: Vec<Vec<usize>>,
}

impl Solver {
    #[verifier::type_invariant]
    spec fn inv(self) -> bool {
        &&& self.n >= 1
        &&& self.random_walk@.len() == self.n * WALK_FACTOR
        &&& self.magic@.len() == self.n * MAGIC_FACTOR - 1
        &&& self.n * MAGIC_FACTOR + self.n * WALK_FACTOR + 1 <= usize::MAX
        &&& all_doors(self.random_walk@)
        &&& all_doors(self.magic@)
    }

    /// Number of rooms.
    pub closed spec fn rooms(self) -> nat {
        self.n as nat
    }

    /// The random walk.
    pub closed spec fn walk(self) -> Seq<usize> {
        self.random_walk@
    }

    /// The run of doors that tells rooms apart.
    pub closed spec fn run(self) -> Seq<usize> {
        self.magic@
    }

    /// A solver for a graph of `n` rooms, with a walk of `5 n` doors and a
    /// run of `13 n - 1` doors drawn from a generator with a fixed seed.
    pub fn new(n: usize) -> (solver: Self)
        requires
            1 <= n,
            n * MAGIC_FACTOR + n * WALK_FACTOR + 1 <= usize::MAX,
        ensures
            solver.rooms() == n,
            solver.walk().len() == n * WALK_FACTOR,
            solver.run().len() == n * MAGIC_FACTOR - 1,
    {
        Self::with_seed(n, 42)
    }

    /// A solver for a graph of `n` rooms whose walk and run are drawn from a
    /// generator with the given seed.
    pub fn with_seed(n: usize, seed: u64) -> (solver: Self)
        requires
            1 <= n,
            n * MAGIC_FACTOR + n * WALK_FACTOR + 1 <= usize::MAX,
        ensures
            solver.rooms() == n,
            solver.walk().len() == n * WALK_FACTOR,
            solver.run().len() == n * MAGIC_FACTOR - 1,
    {
        let mut rng = seeded_rng(seed);
        let random_walk = random_doors(&mut rng, n * WALK_FACTOR);
        let magic = random_doors(&mut rng, n * MAGIC_FACTOR - 1);
        Self { n, random_walk, magic }
    }

    /// A solver for a graph of `n` rooms with a given walk and run, if they
    /// have the lengths and entries of a walk and a run.
    pub fn with_walks(n: usize, random_walk: Vec<usize>, magic: Vec<usize>) -> (solver: Option<
        Self,
    >)
        ensures
            solver is Some <==> {
                &&& n >= 1
                &&& n * MAGIC_FACTOR + n * WALK_FACTOR + 1 <= usize::MAX
                &&& random_walk@.len() == n * WALK_FACTOR
                &&& magic@.len() == n * MAGIC_FACTOR - 1
                &&& all_doors(random_walk@)
                &&& all_doors(magic@)
            },
            solver is Some ==> solver.unwrap().rooms() == n && solver.unwrap().walk()
                == random_walk@ && solver.unwrap().run() == magic@,
    {
        if n < 1 || n > (usize::MAX - 1) / (MAGIC_FACTOR + WALK_FACTOR) {
            return None;
        }
        if random_walk.len() != n * WALK_FACTOR || magic.len() != n * MAGIC_FACTOR - 1 {
            return None;
        }
        if !check_doors(&random_walk) || !check_doors(&magic) {
            return None;
        }
        Some(Self { n, random_walk, magic })
    }

    /// The plans of the first round: for every walk position the walk up to
    /// it, followed by the run.
    pub fn first_plans(&self) -> (plans: Vec<Vec<usize>>)
        ensures
            plans@.len() == self.walk().len() + 1,
            forall|i: int|
                0 <= i < plans@.len() ==> (#[trigger] plans@[i])@ == first_plan(
                    self.walk(),
                    self.run(),
                    i,
                ),
            forall|i: int| 0 <= i < plans@.len() ==> all_doors((#[trigger] plans@[i])@),
    {
        proof {
            use_type_invariant(self);
        }
        let mut plans: Vec<Vec<usize>> = Vec::new();
        let mut walk: usize = 0;
        while walk <= self.random_walk.len()
            invariant
                walk <= self.random_walk@.len() + 1,
                self.random_walk@.len() < usize::MAX,
                all_doors(self.random_walk@),
                all_doors(self.magic@),
                forall|i: int| 0 <= i < walk ==> all_doors((#[trigger] plans@[i])@),
                plans@.len() == walk,
                forall|i: int|
                    0 <= i < walk ==> (#[trigger] plans@[i])@ == first_plan(
                        self.random_walk@,
                        self.magic@,
                        i,
                    ),
            decreases self.random_walk@.len() + 1 - walk,
        {
            let plan = join(&self.random_walk, walk, None, &self.magic);
            proof {
                lemma_joined_doors(self.random_walk@, walk as int, None, self.magic@);
            }
            plans.push(plan);
            walk += 1;
        }
        plans
    }

    /// Takes the answer to the first plans: finds the positions that are the
    /// first with their signature and keeps, for each, its label and its
    /// signature. These must be as many as the graph has rooms.
    pub fn classify(self, results: &Vec<Vec<usize>>) -> (res: Result<Classified, SolveError>)
        ensures
            match res {
                Ok(c) => {
                    &&& shaped(self.walk(), self.run(), results@)
                    &&& c.rooms() == self.rooms()
                    &&& c.walk() == self.walk()
                    &&& c.run() == self.run()
                    &&& c.firsts() == firsts(results@, results@.len() as int)
                    &&& c.firsts().len() == self.rooms()
                    &&& c.signatures().len() == self.rooms()
                    &&& c.room_labels().len() == self.rooms()
                    &&& forall|k: int|
                        0 <= k < c.firsts().len() ==> {
                            &&& c.signatures()[k] == signature(
                                results@,
                                #[trigger] c.firsts()[k] as int,
                            )
                            &&& c.room_labels()[k] == results@[c.firsts()[k] as int]@[c.firsts()[k] as int]
                        }
                },
                Err(SolveError::BadResponse) => !shaped(self.walk(), self.run(), results@),
                Err(SolveError::WrongRoomCount) => shaped(self.walk(), self.run(), results@)
                    && firsts(results@, results@.len() as int).len() != self.rooms(),
                Err(_) => false,
            },
    {
        proof {
            use_type_invariant(&self);
        }
        let plans = self.first_plans();
        if !check_answers(&plans, results) {
            return Err(SolveError::BadResponse);
        }
        let mut patterns: Vec<Vec<usize>> = Vec::new();
        let mut ixs: Vec<usize> = Vec::new();
        let mut labels: Vec<usize> = Vec::new();
        let mut ix: usize = 0;
        while ix < results.len()
            invariant
                ix <= results@.len(),
                results@.len() == self.random_walk@.len() + 1,
                forall|i: int|
                    0 <= i < results@.len() ==> (#[trigger] results@[i])@.len() == i
                        + self.magic@.len() + 1,
                forall|i: int, j: int|
                    0 <= i < results@.len() && 0 <= j < results@[i]@.len()
                        ==> #[trigger] results@[i]@[j] < LABELS,
                ixs@ == firsts(results@, ix as int),
                labels@.len() == ixs@.len(),
                patterns@.len() == ixs@.len(),
                ixs@.len() <= ix,
                forall|k: int|
                    0 <= k < ixs@.len() ==> {
                        &&& (#[trigger] ixs@[k]) < ix
                        &&& patterns@[k]@ == signature(results@, ixs@[k] as int)
                        &&& labels@[k] == results@[ixs@[k] as int]@[ixs@[k] as int]
                        &&& labels@[k] < LABELS
                    },
                forall|j: int| 0 <= j < ix ==> #[trigger] held(patterns@, signature(results@, j)),
            decreases results@.len() - ix,
        {
            let res = &results[ix];
            let ghost seen = patterns@;
            match find_signature(&patterns, res, ix) {
                Some(k) => {
                    proof {
                        assert(signature(results@, ixs@[k as int] as int) == signature(
                            results@,
                            ix as int,
                        ));
                        assert(!is_first(results@, ix as int));
                        assert forall|j: int| 0 <= j < ix + 1 implies #[trigger] held(
                            patterns@,
                            signature(results@, j),
                        ) by {
                            if j == ix {
                                assert(patterns@[k as int]@ == signature(results@, j));
                            }
                        }
                    }
                },
                None => {
                    proof {
                        assert forall|j: int| 0 <= j < ix implies signature(results@, j)
                            != #[trigger] signature(results@, ix as int) by {
                            assert(held(patterns@, signature(results@, j)));
                            let q = choose|q: int|
                                0 <= q < patterns@.len() && (#[trigger] patterns@[q])@
                                    == signature(results@, j);
                        }
                        assert(is_first(results@, ix as int));
                    }
                    let ghost old_ixs = ixs@;
                    patterns.push(suffix(res, ix));
                    ixs.push(ix);
                    labels.push(res[ix]);
                    proof {
                        assert forall|j: int| 0 <= j < ix + 1 implies #[trigger] held(
                            patterns@,
                            signature(results@, j),
                        ) by {
                            if j == ix {
                                assert(patterns@[seen.len() as int]@ == signature(results@, j));
                            } else {
                                assert(held(seen, signature(results@, j)));
                                let q = choose|q: int|
                                    0 <= q < seen.len() && (#[trigger] seen[q])@ == signature(
                                        results@,
                                        j,
                                    );
                                assert(patterns@[q] == seen[q]);
                            }
                        }
                        assert forall|k: int| 0 <= k < ixs@.len() implies {
                            &&& (#[trigger] ixs@[k]) < ix + 1
                            &&& patterns@[k]@ == signature(results@, ixs@[k] as int)
                            &&& labels@[k] == results@[ixs@[k] as int]@[ixs@[k] as int]
                            &&& labels@[k] < LABELS
                        } by {
                            if k < old_ixs.len() {
                                assert(ixs@[k] == old_ixs[k]);
                                assert(patterns@[k] == seen[k]);
                            }
                        }
                    }
                },
            }
            ix += 1;
        }
        if patterns.len() != self.n {
            return Err(SolveError::WrongRoomCount);
        }
        proof {
            assert forall|k: int| 0 <= k < self.n implies #[trigger] ixs@[k]
                <= self.random_walk@.len() by {
                assert(ixs@[k] < ix);
            }
            assert forall|k: int| 0 <= k < self.n implies #[trigger] labels@[k] < LABELS by {
                assert(ixs@[k] < ix);
            }
        }
        Ok(
            Classified {
                n: self.n,
                random_walk: self.random_walk,
                magic: self.magic,
                ixs,
                labels,
                patterns,
            },
        )
    }
}

/// The answer has the shape of an answer to the probes: one trace for every
/// door of every room, each one label longer than its probe.
pub open spec fn probes_shaped(
    firsts: Seq<usize>,
    magic: Seq<usize>,
    results: Seq<Vec<usize>>,
) -> bool {
    &&& results.len() == firsts.len() * DEGREE
    &&& forall|k: int, e: int|
        0 <= k < firsts.len() && 0 <= e < DEGREE ==> (#[trigger] results[k * DEGREE + e])@.len()
            == firsts[k] + magic.len() + 2
}

/// The signature seen behind door `e` of room `k`.
pub open spec fn probe_signature(firsts: Seq<usize>, results: Seq<Vec<usize>>, k: int, e: int) -> Seq<
    usize,
> {
    results[k * DEGREE + e]@.skip(firsts[k] + 1)
}

/// The signature is held by one of the vectors.
pub open spec fn held(patterns: Seq<Vec<usize>>, sig: Seq<usize>) -> bool {
    exists|q: int| 0 <= q < patterns.len() && (#[trigger] patterns[q])@ == sig
}

/// The signature is one of the list.
pub open spec fn known(signatures: Seq<Seq<usize>>, sig: Seq<usize>) -> bool {
    exists|j: int| 0 <= j < signatures.len() && #[trigger] signatures[j] == sig
}

impl Classified {
    #[verifier::type_invariant]
    spec fn inv(self) -> bool {
        &&& self.n >= 1
        &&& self.random_walk@.len() == self.n * WALK_FACTOR
        &&& self.magic@.len() == self.n * MAGIC_FACTOR - 1
        &&& self.n * MAGIC_FACTOR + self.n * WALK_FACTOR + 1 <= usize::MAX
        &&& all_doors(self.random_walk@)
        &&& all_doors(self.magic@)
        &&& self.ixs@.len() == self.n
        &&& self.labels@.len() == self.n
        &&& self.patterns@.len() == self.n
        &&& forall|k: int| 0 <= k < self.n ==> #[trigger] self.ixs@[k] <= self.random_walk@.len()
        &&& forall|k: int| 0 <= k < self.n ==> #[trigger] self.labels@[k] < LABELS
    }

    /// Number of rooms.
    pub closed spec fn rooms(self) -> nat {
        self.n as nat
    }

    /// The random walk.
    pub closed spec fn walk(self) -> Seq<usize> {
        self.random_walk@
    }

    /// The run of doors that tells rooms apart.
    pub closed spec fn run(self) -> Seq<usize> {
        self.magic@
    }

    /// For every room the walk position at which it was first seen.
    pub closed spec fn firsts(self) -> Seq<usize> {
        self.ixs@
    }

    /// The label of every room.
    pub closed spec fn room_labels(self) -> Seq<usize> {
        self.labels@
    }

    /// The signature of every room.
    pub closed spec fn signatures(self) -> Seq<Seq<usize>> {
        Seq::new(self.patterns@.len(), |k: int| self.patterns@[k]@)
    }

    /// The plans of the second round: for every room and every door, the
    /// walk up to the position at which the room was first seen, the door,
    /// and the run.
    pub fn second_plans(&self) -> (plans: Vec<Vec<usize>>)
        ensures
            plans@.len() == self.firsts().len() * DEGREE,
            forall|k: int, e: int|
                0 <= k < self.firsts().len() && 0 <= e < DEGREE ==> (#[trigger] plans@[k * DEGREE
                    + e])@ == probe_plan(self.walk(), self.run(), self.firsts()[k] as int, e as usize),
            forall|i: int| 0 <= i < plans@.len() ==> all_doors((#[trigger] plans@[i])@),
    {
        proof {
            use_type_invariant(self);
        }
        let mut plans: Vec<Vec<usize>> = Vec::new();
        let mut k: usize = 0;
        while k < self.ixs.len()
            invariant
                k <= self.ixs@.len(),
                forall|q: int|
                    0 <= q < self.ixs@.len() ==> #[trigger] self.ixs@[q] <= self.random_walk@.len(),
                all_doors(self.random_walk@),
                all_doors(self.magic@),
                forall|i: int| 0 <= i < plans@.len() ==> all_doors((#[trigger] plans@[i])@),
                plans@.len() == k * DEGREE,
                forall|q: int, e: int|
                    0 <= q < k && 0 <= e < DEGREE ==> (#[trigger] plans@[q * DEGREE + e])@
                        == probe_plan(self.random_walk@, self.magic@, self.ixs@[q] as int, e as usize),
            decreases self.ixs@.len() - k,
        {
            let ix = self.ixs[k];
            let mut edge_id: usize = 0;
            while edge_id < DEGREE
                invariant
                    edge_id <= DEGREE,
                    k < self.ixs@.len(),
                    ix == self.ixs@[k as int],
                    ix <= self.random_walk@.len(),
                    all_doors(self.random_walk@),
                    all_doors(self.magic@),
                    forall|i: int| 0 <= i < plans@.len() ==> all_doors((#[trigger] plans@[i])@),
                    plans@.len() == k * DEGREE + edge_id,
                    forall|q: int, e: int|
                        0 <= q < k && 0 <= e < DEGREE ==> (#[trigger] plans@[q * DEGREE + e])@
                            == probe_plan(
                            self.random_walk@,
                            self.magic@,
                            self.ixs@[q] as int,
                            e as usize,
                        ),
                    forall|e: int|
                        0 <= e < edge_id ==> (#[trigger] plans@[k * DEGREE + e])@ == probe_plan(
                            self.random_walk@,
                            self.magic@,
                            ix as int,
                            e as usize,
                        ),
                decreases DEGREE - edge_id,
            {
                let plan = join(&self.random_walk, ix, Some(edge_id), &self.magic);
                let ghost before = plans@;
                proof {
                    lemma_joined_doors(self.random_walk@, ix as int, Some(edge_id), self.magic@);
                }
                plans.push(plan);
                proof {
                    assert forall|q: int, e: int| 0 <= q < k && 0 <= e < DEGREE implies (
                    #[trigger] plans@[q * DEGREE + e])@ == probe_plan(
                        self.random_walk@,
                        self.magic@,
                        self.ixs@[q] as int,
                        e as usize,
                    ) by {
                        assert(q * DEGREE + e < k * DEGREE) by (nonlinear_arith)
                            requires
                                0 <= q < k,
                                0 <= e < DEGREE,
                        ;
                        assert(plans@[q * DEGREE + e] == before[q * DEGREE + e]);
                    }
                    assert forall|e: int| 0 <= e < edge_id + 1 implies (#[trigger] plans@[k * DEGREE
                        + e])@ == probe_plan(
                        self.random_walk@,
                        self.magic@,
                        ix as int,
                        e as usize,
                    ) by {
                        if e < edge_id {
                            assert(plans@[k * DEGREE + e] == before[k * DEGREE + e]);
                        }
                    }
                }
                edge_id += 1;
            }
            proof {
                assert((k + 1) * DEGREE == k * DEGREE + DEGREE) by (nonlinear_arith);
            }
            k += 1;
        }
        plans
    }

    /// Takes the answer to the probes: the room behind every door is the
    /// room whose signature the probe shows after the door. Every such
    /// signature must be the signature of a room.
    pub fn resolve(&self, results: &Vec<Vec<usize>>) -> (res: Result<Solution, SolveError>)
        ensures
            match res {
                Ok(solution) => {
                    &&& probes_shaped(self.firsts(), self.run(), results@)
                    &&& solution.labels@ == self.room_labels()
                    &&& solution.starting_room == 0
                    &&& solution.edges@.len() == self.rooms()
                    &&& forall|k: int|
                        0 <= k < self.rooms() ==> (#[trigger] solution.edges@[k])@.len() == DEGREE
                    &&& forall|k: int, e: int|
                        0 <= k < self.rooms() && 0 <= e < DEGREE ==> {
                            let j = #[trigger] solution.edges@[k]@[e] as int;
                            &&& 0 <= j < self.rooms()
                            &&& self.signatures()[j] == probe_signature(
                                self.firsts(),
                                results@,
                                k,
                                e,
                            )
                            &&& forall|i: int|
                                0 <= i < j ==> #[trigger] self.signatures()[i] != probe_signature(
                                    self.firsts(),
                                    results@,
                                    k,
                                    e,
                                )
                        }
                },
                Err(SolveError::BadResponse) => !probes_shaped(
                    self.firsts(),
                    self.run(),
                    results@,
                ),
                Err(SolveError::UnknownSignature) => probes_shaped(
                    self.firsts(),
                    self.run(),
                    results@,
                ) && exists|k: int, e: int|
                    0 <= k < self.rooms() && 0 <= e < DEGREE && !known(
                        self.signatures(),
                        #[trigger] probe_signature(self.firsts(), results@, k, e),
                    ),
                Err(_) => false,
            },
    {
        proof {
            use_type_invariant(self);
        }
        if !self.check_probes(results) {
            return Err(SolveError::BadResponse);
        }
        let mut edges: Vec<Vec<usize>> = Vec::new();
        let mut k: usize = 0;
        while k < self.n
            invariant
                k <= self.n,
                self.inv(),
                probes_shaped(self.ixs@, self.magic@, results@),
                edges@.len() == k,
                forall|q: int| 0 <= q < k ==> (#[trigger] edges@[q])@.len() == DEGREE,
                forall|q: int, e: int|
                    0 <= q < k && 0 <= e < DEGREE ==> {
                        let j = #[trigger] edges@[q]@[e] as int;
                        &&& 0 <= j < self.n
                        &&& self.patterns@[j]@ == probe_signature(self.ixs@, results@, q, e)
                        &&& forall|i: int|
                            0 <= i < j ==> (#[trigger] self.patterns@[i])@ != probe_signature(
                                self.ixs@,
                                results@,
                                q,
                                e,
                            )
                    },
            decreases self.n - k,
        {
            let ix = self.ixs[k];
            let mut row: Vec<usize> = Vec::new();
            let mut edge_id: usize = 0;
            while edge_id < DEGREE
                invariant
                    edge_id <= DEGREE,
                    k < self.n,
                    self.inv(),
                    ix == self.ixs@[k as int],
                    probes_shaped(self.ixs@, self.magic@, results@),
                    row@.len() == edge_id,
                    forall|e: int|
                        0 <= e < edge_id ==> {
                            let j = #[trigger] row@[e] as int;
                            &&& 0 <= j < self.n
                            &&& self.patterns@[j]@ == probe_signature(self.ixs@, results@, k as int, e)
                            &&& forall|i: int|
                                0 <= i < j ==> (#[trigger] self.patterns@[i])@ != probe_signature(
                                    self.ixs@,
                                    results@,
                                    k as int,
                                    e,
                                )
                        },
                decreases DEGREE - edge_id,
            {
                proof {
                    assert(k * DEGREE + edge_id < self.n * DEGREE) by (nonlinear_arith)
                        requires
                            k < self.n,
                            edge_id < DEGREE,
                    ;
                    assert(results@[k * DEGREE + edge_id]@.len() == self.ixs@[k as int]
                        + self.magic@.len() + 2);
                }
                let res = &results[DEGREE * k + edge_id];
                match find_signature(&self.patterns, res, ix + 1) {
                    Some(j) => {
                        row.push(j);
                    },
                    None => {
                        proof {
                            let sig = probe_signature(self.ixs@, results@, k as int, edge_id as int);
                            assert(!known(self.signatures(), sig)) by {
                                if known(self.signatures(), sig) {
                                    let j = choose|j: int|
                                        0 <= j < self.signatures().len()
                                            && #[trigger] self.signatures()[j] == sig;
                                    assert(self.patterns@[j]@ != sig);
                                }
                            }
                            assert(self.firsts() == self.ixs@);
                            assert(self.run() == self.magic@);
                            assert(sig == probe_signature(
                                self.firsts(),
                                results@,
                                k as int,
                                edge_id as int,
                            ));
                            assert(exists|a: int, b: int|
                                0 <= a < self.rooms() && 0 <= b < DEGREE && !known(
                                    self.signatures(),
                                    #[trigger] probe_signature(self.firsts(), results@, a, b),
                                ));
                        }
                        return Err(SolveError::UnknownSignature);
                    },
                }
                edge_id += 1;
            }
            edges.push(row);
            k += 1;
        }
        let labels = self.labels.clone();
        proof {
            assert(labels@ =~= self.labels@);
        }
        Ok(Solution { labels, edges, starting_room: 0 })
    }

    /// Decides whether an answer has the shape of an answer to the probes.
    fn check_probes(&self, results: &Vec<Vec<usize>>) -> (ok: bool)
        ensures
            ok == probes_shaped(self.firsts(), self.run(), results@),
    {
        proof {
            use_type_invariant(self);
            assert(self.n * DEGREE <= usize::MAX) by (nonlinear_arith)
                requires
                    self.n * MAGIC_FACTOR + self.n * WALK_FACTOR + 1 <= usize::MAX,
                    self.n >= 0,
            ;
        }
        if results.len() != self.n * DEGREE {
            return false;
        }
        let mut k: usize = 0;
        while k < self.n
            invariant
                k <= self.n,
                self.inv(),
                results@.len() == self.n * DEGREE,
                forall|q: int, e: int|
                    0 <= q < k && 0 <= e < DEGREE ==> (#[trigger] results@[q * DEGREE + e])@.len()
                        == self.ixs@[q] + self.magic@.len() + 2,
            decreases self.n - k,
        {
            let mut edge_id: usize = 0;
            while edge_id < DEGREE
                invariant
                    edge_id <= DEGREE,
                    k < self.n,
                    self.inv(),
                    results@.len() == self.n * DEGREE,
                    forall|e: int|
                        0 <= e < edge_id ==> (#[trigger] results@[k * DEGREE + e])@.len()
                            == self.ixs@[k as int] + self.magic@.len() + 2,
                decreases DEGREE - edge_id,
            {
                proof {
                    assert(k * DEGREE + edge_id < self.n * DEGREE) by (nonlinear_arith)
                        requires
                            k < self.n,
                            edge_id < DEGREE,
                    ;
                }
                if results[k * DEGREE + edge_id].len() != self.ixs[k] + self.magic.len() + 2 {
                    return false;
                }
                edge_id += 1;
            }
            k += 1;
        }
        true
    }
}

/// The answer has the shape of an answer to the first plans.
pub open spec fn shaped(walk: Seq<usize>, magic: Seq<usize>, results: Seq<Vec<usize>>) -> bool {
    &&& results.len() == walk.len() + 1
    &&& forall|i: int|
        0 <= i < results.len() ==> (#[trigger] results[i])@.len() == i + magic.len() + 1
    &&& forall|i: int, j: int|
        0 <= i < results.len() && 0 <= j < results[i]@.len() ==> #[trigger] results[i]@[j]
            < LABELS
}

/// Decides whether every entry is a door.
pub fn check_doors(doors: &Vec<usize>) -> (ok: bool)
    ensures
        ok == all_doors(doors@),
{
    let mut i: usize = 0;
    while i < doors.len()
        invariant
            i <= doors@.len(),
            forall|k: int| 0 <= k < i ==> #[trigger] doors@[k] < DEGREE,
        decreases doors@.len() - i,
    {
        if doors[i] >= DEGREE {
            return false;
        }
        i += 1;
    }
    true
}

/// A walk joined with a door and a run of doors is made of doors.
pub proof fn lemma_joined_doors(walk: Seq<usize>, upto: int, door: Option<usize>, run: Seq<usize>)
    requires
        0 <= upto <= walk.len(),
        all_doors(walk),
        all_doors(run),
        door matches Some(e) ==> e < DEGREE,
    ensures
        all_doors(
            walk.take(upto) + match door {
                Some(e) => seq![e],
                None => Seq::empty(),
            } + run,
        ),
{
    let mid = match door {
        Some(e) => seq![e],
        None => Seq::empty(),
    };
    let all = walk.take(upto) + mid + run;
    assert forall|i: int| 0 <= i < all.len() implies #[trigger] all[i] < DEGREE by {
        if i < upto {
            assert(all[i] == walk[i]);
        } else if i < upto + mid.len() {
        } else {
            assert(all[i] == run[i - upto - mid.len()]);
        }
    }
}

/// The first `upto` doors of a walk, then one door more if one is given,
/// then a run of doors.
pub fn join(walk: &Vec<usize>, upto: usize, door: Option<usize>, run: &Vec<usize>) -> (plan: Vec<
    usize,
>)
    requires
        upto <= walk@.len(),
    ensures
        plan@ == walk@.take(upto as int) + match door {
            Some(e) => seq![e],
            None => Seq::empty(),
        } + run@,
{
    let mut plan: Vec<usize> = Vec::new();
    let mut i: usize = 0;
    while i < upto
        invariant
            i <= upto <= walk@.len(),
            plan@ == walk@.take(i as int),
        decreases upto - i,
    {
        plan.push(walk[i]);
        i += 1;
        proof {
            assert(plan@ =~= walk@.take(i as int));
        }
    }
    let ghost head = plan@;
    if let Some(e) = door {
        plan.push(e);
    }
    let ghost mid = plan@;
    let mut j: usize = 0;
    while j < run.len()
        invariant
            j <= run@.len(),
            plan@ == mid + run@.take(j as int),
        decreases run@.len() - j,
    {
        plan.push(run[j]);
        j += 1;
        proof {
            assert(plan@ =~= mid + run@.take(j as int));
        }
    }
    proof {
        assert(run@.take(run@.len() as int) =~= run@);
        assert(mid =~= head + match door {
            Some(e) => seq![e],
            None => Seq::empty(),
        });
    }
    plan
}

} // verus!
