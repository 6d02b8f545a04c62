//! Bisimilarity of two room graphs, decided by partition refinement on
//! their disjoint union, and its sampled stand-in for graphs whose labels
//! can be rewritten.

use vstd::prelude::*;
use rand_pcg::Pcg64Mcg;
use crate::graph::{walk_from, Graph};
use crate::plan::{edge_only, plan_ok, WalkStep};
use crate::problem::{DEGREE, LABELS};
use crate::refine::{alike, carries, is_bisimulation, refine, system_ok};
use crate::rng::{os_rng, random_below, seeded_rng};
use crate::table::{copy_table, row_ok, table};

verus! {

/// Number of plans sampled to compare two graphs whose labels can be
/// rewritten.
pub const SAMPLES: usize = 100;

/// Number of steps of each sampled plan.
pub const SAMPLE_STEPS: usize = 10000;

/// Resolution of the share of rewrites in a sampled plan.
pub const MIX_SCALE: usize = 65536;

/// The relation holds of the room behind door `d` of `x` in `g` and the room
/// behind door `d` of `y` in `h`.
pub open spec fn leads(g: Graph, h: Graph, r: spec_fn(int, int) -> bool, x: int, y: int, d: int) -> bool {
    r(g.doors()[x][d] as int, h.doors()[y][d] as int)
}

/// The relation between rooms of `g` and rooms of `h` is a bisimulation:
/// related rooms share a label and each door leads to related rooms.
pub open spec fn is_simulation(g: Graph, h: Graph, r: spec_fn(int, int) -> bool) -> bool {
    &&& forall|x: int, y: int|
        0 <= x < g.labels@.len() && 0 <= y < h.labels@.len() && #[trigger] r(x, y)
            ==> g.labels@[x] == h.labels@[y]
    &&& forall|x: int, y: int, d: int|
        0 <= x < g.labels@.len() && 0 <= y < h.labels@.len() && 0 <= d < DEGREE && r(x, y)
            ==> #[trigger] leads(g, h, r, x, y, d)
}

/// The starting rooms of the two graphs are bisimilar.
pub open spec fn bisimilar(g: Graph, h: Graph) -> bool {
    exists|r: spec_fn(int, int) -> bool| #[trigger]
        is_simulation(g, h, r) && r(g.start_node as int, h.start_node as int)
}

/// What the checker accepts: graphs of one size with bisimilar starting
/// rooms.
pub open spec fn accepts(g: Graph, h: Graph) -> bool {
    g.labels@.len() == h.labels@.len() && bisimilar(g, h)
}

/// No plan of valid steps, rewrites included, tells the graphs apart.
pub open spec fn indistinguishable(g: Graph, h: Graph) -> bool {
    forall|plan: Seq<WalkStep>| plan_ok(plan) ==> #[trigger] g.trace(plan) == h.trace(plan)
}

/// The plan is one that the sampled comparison may draw: `SAMPLE_STEPS`
/// valid steps.
pub open spec fn is_sample(plan: Seq<WalkStep>) -> bool {
    plan_ok(plan) && plan.len() == SAMPLE_STEPS
}

/// Some plan that the sampled comparison may draw gives the same trace on
/// both graphs.
pub open spec fn some_sample_agrees(g: Graph, h: Graph) -> bool {
    exists|plan: Seq<WalkStep>| is_sample(plan) && #[trigger] g.trace(plan) == h.trace(plan)
}

/// Some plan that the sampled comparison may draw gives different traces on
/// the two graphs.
pub open spec fn some_sample_differs(g: Graph, h: Graph) -> bool {
    exists|plan: Seq<WalkStep>| is_sample(plan) && #[trigger] g.trace(plan) != h.trace(plan)
}

/// The door table of the disjoint union: the rooms of the second graph
/// follow those of the first.
pub open spec fn union_doors(gd: Seq<Seq<usize>>, hd: Seq<Seq<usize>>) -> Seq<Seq<usize>> {
    Seq::new(
        gd.len() + hd.len(),
        |x: int|
            if x < gd.len() {
                gd[x]
            } else {
                Seq::new(DEGREE as nat, |d: int| (hd[x - gd.len()][d] + gd.len()) as usize)
            },
    )
}

/// A graph is bisimilar to itself.
pub proof fn lemma_bisimilar_reflexive(g: Graph)
    requires
        g.wf(),
    ensures
        accepts(g, g),
{
    let r = |x: int, y: int| x == y;
    assert(is_simulation(g, g, r));
    assert(r(g.start_node as int, g.start_node as int));
}

/// Bisimilarity does not depend on the order of the two graphs.
pub proof fn lemma_bisimilar_symmetric(g: Graph, h: Graph)
    ensures
        accepts(g, h) == accepts(h, g),
{
    if bisimilar(g, h) {
        lemma_flip(g, h);
    }
    if bisimilar(h, g) {
        lemma_flip(h, g);
    }
}

proof fn lemma_flip(g: Graph, h: Graph)
    requires
        bisimilar(g, h),
    ensures
        bisimilar(h, g),
{
    let r = choose|r: spec_fn(int, int) -> bool| #[trigger]
        is_simulation(g, h, r) && r(g.start_node as int, h.start_node as int);
    let f = |y: int, x: int| r(x, y);
    assert forall|y: int, x: int, d: int|
        0 <= y < h.labels@.len() && 0 <= x < g.labels@.len() && 0 <= d < DEGREE && f(
            y,
            x,
        ) implies #[trigger] leads(h, g, f, y, x, d) by {
        assert(leads(g, h, r, x, y, d));
    }
    assert(is_simulation(h, g, f));
    assert(f(h.start_node as int, g.start_node as int));
}

/// Related rooms show the same labels along every plan of door steps.
proof fn lemma_same_walk(
    g: Graph,
    h: Graph,
    r: spec_fn(int, int) -> bool,
    x: int,
    y: int,
    plan: Seq<WalkStep>,
)
    requires
        g.wf(),
        h.wf(),
        is_simulation(g, h, r),
        0 <= x < g.labels@.len(),
        0 <= y < h.labels@.len(),
        r(x, y),
        edge_only(plan),
    ensures
        walk_from(g.doors(), g.labels@, x, plan) == walk_from(h.doors(), h.labels@, y, plan),
    decreases plan.len(),
{
    if plan.len() > 0 {
        match plan[0] {
            WalkStep::Edge(d) => {
                assert(leads(g, h, r, x, y, d as int));
                assert(row_ok(g.doors()[x], g.labels@.len()));
                assert(row_ok(h.doors()[y], h.labels@.len()));
                let rest = plan.drop_first();
                assert(edge_only(rest)) by {
                    assert forall|i: int| 0 <= i < rest.len() implies match #[trigger] rest[i] {
                        WalkStep::Edge(d) => d < DEGREE,
                        WalkStep::Rewrite(_) => false,
                    } by {
                        assert(rest[i] == plan[i + 1]);
                    }
                }
                lemma_same_walk(
                    g,
                    h,
                    r,
                    g.doors()[x][d as int] as int,
                    h.doors()[y][d as int] as int,
                    rest,
                );
            },
            WalkStep::Rewrite(_) => {},
        }
    }
}

/// Bisimilar graphs give the same trace for every plan of door steps.
pub proof fn lemma_bisimilar_traces(g: Graph, h: Graph, plan: Seq<WalkStep>)
    requires
        g.wf(),
        h.wf(),
        bisimilar(g, h),
        edge_only(plan),
    ensures
        g.trace(plan) == h.trace(plan),
{
    let r = choose|r: spec_fn(int, int) -> bool| #[trigger]
        is_simulation(g, h, r) && r(g.start_node as int, h.start_node as int);
    lemma_same_walk(g, h, r, g.start_node as int, h.start_node as int, plan);
}

/// What the checker accepts and what plans can tell apart depends on the
/// labels, the doors and the starting room of a graph alone.
pub proof fn lemma_same_graph(g: Graph, h: Graph, k: Graph)
    requires
        h.labels@ == k.labels@,
        h.doors() == k.doors(),
        h.start_node == k.start_node,
    ensures
        accepts(g, h) == accepts(g, k),
        indistinguishable(g, h) == indistinguishable(g, k),
{
    assert forall|r: spec_fn(int, int) -> bool| is_simulation(g, h, r) == is_simulation(g, k, r) by {
        if is_simulation(g, h, r) {
            assert forall|x: int, y: int, d: int|
                0 <= x < g.labels@.len() && 0 <= y < k.labels@.len() && 0 <= d < DEGREE && r(
                    x,
                    y,
                ) implies #[trigger] leads(g, k, r, x, y, d) by {
                assert(leads(g, h, r, x, y, d));
            }
        }
        if is_simulation(g, k, r) {
            assert forall|x: int, y: int, d: int|
                0 <= x < g.labels@.len() && 0 <= y < h.labels@.len() && 0 <= d < DEGREE && r(
                    x,
                    y,
                ) implies #[trigger] leads(g, h, r, x, y, d) by {
                assert(leads(g, k, r, x, y, d));
            }
        }
    }
    if bisimilar(g, h) {
        let r = choose|r: spec_fn(int, int) -> bool| #[trigger]
            is_simulation(g, h, r) && r(g.start_node as int, h.start_node as int);
        assert(is_simulation(g, k, r));
    }
    if bisimilar(g, k) {
        let r = choose|r: spec_fn(int, int) -> bool| #[trigger]
            is_simulation(g, k, r) && r(g.start_node as int, k.start_node as int);
        assert(is_simulation(g, h, r));
    }
    assert forall|plan: Seq<WalkStep>| h.trace(plan) == k.trace(plan) by {}
    if indistinguishable(g, h) {
        assert forall|plan: Seq<WalkStep>| plan_ok(plan) implies #[trigger] g.trace(plan)
            == k.trace(plan) by {
            assert(g.trace(plan) == h.trace(plan));
        }
    }
    if indistinguishable(g, k) {
        assert forall|plan: Seq<WalkStep>| plan_ok(plan) implies #[trigger] g.trace(plan)
            == h.trace(plan) by {
            assert(g.trace(plan) == k.trace(plan));
        }
    }
}

/// Whether a sample agrees or differs depends on the labels, the doors and
/// the starting room of a graph alone.
pub proof fn lemma_same_samples(g: Graph, h: Graph, k: Graph)
    requires
        h.labels@ == k.labels@,
        h.doors() == k.doors(),
        h.start_node == k.start_node,
    ensures
        some_sample_agrees(g, h) == some_sample_agrees(g, k),
        some_sample_differs(g, h) == some_sample_differs(g, k),
{
    assert forall|plan: Seq<WalkStep>| h.trace(plan) == k.trace(plan) by {}
    if some_sample_agrees(g, h) {
        let plan = choose|plan: Seq<WalkStep>|
            is_sample(plan) && #[trigger] g.trace(plan) == h.trace(plan);
        assert(g.trace(plan) == k.trace(plan));
    }
    if some_sample_agrees(g, k) {
        let plan = choose|plan: Seq<WalkStep>|
            is_sample(plan) && #[trigger] g.trace(plan) == k.trace(plan);
        assert(g.trace(plan) == h.trace(plan));
    }
    if some_sample_differs(g, h) {
        let plan = choose|plan: Seq<WalkStep>|
            is_sample(plan) && #[trigger] g.trace(plan) != h.trace(plan);
        assert(g.trace(plan) != k.trace(plan));
    }
    if some_sample_differs(g, k) {
        let plan = choose|plan: Seq<WalkStep>|
            is_sample(plan) && #[trigger] g.trace(plan) != k.trace(plan);
        assert(g.trace(plan) != h.trace(plan));
    }
}

/// The union of two well-formed graphs is a door table with labels.
proof fn lemma_union_ok(g: Graph, h: Graph)
    requires
        g.wf(),
        h.wf(),
        g.labels@.len() + h.labels@.len() <= usize::MAX,
    ensures
        system_ok(union_doors(g.doors(), h.doors()), g.labels@ + h.labels@),
{
    let ud = union_doors(g.doors(), h.doors());
    let n = g.labels@.len() as int;
    assert forall|u: int| 0 <= u < ud.len() implies row_ok(#[trigger] ud[u], ud.len()) by {
        if u < n {
            assert(row_ok(g.doors()[u], g.labels@.len()));
        } else {
            assert(row_ok(h.doors()[u - n], h.labels@.len()));
        }
    }
}

/// Bisimilar starting rooms are alike in the union.
proof fn lemma_union_alike(g: Graph, h: Graph)
    requires
        g.wf(),
        h.wf(),
        g.labels@.len() + h.labels@.len() <= usize::MAX,
        bisimilar(g, h),
    ensures
        alike(
            union_doors(g.doors(), h.doors()),
            g.labels@ + h.labels@,
            g.start_node as int,
            g.labels@.len() + h.start_node,
        ),
{
    let ud = union_doors(g.doors(), h.doors());
    let ul = g.labels@ + h.labels@;
    let n = g.labels@.len() as int;
    let r = choose|r: spec_fn(int, int) -> bool| #[trigger]
        is_simulation(g, h, r) && r(g.start_node as int, h.start_node as int);
    let f = |x: int, y: int| 0 <= x < n && n <= y < ud.len() && r(x, y - n);
    assert forall|x: int, y: int, d: int|
        0 <= x < ud.len() && 0 <= y < ud.len() && 0 <= d < DEGREE && f(
            x,
            y,
        ) implies #[trigger] carries(ud, f, x, y, d) by {
        assert(leads(g, h, r, x, y - n, d));
        assert(row_ok(g.doors()[x], g.labels@.len()));
        assert(row_ok(h.doors()[y - n], h.labels@.len()));
    }
    assert(is_bisimulation(ud, ul, f));
    assert(f(g.start_node as int, n + h.start_node));
}

/// Starting rooms that are alike in the union are bisimilar.
proof fn lemma_alike_union(g: Graph, h: Graph)
    requires
        g.wf(),
        h.wf(),
        g.labels@.len() + h.labels@.len() <= usize::MAX,
        alike(
            union_doors(g.doors(), h.doors()),
            g.labels@ + h.labels@,
            g.start_node as int,
            g.labels@.len() + h.start_node,
        ),
    ensures
        bisimilar(g, h),
{
    let ud = union_doors(g.doors(), h.doors());
    let ul = g.labels@ + h.labels@;
    let n = g.labels@.len() as int;
    let f = choose|f: spec_fn(int, int) -> bool| #[trigger]
        is_bisimulation(ud, ul, f) && f(g.start_node as int, n + h.start_node);
    let r = |x: int, y: int| f(x, n + y);
    assert forall|x: int, y: int|
        0 <= x < g.labels@.len() && 0 <= y < h.labels@.len() && #[trigger] r(
            x,
            y,
        ) implies g.labels@[x] == h.labels@[y] by {
        assert(f(x, n + y));
        assert(ul[x] == ul[n + y]);
    }
    assert forall|x: int, y: int, d: int|
        0 <= x < g.labels@.len() && 0 <= y < h.labels@.len() && 0 <= d < DEGREE && r(
            x,
            y,
        ) implies #[trigger] leads(g, h, r, x, y, d) by {
        assert(carries(ud, f, x, n + y, d));
        assert(row_ok(g.doors()[x], g.labels@.len()));
        assert(row_ok(h.doors()[y], h.labels@.len()));
    }
    assert(is_simulation(g, h, r));
    assert(r(g.start_node as int, h.start_node as int));
}

/// Decides whether two traces are the same.
pub fn same_trace(a: &Vec<usize>, b: &Vec<usize>) -> (same: bool)
    ensures
        same == (a@ == b@),
{
    if a.len() != b.len() {
        return false;
    }
    let mut i: usize = 0;
    while i < a.len()
        invariant
            i <= a.len(),
            a.len() == b.len(),
            forall|k: int| 0 <= k < i ==> a@[k] == b@[k],
        decreases a.len() - i,
    {
        if a[i] != b[i] {
            return false;
        }
        i += 1;
    }
    proof {
        assert(a@ =~= b@);
    }
    true
}

/// Draws a plan of `len` valid steps. The share of rewrites among the steps
/// is itself drawn, once for the plan, evenly between none and all.
fn sample_plan(rng: &mut Pcg64Mcg, len: usize) -> (plan: Vec<WalkStep>)
    ensures
        plan@.len() == len,
        plan_ok(plan@),
{
    let share = random_below(rng, MIX_SCALE + 1);
    let mut plan: Vec<WalkStep> = Vec::new();
    let mut i: usize = 0;
    while i < len
        invariant
            i <= len,
            plan@.len() == i,
            plan_ok(plan@),
        decreases len - i,
    {
        let step = if random_below(rng, MIX_SCALE) < share {
            WalkStep::Rewrite(random_below(rng, LABELS))
        } else {
            WalkStep::Edge(random_below(rng, DEGREE))
        };
        plan.push(step);
        i += 1;
    }
    plan
}

impl Graph {
    /// The door table and labels of the disjoint union with another graph.
    fn union_with(&self, other: &Graph) -> (u: (Vec<Vec<usize>>, Vec<usize>))
        requires
            self.wf(),
            other.wf(),
        ensures
            table(u.0@) == union_doors(self.doors(), other.doors()),
            u.1@ == self.labels@ + other.labels@,
            self.labels@.len() + other.labels@.len() <= usize::MAX,
    {
        let n = self.labels.len();
        let k = other.labels.len();
        let mut label: Vec<usize> = self.labels.clone();
        proof {
            assert(label@ =~= self.labels@);
            assert(other.labels@.take(0) =~= Seq::<usize>::empty());
            assert(label@ =~= self.labels@ + other.labels@.take(0));
        }
        let mut z: usize = 0;
        while z < k
            invariant
                z <= k,
                k == other.labels@.len(),
                label@ == self.labels@ + other.labels@.take(z as int),
            decreases k - z,
        {
            label.push(other.labels[z]);
            proof {
                assert(label@ =~= self.labels@ + other.labels@.take(z as int + 1));
            }
            z += 1;
        }
        // the joined list is a list, so the two graphs have no more rooms than can be counted
        let rooms = label.len();
        proof {
            assert(other.labels@.take(k as int) =~= other.labels@);
            assert(rooms == n + k);
        }
        let mut succ: Vec<Vec<usize>> = copy_table(&self.edges);
        proof {
            assert(succ@.len() == table(succ@).len());
            assert forall|x: int| 0 <= x < n implies (#[trigger] succ@[x])@ == self.edges@[x]@ by {
                assert(table(succ@)[x] == table(self.edges@)[x]);
            }
        }
        let mut y: usize = 0;
        while y < k
            invariant
                y <= k,
                self.wf(),
                other.wf(),
                n == self.labels@.len(),
                k == other.labels@.len(),
                n + k <= usize::MAX,
                succ@.len() == n + y,
                forall|x: int| 0 <= x < n ==> (#[trigger] succ@[x])@ == self.edges@[x]@,
                forall|x: int|
                    n <= x < n + y ==> (#[trigger] succ@[x])@ == union_doors(
                        self.doors(),
                        other.doors(),
                    )[x],
            decreases k - y,
        {
            let mut row: Vec<usize> = Vec::new();
            let mut d: usize = 0;
            proof {
                assert(row_ok(other.doors()[y as int], k as nat));
            }
            while d < DEGREE
                invariant
                    d <= DEGREE,
                    y < k,
                    other.wf(),
                    k == other.labels@.len(),
                    n + k <= usize::MAX,
                    row_ok(other.doors()[y as int], k as nat),
                    row@.len() == d,
                    forall|e: int|
                        0 <= e < d ==> #[trigger] row@[e] == other.doors()[y as int][e] + n,
                decreases DEGREE - d,
            {
                row.push(other.edges[y][d] + n);
                d += 1;
            }
            proof {
                assert(row@ =~= union_doors(self.doors(), other.doors())[n + y]);
            }
            let ghost rows = succ@;
            succ.push(row);
            proof {
                assert forall|x: int| 0 <= x < n implies (#[trigger] succ@[x])@
                    == self.edges@[x]@ by {
                    assert(succ@[x] == rows[x]);
                }
                assert forall|x: int| n <= x < n + y + 1 implies (#[trigger] succ@[x])@
                    == union_doors(self.doors(), other.doors())[x] by {
                    if x < n + y {
                        assert(succ@[x] == rows[x]);
                    }
                }
            }
            y += 1;
        }
        proof {
            assert(table(succ@) =~= union_doors(self.doors(), other.doors()));
        }
        (succ, label)
    }

    /// Compares the traces of the two graphs on sampled plans of door steps
    /// and rewrites, and accepts when all of them agree. The plans are
    /// drawn at random, each of `SAMPLE_STEPS` valid steps and at least one
    /// of them: a `true` says that a plan was drawn and every plan drawn gave
    /// the same trace on both graphs, a `false` that a plan drawn told the
    /// graphs apart. So graphs that no such plan tells apart are accepted, and
    /// graphs that every such plan tells apart are not.
    pub fn bisimulation_randomized(&self, other: &Graph) -> (same: bool)
        requires
            self.wf(),
            other.wf(),
        ensures
            same ==> some_sample_agrees(*self, *other),
            !same ==> some_sample_differs(*self, *other),
            indistinguishable(*self, *other) ==> same,
    {
        let mut rng = match os_rng() {
            Some(rng) => rng,
            None => seeded_rng(42),
        };
        let mut result = true;
        let mut round: usize = 0;
        while round < SAMPLES && result
            invariant
                round <= SAMPLES,
                self.wf(),
                other.wf(),
                result && round > 0 ==> some_sample_agrees(*self, *other),
                !result ==> some_sample_differs(*self, *other),
            decreases SAMPLES - round,
        {
            let walk = sample_plan(&mut rng, SAMPLE_STEPS);
            if !self.agree_on(other, &walk) {
                proof {
                    assert(is_sample(walk@) && self.trace(walk@) != other.trace(walk@));
                }
                result = false;
            } else {
                proof {
                    assert(is_sample(walk@) && self.trace(walk@) == other.trace(walk@));
                }
            }
            round += 1;
        }
        proof {
            if !result {
                let plan = choose|plan: Seq<WalkStep>|
                    is_sample(plan) && #[trigger] self.trace(plan) != other.trace(plan);
                assert(!indistinguishable(*self, *other));
            }
        }
        result
    }

    /// Decides whether the two graphs give the same trace for a plan.
    pub fn agree_on(&self, other: &Graph, plan: &Vec<WalkStep>) -> (same: bool)
        requires
            self.wf(),
            other.wf(),
            plan_ok(plan@),
        ensures
            same == (self.trace(plan@) == other.trace(plan@)),
    {
        let mine = self.walk(plan.clone());
        let theirs = other.walk(plan.clone());
        same_trace(&mine, &theirs)
    }

    /// Decides whether a guess is as good as the graph itself.
    ///
    /// Graphs of different size are never accepted. For a graph whose labels
    /// cannot be rewritten the answer is exact: the starting rooms are
    /// bisimilar. For one whose labels can be rewritten the traces of
    /// sampled plans are compared instead.
    pub fn bisimulation(&self, other: &Graph) -> (same: bool)
        requires
            self.wf(),
            other.wf(),
        ensures
            same ==> self.labels@.len() == other.labels@.len(),
            !self.is_full ==> same == accepts(*self, *other),
            self.is_full && same ==> some_sample_agrees(*self, *other),
            self.is_full && !same && self.labels@.len() == other.labels@.len()
                ==> some_sample_differs(*self, *other),
            self.is_full && self.labels@.len() == other.labels@.len() && indistinguishable(
                *self,
                *other,
            ) ==> same,
    {
        let n = self.labels.len();
        if n != other.labels.len() {
            return false;
        }
        if self.is_full {
            return self.bisimulation_randomized(other);
        }
        let (succ, label) = self.union_with(other);
        proof {
            lemma_union_ok(*self, *other);
        }
        let group = refine(&succ, &label);
        let same = group[self.start_node] == group[other.start_node + n];
        proof {
            if same {
                lemma_alike_union(*self, *other);
            }
            if bisimilar(*self, *other) {
                lemma_union_alike(*self, *other);
            }
        }
        same
    }
}

} // verus!
