//! Exploration plans: sequences of door choices and label rewrites.

use vstd::prelude::*;
use rand_pcg::Pcg64Mcg;
use crate::problem::{DEGREE, LABELS};
use crate::rng::random_below;

verus! {

/// One step of a plan.
#[derive(Debug, Clone, Copy, PartialEq, Eq, Structural)]
pub enum WalkStep {
    /// Leave the current room through the door with this number.
    Edge(usize),
    /// Overwrite the label of the current room with this label.
    Rewrite(usize),
}

/// The step names a door or a label that exists.
pub open spec fn step_ok(step: WalkStep) -> bool {
    match step {
        WalkStep::Edge(d) => d < DEGREE,
        WalkStep::Rewrite(l) => l < LABELS,
    }
}

/// Every step names a door or a label that exists.
pub open spec fn plan_ok(plan: Seq<WalkStep>) -> bool {
    forall|i: int| 0 <= i < plan.len() ==> step_ok(#[trigger] plan[i])
}

/// Every door step names a door that exists; rewrites may write anything.
pub open spec fn doors_ok(plan: Seq<WalkStep>) -> bool {
    forall|i: int|
        0 <= i < plan.len() ==> match #[trigger] plan[i] {
            WalkStep::Edge(d) => d < DEGREE,
            WalkStep::Rewrite(_) => true,
        }
}

/// The plan consists of steps through existing doors only.
pub open spec fn edge_only(plan: Seq<WalkStep>) -> bool {
    forall|i: int|
        0 <= i < plan.len() ==> match #[trigger] plan[i] {
            WalkStep::Edge(d) => d < DEGREE,
            WalkStep::Rewrite(_) => false,
        }
}

/// Number of door steps in the plan.
pub open spec fn edge_count(plan: Seq<WalkStep>) -> nat
    decreases plan.len(),
{
    if plan.len() == 0 {
        0
    } else {
        edge_count(plan.drop_last()) + match plan.last() {
            WalkStep::Edge(_) => 1nat,
            WalkStep::Rewrite(_) => 0nat,
        }
    }
}

/// The plan that walks through the given doors in turn.
pub open spec fn door_plan(doors: Seq<usize>) -> Seq<WalkStep> {
    Seq::new(doors.len(), |i: int| WalkStep::Edge(doors[i]))
}

/// Turns a list of doors into the plan that walks through them.
pub fn plan_of_doors(doors: &Vec<usize>) -> (plan: Vec<WalkStep>)
    ensures
        plan@ == door_plan(doors@),
{
    let mut plan: Vec<WalkStep> = Vec::new();
    let mut i: usize = 0;
    while i < doors.len()
        invariant
            i <= doors.len(),
            plan@ == door_plan(doors@.take(i as int)),
        decreases doors.len() - i,
    {
        plan.push(WalkStep::Edge(doors[i]));
        i += 1;
        proof {
            assert(plan@ =~= door_plan(doors@.take(i as int)));
        }
    }
    proof {
        assert(doors@.take(doors.len() as int) =~= doors@);
    }
    plan
}

/// Every entry is a door.
pub open spec fn all_doors(doors: Seq<usize>) -> bool {
    forall|i: int| 0 <= i < doors.len() ==> #[trigger] doors[i] < DEGREE
}

/// Draws `len` doors.
pub fn random_doors(rng: &mut Pcg64Mcg, len: usize) -> (doors: Vec<usize>)
    ensures
        doors@.len() == len,
        all_doors(doors@),
{
    let mut doors: Vec<usize> = Vec::new();
    let mut i: usize = 0;
    while i < len
        invariant
            i <= len,
            doors@.len() == i,
            all_doors(doors@),
        decreases len - i,
    {
        doors.push(random_below(rng, DEGREE));
        i += 1;
    }
    doors
}

} // verus!
