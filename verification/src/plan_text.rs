//! Plans as text: a digit for a door, a digit in square brackets for a
//! label to write.

use vstd::prelude::*;
use crate::plan::{door_plan, edge_count, edge_only, plan_ok, step_ok, WalkStep};
use crate::problem::{DEGREE, LABELS};

verus! {

/// Why a text is not accepted as a plan.
#[derive(Debug, Clone, Copy, PartialEq, Eq, Structural)]
pub enum PlanError {
    /// The text is not made of door digits and bracketed label digits.
    Invalid,
    /// The plan takes more doors than the oracle allows.
    TooLong,
}

/// The character `0`.
pub const ZERO: u8 = 48;

/// The character `[`.
pub const OPEN: u8 = 91;

/// The character `]`.
pub const CLOSE: u8 = 93;

/// The text of one step.
pub open spec fn step_text(step: WalkStep) -> Seq<u8> {
    match step {
        WalkStep::Edge(d) => seq![(ZERO + d) as u8],
        WalkStep::Rewrite(l) => seq![OPEN, (ZERO + l) as u8, CLOSE],
    }
}

/// The text of a plan: the texts of its steps, one after another.
pub open spec fn plan_text(plan: Seq<WalkStep>) -> Seq<u8>
    decreases plan.len(),
{
    if plan.len() == 0 {
        Seq::empty()
    } else {
        step_text(plan[0]) + plan_text(plan.drop_first())
    }
}

/// The plan that a text spells, read from the left, if it spells one.
pub open spec fn decode(text: Seq<u8>) -> Option<Seq<WalkStep>>
    decreases text.len(),
{
    if text.len() == 0 {
        Some(Seq::empty())
    } else if ZERO <= text[0] < ZERO + DEGREE {
        match decode(text.skip(1)) {
            Some(rest) => Some(seq![WalkStep::Edge((text[0] - ZERO) as usize)] + rest),
            None => None,
        }
    } else if text[0] == OPEN && text.len() >= 3 && text[2] == CLOSE && ZERO <= text[1] < ZERO
        + LABELS {
        match decode(text.skip(3)) {
            Some(rest) => Some(seq![WalkStep::Rewrite((text[1] - ZERO) as usize)] + rest),
            None => None,
        }
    } else {
        None
    }
}

/// The plan that a text spells for an oracle: a text with a bracketed label
/// spells a plan only for an oracle that lets labels be rewritten.
pub open spec fn decode_for(text: Seq<u8>, rewriting: bool) -> Option<Seq<WalkStep>> {
    match decode(text) {
        Some(plan) => if rewriting || edge_only(plan) {
            Some(plan)
        } else {
            None
        },
        None => None,
    }
}

/// The text of a valid plan spells that plan.
pub proof fn lemma_decode_text(plan: Seq<WalkStep>)
    requires
        plan_ok(plan),
    ensures
        decode(plan_text(plan)) == Some(plan),
    decreases plan.len(),
{
    if plan.len() > 0 {
        let rest = plan.drop_first();
        assert(plan_ok(rest)) by {
            assert forall|i: int| 0 <= i < rest.len() implies step_ok(#[trigger] rest[i]) by {
                assert(rest[i] == plan[i + 1]);
            }
        }
        lemma_decode_text(rest);
        let text = plan_text(plan);
        assert(step_ok(plan[0]));
        match plan[0] {
            WalkStep::Edge(d) => {
                assert(text.skip(1) =~= plan_text(rest));
                assert(seq![WalkStep::Edge(d)] + rest =~= plan);
            },
            WalkStep::Rewrite(l) => {
                assert(text.skip(3) =~= plan_text(rest));
                assert(seq![WalkStep::Rewrite(l)] + rest =~= plan);
            },
        }
    }
}

/// A text spells only a valid plan, and the text of that plan is the text.
pub proof fn lemma_text_decode(text: Seq<u8>)
    ensures
        decode(text) matches Some(plan) ==> plan_ok(plan) && plan_text(plan) == text,
    decreases text.len(),
{
    if text.len() == 0 {
        assert(plan_text(Seq::<WalkStep>::empty()) =~= text);
    } else if ZERO <= text[0] < ZERO + DEGREE {
        lemma_text_decode(text.skip(1));
        if let Some(rest) = decode(text.skip(1)) {
            let step = WalkStep::Edge((text[0] - ZERO) as usize);
            let plan = seq![step] + rest;
            assert(plan.drop_first() =~= rest);
            assert(plan_text(plan) =~= text);
            assert forall|i: int| 0 <= i < plan.len() implies step_ok(#[trigger] plan[i]) by {
                if i > 0 {
                    assert(plan[i] == rest[i - 1]);
                }
            }
        }
    } else if text[0] == OPEN && text.len() >= 3 && text[2] == CLOSE && ZERO <= text[1] < ZERO
        + LABELS {
        lemma_text_decode(text.skip(3));
        if let Some(rest) = decode(text.skip(3)) {
            let step = WalkStep::Rewrite((text[1] - ZERO) as usize);
            let plan = seq![step] + rest;
            assert(plan.drop_first() =~= rest);
            assert(plan_text(plan) =~= text);
            assert forall|i: int| 0 <= i < plan.len() implies step_ok(#[trigger] plan[i]) by {
                if i > 0 {
                    assert(plan[i] == rest[i - 1]);
                }
            }
        }
    }
}

/// A text that spells no plan is the text of no valid plan.
pub proof fn lemma_invalid_text(text: Seq<u8>, plan: Seq<WalkStep>)
    requires
        decode(text) is None,
        plan_ok(plan),
    ensures
        plan_text(plan) != text,
{
    lemma_decode_text(plan);
}

/// The text of a plan and of one more step.
proof fn lemma_text_push(plan: Seq<WalkStep>, step: WalkStep)
    ensures
        plan_text(plan.push(step)) == plan_text(plan) + step_text(step),
    decreases plan.len(),
{
    let longer = plan.push(step);
    if plan.len() == 0 {
        assert(longer.drop_first() =~= Seq::<WalkStep>::empty());
        assert(longer[0] == step);
        assert(plan_text(longer.drop_first()) =~= Seq::<u8>::empty());
        assert(plan_text(plan) =~= Seq::<u8>::empty());
        assert(plan_text(longer) =~= step_text(step));
        assert(plan_text(plan) + step_text(step) =~= step_text(step));
    } else {
        lemma_text_push(plan.drop_first(), step);
        assert(longer.drop_first() =~= plan.drop_first().push(step));
        assert(plan_text(longer) =~= plan_text(plan) + step_text(step));
    }
}

/// Writes a plan as text. A plan with a step that names no door or label
/// has no text.
pub fn encode_plan(plan: &Vec<WalkStep>) -> (text: Option<Vec<u8>>)
    ensures
        text is Some <==> plan_ok(plan@),
        text matches Some(t) ==> t@ == plan_text(plan@),
{
    let mut text: Vec<u8> = Vec::new();
    let mut i: usize = 0;
    proof {
        assert(plan@.take(0) =~= Seq::<WalkStep>::empty());
    }
    while i < plan.len()
        invariant
            i <= plan@.len(),
            plan_ok(plan@.take(i as int)),
            text@ == plan_text(plan@.take(i as int)),
        decreases plan@.len() - i,
    {
        let ghost before = plan@.take(i as int);
        proof {
            assert(plan@.take(i as int + 1) =~= before.push(plan@[i as int]));
            lemma_text_push(before, plan@[i as int]);
        }
        match plan[i] {
            WalkStep::Edge(d) => {
                if d >= DEGREE {
                    proof {
                        assert(!step_ok(plan@[i as int]));
                    }
                    return None;
                }
                text.push(ZERO + d as u8);
            },
            WalkStep::Rewrite(l) => {
                if l >= LABELS {
                    proof {
                        assert(!step_ok(plan@[i as int]));
                    }
                    return None;
                }
                text.push(OPEN);
                text.push(ZERO + l as u8);
                text.push(CLOSE);
            },
        }
        proof {
            assert(text@ =~= plan_text(before) + step_text(plan@[i as int]));
            assert forall|k: int| 0 <= k < i + 1 implies step_ok(
                #[trigger] plan@.take(i as int + 1)[k],
            ) by {
                if k < i {
                    assert(before[k] == plan@[k]);
                    assert(step_ok(before[k]));
                }
            }
        }
        i += 1;
    }
    proof {
        assert(plan@.take(plan@.len() as int) =~= plan@);
    }
    Some(text)
}

/// Writes a walk through doors as text.
pub fn encode_doors(doors: &Vec<usize>) -> (text: Option<Vec<u8>>)
    ensures
        text is Some <==> plan_ok(door_plan(doors@)),
        text matches Some(t) ==> t@ == plan_text(door_plan(doors@)),
{
    let plan = crate::plan::plan_of_doors(doors);
    encode_plan(&plan)
}

/// Reads a plan from its text, for an oracle that does or does not let
/// labels be rewritten, and holds it to the number of doors that the oracle
/// allows in one plan.
pub fn parse_plan(text: &Vec<u8>, max_edges: usize, rewriting: bool) -> (res: Result<
    Vec<WalkStep>,
    PlanError,
>)
    ensures
        match res {
            Ok(plan) => decode_for(text@, rewriting) == Some(plan@) && edge_count(plan@)
                <= max_edges,
            Err(PlanError::Invalid) => decode_for(text@, rewriting) is None,
            Err(PlanError::TooLong) => decode_for(text@, rewriting) matches Some(plan)
                && max_edges < edge_count(plan) <= text@.len(),
        },
{
    let mut walk_steps: Vec<WalkStep> = Vec::new();
    let mut traversed_edges: usize = 0;
    let mut i: usize = 0;
    proof {
        assert(text@.skip(0) =~= text@);
        assert(Seq::<WalkStep>::empty() + decode(text@).unwrap() =~= decode(text@).unwrap());
    }
    while i < text.len()
        invariant
            i <= text@.len(),
            traversed_edges == edge_count(walk_steps@),
            traversed_edges <= i,
            !rewriting ==> edge_only(walk_steps@),
            decode(text@) == match decode(text@.skip(i as int)) {
                Some(rest) => Some(walk_steps@ + rest),
                None => None,
            },
        decreases text@.len() - i,
    {
        let ghost rest_text = text@.skip(i as int);
        let ghost before = walk_steps@;
        let c = text[i];
        proof {
            assert(rest_text[0] == c);
        }
        if c >= ZERO && c < ZERO + DEGREE as u8 {
            let step = WalkStep::Edge((c - ZERO) as usize);
            walk_steps.push(step);
            traversed_edges += 1;
            i += 1;
            proof {
                assert(rest_text.skip(1) =~= text@.skip(i as int));
                assert(walk_steps@.drop_last() =~= before);
                if let Some(rest) = decode(text@.skip(i as int)) {
                    assert(before + (seq![step] + rest) =~= walk_steps@ + rest);
                }
            }
        } else if c == OPEN && text.len() - i >= 3 && text[i + 2] == CLOSE && text[i + 1] >= ZERO
            && text[i + 1] < ZERO + LABELS as u8 {
            let step = WalkStep::Rewrite((text[i + 1] - ZERO) as usize);
            proof {
                assert(rest_text[1] == text@[i + 1]);
                assert(rest_text[2] == text@[i + 2]);
            }
            if !rewriting {
                proof {
                    if let Some(rest) = decode(rest_text.skip(3)) {
                        let plan = before + (seq![step] + rest);
                        assert(decode(text@) == Some(plan));
                        assert(plan[before.len() as int] == step);
                        assert(!edge_only(plan));
                    }
                }
                return Err(PlanError::Invalid);
            }
            walk_steps.push(step);
            i += 3;
            proof {
                assert(rest_text.skip(3) =~= text@.skip(i as int));
                assert(walk_steps@.drop_last() =~= before);
                if let Some(rest) = decode(text@.skip(i as int)) {
                    assert(before + (seq![step] + rest) =~= walk_steps@ + rest);
                }
            }
        } else {
            proof {
                if rest_text.len() >= 3 {
                    assert(rest_text[1] == text@[i + 1]);
                    assert(rest_text[2] == text@[i + 2]);
                }
                assert(decode(rest_text) is None);
            }
            return Err(PlanError::Invalid);
        }
    }
    proof {
        assert(text@.skip(text@.len() as int) =~= Seq::<u8>::empty());
        assert(walk_steps@ + Seq::<WalkStep>::empty() =~= walk_steps@);
    }
    if traversed_edges > max_edges {
        return Err(PlanError::TooLong);
    }
    Ok(walk_steps)
}

} // verus!
