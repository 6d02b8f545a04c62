//! How many expansions the constraint search can make.

use vstd::prelude::*;
use crate::search_state::{lemma_unassigned_less, unassigned};

verus! {

/// `k` times `e`.
pub open spec fn tries(k: nat, e: nat) -> nat
    decreases k,
{
    if k == 0 {
        0
    } else {
        tries((k - 1) as nat, e) + e
    }
}

/// Most expansions that the search makes for `k` positions not yet
/// assigned, in a graph of `n` rooms: one for the state itself, and those of
/// the search after each of at most `n + 1` moves.
pub open spec fn expansions(n: nat, k: nat) -> nat
    decreases k,
{
    if k == 0 {
        1
    } else {
        1 + tries(n + 1, expansions(n, (k - 1) as nat))
    }
}

/// Most expansions that the search for a graph of `n` rooms makes from a
/// state with the given rooms of the walk positions.
pub open spec fn expansions_from(n: nat, to_id: Seq<Option<usize>>) -> nat {
    expansions(n, unassigned(to_id))
}

/// Most expansions that the search makes after one move from a state with
/// the given rooms of the walk positions.
pub open spec fn expansions_after(n: nat, to_id: Seq<Option<usize>>) -> nat {
    expansions(n, (unassigned(to_id) - 1) as nat)
}

/// No move takes no expansion, and one more move takes the expansions that
/// follow it.
pub proof fn lemma_tries(k: nat, e: nat)
    ensures
        tries(0, e) == 0,
        tries(k + 1, e) == tries(k, e) + e,
{
}

proof fn lemma_tries_mono(a: nat, b: nat, e: nat)
    requires
        a <= b,
    ensures
        tries(a, e) <= tries(b, e),
    decreases b,
{
    if a < b {
        lemma_tries_mono(a, (b - 1) as nat, e);
    }
}

/// The search makes one expansion at least.
pub proof fn lemma_expansions_first(n: nat, to_id: Seq<Option<usize>>)
    ensures
        expansions_from(n, to_id) >= 1,
        expansions_after(n, to_id) >= 0,
{
}

/// A move from a state leaves the search the expansions of the state that
/// it leads to.
pub proof fn lemma_expansions_after(n: nat, to_id: Seq<Option<usize>>, ix: int, u: usize)
    requires
        0 <= ix < to_id.len(),
        to_id[ix] is None,
    ensures
        expansions_from(n, to_id.update(ix, Some(u))) == expansions_after(n, to_id),
{
    lemma_unassigned_less(to_id, ix, u);
}

/// The search that makes one expansion and then, after each of at most
/// `n + 1` moves, no more than those left after a move, makes no more than
/// the expansions of its state.
pub proof fn lemma_expansions_bound(
    base: int,
    calls: int,
    n: nat,
    k: nat,
    to_id: Seq<Option<usize>>,
    ix: int,
)
    requires
        0 <= ix < to_id.len(),
        to_id[ix] is None,
        k <= n,
        calls <= base + 1 + tries(k, expansions_after(n, to_id)) + expansions_after(n, to_id),
    ensures
        calls <= base + expansions_from(n, to_id),
{
    lemma_unassigned_less(to_id, ix, 0);
    let rest = expansions_after(n, to_id);
    lemma_tries(k, rest);
    lemma_tries_mono(k + 1, n + 1, rest);
}

/// From the state in which no position is assigned the search makes no
/// more expansions than for as many positions as the walk has.
pub proof fn lemma_expansions_blank(n: nat, to_id: Seq<Option<usize>>)
    requires
        forall|i: int| 0 <= i < to_id.len() ==> (#[trigger] to_id[i]) is None,
    ensures
        expansions_from(n, to_id) == expansions(n, to_id.len()),
{
    lemma_all_unassigned(to_id);
}

proof fn lemma_all_unassigned(to_id: Seq<Option<usize>>)
    requires
        forall|i: int| 0 <= i < to_id.len() ==> (#[trigger] to_id[i]) is None,
    ensures
        unassigned(to_id) == to_id.len(),
    decreases to_id.len(),
{
    if to_id.len() > 0 {
        let rest = to_id.drop_last();
        assert forall|i: int| 0 <= i < rest.len() implies (#[trigger] rest[i]) is None by {
            assert(rest[i] == to_id[i]);
        }
        lemma_all_unassigned(rest);
        assert(to_id.last() == to_id[to_id.len() - 1]);
    }
}

} // verus!
