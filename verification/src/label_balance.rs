//! Why the digits of the numbering plans suffice for a graph with balanced
//! labels: no label is borne by more rooms than the digits can tell apart.

use vstd::prelude::*;
use vstd::seq_lib::to_multiset_build;
use vstd::set_lib::lemma_len_subset;
use crate::first_visits::{lemma_rooms, seen_before};
use crate::graph::Graph;
use crate::plan::all_doors;
use crate::problem::LABELS;
use crate::random_graph::{balanced_labels, round_robin};
use crate::rewrite_identify::label_share;
use crate::room_numbers::{numbers_fit, reached_with};
use crate::soundness::room_at;

verus! {

/// Number of rooms below `k` that bear the label `l`.
pub open spec fn occurs(labels: Seq<usize>, l: usize, k: int) -> nat
    decreases k,
{
    if k <= 0 {
        0
    } else {
        occurs(labels, l, k - 1) + if labels[k - 1] == l {
            1nat
        } else {
            0nat
        }
    }
}

/// The rooms below `k` that bear the label `l`.
pub open spec fn bearers(labels: Seq<usize>, l: usize, k: int) -> Set<int> {
    Set::new(|x: int| 0 <= x < k && labels[x] == l)
}

/// The rooms with the label `l` in which the walk stands at a position
/// below `m`.
pub open spec fn reached_rooms(g: Graph, walk: Seq<usize>, l: usize, m: int) -> Set<int> {
    Set::new(
        |x: int|
            0 <= x < g.labels@.len() && g.labels@[x] == l && exists|i: int|
                0 <= i < m && #[trigger] room_at(g, walk, i) == x,
    )
}

/// The rooms below `k` that bear a label are as many as the label occurs.
pub proof fn lemma_bearers(labels: Seq<usize>, l: usize, k: int)
    requires
        0 <= k <= labels.len(),
    ensures
        bearers(labels, l, k).finite(),
        bearers(labels, l, k).len() == occurs(labels, l, k),
    decreases k,
{
    if k == 0 {
        assert(bearers(labels, l, k) =~= Set::<int>::empty());
    } else {
        lemma_bearers(labels, l, k - 1);
        let before = bearers(labels, l, k - 1);
        if labels[k - 1] == l {
            assert(bearers(labels, l, k) =~= before.insert(k - 1));
        } else {
            assert(bearers(labels, l, k) =~= before);
        }
    }
}

/// A label occurs among the first `k` labels as often as the multiset of
/// those labels holds it.
pub proof fn lemma_occurs(labels: Seq<usize>, l: usize, k: int)
    requires
        0 <= k <= labels.len(),
    ensures
        occurs(labels, l, k) == labels.take(k).to_multiset().count(l),
    decreases k,
{
    if k == 0 {
        assert(labels.take(0) =~= Seq::<usize>::empty());
        assert(labels.take(0).to_multiset() =~= vstd::multiset::Multiset::<usize>::empty()) by {
            labels.take(0).to_multiset_ensures();
        }
    } else {
        lemma_occurs(labels, l, k - 1);
        assert(labels.take(k) =~= labels.take(k - 1).push(labels[k - 1]));
        to_multiset_build(labels.take(k - 1), labels[k - 1]);
    }
}

/// Among the labels `0, 1, 2, 3, 0, 1, ...` of `k` rooms a label occurs no
/// more often than a graph of `k` rooms with balanced labels has rooms of
/// one label.
pub proof fn lemma_round_robin(n: nat, l: usize, k: int)
    requires
        0 <= k <= n,
        l < LABELS,
    ensures
        occurs(round_robin(n), l, k) == (k + 3 - l) / 4,
    decreases k,
{
    if k > 0 {
        lemma_round_robin(n, l, k - 1);
    }
}

/// The rooms with a label that the walk reaches at its positions below `m`
/// are as many as the first visits to rooms with that label.
pub proof fn lemma_reached_rooms(g: Graph, walk: Seq<usize>, l: usize, m: int)
    requires
        g.wf(),
        all_doors(walk),
        0 <= m <= walk.len() + 1,
    ensures
        reached_rooms(g, walk, l, m).finite(),
        reached_rooms(g, walk, l, m).len() == reached_with(g, walk, l, m),
        reached_rooms(g, walk, l, m).subset_of(bearers(g.labels@, l, g.labels@.len() as int)),
    decreases m,
{
    if m == 0 {
        assert(reached_rooms(g, walk, l, m) =~= Set::<int>::empty());
    } else {
        lemma_reached_rooms(g, walk, l, m - 1);
        lemma_rooms(g, walk, m - 1);
        let before = reached_rooms(g, walk, l, m - 1);
        let after = reached_rooms(g, walk, l, m);
        let x = room_at(g, walk, m - 1);
        if !seen_before(g, walk, m - 1) && g.labels@[x] == l {
            assert(!before.contains(x));
            assert forall|y: int| after.contains(y) == before.insert(x).contains(y) by {
                if after.contains(y) && y != x {
                    let i = choose|i: int| 0 <= i < m && #[trigger] room_at(g, walk, i) == y;
                    assert(i < m - 1);
                }
                if before.contains(y) {
                    let i = choose|i: int| 0 <= i < m - 1 && #[trigger] room_at(g, walk, i) == y;
                    assert(0 <= i < m);
                }
            }
            assert(after =~= before.insert(x));
        } else {
            assert forall|y: int| after.contains(y) == before.contains(y) by {
                if after.contains(y) {
                    let i = choose|i: int| 0 <= i < m && #[trigger] room_at(g, walk, i) == y;
                    if i == m - 1 {
                        assert(seen_before(g, walk, m - 1));
                        let j = choose|j: int|
                            0 <= j < m - 1 && #[trigger] room_at(g, walk, j) == room_at(
                                g,
                                walk,
                                m - 1,
                            );
                        assert(room_at(g, walk, j) == y);
                    }
                }
                if before.contains(y) {
                    let i = choose|i: int| 0 <= i < m - 1 && #[trigger] room_at(g, walk, i) == y;
                    assert(0 <= i < m);
                }
            }
            assert(after =~= before);
        }
    }
}

/// In a graph with balanced labels the digits of the numbering plans
/// suffice, whatever the walk: no label is borne by more of the rooms than
/// a graph of as many rooms with balanced labels has rooms of one label.
pub proof fn lemma_balanced_fits(g: Graph, walk: Seq<usize>)
    requires
        g.wf(),
        all_doors(walk),
        balanced_labels(g.labels@),
    ensures
        numbers_fit(g, walk, g.labels@.len()),
{
    let n = g.labels@.len();
    assert forall|l: usize| l < LABELS implies #[trigger] reached_with(
        g,
        walk,
        l,
        walk.len() as int + 1,
    ) <= label_share(n as int) by {
        let m = walk.len() as int + 1;
        lemma_reached_rooms(g, walk, l, m);
        lemma_bearers(g.labels@, l, n as int);
        lemma_len_subset(reached_rooms(g, walk, l, m), bearers(g.labels@, l, n as int));
        lemma_occurs(g.labels@, l, n as int);
        lemma_occurs(round_robin(n), l, n as int);
        lemma_round_robin(n, l, n as int);
        assert(g.labels@.take(n as int) =~= g.labels@);
        assert(round_robin(n).take(n as int) =~= round_robin(n));
    }
}

} // verus!
