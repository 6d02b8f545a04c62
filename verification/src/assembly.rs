//! Putting a graph together from a walk, its trace and the room of every
//! walk position, however the rooms were found.

use vstd::prelude::*;

use crate::csp::Solution;
use crate::plan::all_doors;
use crate::problem::{DEGREE, LABELS};
use crate::rewrite_identify::{lemma_walked_room, walked};
use crate::rng::{seeded_rng, shuffle};
use crate::table::{is_table, row_ok, table};

verus! {

/// Times that the plan takes every door, per room.
pub const ROUNDS: usize = 3;

/// Every door, `rounds` times over: `0, 1, ..., 5, 0, 1, ...`.
pub open spec fn all_doors_in_turn(rounds: nat) -> Seq<usize> {
    Seq::new(rounds * DEGREE as nat, |i: int| (i % (DEGREE as int)) as usize)
}

/// A plan that takes every door `3 n` times, in an order drawn from a
/// generator with the given seed.
pub fn shuffled_plan(n: usize, seed: u64) -> (plan: Vec<usize>)
    requires
        n * ROUNDS * DEGREE <= usize::MAX,
    ensures
        plan@.len() == n * ROUNDS * DEGREE,
        plan@.to_multiset() == all_doors_in_turn((n * ROUNDS) as nat).to_multiset(),
        all_doors(plan@),
{
    let mut rng = seeded_rng(seed);
    let mut plan: Vec<usize> = Vec::new();
    let mut round: usize = 0;
    proof {
        assert(n * ROUNDS <= n * ROUNDS * DEGREE) by (nonlinear_arith)
            requires
                n >= 0,
        ;
    }
    while round < ROUNDS * n
        invariant
            round <= ROUNDS * n,
            n * ROUNDS * DEGREE <= usize::MAX,
            plan@ == all_doors_in_turn(round as nat),
        decreases ROUNDS * n - round,
    {
        let mut e: usize = 0;
        proof {
            assert((round + 1) * DEGREE <= n * ROUNDS * DEGREE) by (nonlinear_arith)
                requires
                    round < ROUNDS * n,
            ;
        }
        while e < DEGREE
            invariant
                e <= DEGREE,
                (round + 1) * DEGREE <= usize::MAX,
                plan@.len() == round * DEGREE + e,
                forall|i: int| 0 <= i < plan@.len() ==> #[trigger] plan@[i] == i % (DEGREE as int),
            decreases DEGREE - e,
        {
            let ghost before = plan@;
            plan.push(e);
            proof {
                assert forall|i: int| 0 <= i < plan@.len() implies #[trigger] plan@[i] == i % (
                DEGREE as int) by {
                    if i < before.len() {
                        assert(plan@[i] == before[i]);
                    } else {
                        vstd::arithmetic::div_mod::lemma_fundamental_div_mod_converse(
                            i,
                            DEGREE as int,
                            round as int,
                            e as int,
                        );
                    }
                }
            }
            e += 1;
        }
        round += 1;
        proof {
            assert(round * DEGREE == (round - 1) * DEGREE + DEGREE) by (nonlinear_arith);
            assert(plan@ =~= all_doors_in_turn(round as nat));
        }
    }
    let ghost ordered = plan@;
    shuffle(&mut plan, &mut rng);
    proof {
        assert(n * ROUNDS == ROUNDS * n) by (nonlinear_arith);
        ordered.to_multiset_ensures();
        plan@.to_multiset_ensures();
        assert forall|i: int| 0 <= i < plan@.len() implies #[trigger] plan@[i] < DEGREE by {
            assert(plan@.contains(plan@[i]));
            assert(plan@.to_multiset().count(plan@[i]) > 0);
            assert(ordered.to_multiset().count(plan@[i]) > 0);
            assert(ordered.contains(plan@[i]));
            let q = choose|q: int| 0 <= q < ordered.len() && ordered[q] == plan@[i];
            assert(ordered[q] == q % (DEGREE as int));
        }
    }
    plan
}

/// The label that the trace shows at the last of the positions below `m`
/// that lie in room `r`.
pub open spec fn labelled(ixs: Seq<usize>, res: Seq<usize>, r: int, m: int) -> Option<usize>
    decreases m,
{
    if m <= 0 {
        None
    } else if ixs[m - 1] == r {
        Some(res[m - 1])
    } else {
        labelled(ixs, res, r, m - 1)
    }
}

/// A walk, its trace and the room of every walk position fit a graph of `n`
/// rooms.
pub open spec fn positions_ok(n: usize, plan: Seq<usize>, res: Seq<usize>, ixs: Seq<usize>) -> bool {
    &&& res.len() == plan.len() + 1
    &&& ixs.len() == res.len()
    &&& all_doors(plan)
    &&& forall|i: int| 0 <= i < res.len() ==> #[trigger] res[i] < LABELS
    &&& forall|i: int| 0 <= i < ixs.len() ==> #[trigger] ixs[i] < n
}

/// Every room bears a label and every door has a target.
pub open spec fn covers(n: usize, plan: Seq<usize>, res: Seq<usize>, ixs: Seq<usize>) -> bool {
    &&& forall|r: int| 0 <= r < n ==> (#[trigger] labelled(ixs, res, r, res.len() as int)) is Some
    &&& forall|r: int, d: int|
        0 <= r < n && 0 <= d < DEGREE ==> (#[trigger] walked(
            ixs,
            plan,
            r,
            d,
            plan.len() as int,
        )) is Some
}

/// Decides whether a walk, its trace and the rooms of the positions fit a
/// graph of `n` rooms.
pub fn check_positions(n: usize, plan: &Vec<usize>, res: &Vec<usize>, ixs: &Vec<usize>) -> (ok:
    bool)
    ensures
        ok == positions_ok(n, plan@, res@, ixs@),
{
    let total = res.len();
    if plan.len() == usize::MAX || total != plan.len() + 1 || ixs.len() != total {
        return false;
    }
    let mut i: usize = 0;
    while i < plan.len()
        invariant
            i <= plan@.len(),
            forall|k: int| 0 <= k < i ==> #[trigger] plan@[k] < DEGREE,
        decreases plan@.len() - i,
    {
        if plan[i] >= DEGREE {
            return false;
        }
        i += 1;
    }
    let mut j: usize = 0;
    while j < total
        invariant
            j <= total,
            total == res@.len(),
            total == ixs@.len(),
            forall|k: int| 0 <= k < j ==> #[trigger] res@[k] < LABELS,
            forall|k: int| 0 <= k < j ==> #[trigger] ixs@[k] < n,
        decreases total - j,
    {
        if res[j] >= LABELS || ixs[j] >= n {
            return false;
        }
        j += 1;
    }
    true
}

/// Puts the graph together: a room bears the label that the trace shows at
/// the last position that lies in it, a door leads where the walk last went
/// through it, and the graph starts in the room of the first position. There
/// is no graph when the parts do not fit, when a room is left without a
/// label, or when a door is left without a target.
pub fn assemble(n: usize, plan: &Vec<usize>, res: &Vec<usize>, ixs: &Vec<usize>) -> (out: Option<
    Solution,
>)
    ensures
        out is Some <==> positions_ok(n, plan@, res@, ixs@) && covers(n, plan@, res@, ixs@),
        out matches Some(solution) ==> {
            &&& solution.starting_room == ixs@[0]
            &&& solution.labels@.len() == n
            &&& is_table(table(solution.edges@))
            &&& table(solution.edges@).len() == n
            &&& forall|r: int|
                0 <= r < n ==> labelled(ixs@, res@, r, res@.len() as int) == Some(
                    #[trigger] solution.labels@[r],
                )
            &&& forall|r: int, d: int|
                0 <= r < n && 0 <= d < DEGREE ==> walked(ixs@, plan@, r, d, plan@.len() as int)
                    == Some(#[trigger] table(solution.edges@)[r][d])
        },
{
    if !check_positions(n, plan, res, ixs) {
        return None;
    }
    let k = plan.len();
    let total = res.len();
    let mut labels: Vec<Option<usize>> = vec![None; n];
    let mut edges: Vec<Vec<Option<usize>>> = vec![vec![None; DEGREE]; n];
    let mut i: usize = 0;
    while i <= k
        invariant
            i <= k + 1,
            k < usize::MAX,
            k == plan@.len(),
            positions_ok(n, plan@, res@, ixs@),
            labels@.len() == n,
            edges@.len() == n,
            forall|r: int| 0 <= r < n ==> (#[trigger] edges@[r])@.len() == DEGREE,
            forall|r: int| 0 <= r < n ==> #[trigger] labels@[r] == labelled(ixs@, res@, r, i as int),
            forall|r: int, d: int|
                0 <= r < n && 0 <= d < DEGREE ==> #[trigger] edges@[r]@[d] == walked(
                    ixs@,
                    plan@,
                    r,
                    d,
                    if i <= k {
                        i as int
                    } else {
                        k as int
                    },
                ),
        decreases k + 1 - i,
    {
        let r = ixs[i];
        let ghost names = labels@;
        let ghost doors = edges@;
        labels[r] = Some(res[i]);
        if i < k {
            edges[r][plan[i]] = Some(ixs[i + 1]);
        }
        proof {
            assert forall|q: int| 0 <= q < n implies #[trigger] labels@[q] == labelled(
                ixs@,
                res@,
                q,
                i as int + 1,
            ) by {
                if q != r {
                    assert(labels@[q] == names[q]);
                }
            }
            assert forall|q: int, d: int| 0 <= q < n && 0 <= d < DEGREE implies #[trigger] edges@[q]@[d]
                == walked(
                ixs@,
                plan@,
                q,
                d,
                if i + 1 <= k {
                    i as int + 1
                } else {
                    k as int
                },
            ) by {
                assert(doors[q]@[d] == walked(
                    ixs@,
                    plan@,
                    q,
                    d,
                    if i <= k {
                        i as int
                    } else {
                        k as int
                    },
                ));
                if q != r {
                    assert(edges@[q] == doors[q]);
                }
            }
        }
        i += 1;
    }
    let mut names: Vec<usize> = Vec::new();
    let mut rows: Vec<Vec<usize>> = Vec::new();
    let mut r: usize = 0;
    while r < n
        invariant
            r <= n,
            k == plan@.len(),
            positions_ok(n, plan@, res@, ixs@),
            labels@.len() == n,
            edges@.len() == n,
            forall|q: int| 0 <= q < n ==> (#[trigger] edges@[q])@.len() == DEGREE,
            forall|q: int|
                0 <= q < n ==> #[trigger] labels@[q] == labelled(
                    ixs@,
                    res@,
                    q,
                    res@.len() as int,
                ),
            forall|q: int, d: int|
                0 <= q < n && 0 <= d < DEGREE ==> #[trigger] edges@[q]@[d] == walked(
                    ixs@,
                    plan@,
                    q,
                    d,
                    k as int,
                ),
            names@.len() == r,
            rows@.len() == r,
            forall|q: int| 0 <= q < r ==> labels@[q] == Some(#[trigger] names@[q]),
            forall|q: int| 0 <= q < r ==> row_ok((#[trigger] rows@[q])@, n as nat),
            forall|q: int, d: int|
                0 <= q < r && 0 <= d < DEGREE ==> edges@[q]@[d] == Some(#[trigger] rows@[q]@[d]),
        decreases n - r,
    {
        match labels[r] {
            Some(l) => names.push(l),
            None => {
                proof {
                    assert(labelled(ixs@, res@, r as int, res@.len() as int) is None);
                }
                return None;
            },
        }
        let mut row: Vec<usize> = Vec::new();
        let mut d: usize = 0;
        while d < DEGREE
            invariant
                d <= DEGREE,
                r < n,
                k == plan@.len(),
                positions_ok(n, plan@, res@, ixs@),
                edges@.len() == n,
                edges@[r as int]@.len() == DEGREE,
                forall|e: int|
                    0 <= e < DEGREE ==> #[trigger] edges@[r as int]@[e] == walked(
                        ixs@,
                        plan@,
                        r as int,
                        e,
                        k as int,
                    ),
                row@.len() == d,
                forall|e: int| 0 <= e < d ==> #[trigger] row@[e] < n,
                forall|e: int| 0 <= e < d ==> edges@[r as int]@[e] == Some(#[trigger] row@[e]),
            decreases DEGREE - d,
        {
            match edges[r][d] {
                Some(t) => {
                    proof {
                        lemma_walked_room(ixs@, plan@, r as int, d as int, k as int, n);
                    }
                    row.push(t);
                },
                None => {
                    proof {
                        assert(walked(ixs@, plan@, r as int, d as int, plan@.len() as int) is None);
                    }
                    return None;
                },
            }
            d += 1;
        }
        rows.push(row);
        r += 1;
    }
    proof {
        assert forall|q: int| 0 <= q < table(rows@).len() implies row_ok(
            #[trigger] table(rows@)[q],
            table(rows@).len(),
        ) by {
            assert(row_ok(rows@[q]@, n as nat));
        }
        assert forall|q: int| 0 <= q < n implies (#[trigger] labelled(
            ixs@,
            res@,
            q,
            res@.len() as int,
        )) is Some by {
            assert(labels@[q] == Some(names@[q]));
        }
        assert forall|q: int, d: int| 0 <= q < n && 0 <= d < DEGREE implies (#[trigger] walked(
            ixs@,
            plan@,
            q,
            d,
            plan@.len() as int,
        )) is Some by {
            assert(edges@[q]@[d] == Some(rows@[q]@[d]));
        }
        assert forall|q: int| 0 <= q < n implies labelled(ixs@, res@, q, res@.len() as int)
            == Some(#[trigger] names@[q]) by {
            assert(labels@[q] == Some(names@[q]));
        }
        assert forall|q: int, d: int| 0 <= q < n && 0 <= d < DEGREE implies walked(
            ixs@,
            plan@,
            q,
            d,
            plan@.len() as int,
        ) == Some(#[trigger] table(rows@)[q][d]) by {
            assert(edges@[q]@[d] == Some(rows@[q]@[d]));
        }
    }
    Some(Solution { labels: names, edges: rows, starting_room: ixs[0] })
}


/// From the positions `i` and `j` on, for as long as the same doors are
/// walked from both, the trace shows the same labels at both.
pub open spec fn alike_from(plan: Seq<usize>, res: Seq<usize>, i: int, j: int) -> bool
    decreases plan.len() - j,
{
    j < 0 || j >= plan.len() || plan[i] != plan[j] || (res[i] == res[j] && alike_from(
        plan,
        res,
        i + 1,
        j + 1,
    ))
}

/// Whether the walk positions `i` and `j` may lie in one room, as far as the
/// walk from both tells.
pub open spec fn may_share(plan: Seq<usize>, res: Seq<usize>, i: int, j: int) -> bool {
    res[i] == res[j] && alike_from(plan, res, i, j)
}

/// Decides whether two walk positions may lie in one room.
pub fn may_share_room(plan: &Vec<usize>, res: &Vec<usize>, i: usize, j: usize) -> (same: bool)
    requires
        i <= j <= plan@.len(),
        res@.len() == plan@.len() + 1,
    ensures
        same == may_share(plan@, res@, i as int, j as int),
{
    if res[i] != res[j] {
        return false;
    }
    let k = plan.len();
    let mut d: usize = 0;
    while d < k - j
        invariant
            i <= j <= k,
            k == plan@.len(),
            res@.len() == k + 1,
            d <= k - j,
            res@[i as int] == res@[j as int],
            alike_from(plan@, res@, i as int, j as int) == alike_from(
                plan@,
                res@,
                i + d,
                j + d,
            ),
        decreases k - j - d,
    {
        if plan[i + d] != plan[j + d] {
            proof {
                assert(alike_from(plan@, res@, i + d, j + d));
            }
            return true;
        }
        if res[i + d] != res[j + d] {
            proof {
                assert(!alike_from(plan@, res@, i + d, j + d));
            }
            return false;
        }
        proof {
            assert(alike_from(plan@, res@, i + d, j + d) == alike_from(
                plan@,
                res@,
                i + d + 1,
                j + d + 1,
            ));
        }
        d += 1;
    }
    proof {
        assert(alike_from(plan@, res@, i + d, j + d));
    }
    true
}

} // verus!
