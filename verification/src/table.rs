//! Door tables: for every room, the room behind each of its doors.

use vstd::prelude::*;
use crate::problem::DEGREE;

verus! {

/// The table held by a vector of rows, as a sequence of sequences.
pub open spec fn table(edges: Seq<Vec<usize>>) -> Seq<Seq<usize>> {
    Seq::new(edges.len(), |i: int| edges[i]@)
}

/// A row has one entry per door, each naming one of `n` rooms.
pub open spec fn row_ok(row: Seq<usize>, n: nat) -> bool {
    &&& row.len() == DEGREE
    &&& forall|d: int| 0 <= d < DEGREE ==> #[trigger] row[d] < n
}

/// Every room has a full row of doors and every door leads to a room of the
/// table.
pub open spec fn is_table(doors: Seq<Seq<usize>>) -> bool {
    forall|u: int| 0 <= u < doors.len() ==> row_ok(#[trigger] doors[u], doors.len())
}

/// Decides whether a row has one entry per door, each below `n`.
pub fn check_row(row: &Vec<usize>, n: usize) -> (ok: bool)
    ensures
        ok == row_ok(row@, n as nat),
{
    if row.len() != DEGREE {
        return false;
    }
    let mut d: usize = 0;
    while d < DEGREE
        invariant
            d <= DEGREE,
            row.len() == DEGREE,
            forall|k: int| 0 <= k < d ==> #[trigger] row@[k] < n,
        decreases DEGREE - d,
    {
        if row[d] >= n {
            return false;
        }
        d += 1;
    }
    true
}

/// Decides whether the rows form a door table.
pub fn check_table(edges: &Vec<Vec<usize>>) -> (ok: bool)
    ensures
        ok == is_table(table(edges@)),
{
    let n = edges.len();
    let mut u: usize = 0;
    while u < n
        invariant
            u <= n,
            n == edges.len(),
            forall|k: int| 0 <= k < u ==> row_ok(#[trigger] table(edges@)[k], n as nat),
        decreases n - u,
    {
        if !check_row(&edges[u], n) {
            proof {
                assert(table(edges@)[u as int] == edges@[u as int]@);
            }
            return false;
        }
        proof {
            assert(table(edges@)[u as int] == edges@[u as int]@);
        }
        u += 1;
    }
    true
}

/// A copy of a row.
pub fn copy_row(row: &Vec<usize>) -> (copy: Vec<usize>)
    ensures
        copy@ == row@,
{
    let copy = row.clone();
    proof {
        assert(copy@ =~= row@);
    }
    copy
}

/// A copy of the rows of a table.
pub fn copy_table(edges: &Vec<Vec<usize>>) -> (copy: Vec<Vec<usize>>)
    ensures
        table(copy@) == table(edges@),
{
    let mut copy: Vec<Vec<usize>> = Vec::new();
    let mut u: usize = 0;
    while u < edges.len()
        invariant
            u <= edges.len(),
            copy@.len() == u,
            forall|k: int| 0 <= k < u ==> (#[trigger] copy@[k])@ == edges@[k]@,
        decreases edges.len() - u,
    {
        copy.push(copy_row(&edges[u]));
        u += 1;
    }
    proof {
        assert(table(copy@) =~= table(edges@));
    }
    copy
}

} // verus!
