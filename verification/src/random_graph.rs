//! Drawing a room graph at random.

use vstd::prelude::*;
use vstd::seq_lib::to_multiset_build;
use crate::graph::Graph;
use crate::pairing::{balanced, door_count, hit};
use crate::problem::{DEGREE, LABELS};
use crate::rng::{os_rng, random_below, seeded_rng, shuffle};
use crate::table::{copy_row, row_ok, table};

verus! {

/// Rooms drawn in vain for the doors of one room before its doors are joined
/// to the first room that has doors left.
pub const RANDOM_TRIES: usize = 10000;

/// The number of doors that every room has so far.
pub open spec fn lens_of(edges: Seq<Vec<usize>>) -> Seq<int> {
    Seq::new(edges.len(), |u: int| edges[u]@.len() as int)
}

/// The sum of the first `k` numbers.
pub open spec fn held(lens: Seq<int>, k: int) -> int
    decreases k,
{
    if k <= 0 {
        0
    } else {
        held(lens, k - 1) + lens[k - 1]
    }
}

/// Changing one number changes the sum by as much.
pub proof fn lemma_held_update(lens: Seq<int>, a: int, v: int, k: int)
    requires
        0 <= a < lens.len(),
        0 <= k <= lens.len(),
    ensures
        held(lens.update(a, v), k) == held(lens, k) + if a < k {
            v - lens[a]
        } else {
            0
        },
    decreases k,
{
    if k > 0 {
        lemma_held_update(lens, a, v, k - 1);
    }
}

/// Where every room but room `i` has all its doors and room `i` lacks one,
/// the doors held are odd in number.
pub proof fn lemma_held_all_but_one(lens: Seq<int>, i: int, k: int)
    requires
        0 <= i < lens.len(),
        0 <= k <= lens.len(),
        lens[i] == DEGREE - 1,
        forall|u: int| 0 <= u < lens.len() && u != i ==> #[trigger] lens[u] == DEGREE,
    ensures
        held(lens, k) == DEGREE * k - if i < k {
            1int
        } else {
            0int
        },
    decreases k,
{
    if k > 0 {
        lemma_held_all_but_one(lens, i, k - 1);
    }
}

/// The labels `0, 1, 2, 3, 0, 1, ...` for `n` rooms.
pub open spec fn round_robin(n: nat) -> Seq<usize> {
    Seq::new(n, |i: int| (i % (LABELS as int)) as usize)
}

/// The labels are those of `round_robin` in some order: every label is on
/// as many rooms as any other, give or take one.
pub open spec fn balanced_labels(labels: Seq<usize>) -> bool {
    labels.to_multiset() == round_robin(labels.len()).to_multiset()
}

/// How often the room stands in the row.
pub open spec fn times(row: Seq<usize>, v: int) -> nat {
    row.to_multiset().count(v as usize)
}

/// In a row of six doors, the doors that lead to a room are as many as the
/// times the room stands in the row.
pub proof fn lemma_count_six(doors: Seq<Seq<usize>>, u: int, v: int)
    requires
        0 <= u < doors.len(),
        doors[u].len() == 6,
        0 <= v <= usize::MAX,
    ensures
        door_count(doors, u, v) == times(doors[u], v),
{
    broadcast use vstd::multiset::group_multiset_axioms;

    let row = doors[u];
    let s0 = Seq::<usize>::empty();
    let s1 = s0.push(row[0]);
    let s2 = s1.push(row[1]);
    let s3 = s2.push(row[2]);
    let s4 = s3.push(row[3]);
    let s5 = s4.push(row[4]);
    let s6 = s5.push(row[5]);
    assert(s6 =~= row);
    s0.to_multiset_ensures();
    assert(s0.to_multiset().len() == 0);
    assert(s0.to_multiset().count(v as usize) == 0) by {
        if s0.to_multiset().count(v as usize) > 0 {
            assert(s0.to_multiset().contains(v as usize));
            assert(s0.contains(v as usize));
        }
    }
    to_multiset_build(s0, row[0]);
    to_multiset_build(s1, row[1]);
    to_multiset_build(s2, row[2]);
    to_multiset_build(s3, row[3]);
    to_multiset_build(s4, row[4]);
    to_multiset_build(s5, row[5]);
    assert(hit(row, v, 0) + hit(row, v, 1) + hit(row, v, 2) + hit(row, v, 3) + hit(row, v, 4)
        + hit(row, v, 5) == s6.to_multiset().count(v as usize));
}

/// No room stands in the empty row.
proof fn lemma_times_none(v: int)
    ensures
        times(Seq::<usize>::empty(), v) == 0,
{
    broadcast use vstd::multiset::group_multiset_axioms;

    let s0 = Seq::<usize>::empty();
    s0.to_multiset_ensures();
    if s0.to_multiset().count(v as usize) > 0 {
        assert(s0.contains(v as usize));
    }
}

/// Between any two different rooms, one stands in the row of the other as
/// often as the other in its row.
spec fn mirrored(edges: Seq<Vec<usize>>) -> bool {
    forall|u: int, v: int|
        0 <= u < edges.len() && 0 <= v < edges.len() && u != v ==> #[trigger] times(
            edges[u]@,
            v,
        ) == times(edges[v]@, u)
}

/// No row is longer than a room has doors, and every entry is a room.
spec fn growing(edges: Seq<Vec<usize>>) -> bool {
    forall|u: int|
        0 <= u < edges.len() ==> (#[trigger] edges[u])@.len() <= DEGREE && forall|d: int|
            0 <= d < edges[u]@.len() ==> #[trigger] edges[u]@[d] < edges.len()
}

/// Rooms without doors hold no doors.
pub proof fn lemma_held_none(lens: Seq<int>, k: int)
    requires
        0 <= k <= lens.len(),
        forall|u: int| 0 <= u < lens.len() ==> #[trigger] lens[u] == 0,
    ensures
        held(lens, k) == 0,
    decreases k,
{
    if k > 0 {
        lemma_held_none(lens, k - 1);
    }
}

/// Adds an edge between rooms `i` and `j` if both have doors left for it:
/// one door each, or two doors of the one room when `i` is `j`.
fn try_connect(edges: &mut Vec<Vec<usize>>, i: usize, j: usize) -> (added: bool)
    requires
        i < old(edges)@.len(),
        j < old(edges)@.len(),
        growing(old(edges)@),
        mirrored(old(edges)@),
        old(edges)@[i as int]@.len() < DEGREE,
    ensures
        final(edges)@.len() == old(edges)@.len(),
        growing(final(edges)@),
        mirrored(final(edges)@),
        forall|u: int|
            0 <= u < old(edges)@.len() ==> (#[trigger] final(edges)@[u])@.len() >= old(
                edges,
            )@[u]@.len(),
        added ==> final(edges)@[i as int]@.len() > old(edges)@[i as int]@.len(),
        added == if i == j {
            old(edges)@[i as int]@.len() < DEGREE - 1
        } else {
            old(edges)@[j as int]@.len() < DEGREE
        },
        !added ==> final(edges)@ == old(edges)@,
        added && i != j ==> final(edges)@[i as int]@ == old(edges)@[i as int]@.push(j),
        added && i != j ==> final(edges)@[j as int]@ == old(edges)@[j as int]@.push(i),
        added && i == j ==> final(edges)@[i as int]@ == old(edges)@[i as int]@.push(i).push(i),
        forall|u: int|
            0 <= u < old(edges)@.len() && u != i && u != j ==> (#[trigger] final(edges)@[u])@
                == old(edges)@[u]@,
        held(lens_of(final(edges)@), old(edges)@.len() as int) == held(
            lens_of(old(edges)@),
            old(edges)@.len() as int,
        ) + if added {
            2int
        } else {
            0int
        },
{
    broadcast use vstd::multiset::group_multiset_axioms;

    let ghost before = edges@;
    let rooms = edges.len();
    let ok = (i != j && edges[j].len() < DEGREE) || (i == j && edges[j].len() < DEGREE - 1);
    if ok {
        proof {
            to_multiset_build(before[i as int]@, j);
            if i == j {
                to_multiset_build(before[i as int]@.push(j), i);
            } else {
                to_multiset_build(before[j as int]@, i);
            }
        }
        edges[i].push(j);
        edges[j].push(i);
        proof {
            assert forall|u: int| 0 <= u < edges@.len() implies (#[trigger] edges@[u])@.len()
                <= DEGREE && forall|d: int|
                0 <= d < edges@[u]@.len() ==> #[trigger] edges@[u]@[d] < edges@.len() by {
                assert(before[u]@.len() <= DEGREE);
                assert forall|d: int| 0 <= d < edges@[u]@.len() implies #[trigger] edges@[u]@[d]
                    < edges@.len() by {
                    if d < before[u]@.len() {
                        assert(edges@[u]@[d] == before[u]@[d]);
                    }
                }
            }
            assert forall|u: int, v: int|
                0 <= u < edges@.len() && 0 <= v < edges@.len() && u != v implies #[trigger] times(
                edges@[u]@,
                v,
            ) == times(edges@[v]@, u) by {
                assert(times(before[u]@, v) == times(before[v]@, u));
                assert(0 <= u < rooms && 0 <= v < rooms);
                if u != i && u != j {
                    assert(edges@[u] == before[u]);
                }
                if v != i && v != j {
                    assert(edges@[v] == before[v]);
                }
                if i == j {
                    assert(edges@[i as int]@ == before[i as int]@.push(j).push(i));
                } else {
                    assert(edges@[i as int]@ == before[i as int]@.push(j));
                    assert(edges@[j as int]@ == before[j as int]@.push(i));
                }
            }
            let lens = lens_of(before);
            if i == j {
                lemma_held_update(lens, i as int, lens[i as int] + 2, rooms as int);
                assert(lens_of(edges@) =~= lens.update(i as int, lens[i as int] + 2));
            } else {
                let mid = lens.update(i as int, lens[i as int] + 1);
                lemma_held_update(lens, i as int, lens[i as int] + 1, rooms as int);
                lemma_held_update(mid, j as int, mid[j as int] + 1, rooms as int);
                assert(lens_of(edges@) =~= mid.update(j as int, mid[j as int] + 1));
            }
        }
    }
    ok
}

/// The first room other than room `i` that has doors left.
fn find_partner(edges: &Vec<Vec<usize>>, i: usize) -> (found: Option<usize>)
    ensures
        match found {
            Some(j) => j < edges@.len() && j != i && edges@[j as int]@.len() < DEGREE
                && forall|u: int| 0 <= u < j && u != i ==> (#[trigger] edges@[u])@.len() >= DEGREE,
            None => forall|u: int|
                0 <= u < edges@.len() && u != i ==> (#[trigger] edges@[u])@.len() >= DEGREE,
        },
{
    let mut j: usize = 0;
    while j < edges.len()
        invariant
            j <= edges@.len(),
            forall|u: int| 0 <= u < j && u != i ==> (#[trigger] edges@[u])@.len() >= DEGREE,
        decreases edges@.len() - j,
    {
        if j != i && edges[j].len() < DEGREE {
            return Some(j);
        }
        j += 1;
    }
    None
}

/// Puts the doors of room `i` into a random order: the row holds the same
/// rooms as often as before, and no other row changes.
fn shuffle_row(edges: &mut Vec<Vec<usize>>, i: usize, rng: &mut rand_pcg::Pcg64Mcg)
    requires
        i < old(edges)@.len(),
        growing(old(edges)@),
        mirrored(old(edges)@),
    ensures
        final(edges)@.len() == old(edges)@.len(),
        final(edges)@[i as int]@.to_multiset() == old(edges)@[i as int]@.to_multiset(),
        forall|u: int|
            0 <= u < old(edges)@.len() && u != i ==> (#[trigger] final(edges)@[u])@
                == old(edges)@[u]@,
        growing(final(edges)@),
        mirrored(final(edges)@),
        forall|u: int|
            0 <= u < old(edges)@.len() ==> (#[trigger] final(edges)@[u])@.len() == old(
                edges,
            )@[u]@.len(),
{
    let ghost before = edges@;
    let rooms = edges.len();
    let mut row = copy_row(&edges[i]);
    shuffle(&mut row, rng);
    proof {
        before[i as int]@.to_multiset_ensures();
        row@.to_multiset_ensures();
        assert forall|d: int| 0 <= d < row@.len() implies #[trigger] row@[d] < before.len() by {
            assert(row@.contains(row@[d]));
            assert(row@.to_multiset().count(row@[d]) > 0);
            assert(before[i as int]@.contains(row@[d]));
        }
    }
    edges[i] = row;
    proof {
        assert forall|u: int| 0 <= u < edges@.len() implies (#[trigger] edges@[u])@.len()
            <= DEGREE && forall|d: int|
            0 <= d < edges@[u]@.len() ==> #[trigger] edges@[u]@[d] < edges@.len() by {
            assert(before[u]@.len() <= DEGREE);
            if u != i {
                assert(edges@[u] == before[u]);
            }
        }
        assert forall|u: int, v: int|
            0 <= u < edges@.len() && 0 <= v < edges@.len() && u != v implies #[trigger] times(
            edges@[u]@,
            v,
        ) == times(edges@[v]@, u) by {
            assert(times(before[u]@, v) == times(before[v]@, u));
            if u != i {
                assert(edges@[u] == before[u]);
            }
            if v != i {
                assert(edges@[v] == before[v]);
            }
        }
    }
}

impl Graph {
    /// Draws a graph of `n` rooms: labels as evenly spread as can be, in a
    /// random order; doors joined at random, two by two, until every room
    /// has all its doors; a random starting room.
    ///
    /// There is a graph for every `n` but zero. The generator is seeded by
    /// the system, or with a fixed seed where the system gives no
    /// randomness. A room whose partners were drawn in vain `RANDOM_TRIES`
    /// times has its doors joined to itself while two of them are left, and
    /// else to the first other room with a door left; there is such a room,
    /// because doors are taken two by two.
    pub fn random(n: usize, is_full: bool) -> (res: Option<Graph>)
        ensures
            res is Some <==> n > 0,
            res matches Some(g) ==> {
                &&& g.wf()
                &&& g.labels@.len() == n
                &&& g.is_full == is_full
                &&& balanced_labels(g.labels@)
                &&& balanced(g.doors())
            },
    {
        if n == 0 {
            return None;
        }
        let mut rng = match os_rng() {
            Some(rng) => rng,
            None => seeded_rng(0),
        };
        let mut labels: Vec<usize> = Vec::new();
        let mut k: usize = 0;
        while k < n
            invariant
                k <= n,
                labels@ == round_robin(k as nat),
            decreases n - k,
        {
            labels.push(k % LABELS);
            k += 1;
            proof {
                assert(labels@ =~= round_robin(k as nat));
            }
        }
        shuffle(&mut labels, &mut rng);
        proof {
            labels@.to_multiset_ensures();
            round_robin(n as nat).to_multiset_ensures();
            assert(labels@.len() == n);
            assert forall|i: int| 0 <= i < n implies #[trigger] labels@[i] < LABELS by {
                assert(labels@.contains(labels@[i]));
                assert(labels@.to_multiset().count(labels@[i]) > 0);
                assert(round_robin(n as nat).to_multiset().count(labels@[i]) > 0);
                assert(round_robin(n as nat).contains(labels@[i]));
                let q = choose|q: int|
                    0 <= q < round_robin(n as nat).len() && round_robin(n as nat)[q] == labels@[i];
                assert(round_robin(n as nat)[q] < LABELS);
            }
        }
        let mut edges: Vec<Vec<usize>> = Vec::new();
        let mut u: usize = 0;
        while u < n
            invariant
                u <= n,
                edges@.len() == u,
                forall|a: int| 0 <= a < u ==> (#[trigger] edges@[a])@.len() == 0,
            decreases n - u,
        {
            edges.push(Vec::new());
            u += 1;
        }
        proof {
            assert(growing(edges@));
            assert(mirrored(edges@)) by {
                assert forall|a: int, b: int|
                    0 <= a < edges@.len() && 0 <= b < edges@.len() && a != b implies #[trigger] times(
                    edges@[a]@,
                    b,
                ) == times(edges@[b]@, a) by {
                    assert(edges@[a]@ =~= Seq::<usize>::empty());
                    assert(edges@[b]@ =~= Seq::<usize>::empty());
                    assert(edges@[a]@ == edges@[b]@);
                    lemma_times_none(b);
                    lemma_times_none(a);
                }
            }
        }
        proof {
            lemma_held_none(lens_of(edges@), n as int);
        }
        let mut i: usize = 0;
        while i < n
            invariant
                i <= n,
                edges@.len() == n,
                growing(edges@),
                mirrored(edges@),
                held(lens_of(edges@), n as int) % 2 == 0,
                forall|a: int| 0 <= a < i ==> (#[trigger] edges@[a])@.len() == DEGREE,
            decreases n - i,
        {
            let mut tries: usize = RANDOM_TRIES;
            while edges[i].len() < DEGREE
                invariant
                    i < n,
                    edges@.len() == n,
                    growing(edges@),
                    mirrored(edges@),
                    held(lens_of(edges@), n as int) % 2 == 0,
                    forall|a: int| 0 <= a < i ==> (#[trigger] edges@[a])@.len() == DEGREE,
                decreases DEGREE - edges@[i as int]@.len(), tries,
            {
                let ghost before = edges@;
                let drawn = tries > 0;
                let j = if drawn {
                    tries -= 1;
                    random_below(&mut rng, n)
                } else if edges[i].len() < DEGREE - 1 {
                    i
                } else {
                    match find_partner(&edges, i) {
                        Some(j) => j,
                        None => {
                            proof {
                                let lens = lens_of(edges@);
                                assert forall|u: int|
                                    0 <= u < lens.len() && u != i implies #[trigger] lens[u]
                                    == DEGREE by {
                                    assert(edges@[u]@.len() >= DEGREE);
                                    assert(edges@[u]@.len() <= DEGREE);
                                }
                                lemma_held_all_but_one(lens, i as int, n as int);
                                assert(false);
                            }
                            i
                        },
                    }
                };
                let added = try_connect(&mut edges, i, j);
                proof {
                    assert(drawn || added);
                    assert forall|a: int| 0 <= a < i implies (#[trigger] edges@[a])@.len()
                        == DEGREE by {
                        assert(before[a]@.len() == DEGREE);
                    }
                }
            }
            let ghost before = edges@;
            shuffle_row(&mut edges, i, &mut rng);
            proof {
                assert(lens_of(edges@) =~= lens_of(before));
                assert forall|a: int| 0 <= a < i + 1 implies (#[trigger] edges@[a])@.len()
                    == DEGREE by {
                    assert(before[a]@.len() == DEGREE);
                }
            }
            i += 1;
        }
        let start = random_below(&mut rng, n);
        proof {
            let doors = table(edges@);
            assert forall|a: int| 0 <= a < doors.len() implies row_ok(
                #[trigger] doors[a],
                doors.len(),
            ) by {
                assert(edges@[a]@.len() == DEGREE);
            }
            assert forall|a: int, b: int|
                0 <= a < doors.len() && 0 <= b < doors.len() && a != b implies #[trigger] door_count(
                doors,
                a,
                b,
            ) == door_count(doors, b, a) by {
                assert(edges@[a]@.len() == DEGREE);
                assert(edges@[b]@.len() == DEGREE);
                lemma_count_six(doors, a, b);
                lemma_count_six(doors, b, a);
                assert(times(edges@[a]@, b) == times(edges@[b]@, a));
            }
        }
        Some(Graph::new(labels, edges, start, is_full))
    }
}

} // verus!
