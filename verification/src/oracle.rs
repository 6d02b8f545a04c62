//! The oracle's side of a session: it holds the hidden graph, walks the
//! plans it is sent, counts the queries and judges guesses.

use vstd::prelude::*;
use crate::bisim::{accepts, indistinguishable, some_sample_agrees, some_sample_differs};
use crate::graph::Graph;
use crate::pairing::{create_graph_from_map, map_ok, GuessGraph};
use crate::plan::{edge_count, step_ok, WalkStep};
use crate::plan_text::{decode, decode_for, lemma_text_decode, parse_plan, PlanError};
use crate::problem::{is_size, resolve_problem, ProblemName, BASIC_PLAN_FACTOR, REWRITE_PLAN_FACTOR};

verus! {

/// Graphs drawn for one session before the oracle gives up on finding a
/// connected one.
pub const SELECT_TRIES: usize = 1000;

/// The answer to a batch of plans.
#[derive(Debug)]
pub struct ExploreResponse {
    /// The trace of every plan.
    pub results: Vec<Vec<usize>>,
    /// The queries of the session so far.
    pub query_count: usize,
}

/// Why a session cannot be opened.
#[derive(Debug, Clone, Copy, PartialEq, Eq, Structural)]
pub enum SelectError {
    /// The name is neither a problem's name nor a room count.
    InvalidName,
    /// No connected graph of the size was drawn.
    NoGraph,
}

/// The state of a session: the hidden graph and the number of queries made.
pub struct AppState {
    graph: Graph,
    query_count: usize,
}

/// Most doors that one plan may take on a graph of `n` rooms.
pub open spec fn plan_limit(n: nat, is_full: bool) -> nat {
    if is_full {
        n * REWRITE_PLAN_FACTOR as nat
    } else {
        n * BASIC_PLAN_FACTOR as nat
    }
}

/// The text is accepted as a plan within the limit by an oracle that does
/// or does not let labels be rewritten.
pub open spec fn accepted(text: Seq<u8>, limit: nat, rewriting: bool) -> bool {
    decode_for(text, rewriting) matches Some(plan) && edge_count(plan) <= limit
}

/// What sending the text as a plan fails with, if it fails: a text that
/// spells no plan for the oracle is invalid, and so is, for an oracle that
/// does not let labels be rewritten, a text with a bracketed label.
pub open spec fn rejection(text: Seq<u8>, limit: nat, rewriting: bool) -> Option<PlanError> {
    match decode_for(text, rewriting) {
        None => Some(PlanError::Invalid),
        Some(plan) => if edge_count(plan) > limit {
            Some(PlanError::TooLong)
        } else {
            None
        },
    }
}

/// The text of a valid plan that takes no more doors than the limit, and
/// that rewrites no label unless the oracle lets it, is accepted, and it is
/// accepted as that plan.
pub proof fn lemma_plan_accepted(plan: Seq<WalkStep>, limit: nat, rewriting: bool)
    requires
        crate::plan::plan_ok(plan),
        edge_count(plan) <= limit,
        rewriting || crate::plan::edge_only(plan),
    ensures
        accepted(crate::plan_text::plan_text(plan), limit, rewriting),
        rejection(crate::plan_text::plan_text(plan), limit, rewriting) is None,
        decode(crate::plan_text::plan_text(plan)) == Some(plan),
{
    crate::plan_text::lemma_decode_text(plan);
}

/// An oracle that does not let labels be rewritten takes the text of no
/// plan that rewrites one.
pub proof fn lemma_rewrite_refused(plan: Seq<WalkStep>, limit: nat)
    requires
        crate::plan::plan_ok(plan),
        !crate::plan::edge_only(plan),
    ensures
        rejection(crate::plan_text::plan_text(plan), limit, false) == Some(PlanError::Invalid),
{
    crate::plan_text::lemma_decode_text(plan);
}

impl AppState {
    #[verifier::type_invariant]
    spec fn inv(self) -> bool {
        self.graph.wf()
    }

    /// The hidden graph.
    pub closed spec fn hidden(self) -> Graph {
        self.graph
    }

    /// The queries made so far.
    pub closed spec fn queries(self) -> nat {
        self.query_count as nat
    }

    /// A session on the given graph, if it is well formed.
    pub fn new(graph: Graph) -> (state: Option<AppState>)
        ensures
            state is Some <==> graph.wf(),
            state matches Some(s) ==> s.hidden() == graph && s.queries() == 0,
    {
        if !graph.check() {
            return None;
        }
        Some(AppState { graph, query_count: 0 })
    }

    /// Most doors that one plan may take, as far as the machine counts.
    pub fn max_length(&self) -> (limit: usize)
        ensures
            limit == if plan_limit(self.hidden().labels@.len(), self.hidden().is_full)
                <= usize::MAX {
                plan_limit(self.hidden().labels@.len(), self.hidden().is_full)
            } else {
                usize::MAX as nat
            },
    {
        proof {
            use_type_invariant(self);
        }
        let n = self.graph.node_count();
        let factor = if self.graph.is_full {
            REWRITE_PLAN_FACTOR
        } else {
            BASIC_PLAN_FACTOR
        };
        if n <= usize::MAX / factor {
            proof {
                assert(n * factor <= usize::MAX) by (nonlinear_arith)
                    requires
                        n <= usize::MAX / factor,
                        factor > 0,
                ;
            }
            n * factor
        } else {
            proof {
                assert(n * factor > usize::MAX) by (nonlinear_arith)
                    requires
                        n > usize::MAX / factor,
                        factor > 0,
                ;
            }
            usize::MAX
        }
    }

    /// Answers a batch of plans given as text. Every plan is read and held
    /// to the limit before any is walked; the first text that is not
    /// accepted fails the batch, and the session is then as it was. A text
    /// with a bracketed label is accepted only where the hidden graph lets
    /// labels be rewritten.
    /// Otherwise every plan is walked from the starting room on the labels
    /// as the graph holds them, and the queries grow by the number of plans
    /// and one.
    pub fn explore(&mut self, plans: &Vec<Vec<u8>>) -> (res: Result<ExploreResponse, PlanError>)
        ensures
            final(self).hidden() == old(self).hidden(),
            match res {
                Ok(response) => {
                    let limit = plan_limit(
                        old(self).hidden().labels@.len(),
                        old(self).hidden().is_full,
                    );
                    &&& forall|i: int|
                        0 <= i < plans@.len() ==> accepted(
                            #[trigger] plans@[i]@,
                            limit,
                            old(self).hidden().is_full,
                        )
                    &&& response.results@.len() == plans@.len()
                    &&& forall|i: int|
                        0 <= i < plans@.len() ==> (#[trigger] response.results@[i])@ == old(
                            self,
                        ).hidden().trace(decode(plans@[i]@).unwrap())
                    &&& final(self).queries() == if old(self).queries() + plans@.len() + 1
                        <= usize::MAX {
                        old(self).queries() + plans@.len() + 1
                    } else {
                        usize::MAX as nat
                    }
                    &&& response.query_count == final(self).queries()
                },
                Err(e) => {
                    let limit = plan_limit(
                        old(self).hidden().labels@.len(),
                        old(self).hidden().is_full,
                    );
                    &&& final(self).queries() == old(self).queries()
                    &&& exists|i: int|
                        0 <= i < plans@.len() && #[trigger] rejection(
                            plans@[i]@,
                            limit,
                            old(self).hidden().is_full,
                        ) == Some(e) && forall|j: int|
                            0 <= j < i ==> accepted(
                                #[trigger] plans@[j]@,
                                limit,
                                old(self).hidden().is_full,
                            )
                },
            },
    {
        proof {
            use_type_invariant(&*self);
        }
        let max_length = self.max_length();
        let mut all_walk_steps: Vec<Vec<WalkStep>> = Vec::new();
        let mut i: usize = 0;
        while i < plans.len()
            invariant
                i <= plans@.len(),
                *self == *old(self),
                max_length <= plan_limit(
                    old(self).hidden().labels@.len(),
                    old(self).hidden().is_full,
                ),
                max_length < plan_limit(
                    old(self).hidden().labels@.len(),
                    old(self).hidden().is_full,
                ) ==> max_length == usize::MAX,
                all_walk_steps@.len() == i,
                forall|k: int|
                    0 <= k < i ==> accepted(
                        #[trigger] plans@[k]@,
                        plan_limit(old(self).hidden().labels@.len(), old(self).hidden().is_full),
                        old(self).hidden().is_full,
                    ),
                forall|k: int|
                    0 <= k < i ==> decode(plans@[k]@) == Some((#[trigger] all_walk_steps@[k])@),
            decreases plans@.len() - i,
        {
            let text_len = plans[i].len();
            match parse_plan(&plans[i], max_length, self.graph.is_full) {
                Ok(walk_steps) => {
                    all_walk_steps.push(walk_steps);
                },
                Err(e) => {
                    proof {
                        assert(plans@[i as int]@.len() == text_len);
                        assert(rejection(
                            plans@[i as int]@,
                            plan_limit(
                                old(self).hidden().labels@.len(),
                                old(self).hidden().is_full,
                            ),
                            old(self).hidden().is_full,
                        ) == Some(e));
                    }
                    return Err(e);
                },
            }
            i += 1;
        }
        proof {
            assert forall|k: int| 0 <= k < all_walk_steps@.len() implies crate::plan::doors_ok(
                #[trigger] all_walk_steps@[k]@,
            ) by {
                lemma_text_decode(plans@[k]@);
                let plan = all_walk_steps@[k]@;
                assert forall|q: int| 0 <= q < plan.len() implies match #[trigger] plan[q] {
                    WalkStep::Edge(d) => d < crate::problem::DEGREE,
                    WalkStep::Rewrite(_) => true,
                } by {
                    assert(step_ok(plan[q]));
                }
            }
        }
        let results = self.graph.walk_all(&all_walk_steps);
        let added = if plans.len() < usize::MAX {
            plans.len() + 1
        } else {
            usize::MAX
        };
        self.query_count = if self.query_count <= usize::MAX - added {
            self.query_count + added
        } else {
            usize::MAX
        };
        Ok(ExploreResponse { results, query_count: self.query_count })
    }

    /// Judges a guess. There is no judgement on a candidate that is no
    /// graph. A candidate of another size than the hidden graph is wrong;
    /// one of the same size is right when its starting room is bisimilar to
    /// that of the hidden graph. The candidate is taken as a graph without
    /// rewriting, so where the hidden graph allows rewriting the comparison
    /// is made on sampled plans: a candidate of the right size is wrong
    /// when a sampled plan shows different traces on the two graphs, and
    /// right when none does.
    pub fn guess(&self, map: &GuessGraph) -> (res: Option<bool>)
        ensures
            res is Some <==> map_ok(*map),
            res matches Some(correct) ==> {
                let candidate = candidate_of(*map);
                &&& correct ==> candidate.labels@.len() == self.hidden().labels@.len()
                &&& !self.hidden().is_full ==> correct == accepts(self.hidden(), candidate)
                &&& self.hidden().is_full && candidate.labels@.len()
                    == self.hidden().labels@.len() && indistinguishable(self.hidden(), candidate)
                    ==> correct
                &&& self.hidden().is_full && correct ==> some_sample_agrees(
                    self.hidden(),
                    candidate,
                )
                &&& self.hidden().is_full && !correct && candidate.labels@.len()
                    == self.hidden().labels@.len() ==> some_sample_differs(
                    self.hidden(),
                    candidate,
                )
            },
    {
        proof {
            use_type_invariant(self);
        }
        let guess_graph = match create_graph_from_map(map) {
            Some(graph) => graph,
            None => {
                return None;
            },
        };
        proof {
            lemma_candidate(*map, guess_graph);
            crate::bisim::lemma_same_graph(self.graph, guess_graph, candidate_of(*map));
            crate::bisim::lemma_same_samples(self.graph, guess_graph, candidate_of(*map));
        }
        Some(self.graph.bisimulation(&guess_graph))
    }
}

/// The graph that a valid candidate stands for.
pub open spec fn candidate_of(map: GuessGraph) -> Graph {
    choose|g: Graph| is_candidate(map, g)
}

/// The graph has the labels, the starting room and the doors of the
/// candidate.
pub open spec fn is_candidate(map: GuessGraph, g: Graph) -> bool {
    &&& g.wf()
    &&& g.labels@ == map.rooms@
    &&& g.start_node == map.starting_room
    &&& !g.is_full
    &&& g.doors().len() == map.rooms@.len()
    &&& forall|u: int, d: int|
        0 <= u < map.rooms@.len() && 0 <= d < crate::problem::DEGREE
            ==> crate::pairing::wired(map.connections@, map.rooms@.len() as int, u, d) == Some(
            #[trigger] g.doors()[u][d],
        )
}

proof fn lemma_candidate(map: GuessGraph, g: Graph)
    requires
        is_candidate(map, g),
    ensures
        candidate_of(map).labels@ == g.labels@,
        candidate_of(map).doors() == g.doors(),
        candidate_of(map).start_node == g.start_node,
        candidate_of(map).is_full == g.is_full,
        candidate_of(map).wf(),
{
    let c = candidate_of(map);
    assert(is_candidate(map, c));
    assert(c.doors() =~= g.doors()) by {
        assert forall|u: int| 0 <= u < c.doors().len() implies c.doors()[u] =~= g.doors()[u] by {
            assert(crate::table::row_ok(c.doors()[u], c.doors().len()));
            assert(crate::table::row_ok(g.doors()[u], g.doors().len()));
            assert forall|d: int| 0 <= d < c.doors()[u].len() implies c.doors()[u][d]
                == g.doors()[u][d] by {
                assert(crate::pairing::wired(
                    map.connections@,
                    map.rooms@.len() as int,
                    u,
                    d,
                ) == Some(c.doors()[u][d]));
                assert(crate::pairing::wired(
                    map.connections@,
                    map.rooms@.len() as int,
                    u,
                    d,
                ) == Some(g.doors()[u][d]));
            }
        }
    }
}

/// Opens a session for a problem given by name or by room count: draws
/// graphs of the problem's size until one is connected. A room count is any
/// number of rooms but zero: a text that names no problem and no such count
/// is no name of a problem.
pub fn select(problem_name: &str) -> (res: Result<AppState, SelectError>)
    ensures
        match res {
            Ok(state) => {
                &&& state.queries() == 0
                &&& state.hidden().wf()
                &&& state.hidden().all_reachable()
                &&& (exists|p: ProblemName|
                    ProblemName::names(problem_name@, p) && state.hidden().labels@.len()
                        == p.spec_nodes() && state.hidden().is_full == p.spec_rewriting()) || ((
                forall|p: ProblemName| !ProblemName::names(problem_name@, p)) && is_size(
                    problem_name@,
                ) && state.hidden().labels@.len() == crate::problem::decimal_value(
                    problem_name@,
                ) && state.hidden().is_full)
            },
            Err(SelectError::InvalidName) => (forall|p: ProblemName|
                !ProblemName::names(problem_name@, p)) && (!is_size(problem_name@)
                || crate::problem::decimal_value(problem_name@) == 0),
            Err(SelectError::NoGraph) => (exists|p: ProblemName|
                ProblemName::names(problem_name@, p)) || (is_size(problem_name@)
                && crate::problem::decimal_value(problem_name@) > 0),
        },
{
    let (n, is_full) = match resolve_problem(problem_name) {
        Some(found) => found,
        None => {
            return Err(SelectError::InvalidName);
        },
    };
    if n == 0 {
        proof {
            assert forall|p: ProblemName| #[trigger] p.spec_nodes() > 0 by {}
        }
        return Err(SelectError::InvalidName);
    }
    let mut tries: usize = 0;
    while tries < SELECT_TRIES
        invariant
            (exists|p: ProblemName|
                ProblemName::names(problem_name@, p) && n == p.spec_nodes() && is_full
                    == p.spec_rewriting()) || ((forall|p: ProblemName|
                !ProblemName::names(problem_name@, p)) && is_size(problem_name@) && n
                == crate::problem::decimal_value(problem_name@) && is_full),
        decreases SELECT_TRIES - tries,
    {
        if let Some(graph) = Graph::random(n, is_full) {
            if graph.connected() {
                match AppState::new(graph) {
                    Some(state) => {
                        return Ok(state);
                    },
                    None => {},
                }
            }
        }
        tries += 1;
    }
    Err(SelectError::NoGraph)
}

} // verus!
