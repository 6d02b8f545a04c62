//! Why a solver gives up on a trial.

use vstd::prelude::*;

verus! {

/// Why a solver gives up on a trial. Every kind can be answered by a new
/// trial with a new seed.
#[derive(Debug, Clone, Copy)]
pub enum SolveError {
    /// What was handed in as the oracle's answer does not have the shape of
    /// an answer to the plans that were sent.
    BadResponse,
    /// The walk did not show as many different rooms as the graph has.
    WrongRoomCount,
    /// A probe ended in a room whose signature was not seen before.
    UnknownSignature,
    /// A door could only be resolved among rooms that the walk first
    /// reaches too late.
    CandidateTooLate,
    /// The search ran out of moves or of its budget.
    SearchFailed,
    /// A room of the result has no label.
    UnknownLabel,
    /// A door of the result leads nowhere.
    UnresolvedDoor,
    /// The oracle rejected the guess.
    GuessRejected,
}

} // verus!
