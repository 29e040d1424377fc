//! What a routing job ends with, and the check of a solution.

use vstd::prelude::*;
use crate::ordering::{among, contains_id};
use crate::pcb_problem::{trace_ids, traces_view, ConnectionID, FixedTrace};
use crate::search::AStarError;

verus! {

/// Why a routing job gave no solution.
#[derive(Debug, Clone, Copy, PartialEq, Eq, Structural)]
pub enum SolveError {
    /// The problem handed in is not well formed.
    InputMalformed,
    /// A search ran out of nodes.
    AStarNoPath,
    /// A search expanded more nodes than allowed.
    AStarBudgetExceeded,
    /// Every order of the connections was tried in vain.
    NoSolution,
    /// The caller asked the job to stop.
    Cancelled,
}

/// The traces fixed for the connections of a problem.
pub struct PcbSolution {
    pub determined_traces: Vec<FixedTrace>,
}

impl SolveError {
    /// The error of a job that a failed search ends.
    pub fn from_astar(e: AStarError) -> (r: SolveError)
        ensures
            r == match e {
                AStarError::Cancelled => SolveError::Cancelled,
                AStarError::BudgetExceeded => SolveError::AStarBudgetExceeded,
                AStarError::NoPath => SolveError::AStarNoPath,
            },
    {
        match e {
            AStarError::Cancelled => SolveError::Cancelled,
            AStarError::BudgetExceeded => SolveError::AStarBudgetExceeded,
            AStarError::NoPath => SolveError::AStarNoPath,
        }
    }

    /// Whether the solver may go on after the error: a search that
    /// finds no path is recovered from, a stop request never.
    pub fn is_recoverable(&self) -> (r: bool)
        ensures
            r == (*self == SolveError::AStarNoPath || *self == SolveError::AStarBudgetExceeded),
    {
        match self {
            SolveError::AStarNoPath | SolveError::AStarBudgetExceeded => true,
            _ => false,
        }
    }
}

/// Whether every one of `connections` has a trace among `traces`.
pub open spec fn solves(traces: Seq<FixedTrace>, connections: Seq<ConnectionID>) -> bool {
    forall|c: ConnectionID|
        among(connections, c) ==> among(trace_ids(traces_view(traces)), c)
}

/// Accepts the traces as a solution if every connection has one.
pub fn solve_pcb_problem(determined_traces: Vec<FixedTrace>, connections: &Vec<ConnectionID>) -> (r:
    Result<PcbSolution, SolveError>)
    ensures
        match r {
            Ok(solution) => solves(determined_traces@, connections@)
                && solution.determined_traces@ == determined_traces@,
            Err(e) => !solves(determined_traces@, connections@) && e == SolveError::NoSolution,
        },
{
    let mut ids: Vec<ConnectionID> = Vec::new();
    let mut k: usize = 0;
    while k < determined_traces.len()
        invariant
            k <= determined_traces@.len(),
            ids@.len() == k,
            forall|j: int| 0 <= j < k ==> ids@[j] == determined_traces@[j].connection_id,
        decreases determined_traces@.len() - k,
    {
        ids.push(determined_traces[k].connection_id);
        k = k + 1;
    }
    assert(ids@ =~= trace_ids(traces_view(determined_traces@)));
    let mut i: usize = 0;
    while i < connections.len()
        invariant
            i <= connections@.len(),
            ids@ == trace_ids(traces_view(determined_traces@)),
            forall|j: int| 0 <= j < i ==> among(ids@, #[trigger] connections@[j]),
        decreases connections@.len() - i,
    {
        if !contains_id(&ids, connections[i]) {
            assert(among(connections@, connections@[i as int]));
            return Err(SolveError::NoSolution);
        }
        i = i + 1;
    }
    proof {
        assert forall|c: ConnectionID| among(connections@, c) implies among(ids@, c) by {
            let j = choose|j: int| 0 <= j < connections@.len() && connections@[j] == c;
            assert(among(ids@, connections@[j]));
        }
    }
    Ok(PcbSolution { determined_traces })
}

} // verus!
