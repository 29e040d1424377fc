//! Candidate traces of the connections that are not yet fixed, and which
//! of them collide.

use vstd::prelude::*;
use crate::oracle::overlap_oracle;
use crate::ordering::among;
use crate::pcb_problem::{
    duplicate_traces, traces_view, ConnectionID, FixedTrace, FixedTraceView, NetName,
    ProbaTraceID,
};
use crate::trace_path::{paths_collide, PathView, TracePath, TraceSegment};

verus! {

/// A candidate trace of a connection. Prior and posteriors are held as
/// whole numbers that are ordered as the probabilities they stand for.
#[derive(Debug, Clone)]
pub struct ProbaTrace {
    pub net_name: NetName,
    pub connection_id: ConnectionID,
    pub proba_trace_id: ProbaTraceID,
    pub trace_path: TracePath,
    /// The sample iteration that produced the candidate, counted from 1.
    pub iteration: usize,
    pub prior: u64,
    /// The posterior of the last finished round of updates.
    pub posterior: Option<u64>,
    /// The posterior of the round of updates under way.
    pub temp_posterior: Option<u64>,
}

/// What a candidate holds, as plain values.
pub struct CandidateView {
    pub net_name: Seq<char>,
    pub connection_id: ConnectionID,
    pub proba_trace_id: ProbaTraceID,
    pub trace_path: PathView,
    pub iteration: usize,
    pub prior: u64,
    pub posterior: Option<u64>,
    pub temp_posterior: Option<u64>,
}

impl View for ProbaTrace {
    type V = CandidateView;

    open spec fn view(&self) -> CandidateView {
        CandidateView {
            net_name: self.net_name@,
            connection_id: self.connection_id,
            proba_trace_id: self.proba_trace_id,
            trace_path: self.trace_path@,
            iteration: self.iteration,
            prior: self.prior,
            posterior: self.posterior,
            temp_posterior: self.temp_posterior,
        }
    }
}

/// The plain values of a list of candidates.
pub open spec fn candidates_view(v: Seq<ProbaTrace>) -> Seq<CandidateView> {
    Seq::new(v.len(), |i: int| v[i]@)
}

/// The value by which a candidate is ranked: its posterior, or its prior
/// as long as it has none.
pub open spec fn rank(c: CandidateView) -> u64 {
    match c.posterior {
        Some(p) => p,
        None => c.prior,
    }
}

/// The fixed trace that a candidate becomes.
pub open spec fn as_fixed(c: CandidateView) -> FixedTraceView {
    FixedTraceView {
        net_name: c.net_name,
        connection_id: c.connection_id,
        trace_path: c.trace_path,
    }
}

impl ProbaTrace {
    /// The posterior of the candidate, or its prior as long as it has
    /// none.
    pub fn get_posterior_with_fallback(&self) -> (r: u64)
        ensures
            r == rank(self@),
    {
        match self.posterior {
            Some(p) => p,
            None => self.prior,
        }
    }

    /// A copy of the candidate.
    pub fn duplicate(&self) -> (r: ProbaTrace)
        ensures
            r@ == self@,
    {
        ProbaTrace {
            net_name: NetName(self.net_name.0.clone()),
            connection_id: self.connection_id,
            proba_trace_id: self.proba_trace_id,
            trace_path: self.trace_path.duplicate(),
            iteration: self.iteration,
            prior: self.prior,
            posterior: self.posterior,
            temp_posterior: self.temp_posterior,
        }
    }

    /// The candidate as a fixed trace.
    pub fn to_fixed_trace(&self) -> (r: FixedTrace)
        ensures
            r@ == as_fixed(self@),
    {
        FixedTrace {
            net_name: NetName(self.net_name.0.clone()),
            connection_id: self.connection_id,
            trace_path: self.trace_path.duplicate(),
        }
    }
}

/// A copy of a list of candidates.
pub fn duplicate_candidates(v: &Vec<ProbaTrace>) -> (r: Vec<ProbaTrace>)
    ensures
        candidates_view(r@) == candidates_view(v@),
{
    let mut r: Vec<ProbaTrace> = Vec::new();
    let mut k: usize = 0;
    while k < v.len()
        invariant
            k <= v@.len(),
            r@.len() == k,
            forall|j: int| 0 <= j < k ==> (#[trigger] r@[j])@ == v@[j]@,
        decreases v@.len() - k,
    {
        r.push(v[k].duplicate());
        k = k + 1;
    }
    assert(candidates_view(r@) =~= candidates_view(v@));
    r
}

/// The candidates of the connections that are not fixed, the fixed traces
/// of the others, and the pairs of candidates that collide.
pub struct ProbaModel {
    /// Every connection of the problem.
    pub connections: Vec<ConnectionID>,
    pub fixed_traces: Vec<FixedTrace>,
    /// The connections of the fixed traces in the order of fixing.
    pub fix_sequence: Vec<ConnectionID>,
    pub candidates: Vec<ProbaTrace>,
    /// Pairs of places in `candidates` of candidates of different nets
    /// that collide, the lower place first.
    pub collision_adjacency: Vec<(usize, usize)>,
    /// The sample iteration to run next, counted from 1.
    pub next_iteration: usize,
    /// The identifier that the next candidate gets.
    pub next_trace_id: usize,
}

/// Whether two candidates belong to different nets and their paths
/// collide.
pub open spec fn in_conflict<H: Fn(&TraceSegment, &TraceSegment) -> bool>(
    h: &H,
    a: CandidateView,
    b: CandidateView,
) -> bool {
    a.net_name != b.net_name && paths_collide(h, a.trace_path.segments, b.trace_path.segments)
}

/// The pairs `(i, j)` with `i < j` of candidates in conflict, for `i`
/// below `rows` and, in row `rows`, `j` below `cols`; in the order of the
/// rows and, within a row, of the columns.
pub open spec fn conflicts<H: Fn(&TraceSegment, &TraceSegment) -> bool>(
    h: &H,
    c: Seq<CandidateView>,
    rows: nat,
    cols: nat,
) -> Seq<(usize, usize)>
    decreases rows, cols,
{
    if cols > 0 {
        let before = conflicts(h, c, rows, (cols - 1) as nat);
        if rows < cols - 1 && in_conflict(h, c[rows as int], c[cols - 1]) {
            before.push((rows as usize, (cols - 1) as usize))
        } else {
            before
        }
    } else if rows > 0 {
        conflicts(h, c, (rows - 1) as nat, c.len())
    } else {
        Seq::empty()
    }
}

/// How many candidates a connection may get in a sample iteration: one in
/// the first, `second_iteration_num_traces` in the second, none later.
pub open spec fn quota_of(iteration: usize, second_iteration_num_traces: usize) -> usize {
    if iteration == 1 {
        1
    } else if iteration == 2 {
        second_iteration_num_traces
    } else {
        0
    }
}

/// Whether some fixed trace belongs to connection `c`.
pub open spec fn fixes(fixed: Seq<FixedTraceView>, c: ConnectionID) -> bool {
    exists|i: int| 0 <= i < fixed.len() && (#[trigger] fixed[i]).connection_id == c
}

impl ProbaModel {
    /// A model without candidates for the given connections, of which
    /// those of `fixed_traces` are fixed.
    pub fn new(
        connections: Vec<ConnectionID>,
        fixed_traces: &Vec<FixedTrace>,
        fix_sequence: Vec<ConnectionID>,
    ) -> (r: ProbaModel)
        ensures
            r.connections@ == connections@,
            traces_view(r.fixed_traces@) == traces_view(fixed_traces@),
            r.fix_sequence@ == fix_sequence@,
            r.candidates@.len() == 0,
            r.collision_adjacency@.len() == 0,
            r.next_iteration == 1,
            r.next_trace_id == 0,
    {
        ProbaModel {
            connections,
            fixed_traces: duplicate_traces(fixed_traces),
            fix_sequence,
            candidates: Vec::new(),
            collision_adjacency: Vec::new(),
            next_iteration: 1,
            next_trace_id: 0,
        }
    }

    /// How many candidates a connection may get in `iteration`.
    pub fn quota(iteration: usize, second_iteration_num_traces: usize) -> (r: usize)
        ensures
            r == quota_of(iteration, second_iteration_num_traces),
    {
        if iteration == 1 {
            1
        } else if iteration == 2 {
            second_iteration_num_traces
        } else {
            0
        }
    }

    /// Whether `connection` has a fixed trace.
    pub fn is_fixed(&self, connection: ConnectionID) -> (r: bool)
        ensures
            r == fixes(traces_view(self.fixed_traces@), connection),
    {
        let mut k: usize = 0;
        while k < self.fixed_traces.len()
            invariant
                k <= self.fixed_traces@.len(),
                forall|j: int|
                    0 <= j < k ==> (#[trigger] traces_view(self.fixed_traces@)[j]).connection_id
                        != connection,
            decreases self.fixed_traces@.len() - k,
        {
            if self.fixed_traces[k].connection_id == connection {
                assert(traces_view(self.fixed_traces@)[k as int].connection_id == connection);
                return true;
            }
            k = k + 1;
        }
        false
    }

    /// Adds a candidate for `connection_id`, found in the sample iteration
    /// under way, and returns the identifier it got.
    pub fn add_candidate(
        &mut self,
        net_name: NetName,
        connection_id: ConnectionID,
        trace_path: TracePath,
        prior: u64,
    ) -> (r: ProbaTraceID)
        requires
            old(self).next_trace_id < usize::MAX,
            !fixes(traces_view(old(self).fixed_traces@), connection_id),
        ensures
            r.0 == old(self).next_trace_id,
            final(self).next_trace_id == old(self).next_trace_id + 1,
            candidates_view(final(self).candidates@) == candidates_view(old(self).candidates@).push(
                CandidateView {
                    net_name: net_name@,
                    connection_id,
                    proba_trace_id: r,
                    trace_path: trace_path@,
                    iteration: old(self).next_iteration,
                    prior,
                    posterior: None,
                    temp_posterior: None,
                },
            ),
            final(self).connections == old(self).connections,
            final(self).fixed_traces == old(self).fixed_traces,
            final(self).fix_sequence == old(self).fix_sequence,
            final(self).collision_adjacency == old(self).collision_adjacency,
            final(self).next_iteration == old(self).next_iteration,
    {
        let id = ProbaTraceID(self.next_trace_id);
        let ghost before = candidates_view(self.candidates@);
        let candidate = ProbaTrace {
            net_name,
            connection_id,
            proba_trace_id: id,
            trace_path,
            iteration: self.next_iteration,
            prior,
            posterior: None,
            temp_posterior: None,
        };
        let ghost added = candidate@;
        self.candidates.push(candidate);
        self.next_trace_id = self.next_trace_id + 1;
        assert(candidates_view(self.candidates@) =~= before.push(added));
        id
    }

    /// How many candidates of `connection` the sample iteration
    /// `iteration` has produced.
    pub fn candidate_count(&self, connection: ConnectionID, iteration: usize) -> (r: usize)
        ensures
            r == count_of(candidates_view(self.candidates@), connection, iteration, self.candidates@.len()),
    {
        let mut n: usize = 0;
        let mut k: usize = 0;
        while k < self.candidates.len()
            invariant
                k <= self.candidates@.len(),
                n <= k,
                n == count_of(candidates_view(self.candidates@), connection, iteration, k as nat),
            decreases self.candidates@.len() - k,
        {
            assert(candidates_view(self.candidates@)[k as int] == self.candidates@[k as int]@);
            if self.candidates[k].connection_id == connection && self.candidates[k].iteration
                == iteration {
                n = n + 1;
            }
            k = k + 1;
        }
        n
    }

    /// Ends the sample iteration under way.
    pub fn finish_iteration(&mut self)
        requires
            old(self).next_iteration < usize::MAX,
        ensures
            final(self).next_iteration == old(self).next_iteration + 1,
            final(self).connections == old(self).connections,
            final(self).fixed_traces == old(self).fixed_traces,
            final(self).fix_sequence == old(self).fix_sequence,
            final(self).candidates == old(self).candidates,
            final(self).collision_adjacency == old(self).collision_adjacency,
            final(self).next_trace_id == old(self).next_trace_id,
    {
        self.next_iteration = self.next_iteration + 1;
    }
}

/// How many of the first `k` candidates belong to `connection` and were
/// produced by `iteration`.
pub open spec fn count_of(
    c: Seq<CandidateView>,
    connection: ConnectionID,
    iteration: usize,
    k: nat,
) -> nat
    decreases k,
{
    if k == 0 {
        0
    } else {
        count_of(c, connection, iteration, (k - 1) as nat) + if c[k - 1].connection_id
            == connection && c[k - 1].iteration == iteration {
            1nat
        } else {
            0nat
        }
    }
}


/// All pairs of candidates in conflict, the lower place first.
pub open spec fn all_conflicts<H: Fn(&TraceSegment, &TraceSegment) -> bool>(
    h: &H,
    c: Seq<CandidateView>,
) -> Seq<(usize, usize)> {
    conflicts(h, c, c.len(), 0)
}

/// The candidate `c` with the posterior of the round under way set to
/// `value`.
pub open spec fn with_temp(c: CandidateView, value: u64) -> CandidateView {
    CandidateView {
        net_name: c.net_name,
        connection_id: c.connection_id,
        proba_trace_id: c.proba_trace_id,
        trace_path: c.trace_path,
        iteration: c.iteration,
        prior: c.prior,
        posterior: c.posterior,
        temp_posterior: Some(value),
    }
}

/// The candidate `c` after the round under way has finished: its
/// posterior is the one of that round.
pub open spec fn committed(c: CandidateView) -> CandidateView {
    CandidateView {
        net_name: c.net_name,
        connection_id: c.connection_id,
        proba_trace_id: c.proba_trace_id,
        trace_path: c.trace_path,
        iteration: c.iteration,
        prior: c.prior,
        posterior: c.temp_posterior,
        temp_posterior: None,
    }
}

fn exec_in_conflict<H: Fn(&TraceSegment, &TraceSegment) -> bool>(
    h: &H,
    a: &ProbaTrace,
    b: &ProbaTrace,
) -> (r: bool)
    requires
        overlap_oracle(h),
    ensures
        r == in_conflict(h, a@, b@),
{
    !a.net_name.same_as(&b.net_name) && a.trace_path.collides_with(&b.trace_path, h)
}

impl ProbaModel {
    /// Finds anew the pairs of candidates of different nets that collide.
    pub fn update_collision_adjacency<H: Fn(&TraceSegment, &TraceSegment) -> bool>(
        &mut self,
        overlap: &H,
    )
        requires
            overlap_oracle(overlap),
        ensures
            final(self).collision_adjacency@ == all_conflicts(
                overlap,
                candidates_view(old(self).candidates@),
            ),
            final(self).connections == old(self).connections,
            final(self).fixed_traces == old(self).fixed_traces,
            final(self).fix_sequence == old(self).fix_sequence,
            final(self).candidates == old(self).candidates,
            final(self).next_iteration == old(self).next_iteration,
            final(self).next_trace_id == old(self).next_trace_id,
    {
        let n = self.candidates.len();
        let ghost c = candidates_view(self.candidates@);
        let mut pairs: Vec<(usize, usize)> = Vec::new();
        let mut i: usize = 0;
        while i < n
            invariant
                overlap_oracle(overlap),
                n == self.candidates@.len(),
                c == candidates_view(self.candidates@),
                i <= n,
                pairs@ == conflicts(overlap, c, i as nat, 0),
            decreases n - i,
        {
            let mut j: usize = 0;
            while j < n
                invariant
                    overlap_oracle(overlap),
                    n == self.candidates@.len(),
                    c == candidates_view(self.candidates@),
                    i < n,
                    j <= n,
                    pairs@ == conflicts(overlap, c, i as nat, j as nat),
                decreases n - j,
            {
                assert(c[i as int] == self.candidates@[i as int]@);
                assert(c[j as int] == self.candidates@[j as int]@);
                if i < j && exec_in_conflict(overlap, &self.candidates[i], &self.candidates[j]) {
                    pairs.push((i, j));
                }
                j = j + 1;
            }
            i = i + 1;
        }
        self.collision_adjacency = pairs;
    }

    /// The places of the candidates that collide with the candidate at
    /// place `index`, in the order of the pairs.
    pub fn neighbours(&self, index: usize) -> (r: Vec<usize>)
        ensures
            r@ == neighbours_of(self.collision_adjacency@, index, self.collision_adjacency@.len()),
    {
        let mut r: Vec<usize> = Vec::new();
        let mut k: usize = 0;
        while k < self.collision_adjacency.len()
            invariant
                k <= self.collision_adjacency@.len(),
                r@ == neighbours_of(self.collision_adjacency@, index, k as nat),
            decreases self.collision_adjacency@.len() - k,
        {
            let (a, b) = self.collision_adjacency[k];
            if a == index {
                r.push(b);
            } else if b == index {
                r.push(a);
            }
            k = k + 1;
        }
        r
    }

    /// Sets the posterior of the round under way for the candidate at
    /// place `index`. The posteriors of the last finished round stay as
    /// they are, so that the round does not depend on the order in which
    /// the candidates are updated.
    pub fn set_temp_posterior(&mut self, index: usize, value: u64)
        requires
            index < old(self).candidates@.len(),
        ensures
            candidates_view(final(self).candidates@) == candidates_view(
                old(self).candidates@,
            ).update(index as int, with_temp(old(self).candidates@[index as int]@, value)),
            final(self).connections == old(self).connections,
            final(self).fixed_traces == old(self).fixed_traces,
            final(self).fix_sequence == old(self).fix_sequence,
            final(self).collision_adjacency == old(self).collision_adjacency,
            final(self).next_iteration == old(self).next_iteration,
            final(self).next_trace_id == old(self).next_trace_id,
    {
        let ghost before = candidates_view(self.candidates@);
        let n = self.candidates.len();
        let mut fresh: Vec<ProbaTrace> = Vec::new();
        let mut k: usize = 0;
        while k < n
            invariant
                n == self.candidates@.len(),
                before == candidates_view(self.candidates@),
                index < n,
                k <= n,
                fresh@.len() == k,
                forall|j: int|
                    0 <= j < k ==> (#[trigger] fresh@[j])@ == if j == index {
                        with_temp(before[j], value)
                    } else {
                        before[j]
                    },
            decreases n - k,
        {
            let mut c = self.candidates[k].duplicate();
            assert(before[k as int] == self.candidates@[k as int]@);
            if k == index {
                c.temp_posterior = Some(value);
            }
            fresh.push(c);
            k = k + 1;
        }
        self.candidates = fresh;
        assert(candidates_view(self.candidates@) =~= before.update(
            index as int,
            with_temp(before[index as int], value),
        ));
    }

    /// Finishes a round of updates: the posterior of every candidate
    /// becomes the one set in the round.
    pub fn swap_posteriors(&mut self)
        requires
            forall|j: int|
                0 <= j < old(self).candidates@.len() ==> (#[trigger] old(
                    self,
                ).candidates@[j]).temp_posterior.is_some(),
        ensures
            final(self).candidates@.len() == old(self).candidates@.len(),
            forall|j: int|
                0 <= j < old(self).candidates@.len() ==> (#[trigger] final(self).candidates@[j])@
                    == committed(old(self).candidates@[j]@),
            final(self).connections == old(self).connections,
            final(self).fixed_traces == old(self).fixed_traces,
            final(self).fix_sequence == old(self).fix_sequence,
            final(self).collision_adjacency == old(self).collision_adjacency,
            final(self).next_iteration == old(self).next_iteration,
            final(self).next_trace_id == old(self).next_trace_id,
    {
        let n = self.candidates.len();
        let mut fresh: Vec<ProbaTrace> = Vec::new();
        let mut k: usize = 0;
        while k < n
            invariant
                n == self.candidates@.len(),
                self.candidates == old(self).candidates,
                k <= n,
                fresh@.len() == k,
                forall|j: int|
                    0 <= j < k ==> (#[trigger] fresh@[j])@ == committed(self.candidates@[j]@),
            decreases n - k,
        {
            let mut c = self.candidates[k].duplicate();
            c.posterior = c.temp_posterior;
            c.temp_posterior = None;
            fresh.push(c);
            k = k + 1;
        }
        self.candidates = fresh;
    }
}

/// Among the first `k` pairs, the partners of `index`.
pub open spec fn neighbours_of(pairs: Seq<(usize, usize)>, index: usize, k: nat) -> Seq<usize>
    decreases k,
{
    if k == 0 {
        Seq::empty()
    } else {
        let before = neighbours_of(pairs, index, (k - 1) as nat);
        let p = pairs[k - 1];
        if p.0 == index {
            before.push(p.1)
        } else if p.1 == index {
            before.push(p.0)
        } else {
            before
        }
    }
}

/// Whether the pair `(i, j)` with `i < j` is among the conflicts found in
/// the rows below `rows` and, in row `rows`, in the columns below `cols`.
proof fn lemma_conflicts_contain<H: Fn(&TraceSegment, &TraceSegment) -> bool>(
    h: &H,
    c: Seq<CandidateView>,
    rows: nat,
    cols: nat,
    i: int,
    j: int,
)
    requires
        rows <= c.len(),
        cols <= c.len(),
        rows < c.len() || cols == 0,
        0 <= i < j < c.len(),
        i < rows || (i == rows && j < cols),
        in_conflict(h, c[i], c[j]),
    ensures
        conflicts(h, c, rows, cols).contains((i as usize, j as usize)),
    decreases rows, cols,
{
    if cols > 0 {
        let before = conflicts(h, c, rows, (cols - 1) as nat);
        if i == rows && j == cols - 1 {
            assert(conflicts(h, c, rows, cols) == before.push((rows as usize, (cols - 1) as usize)));
            assert(before.push((i as usize, j as usize)).last() == (i as usize, j as usize));
        } else {
            lemma_conflicts_contain(h, c, rows, (cols - 1) as nat, i, j);
            let t = choose|t: int| 0 <= t < before.len() && before[t] == (i as usize, j as usize);
            assert(conflicts(h, c, rows, cols)[t] == (i as usize, j as usize));
        }
    } else {
        lemma_conflicts_contain(h, c, (rows - 1) as nat, c.len(), i, j);
    }
}

/// Every pair of candidates of different nets whose paths collide is
/// among the conflicts.
pub proof fn lemma_all_conflicts_complete<H: Fn(&TraceSegment, &TraceSegment) -> bool>(
    h: &H,
    c: Seq<CandidateView>,
    i: int,
    j: int,
)
    requires
        0 <= i < j < c.len(),
        c.len() <= usize::MAX,
        in_conflict(h, c[i], c[j]),
    ensures
        all_conflicts(h, c).contains((i as usize, j as usize)),
{
    lemma_conflicts_contain(h, c, c.len(), 0, i, j);
}

} // verus!
