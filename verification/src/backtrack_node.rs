//! A node of the search guided by the ranks of the candidates: the
//! traces fixed so far and the candidates of the other connections.

use vstd::prelude::*;
use crate::oracle::overlap_oracle;
use crate::ordering::among;
use crate::pcb_problem::{
    duplicate_ids, duplicate_traces, trace_ids, traces_view, ConnectionID, FixedTrace,
    FixedTraceView,
};
use crate::proba_model::{
    as_fixed, candidates_view, duplicate_candidates, rank, CandidateView, ProbaModel, ProbaTrace,
};
use crate::trace_path::{lemma_paths_collide_symmetric, paths_collide, TraceSegment};

verus! {

/// A node of the search.
pub struct BacktrackNode {
    /// Candidates of the connections that are not fixed.
    pub remaining_trace_candidates: Vec<ProbaTrace>,
    pub fixed_traces: Vec<FixedTrace>,
    /// The fixed connections in the order of fixing.
    pub fix_sequence: Vec<ConnectionID>,
    /// Whether the candidates were found with the traces of this node
    /// fixed.
    pub prob_up_to_date: bool,
}

/// What a node holds, as plain values.
pub struct BacktrackView {
    pub candidates: Seq<CandidateView>,
    pub fixed: Seq<FixedTraceView>,
    pub fix_sequence: Seq<ConnectionID>,
    pub up_to_date: bool,
}

impl View for BacktrackNode {
    type V = BacktrackView;

    open spec fn view(&self) -> BacktrackView {
        BacktrackView {
            candidates: candidates_view(self.remaining_trace_candidates@),
            fixed: traces_view(self.fixed_traces@),
            fix_sequence: self.fix_sequence@,
            up_to_date: self.prob_up_to_date,
        }
    }
}

/// The place of the first candidate of highest rank among the first `k`.
pub open spec fn best_of(c: Seq<CandidateView>, k: nat) -> int
    decreases k,
{
    if k <= 1 {
        0
    } else {
        let before = best_of(c, (k - 1) as nat);
        if rank(c[k - 1]) > rank(c[before]) {
            k - 1
        } else {
            before
        }
    }
}

/// Whether the candidate collides with a fixed trace of another net.
pub open spec fn hits_fixed<H: Fn(&TraceSegment, &TraceSegment) -> bool>(
    h: &H,
    c: CandidateView,
    fixed: Seq<FixedTraceView>,
) -> bool {
    exists|i: int|
        0 <= i < fixed.len() && #[trigger] hits_trace(h, c, fixed[i])
}

/// Whether the candidate and the fixed trace belong to different nets
/// and their paths collide.
pub open spec fn hits_trace<H: Fn(&TraceSegment, &TraceSegment) -> bool>(
    h: &H,
    c: CandidateView,
    t: FixedTraceView,
) -> bool {
    t.net_name != c.net_name && paths_collide(h, c.trace_path.segments, t.trace_path.segments)
}

/// The candidates that do not belong to `connection`, among the first
/// `k`, in order.
pub open spec fn without(c: Seq<CandidateView>, connection: ConnectionID, k: nat) -> Seq<
    CandidateView,
>
    decreases k,
{
    if k == 0 {
        Seq::empty()
    } else if c[k - 1].connection_id == connection {
        without(c, connection, (k - 1) as nat)
    } else {
        without(c, connection, (k - 1) as nat).push(c[k - 1])
    }
}

/// The node with the trace fixed: the trace joins the fixed ones, its
/// connection ends the order of fixing, the candidates of that
/// connection go, and the candidates left are no longer up to date.
pub open spec fn fixed_at(n: BacktrackView, t: FixedTraceView) -> BacktrackView {
    BacktrackView {
        candidates: without(n.candidates, t.connection_id, n.candidates.len()),
        fixed: n.fixed.push(t),
        fix_sequence: n.fix_sequence.push(t.connection_id),
        up_to_date: false,
    }
}

/// What trying the `k` best candidates in turn leads to: the first of
/// them that collides with no fixed trace of another net, if any, and
/// the candidates left once those tried are taken out.
pub open spec fn try_best<H: Fn(&TraceSegment, &TraceSegment) -> bool>(
    h: &H,
    c: Seq<CandidateView>,
    fixed: Seq<FixedTraceView>,
    k: nat,
) -> (Option<CandidateView>, Seq<CandidateView>)
    decreases k,
{
    if k == 0 || c.len() == 0 {
        (None, c)
    } else {
        let i = best_of(c, c.len());
        if hits_fixed(h, c[i], fixed) {
            try_best(h, c.remove(i), fixed, (k - 1) as nat)
        } else {
            (Some(c[i]), c.remove(i))
        }
    }
}

fn exec_best(c: &Vec<ProbaTrace>) -> (r: usize)
    requires
        c@.len() > 0,
    ensures
        r == best_of(candidates_view(c@), c@.len()),
        r < c@.len(),
{
    let mut best: usize = 0;
    let mut k: usize = 1;
    while k < c.len()
        invariant
            1 <= k <= c@.len(),
            best < k,
            best == best_of(candidates_view(c@), k as nat),
        decreases c@.len() - k,
    {
        assert(candidates_view(c@)[k as int] == c@[k as int]@);
        assert(candidates_view(c@)[best as int] == c@[best as int]@);
        if c[k].get_posterior_with_fallback() > c[best].get_posterior_with_fallback() {
            best = k;
        }
        k = k + 1;
    }
    best
}

fn exec_hits_fixed<H: Fn(&TraceSegment, &TraceSegment) -> bool>(
    h: &H,
    c: &ProbaTrace,
    fixed: &Vec<FixedTrace>,
) -> (r: bool)
    requires
        overlap_oracle(h),
    ensures
        r == hits_fixed(h, c@, traces_view(fixed@)),
{
    let mut k: usize = 0;
    while k < fixed.len()
        invariant
            overlap_oracle(h),
            k <= fixed@.len(),
            forall|i: int| 0 <= i < k ==> !#[trigger] hits_trace(h, c@, traces_view(fixed@)[i]),
        decreases fixed@.len() - k,
    {
        assert(traces_view(fixed@)[k as int] == fixed@[k as int]@);
        if !fixed[k].net_name.same_as(&c.net_name) && c.trace_path.collides_with(
            &fixed[k].trace_path,
            h,
        ) {
            assert(hits_trace(h, c@, traces_view(fixed@)[k as int]));
            return true;
        }
        k = k + 1;
    }
    false
}

fn exec_without(c: &Vec<ProbaTrace>, connection: ConnectionID) -> (r: Vec<ProbaTrace>)
    ensures
        candidates_view(r@) == without(candidates_view(c@), connection, c@.len()),
{
    let mut r: Vec<ProbaTrace> = Vec::new();
    let mut k: usize = 0;
    assert(candidates_view(r@) =~= without(candidates_view(c@), connection, 0));
    while k < c.len()
        invariant
            k <= c@.len(),
            candidates_view(r@) == without(candidates_view(c@), connection, k as nat),
        decreases c@.len() - k,
    {
        assert(candidates_view(c@)[k as int] == c@[k as int]@);
        if c[k].connection_id != connection {
            let ghost before = candidates_view(r@);
            let copy = c[k].duplicate();
            r.push(copy);
            assert(candidates_view(r@) =~= before.push(c@[k as int]@));
        }
        k = k + 1;
    }
    r
}

impl BacktrackNode {
    /// The node that a model stands for: its fixed traces, its
    /// candidates, and the order in which its traces were fixed.
    pub fn from_proba_model(proba_model: &ProbaModel) -> (r: BacktrackNode)
        ensures
            r@ == (BacktrackView {
                candidates: candidates_view(proba_model.candidates@),
                fixed: traces_view(proba_model.fixed_traces@),
                fix_sequence: proba_model.fix_sequence@,
                up_to_date: true,
            }),
    {
        BacktrackNode {
            remaining_trace_candidates: duplicate_candidates(&proba_model.candidates),
            fixed_traces: duplicate_traces(&proba_model.fixed_traces),
            fix_sequence: duplicate_ids(&proba_model.fix_sequence),
            prob_up_to_date: true,
        }
    }

    /// A copy of the node.
    pub fn duplicate(&self) -> (r: BacktrackNode)
        ensures
            r@ == self@,
    {
        BacktrackNode {
            remaining_trace_candidates: duplicate_candidates(&self.remaining_trace_candidates),
            fixed_traces: duplicate_traces(&self.fixed_traces),
            fix_sequence: duplicate_ids(&self.fix_sequence),
            prob_up_to_date: self.prob_up_to_date,
        }
    }

    /// Fixes a trace for `connection_id`.
    pub fn fix_trace(&mut self, connection_id: ConnectionID, fixed_trace: FixedTrace)
        requires
            fixed_trace.connection_id == connection_id,
        ensures
            final(self)@ == fixed_at(old(self)@, fixed_trace@),
    {
        let ghost before = traces_view(self.fixed_traces@);
        let ghost added = fixed_trace@;
        self.fixed_traces.push(fixed_trace);
        assert(traces_view(self.fixed_traces@) =~= before.push(added));
        self.fix_sequence.push(connection_id);
        self.remaining_trace_candidates = exec_without(
            &self.remaining_trace_candidates,
            connection_id,
        );
        self.prob_up_to_date = false;
    }

    /// Takes the best candidates out in turn, at most `k` of them, until
    /// one collides with no fixed trace of another net, and returns the
    /// node with that candidate fixed; `None` where none of them does or
    /// no candidate is left.
    pub fn try_fix_top_k_ranked_trace<H: Fn(&TraceSegment, &TraceSegment) -> bool>(
        &mut self,
        overlap: &H,
        k: usize,
    ) -> (r: Option<BacktrackNode>)
        requires
            overlap_oracle(overlap),
        ensures
            ({
                let (hit, rest) = try_best(
                    overlap,
                    old(self)@.candidates,
                    old(self)@.fixed,
                    k as nat,
                );
                &&& final(self)@.candidates == rest
                &&& final(self)@.fixed == old(self)@.fixed
                &&& final(self)@.fix_sequence == old(self)@.fix_sequence
                &&& final(self)@.up_to_date == old(self)@.up_to_date
                &&& match r {
                    Some(node) => hit.is_some() && node@ == fixed_at(
                        final(self)@,
                        as_fixed(hit.unwrap()),
                    ),
                    None => hit.is_none(),
                }
            }),
    {
        let mut left = k;
        while left > 0 && self.remaining_trace_candidates.len() > 0
            invariant
                overlap_oracle(overlap),
                self@.fixed == old(self)@.fixed,
                self@.fix_sequence == old(self)@.fix_sequence,
                self@.up_to_date == old(self)@.up_to_date,
                try_best(overlap, self@.candidates, self@.fixed, left as nat) == try_best(
                    overlap,
                    old(self)@.candidates,
                    old(self)@.fixed,
                    k as nat,
                ),
            decreases left,
        {
            let ghost c = self@.candidates;
            let i = exec_best(&self.remaining_trace_candidates);
            let candidate = self.remaining_trace_candidates.remove(i);
            assert(candidate@ == c[i as int]);
            assert(self@.candidates =~= c.remove(i as int));
            if !exec_hits_fixed(overlap, &candidate, &self.fixed_traces) {
                let mut node = self.duplicate();
                node.fix_trace(candidate.connection_id, candidate.to_fixed_trace());
                return Some(node);
            }
            left = left - 1;
        }
        None
    }

    /// Takes the best candidates out in turn until one collides with no
    /// fixed trace of another net, and returns the node with that
    /// candidate fixed; `None` where none does.
    pub fn try_fix_any_trace<H: Fn(&TraceSegment, &TraceSegment) -> bool>(
        &mut self,
        overlap: &H,
    ) -> (r: Option<BacktrackNode>)
        requires
            overlap_oracle(overlap),
        ensures
            ({
                let (hit, rest) = try_best(
                    overlap,
                    old(self)@.candidates,
                    old(self)@.fixed,
                    old(self)@.candidates.len(),
                );
                &&& final(self)@.candidates == rest
                &&& match r {
                    Some(node) => hit.is_some() && node@ == fixed_at(
                        final(self)@,
                        as_fixed(hit.unwrap()),
                    ),
                    None => hit.is_none(),
                }
            }),
    {
        let k = self.remaining_trace_candidates.len();
        self.try_fix_top_k_ranked_trace(overlap, k)
    }

    /// Whether every one of `connections` has a fixed trace.
    pub fn is_solution(&self, connections: &Vec<ConnectionID>) -> (r: bool)
        ensures
            r == forall|c: ConnectionID|
                among(connections@, c) ==> among(trace_ids(self@.fixed), c),
    {
        let mut k: usize = 0;
        while k < connections.len()
            invariant
                k <= connections@.len(),
                forall|j: int|
                    0 <= j < k ==> among(trace_ids(self@.fixed), #[trigger] connections@[j]),
            decreases connections@.len() - k,
        {
            if !self.has_fixed(connections[k]) {
                assert(among(connections@, connections@[k as int]));
                return false;
            }
            k = k + 1;
        }
        proof {
            assert forall|c: ConnectionID| among(connections@, c) implies among(
                trace_ids(self@.fixed),
                c,
            ) by {
                let j = choose|j: int| 0 <= j < connections@.len() && connections@[j] == c;
                assert(among(trace_ids(self@.fixed), connections@[j]));
            }
        }
        true
    }

    /// Whether `connection` has a fixed trace.
    pub fn has_fixed(&self, connection: ConnectionID) -> (r: bool)
        ensures
            r == among(trace_ids(self@.fixed), connection),
    {
        let mut k: usize = 0;
        while k < self.fixed_traces.len()
            invariant
                k <= self.fixed_traces@.len(),
                forall|j: int| 0 <= j < k ==> trace_ids(self@.fixed)[j] != connection,
            decreases self.fixed_traces@.len() - k,
        {
            assert(trace_ids(self@.fixed)[k as int] == self.fixed_traces@[k as int].connection_id);
            if self.fixed_traces[k].connection_id == connection {
                return true;
            }
            k = k + 1;
        }
        false
    }
}


/// Whether no two of the fixed traces that belong to different nets
/// collide.
pub open spec fn clear_of_each_other<H: Fn(&TraceSegment, &TraceSegment) -> bool>(
    h: &H,
    fixed: Seq<FixedTraceView>,
) -> bool {
    forall|i: int, j: int|
        0 <= i < fixed.len() && 0 <= j < fixed.len() && fixed[i].net_name != fixed[j].net_name
            ==> !paths_collide(
            h,
            (#[trigger] fixed[i]).trace_path.segments,
            (#[trigger] fixed[j]).trace_path.segments,
        )
}

/// A candidate that is chosen collides with no fixed trace of another
/// net.
pub proof fn lemma_chosen_is_clear<H: Fn(&TraceSegment, &TraceSegment) -> bool>(
    h: &H,
    c: Seq<CandidateView>,
    fixed: Seq<FixedTraceView>,
    k: nat,
)
    requires
        try_best(h, c, fixed, k).0.is_some(),
    ensures
        !hits_fixed(h, try_best(h, c, fixed, k).0.unwrap(), fixed),
    decreases k,
{
    if k > 0 && c.len() > 0 {
        let i = best_of(c, c.len());
        if hits_fixed(h, c[i], fixed) {
            lemma_chosen_is_clear(h, c.remove(i), fixed, (k - 1) as nat);
        }
    }
}

/// Fixing a chosen candidate keeps the fixed traces of different nets
/// clear of each other.
pub proof fn lemma_fixing_keeps_clear<H: Fn(&TraceSegment, &TraceSegment) -> bool>(
    h: &H,
    c: Seq<CandidateView>,
    fixed: Seq<FixedTraceView>,
    k: nat,
)
    requires
        clear_of_each_other(h, fixed),
        try_best(h, c, fixed, k).0.is_some(),
    ensures
        clear_of_each_other(h, fixed.push(as_fixed(try_best(h, c, fixed, k).0.unwrap()))),
{
    let chosen = try_best(h, c, fixed, k).0.unwrap();
    let t = as_fixed(chosen);
    let after = fixed.push(t);
    lemma_chosen_is_clear(h, c, fixed, k);
    assert forall|i: int, j: int|
        0 <= i < after.len() && 0 <= j < after.len() && after[i].net_name
            != after[j].net_name implies !paths_collide(
        h,
        (#[trigger] after[i]).trace_path.segments,
        (#[trigger] after[j]).trace_path.segments,
    ) by {
        if i < fixed.len() && j < fixed.len() {
            assert(!paths_collide(h, fixed[i].trace_path.segments, fixed[j].trace_path.segments));
        } else if i < fixed.len() {
            assert(!hits_trace(h, chosen, fixed[i]));
            lemma_paths_collide_symmetric(
                h,
                chosen.trace_path.segments,
                fixed[i].trace_path.segments,
            );
        } else if j < fixed.len() {
            assert(!hits_trace(h, chosen, fixed[j]));
        }
    }
}

} // verus!
