//! The search guided by the ranks of the candidates, and the store of
//! paths found so far.

use vstd::prelude::*;
use crate::astar_check_struct::{check_path, path_clear};
use crate::backtrack_node::{fixed_at, try_best, BacktrackNode, BacktrackView};
use crate::oracle::{overlap_oracle, trace_oracle, via_oracle};
use crate::ordering::{among, derived_ordering, unfixed};
use crate::pcb_problem::{
    duplicate_traces, trace_ids, traces_view, ConnectionID, FixedTrace,
};
use crate::proba_model::as_fixed;
use crate::trace_path::{PathView, TracePath, TraceSegment};
use crate::vec2::FixedVec2;

verus! {

/// The paths found so far for one connection, in the order of finding.
pub struct CacheEntry {
    pub connection_id: ConnectionID,
    pub paths: Vec<TracePath>,
}

/// The paths found so far, by connection.
pub struct TraceCache {
    pub traces: Vec<CacheEntry>,
}

/// The plain values of a list of paths.
pub open spec fn paths_view(v: Seq<TracePath>) -> Seq<PathView> {
    Seq::new(v.len(), |i: int| v[i]@)
}

/// The place of the first entry for `connection` among the first `k`
/// entries, or `k` if there is none.
pub open spec fn entry_of(entries: Seq<CacheEntry>, connection: ConnectionID, k: nat) -> nat
    decreases k,
{
    if k == 0 {
        0
    } else {
        let before = entry_of(entries, connection, (k - 1) as nat);
        if before < k - 1 {
            before
        } else if entries[k - 1].connection_id == connection {
            (k - 1) as nat
        } else {
            k
        }
    }
}

/// The paths stored for `connection`; none if it has no entry.
pub open spec fn cached(entries: Seq<CacheEntry>, connection: ConnectionID) -> Seq<PathView> {
    let i = entry_of(entries, connection, entries.len());
    if i < entries.len() {
        paths_view(entries[i as int].paths@)
    } else {
        Seq::empty()
    }
}

/// Whether `i` is the place of the first clear path.
pub open spec fn first_clear<
    F: Fn(FixedVec2, FixedVec2, usize) -> bool,
    G: Fn(FixedVec2, usize) -> bool,
>(f: &F, g: &G, paths: Seq<PathView>, num_layers: usize, i: int) -> bool {
    &&& 0 <= i < paths.len()
    &&& path_clear(f, g, paths[i], num_layers)
    &&& forall|j: int| 0 <= j < i ==> !path_clear(f, g, #[trigger] paths[j], num_layers)
}

fn find_entry(entries: &Vec<CacheEntry>, connection: ConnectionID) -> (r: usize)
    ensures
        r == entry_of(entries@, connection, entries@.len()),
        r <= entries@.len(),
        r < entries@.len() ==> entries@[r as int].connection_id == connection,
{
    let mut k: usize = 0;
    while k < entries.len()
        invariant
            k <= entries@.len(),
            entry_of(entries@, connection, k as nat) == k,
        decreases entries@.len() - k,
    {
        if entries[k].connection_id == connection {
            proof {
                lemma_entry_found(entries@, connection, k as nat, entries@.len());
            }
            return k;
        }
        k = k + 1;
    }
    k
}

proof fn lemma_entry_found(entries: Seq<CacheEntry>, connection: ConnectionID, i: nat, k: nat)
    requires
        i < k <= entries.len(),
        entry_of(entries, connection, i) == i,
        entries[i as int].connection_id == connection,
    ensures
        entry_of(entries, connection, k) == i,
    decreases k,
{
    if k > i + 1 {
        lemma_entry_found(entries, connection, i, (k - 1) as nat);
    }
}

impl TraceCache {
    /// A store with an empty entry for each connection.
    pub fn new(connections: &Vec<ConnectionID>) -> (r: TraceCache)
        ensures
            r.traces@.len() == connections@.len(),
            forall|i: int|
                0 <= i < connections@.len() ==> (#[trigger] r.traces@[i]).connection_id
                    == connections@[i] && r.traces@[i].paths@.len() == 0,
    {
        let mut traces: Vec<CacheEntry> = Vec::new();
        let mut k: usize = 0;
        while k < connections.len()
            invariant
                k <= connections@.len(),
                traces@.len() == k,
                forall|i: int|
                    0 <= i < k ==> (#[trigger] traces@[i]).connection_id == connections@[i]
                        && traces@[i].paths@.len() == 0,
            decreases connections@.len() - k,
        {
            traces.push(CacheEntry { connection_id: connections[k], paths: Vec::new() });
            k = k + 1;
        }
        TraceCache { traces }
    }

    /// Stores a path found for `connection` behind those stored before; a
    /// connection without an entry gets one.
    pub fn insert(&mut self, connection: ConnectionID, path: TracePath)
        ensures
            cached(final(self).traces@, connection) == cached(old(self).traces@, connection).push(
                path@,
            ),
            forall|other: ConnectionID|
                other != connection ==> cached(final(self).traces@, other) == cached(
                    old(self).traces@,
                    other,
                ),
    {
        let ghost before = self.traces@;
        let ghost added = path@;
        let i = find_entry(&self.traces, connection);
        if i < self.traces.len() {
            let mut entry = self.traces.remove(i);
            let ghost stored = paths_view(entry.paths@);
            entry.paths.push(path);
            assert(paths_view(entry.paths@) =~= stored.push(added));
            self.traces.insert(i, entry);
            proof {
                assert(self.traces@.len() == before.len());
                assert forall|j: int| 0 <= j < before.len() implies (#[trigger] self.traces@[j]).connection_id
                    == before[j].connection_id by {}
                assert forall|j: int| 0 <= j < before.len() && j != i implies (#[trigger] self.traces@[j])
                    == before[j] by {}
                lemma_same_keys(before, self.traces@, connection, before.len());
                assert forall|other: ConnectionID| other != connection implies cached(
                    self.traces@,
                    other,
                ) == cached(before, other) by {
                    lemma_same_keys(before, self.traces@, other, before.len());
                    lemma_entry_key(before, other, before.len());
                }
            }
        } else {
            let mut paths: Vec<TracePath> = Vec::new();
            paths.push(path);
            assert(paths_view(paths@) =~= Seq::<PathView>::empty().push(added));
            self.traces.push(CacheEntry { connection_id: connection, paths });
            proof {
                let after = self.traces@;
                lemma_prefix_keys(before, after, connection, before.len());
                assert forall|other: ConnectionID| other != connection implies cached(
                    after,
                    other,
                ) == cached(before, other) by {
                    lemma_prefix_keys(before, after, other, before.len());
                }
            }
        }
    }

    /// The first path stored for `connection` that is clear of the
    /// obstacles of now.
    pub fn lookup<F: Fn(FixedVec2, FixedVec2, usize) -> bool, G: Fn(FixedVec2, usize) -> bool>(
        &self,
        connection: ConnectionID,
        num_layers: usize,
        check_collision_for_trace: &F,
        check_collision_for_via: &G,
    ) -> (r: Option<TracePath>)
        requires
            trace_oracle(check_collision_for_trace),
            via_oracle(check_collision_for_via),
        ensures
            match r {
                Some(p) => exists|i: int|
                    #[trigger] first_clear(
                        check_collision_for_trace,
                        check_collision_for_via,
                        cached(self.traces@, connection),
                        num_layers,
                        i,
                    ) && p@ == cached(self.traces@, connection)[i],
                None => forall|i: int|
                    0 <= i < cached(self.traces@, connection).len() ==> !path_clear(
                        check_collision_for_trace,
                        check_collision_for_via,
                        #[trigger] cached(self.traces@, connection)[i],
                        num_layers,
                    ),
            },
    {
        let e = find_entry(&self.traces, connection);
        if e >= self.traces.len() {
            return None;
        }
        let paths = &self.traces[e].paths;
        let ghost stored = cached(self.traces@, connection);
        assert(stored == paths_view(paths@));
        let mut i: usize = 0;
        while i < paths.len()
            invariant
                trace_oracle(check_collision_for_trace),
                via_oracle(check_collision_for_via),
                stored == paths_view(paths@),
                stored == cached(self.traces@, connection),
                i <= paths@.len(),
                forall|j: int|
                    0 <= j < i ==> !path_clear(
                        check_collision_for_trace,
                        check_collision_for_via,
                        #[trigger] stored[j],
                        num_layers,
                    ),
            decreases paths@.len() - i,
        {
            assert(stored[i as int] == paths@[i as int]@);
            if check_path(&paths[i], num_layers, check_collision_for_trace, check_collision_for_via) {
                let found = paths[i].duplicate();
                assert(first_clear(
                    check_collision_for_trace,
                    check_collision_for_via,
                    cached(self.traces@, connection),
                    num_layers,
                    i as int,
                ) && found@ == cached(self.traces@, connection)[i as int]);
                return Some(found);
            }
            i = i + 1;
        }
        None
    }
}

proof fn lemma_entry_key(e: Seq<CacheEntry>, c: ConnectionID, k: nat)
    requires
        k <= e.len(),
    ensures
        entry_of(e, c, k) <= k,
        entry_of(e, c, k) < k ==> e[entry_of(e, c, k) as int].connection_id == c,
    decreases k,
{
    if k > 0 {
        lemma_entry_key(e, c, (k - 1) as nat);
    }
}

proof fn lemma_same_keys(a: Seq<CacheEntry>, b: Seq<CacheEntry>, c: ConnectionID, k: nat)
    requires
        a.len() == b.len(),
        k <= a.len(),
        forall|j: int| 0 <= j < a.len() ==> (#[trigger] b[j]).connection_id == a[j].connection_id,
    ensures
        entry_of(a, c, k) == entry_of(b, c, k),
    decreases k,
{
    if k > 0 {
        lemma_same_keys(a, b, c, (k - 1) as nat);
    }
}

proof fn lemma_prefix_keys(a: Seq<CacheEntry>, b: Seq<CacheEntry>, c: ConnectionID, k: nat)
    requires
        a.len() <= b.len(),
        k <= a.len(),
        forall|j: int| 0 <= j < a.len() ==> #[trigger] b[j] == a[j],
    ensures
        entry_of(a, c, k) == entry_of(b, c, k),
    decreases k,
{
    if k > 0 {
        lemma_prefix_keys(a, b, c, (k - 1) as nat);
    }
}

/// What the search has to do next.
#[derive(Debug)]
pub enum BayesianStep {
    /// The top node fixes every connection.
    Solved,
    /// A node with one more trace fixed is on top; its candidates are to
    /// be found anew before the search goes on.
    Refresh,
    /// A node with one more trace fixed is on top.
    Continue,
    /// None of the best candidates can be fixed: the ordered solver is
    /// to go on, with the connections in this order.
    HandOver(Vec<ConnectionID>),
}

/// The search: a stack of nodes, the last one on top.
pub struct BayesianBacktrack {
    pub stack: Vec<BacktrackNode>,
}

/// The plain values of a stack of nodes.
pub open spec fn nodes_view(s: Seq<BacktrackNode>) -> Seq<BacktrackView> {
    Seq::new(s.len(), |i: int| s[i]@)
}

impl View for BayesianBacktrack {
    type V = Seq<BacktrackView>;

    open spec fn view(&self) -> Seq<BacktrackView> {
        nodes_view(self.stack@)
    }
}

/// The top node with its candidates replaced.
pub open spec fn with_candidates(n: BacktrackView, rest: Seq<crate::proba_model::CandidateView>) -> BacktrackView {
    BacktrackView {
        candidates: rest,
        fixed: n.fixed,
        fix_sequence: n.fix_sequence,
        up_to_date: n.up_to_date,
    }
}

impl BayesianBacktrack {
    /// A search that starts at `root`.
    pub fn new(root: BacktrackNode) -> (r: BayesianBacktrack)
        ensures
            r@ == seq![root@],
    {
        let mut stack: Vec<BacktrackNode> = Vec::new();
        let ghost v = root@;
        stack.push(root);
        assert(nodes_view(stack@) =~= seq![v]);
        BayesianBacktrack { stack }
    }

    /// Decides what to do next. A top node that fixes every connection is
    /// a solution. Else the best candidates of the top node are tried, at
    /// most `num_top_ranked_to_try` of them: the first that collides with
    /// no fixed trace of another net is fixed in a new node on top, whose
    /// candidates are to be found anew where the height of the stack
    /// before is a multiple of `update_proba_skip_stride`; where none can
    /// be fixed, the ordered solver takes over with the fixed connections
    /// first.
    pub fn next_step<H: Fn(&TraceSegment, &TraceSegment) -> bool>(
        &mut self,
        connections: &Vec<ConnectionID>,
        overlap: &H,
        num_top_ranked_to_try: usize,
        update_proba_skip_stride: usize,
    ) -> (r: BayesianStep)
        requires
            old(self)@.len() > 0,
            update_proba_skip_stride >= 1,
            overlap_oracle(overlap),
        ensures
            ({
                let s = old(self)@;
                let top = s.last();
                let solved = forall|c: ConnectionID|
                    among(connections@, c) ==> among(trace_ids(top.fixed), c);
                let (hit, rest) = try_best(
                    overlap,
                    top.candidates,
                    top.fixed,
                    num_top_ranked_to_try as nat,
                );
                let tried = s.update(s.len() - 1, with_candidates(top, rest));
                match r {
                    BayesianStep::Solved => solved && final(self)@ == s,
                    BayesianStep::Refresh => !solved && hit.is_some() && (s.len() as int)
                        % (update_proba_skip_stride as int) == 0 && final(self)@ == tried.push(
                        fixed_at(with_candidates(top, rest), as_fixed(hit.unwrap())),
                    ),
                    BayesianStep::Continue => !solved && hit.is_some() && (s.len() as int)
                        % (update_proba_skip_stride as int) != 0 && final(self)@ == tried.push(
                        fixed_at(with_candidates(top, rest), as_fixed(hit.unwrap())),
                    ),
                    BayesianStep::HandOver(order) => !solved && hit.is_none() && final(self)@
                        == tried && order@ == top.fix_sequence + unfixed(
                        connections@,
                        top.fix_sequence,
                        connections@.len(),
                    ),
                }
            }),
    {
        let n = self.stack.len();
        let ghost s = self@;
        assert(s.last() == self.stack@[n - 1]@);
        if self.stack[n - 1].is_solution(connections) {
            return BayesianStep::Solved;
        }
        let mut top = self.stack.pop().unwrap();
        let found = top.try_fix_top_k_ranked_trace(overlap, num_top_ranked_to_try);
        let ghost tried_top = top@;
        let order = match &found {
            Some(_) => Vec::new(),
            None => derived_ordering(&top.fix_sequence, connections),
        };
        self.stack.push(top);
        proof {
            assert(self@ =~= s.update(s.len() - 1, tried_top));
            assert(tried_top == with_candidates(s.last(), tried_top.candidates));
        }
        match found {
            Some(node) => {
                let refresh = n % update_proba_skip_stride == 0;
                let ghost before = self@;
                let ghost added = node@;
                self.stack.push(node);
                assert(self@ =~= before.push(added));
                if refresh {
                    BayesianStep::Refresh
                } else {
                    BayesianStep::Continue
                }
            },
            None => BayesianStep::HandOver(order),
        }
    }

    /// Puts `node` in the place of the top node.
    pub fn refresh_top(&mut self, node: BacktrackNode)
        requires
            old(self)@.len() > 0,
        ensures
            final(self)@ == old(self)@.update(old(self)@.len() - 1, node@),
    {
        let ghost s = self@;
        let ghost v = node@;
        self.stack.pop();
        self.stack.push(node);
        assert(self@ =~= s.update(s.len() - 1, v));
    }

    /// The traces fixed at the top node.
    pub fn fixed_traces(&self) -> (r: Vec<FixedTrace>)
        requires
            self@.len() > 0,
        ensures
            traces_view(r@) == self@.last().fixed,
    {
        let n = self.stack.len();
        assert(self@.last() == self.stack@[n - 1]@);
        duplicate_traces(&self.stack[n - 1].fixed_traces)
    }
}

} // verus!
