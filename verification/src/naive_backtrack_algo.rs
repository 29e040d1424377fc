//! The ordered backtracking solver: connections are routed in a fixed
//! order, and a connection that cannot be routed sends the search back to
//! try another order.

use vstd::prelude::*;
use vstd::multiset::Multiset;
use crate::pcb_problem::{
    duplicate_ids, duplicate_traces, trace_ids, traces_view, ConnectionID, FixedTrace,
    FixedTraceView,
};

verus! {

/// One step of the search: the traces fixed so far, the connection being
/// routed, the connections still to try and those that have had their
/// turn at this step.
pub struct NaiveBacktrackNode {
    pub current_connection: Option<ConnectionID>,
    /// Connections still to try, the next one first.
    pub alternative_connections: Vec<ConnectionID>,
    /// Connections whose turn at this step is over.
    pub failed_connections: Vec<ConnectionID>,
    pub fixed_connections: Vec<FixedTrace>,
}

/// What a node holds, as plain sequences.
pub struct NodeView {
    pub current: Option<ConnectionID>,
    pub alternatives: Seq<ConnectionID>,
    pub failed: Seq<ConnectionID>,
    pub fixed: Seq<FixedTraceView>,
}

impl View for NaiveBacktrackNode {
    type V = NodeView;

    open spec fn view(&self) -> NodeView {
        NodeView {
            current: self.current_connection,
            alternatives: self.alternative_connections@,
            failed: self.failed_connections@,
            fixed: traces_view(self.fixed_connections@),
        }
    }
}

/// The node from which a search over `all` starts.
pub open spec fn root_node(all: Seq<ConnectionID>) -> NodeView {
    NodeView { current: None, alternatives: all, failed: Seq::empty(), fixed: Seq::empty() }
}

/// The node after its next alternative has become its current
/// connection.
pub open spec fn taken(n: NodeView) -> NodeView {
    NodeView {
        current: Some(n.alternatives[0]),
        alternatives: n.alternatives.drop_first(),
        failed: n.failed,
        fixed: n.fixed,
    }
}

/// The node after its current connection was routed: the connection's
/// turn is over.
pub open spec fn after_success(n: NodeView) -> NodeView {
    NodeView {
        current: None,
        alternatives: n.alternatives,
        failed: n.failed.push(n.current.unwrap()),
        fixed: n.fixed,
    }
}

/// The node below `n` after the current connection of `n` was routed by
/// `trace`: the connections whose turn at `n` is over come first, the
/// last of them in front, then the alternatives of `n`.
pub open spec fn child_of(n: NodeView, trace: FixedTraceView) -> NodeView {
    NodeView {
        current: None,
        alternatives: n.failed.reverse() + n.alternatives,
        failed: Seq::empty(),
        fixed: n.fixed.push(trace),
    }
}

/// The current connection of a node, if any, as a multiset.
pub open spec fn current_ids(n: NodeView) -> Multiset<ConnectionID> {
    match n.current {
        Some(c) => Multiset::singleton(c),
        None => Multiset::empty(),
    }
}

/// All connections that a node knows of, each as often as it occurs.
pub open spec fn ids_of(n: NodeView) -> Multiset<ConnectionID> {
    trace_ids(n.fixed).to_multiset().add(n.alternatives.to_multiset()).add(
        n.failed.to_multiset(),
    ).add(current_ids(n))
}

/// Whether a node knows of exactly the connections `all`.
pub open spec fn covers(n: NodeView, all: Seq<ConnectionID>) -> bool {
    ids_of(n) == all.to_multiset()
}

/// Whether nothing is left to try at a node although connections remain
/// unrouted.
pub open spec fn exhausted(n: NodeView) -> bool {
    n.alternatives.len() == 0 && n.failed.len() > 0
}

/// Whether every connection of a node is routed.
pub open spec fn complete(n: NodeView) -> bool {
    n.alternatives.len() == 0 && n.failed.len() == 0 && n.current.is_none()
}

/// The empty sequence holds no connection.
pub proof fn lemma_no_ids()
    ensures
        Seq::<ConnectionID>::empty().to_multiset() == Multiset::<ConnectionID>::empty(),
{
    vstd::seq_lib::to_multiset_len(Seq::<ConnectionID>::empty());
    vstd::multiset::lemma_multiset_empty_len(Seq::<ConnectionID>::empty().to_multiset());
    assert(Seq::<ConnectionID>::empty().to_multiset() =~= Multiset::<ConnectionID>::empty());
}

/// The root knows of exactly the connections it was made for.
pub proof fn lemma_root_covers(all: Seq<ConnectionID>)
    ensures
        covers(root_node(all), all),
{
    broadcast use vstd::multiset::group_multiset_axioms;

    assert(trace_ids(Seq::<FixedTraceView>::empty()) =~= Seq::<ConnectionID>::empty());
    lemma_no_ids();
    assert(ids_of(root_node(all)) =~= all.to_multiset());
}

/// Taking the next alternative changes nothing in what a node knows of.
pub proof fn lemma_taken_covers(n: NodeView, all: Seq<ConnectionID>)
    requires
        covers(n, all),
        n.current.is_none(),
        n.alternatives.len() > 0,
    ensures
        covers(taken(n), all),
{
    broadcast use vstd::multiset::group_multiset_axioms;

    let a = n.alternatives;
    assert(a =~= seq![a[0]] + a.drop_first());
    vstd::seq_lib::lemma_multiset_commutative(seq![a[0]], a.drop_first());
    assert(seq![a[0]].to_multiset() =~= Multiset::singleton(a[0])) by {
        assert(seq![a[0]] =~= Seq::<ConnectionID>::empty().push(a[0]));
        vstd::seq_lib::to_multiset_build(Seq::<ConnectionID>::empty(), a[0]);
        lemma_no_ids();
    }
    assert(ids_of(taken(n)) =~= ids_of(n));
}

/// Routing the current connection changes nothing in what the node, or
/// the node below it, knows of.
pub proof fn lemma_child_covers(n: NodeView, trace: FixedTraceView, all: Seq<ConnectionID>)
    requires
        covers(n, all),
        n.current == Some(trace.connection_id),
    ensures
        covers(child_of(n, trace), all),
        covers(after_success(n), all),
{
    broadcast use vstd::multiset::group_multiset_axioms;

    let c = trace.connection_id;
    vstd::seq_lib::to_multiset_build(n.failed, c);
    assert(ids_of(after_success(n)) =~= ids_of(n));
    n.failed.lemma_reverse_to_multiset();
    vstd::seq_lib::lemma_multiset_commutative(n.failed.reverse(), n.alternatives);
    assert(trace_ids(n.fixed.push(trace)) =~= trace_ids(n.fixed).push(c));
    vstd::seq_lib::to_multiset_build(trace_ids(n.fixed), c);
    lemma_no_ids();
    assert(ids_of(child_of(n, trace)) =~= ids_of(n));
}

/// At a complete node every connection has exactly one fixed trace.
pub proof fn lemma_complete_solution(n: NodeView, all: Seq<ConnectionID>)
    requires
        covers(n, all),
        complete(n),
    ensures
        trace_ids(n.fixed).to_multiset() == all.to_multiset(),
        n.fixed.len() == all.len(),
{
    broadcast use vstd::multiset::group_multiset_axioms;

    assert(n.alternatives =~= Seq::<ConnectionID>::empty());
    assert(n.failed =~= Seq::<ConnectionID>::empty());
    lemma_no_ids();
    assert(ids_of(n) =~= trace_ids(n.fixed).to_multiset());
    vstd::seq_lib::to_multiset_len(trace_ids(n.fixed));
    vstd::seq_lib::to_multiset_len(all);
}

/// `failed` from its last to its first, followed by `alternatives`.
fn retry_first(failed: &Vec<ConnectionID>, alternatives: &Vec<ConnectionID>) -> (r: Vec<
    ConnectionID,
>)
    ensures
        r@ == failed@.reverse() + alternatives@,
{
    let mut r: Vec<ConnectionID> = Vec::new();
    let n = failed.len();
    let mut k: usize = 0;
    while k < n
        invariant
            n == failed@.len(),
            k <= n,
            r@ == failed@.reverse().take(k as int),
        decreases n - k,
    {
        r.push(failed[n - 1 - k]);
        assert(failed@.reverse().take(k + 1) =~= failed@.reverse().take(k as int).push(
            failed@[n - 1 - k],
        ));
        k = k + 1;
    }
    assert(failed@.reverse().take(n as int) =~= failed@.reverse());
    let m = alternatives.len();
    let mut j: usize = 0;
    while j < m
        invariant
            m == alternatives@.len(),
            j <= m,
            r@ == failed@.reverse() + alternatives@.take(j as int),
        decreases m - j,
    {
        r.push(alternatives[j]);
        assert(alternatives@.take(j + 1) =~= alternatives@.take(j as int).push(
            alternatives@[j as int],
        ));
        assert(failed@.reverse() + alternatives@.take(j + 1) =~= (failed@.reverse()
            + alternatives@.take(j as int)).push(alternatives@[j as int]));
        j = j + 1;
    }
    assert(alternatives@.take(m as int) =~= alternatives@);
    r
}

impl NaiveBacktrackNode {
    /// The node from which the search starts: nothing fixed, every
    /// connection still to try, in the given order.
    pub fn new_empty(all_ordered_connections: &Vec<ConnectionID>) -> (r: NaiveBacktrackNode)
        ensures
            r@ == root_node(all_ordered_connections@),
    {
        let r = NaiveBacktrackNode {
            current_connection: None,
            alternative_connections: duplicate_ids(all_ordered_connections),
            failed_connections: Vec::new(),
            fixed_connections: Vec::new(),
        };
        assert(traces_view(r.fixed_connections@) =~= Seq::empty());
        r
    }

    /// Fixes the trace found for the current connection: the turn of the
    /// connection at this node is over, and the node below starts with
    /// the trace fixed and with the connections whose turn is over to
    /// try first.
    pub fn push_node(&mut self, connection: ConnectionID, fixed_trace: FixedTrace) -> (r:
        NaiveBacktrackNode)
        requires
            old(self).current_connection == Some(connection),
            fixed_trace.connection_id == connection,
        ensures
            r@ == child_of(old(self)@, fixed_trace@),
            final(self)@ == after_success(old(self)@),
    {
        let mut fixed = duplicate_traces(&self.fixed_connections);
        let ghost before = traces_view(fixed@);
        let ghost added = fixed_trace@;
        fixed.push(fixed_trace);
        assert(traces_view(fixed@) =~= before.push(added));
        let alternatives = retry_first(&self.failed_connections, &self.alternative_connections);
        self.current_connection = None;
        self.failed_connections.push(connection);
        NaiveBacktrackNode {
            current_connection: None,
            alternative_connections: alternatives,
            failed_connections: Vec::new(),
            fixed_connections: fixed,
        }
    }
}

/// What the search has to do next.
#[derive(Debug, Clone, Copy, PartialEq, Eq, Structural)]
pub enum NaiveStep {
    /// Route this connection against the traces fixed at the top node.
    Route(ConnectionID),
    /// The top node fixes every connection.
    Solved,
    /// No order is left to try.
    Unsolvable,
}

/// The search: a stack of nodes, the last one on top.
pub struct NaiveBacktrack {
    pub stack: Vec<NaiveBacktrackNode>,
}

/// The plain values of a stack of nodes.
pub open spec fn stack_view(s: Seq<NaiveBacktrackNode>) -> Seq<NodeView> {
    Seq::new(s.len(), |i: int| s[i]@)
}

impl View for NaiveBacktrack {
    type V = Seq<NodeView>;

    open spec fn view(&self) -> Seq<NodeView> {
        stack_view(self.stack@)
    }
}

/// The stack without the exhausted nodes on top of it.
pub open spec fn settled(s: Seq<NodeView>) -> Seq<NodeView>
    decreases s.len(),
{
    if s.len() > 0 && exhausted(s.last()) {
        settled(s.drop_last())
    } else {
        s
    }
}

/// Whether every node of the stack knows of exactly the connections
/// `all`.
pub open spec fn all_cover(s: Seq<NodeView>, all: Seq<ConnectionID>) -> bool {
    forall|i: int| 0 <= i < s.len() ==> covers(#[trigger] s[i], all)
}

/// Whether no node of the stack is busy with a connection.
pub open spec fn all_idle(s: Seq<NodeView>) -> bool {
    forall|i: int| 0 <= i < s.len() ==> (#[trigger] s[i]).current.is_none()
}

/// Settling only removes nodes from the top.
pub proof fn lemma_settled_prefix(s: Seq<NodeView>)
    ensures
        settled(s).len() <= s.len(),
        settled(s) == s.take(settled(s).len() as int),
        settled(s).len() > 0 ==> !exhausted(settled(s).last()),
    decreases s.len(),
{
    if s.len() > 0 && exhausted(s.last()) {
        lemma_settled_prefix(s.drop_last());
        let t = settled(s.drop_last());
        assert(s.drop_last().take(t.len() as int) =~= s.take(t.len() as int));
    } else {
        assert(s.take(s.len() as int) =~= s);
    }
}

/// Whether the stack has a top node and that node is exhausted.
fn top_exhausted(stack: &Vec<NaiveBacktrackNode>) -> (r: bool)
    ensures
        r == (stack@.len() > 0 && exhausted(stack_view(stack@).last())),
{
    let n = stack.len();
    if n == 0 {
        return false;
    }
    assert(stack_view(stack@).last() == stack@[n - 1]@);
    stack[n - 1].alternative_connections.len() == 0 && stack[n - 1].failed_connections.len() > 0
}

impl NaiveBacktrack {
    /// A search over the connections in the given order.
    pub fn new(all_ordered_connections: &Vec<ConnectionID>) -> (r: NaiveBacktrack)
        ensures
            r@ == seq![root_node(all_ordered_connections@)],
            all_cover(r@, all_ordered_connections@),
            all_idle(r@),
    {
        let mut stack: Vec<NaiveBacktrackNode> = Vec::new();
        stack.push(NaiveBacktrackNode::new_empty(all_ordered_connections));
        proof {
            lemma_root_covers(all_ordered_connections@);
            assert(stack_view(stack@) =~= seq![root_node(all_ordered_connections@)]);
        }
        NaiveBacktrack { stack }
    }

    /// Decides what to do next. Exhausted nodes leave the top of the
    /// stack first. An empty stack then means that the problem cannot be
    /// solved; a top node with nothing left to try is a solution; else
    /// the next alternative of the top node becomes its current
    /// connection and is to be routed.
    pub fn next_step(&mut self) -> (r: NaiveStep)
        requires
            all_idle(old(self)@),
        ensures
            ({
                let s = settled(old(self)@);
                if s.len() == 0 {
                    r == NaiveStep::Unsolvable && final(self)@ == s
                } else if s.last().alternatives.len() == 0 {
                    r == NaiveStep::Solved && final(self)@ == s && complete(s.last())
                } else {
                    r == NaiveStep::Route(s.last().alternatives[0]) && final(self)@ == s.update(
                        s.len() - 1,
                        taken(s.last()),
                    )
                }
            }),
            forall|all: Seq<ConnectionID>|
                all_cover(old(self)@, all) ==> all_cover(final(self)@, all),
    {
        let ghost start = self@;
        while top_exhausted(&self.stack)
            invariant
                start == old(self)@,
                settled(self@) == settled(start),
                all_idle(self@),
                forall|all: Seq<ConnectionID>| all_cover(start, all) ==> all_cover(self@, all),
            decreases self.stack@.len(),
        {
            let ghost s = self@;
            self.stack.pop();
            proof {
                assert(self@ =~= s.drop_last());
                assert forall|all: Seq<ConnectionID>| all_cover(start, all) implies all_cover(
                    self@,
                    all,
                ) by {
                    assert(all_cover(s, all));
                    assert forall|i: int| 0 <= i < self@.len() implies covers(
                        #[trigger] self@[i],
                        all,
                    ) by {
                        assert(covers(s[i], all));
                    }
                }
            }
        }
        let n = self.stack.len();
        let ghost s = self@;
        assert(settled(s) == s);
        if n == 0 {
            return NaiveStep::Unsolvable;
        }
        assert(s.last() == self.stack@[n - 1]@);
        assert(s[n - 1].current.is_none());
        if self.stack[n - 1].alternative_connections.len() == 0 {
            return NaiveStep::Solved;
        }
        let mut top = self.stack.pop().unwrap();
        assert(top@ == s.last());
        let next = top.alternative_connections.remove(0);
        top.current_connection = Some(next);
        assert(top.alternative_connections@ =~= s.last().alternatives.drop_first());
        assert(top@ == taken(s.last()));
        self.stack.push(top);
        proof {
            assert(self@ =~= s.update(s.len() - 1, taken(s.last())));
            assert forall|all: Seq<ConnectionID>| all_cover(start, all) implies all_cover(
                self@,
                all,
            ) by {
                assert(all_cover(s, all));
                assert(covers(s[s.len() - 1], all));
                lemma_taken_covers(s.last(), all);
                assert forall|i: int| 0 <= i < self@.len() implies covers(
                    #[trigger] self@[i],
                    all,
                ) by {
                    if i < s.len() - 1 {
                        assert(covers(s[i], all));
                    }
                }
            }
        }
        NaiveStep::Route(next)
    }

    /// Takes note that the current connection of the top node was routed
    /// by `fixed_trace`: a node with the trace fixed goes on top.
    pub fn route_found(&mut self, fixed_trace: FixedTrace)
        requires
            old(self)@.len() > 0,
            old(self)@.last().current == Some(fixed_trace.connection_id),
        ensures
            final(self)@ == old(self)@.update(
                old(self)@.len() - 1,
                after_success(old(self)@.last()),
            ).push(child_of(old(self)@.last(), fixed_trace@)),
            forall|all: Seq<ConnectionID>|
                all_cover(old(self)@, all) ==> all_cover(final(self)@, all),
            all_idle(old(self)@.drop_last()) ==> all_idle(final(self)@),
    {
        let ghost s = self@;
        let ghost t = fixed_trace@;
        let n = self.stack.len();
        assert(s.last() == self.stack@[n - 1]@);
        let mut top = self.stack.pop().unwrap();
        let id = fixed_trace.connection_id;
        let child = top.push_node(id, fixed_trace);
        self.stack.push(top);
        self.stack.push(child);
        proof {
            let after = s.update(s.len() - 1, after_success(s.last())).push(child_of(s.last(), t));
            assert(self@ =~= after);
            assert forall|all: Seq<ConnectionID>| all_cover(s, all) implies all_cover(
                self@,
                all,
            ) by {
                assert(covers(s[s.len() - 1], all));
                lemma_child_covers(s.last(), t, all);
                assert forall|i: int| 0 <= i < self@.len() implies covers(
                    #[trigger] self@[i],
                    all,
                ) by {
                    if i < s.len() - 1 {
                        assert(covers(s[i], all));
                    }
                }
            }
            if all_idle(s.drop_last()) {
                assert forall|i: int| 0 <= i < self@.len() implies (#[trigger] self@[i]).current.is_none() by {
                    if i < s.len() - 1 {
                        assert(s.drop_last()[i].current.is_none());
                    }
                }
            }
        }
    }

    /// Takes note that the current connection of the top node cannot be
    /// routed: the top node leaves the stack.
    pub fn route_failed(&mut self)
        requires
            old(self)@.len() > 0,
        ensures
            final(self)@ == old(self)@.drop_last(),
            forall|all: Seq<ConnectionID>|
                all_cover(old(self)@, all) ==> all_cover(final(self)@, all),
            all_idle(old(self)@.drop_last()) ==> all_idle(final(self)@),
    {
        let ghost s = self@;
        self.stack.pop();
        proof {
            assert(self@ =~= s.drop_last());
            assert forall|all: Seq<ConnectionID>| all_cover(s, all) implies all_cover(
                self@,
                all,
            ) by {
                assert forall|i: int| 0 <= i < self@.len() implies covers(
                    #[trigger] self@[i],
                    all,
                ) by {
                    assert(covers(s[i], all));
                }
            }
        }
    }

    /// The traces fixed at the top node.
    pub fn fixed_traces(&self) -> (r: Vec<FixedTrace>)
        requires
            self@.len() > 0,
        ensures
            traces_view(r@) == self@.last().fixed,
    {
        let n = self.stack.len();
        assert(self@.last() == self.stack@[n - 1]@);
        duplicate_traces(&self.stack[n - 1].fixed_connections)
    }
}

/// A solution fixes exactly one trace for every connection of the
/// search.
pub proof fn lemma_solved_is_complete(s: Seq<NodeView>, all: Seq<ConnectionID>)
    requires
        all_cover(s, all),
        s.len() > 0,
        complete(s.last()),
    ensures
        trace_ids(s.last().fixed).to_multiset() == all.to_multiset(),
        s.last().fixed.len() == all.len(),
{
    assert(covers(s[s.len() - 1], all));
    lemma_complete_solution(s.last(), all);
}

/// A search over no connection at all is solved at once, with nothing
/// fixed.
pub proof fn lemma_nothing_to_route()
    ensures
        settled(seq![root_node(Seq::empty())]) == seq![root_node(Seq::empty())],
        complete(root_node(Seq::empty())),
        root_node(Seq::empty()).fixed.len() == 0,
{
}

} // verus!
