//! Orders in which the ordered solver tries the connections.

use vstd::prelude::*;
use crate::pcb_problem::ConnectionID;

verus! {

/// A connection with the cost of the path estimated for it.
#[derive(Debug, Clone, Copy, PartialEq, Eq, Structural)]
pub struct Estimate {
    pub connection_id: ConnectionID,
    pub cost: u128,
}

/// Whether the costs never fall from one estimate to the next.
pub open spec fn ascending(v: Seq<Estimate>) -> bool {
    forall|i: int, j: int| 0 <= i <= j < v.len() ==> v[i].cost <= v[j].cost
}

/// The connections of a list of estimates.
pub open spec fn estimate_ids(v: Seq<Estimate>) -> Seq<ConnectionID> {
    Seq::new(v.len(), |i: int| v[i].connection_id)
}

/// Whether `c` is among the first `k` entries of `v`.
pub open spec fn among(v: Seq<ConnectionID>, c: ConnectionID) -> bool {
    exists|i: int| 0 <= i < v.len() && v[i] == c
}

/// Those of the first `k` connections that are not in `fixed`, in order.
pub open spec fn unfixed(connections: Seq<ConnectionID>, fixed: Seq<ConnectionID>, k: nat) -> Seq<
    ConnectionID,
>
    decreases k,
{
    if k == 0 {
        Seq::empty()
    } else if among(fixed, connections[k - 1]) {
        unfixed(connections, fixed, (k - 1) as nat)
    } else {
        unfixed(connections, fixed, (k - 1) as nat).push(connections[k - 1])
    }
}

/// The place of the first estimate of least cost among the first `k`.
pub open spec fn first_cheapest(v: Seq<Estimate>, k: nat) -> int
    decreases k,
{
    if k <= 1 {
        0
    } else {
        let before = first_cheapest(v, (k - 1) as nat);
        if v[k - 1].cost < v[before].cost {
            k - 1
        } else {
            before
        }
    }
}

/// The estimates in ascending order of cost, found by taking out the
/// first estimate of least cost again and again.
pub open spec fn sorted_by_cost(v: Seq<Estimate>) -> Seq<Estimate>
    decreases v.len(),
{
    let i = first_cheapest(v, v.len());
    if 0 <= i < v.len() {
        seq![v[i]] + sorted_by_cost(v.remove(i))
    } else {
        Seq::empty()
    }
}

/// The first cheapest of `k` estimates is one of them, and none before
/// it is as cheap and none at all is cheaper.
pub proof fn lemma_first_cheapest(v: Seq<Estimate>, k: nat)
    requires
        1 <= k <= v.len(),
    ensures
        0 <= first_cheapest(v, k) < k,
        forall|j: int| 0 <= j < k ==> v[first_cheapest(v, k)].cost <= (#[trigger] v[j]).cost,
        forall|j: int|
            0 <= j < first_cheapest(v, k) ==> v[first_cheapest(v, k)].cost < (#[trigger] v[j]).cost,
    decreases k,
{
    if k > 1 {
        lemma_first_cheapest(v, (k - 1) as nat);
    }
}

/// The estimates in ascending order of cost; estimates of equal cost keep
/// their order.
pub fn sort_by_length(estimates: &Vec<Estimate>) -> (r: Vec<Estimate>)
    ensures
        r@ == sorted_by_cost(estimates@),
        ascending(r@),
        r@.to_multiset() == estimates@.to_multiset(),
        r@.len() == estimates@.len(),
{
    let mut work: Vec<Estimate> = Vec::new();
    let mut k: usize = 0;
    while k < estimates.len()
        invariant
            k <= estimates@.len(),
            work@ == estimates@.take(k as int),
        decreases estimates@.len() - k,
    {
        work.push(estimates[k]);
        assert(estimates@.take(k + 1) =~= estimates@.take(k as int).push(estimates@[k as int]));
        k = k + 1;
    }
    assert(estimates@.take(estimates@.len() as int) =~= estimates@);
    let mut out: Vec<Estimate> = Vec::new();
    proof {
        vstd::seq_lib::lemma_multiset_commutative(out@, work@);
        assert(out@ + work@ =~= work@);
    }
    assert(out@ + sorted_by_cost(work@) =~= sorted_by_cost(estimates@));
    while work.len() > 0
        invariant
            ascending(out@),
            out@ + sorted_by_cost(work@) == sorted_by_cost(estimates@),
            (out@ + work@).to_multiset() == estimates@.to_multiset(),
            forall|i: int, j: int|
                0 <= i < out@.len() && 0 <= j < work@.len() ==> out@[i].cost <= work@[j].cost,
        decreases work@.len(),
    {
        let idx = cheapest(&work);
        let ghost before = work@;
        let ghost done = out@;
        let e = work.remove(idx);
        out.push(e);
        proof {
            vstd::seq_lib::lemma_multiset_commutative(done, before);
            vstd::seq_lib::lemma_multiset_commutative(out@, work@);
            vstd::seq_lib::to_multiset_build(done, e);
            vstd::seq_lib::to_multiset_remove(before, idx as int);
            vstd::seq_lib::to_multiset_contains(before, e);
            assert(before[idx as int] == e);
            assert(before.to_multiset().count(e) > 0);
            assert((out@ + work@).to_multiset() =~= (done + before).to_multiset());
            assert(sorted_by_cost(before) == seq![e] + sorted_by_cost(work@));
            assert(out@ + sorted_by_cost(work@) =~= done + sorted_by_cost(before));
        }
    }
    proof {
        assert(out@ + work@ =~= out@);
        assert(sorted_by_cost(work@) =~= Seq::<Estimate>::empty());
        assert(out@ + sorted_by_cost(work@) =~= out@);
        vstd::seq_lib::to_multiset_len(out@);
        vstd::seq_lib::to_multiset_len(estimates@);
    }
    out
}

/// The place of the first estimate of least cost.
fn cheapest(work: &Vec<Estimate>) -> (r: usize)
    requires
        work@.len() > 0,
    ensures
        r == first_cheapest(work@, work@.len()),
        r < work@.len(),
        forall|j: int| 0 <= j < work@.len() ==> work@[r as int].cost <= work@[j].cost,
        forall|j: int| 0 <= j < r ==> work@[r as int].cost < work@[j].cost,
{
    let mut best: usize = 0;
    let mut k: usize = 1;
    while k < work.len()
        invariant
            1 <= k <= work@.len(),
            best < k,
            best == first_cheapest(work@, k as nat),
            forall|j: int| 0 <= j < k ==> work@[best as int].cost <= work@[j].cost,
            forall|j: int| 0 <= j < best ==> work@[best as int].cost < work@[j].cost,
        decreases work@.len() - k,
    {
        if work[k].cost < work[best].cost {
            best = k;
        }
        k = k + 1;
    }
    best
}

/// The connections of the estimates, in their order.
pub fn connections_of(estimates: &Vec<Estimate>) -> (r: Vec<ConnectionID>)
    ensures
        r@ == estimate_ids(estimates@),
{
    let mut r: Vec<ConnectionID> = Vec::new();
    let mut k: usize = 0;
    while k < estimates.len()
        invariant
            k <= estimates@.len(),
            r@.len() == k,
            forall|j: int| 0 <= j < k ==> r@[j] == estimates@[j].connection_id,
        decreases estimates@.len() - k,
    {
        r.push(estimates[k].connection_id);
        k = k + 1;
    }
    assert(r@ =~= estimate_ids(estimates@));
    r
}

/// Whether `c` occurs in `v`.
pub fn contains_id(v: &Vec<ConnectionID>, c: ConnectionID) -> (r: bool)
    ensures
        r == among(v@, c),
{
    let mut k: usize = 0;
    while k < v.len()
        invariant
            k <= v@.len(),
            forall|j: int| 0 <= j < k ==> v@[j] != c,
        decreases v@.len() - k,
    {
        if v[k] == c {
            return true;
        }
        k = k + 1;
    }
    false
}

/// The order handed to the ordered solver when the other solver cannot
/// go on: the connections it has fixed, in the order in which it fixed
/// them, then all others in the order of `connections`.
pub fn derived_ordering(fix_sequence: &Vec<ConnectionID>, connections: &Vec<ConnectionID>) -> (r:
    Vec<ConnectionID>)
    ensures
        r@ == fix_sequence@ + unfixed(connections@, fix_sequence@, connections@.len()),
        forall|c: ConnectionID| among(connections@, c) ==> among(r@, c),
{
    let mut r: Vec<ConnectionID> = Vec::new();
    let mut k: usize = 0;
    while k < fix_sequence.len()
        invariant
            k <= fix_sequence@.len(),
            r@ == fix_sequence@.take(k as int),
        decreases fix_sequence@.len() - k,
    {
        r.push(fix_sequence[k]);
        assert(fix_sequence@.take(k + 1) =~= fix_sequence@.take(k as int).push(
            fix_sequence@[k as int],
        ));
        k = k + 1;
    }
    assert(fix_sequence@.take(fix_sequence@.len() as int) =~= fix_sequence@);
    assert(r@ =~= fix_sequence@ + unfixed(connections@, fix_sequence@, 0));
    let mut j: usize = 0;
    while j < connections.len()
        invariant
            j <= connections@.len(),
            r@ == fix_sequence@ + unfixed(connections@, fix_sequence@, j as nat),
            forall|t: int| 0 <= t < j ==> among(r@, #[trigger] connections@[t]),
        decreases connections@.len() - j,
    {
        let c = connections[j];
        let ghost before = r@;
        if !contains_id(fix_sequence, c) {
            r.push(c);
            assert(r@ =~= fix_sequence@ + unfixed(connections@, fix_sequence@, (j + 1) as nat));
            assert(r@[r@.len() - 1] == c);
        } else {
            proof {
                let i = choose|i: int| 0 <= i < fix_sequence@.len() && fix_sequence@[i] == c;
                assert(r@[i] == c);
            }
        }
        proof {
            assert forall|t: int| 0 <= t < j + 1 implies among(r@, #[trigger] connections@[t]) by {
                if t < j {
                    let i = choose|i: int| 0 <= i < before.len() && before[i] == connections@[t];
                    assert(r@[i] == connections@[t]);
                }
            }
        }
        j = j + 1;
    }
    proof {
        assert forall|c: ConnectionID| among(connections@, c) implies among(r@, c) by {
            let t = choose|t: int| 0 <= t < connections@.len() && connections@[t] == c;
            assert(among(r@, connections@[t]));
        }
    }
    r
}

} // verus!
