//! The order of work of one sample iteration: net by net, in rounds, one
//! candidate at a time.

use vstd::prelude::*;
use crate::pcb_problem::{ConnectionID, NetName};

verus! {

/// A net with those of its connections that are not fixed.
pub struct NetPlan {
    pub net_name: NetName,
    pub connections: Vec<ConnectionID>,
}

/// What is to be done next in a sample iteration.
#[derive(Debug, Clone, Copy, PartialEq, Eq, Structural)]
pub enum SampleWork {
    /// A round starts for the net at this place: the obstacles that the
    /// other nets stand for are to be drawn.
    Obstacles { net: usize },
    /// A candidate is to be found for this connection of the net at this
    /// place, unless one of its candidates already fits the obstacles.
    Generate { net: usize, connection: ConnectionID },
    /// Every net has had its rounds.
    Done,
}

/// Where a sample iteration stands.
pub struct SamplePlan {
    pub nets: Vec<NetPlan>,
    /// How many candidates a connection may get in this iteration.
    pub quota: usize,
    /// How many rounds a net may have.
    pub max_generation_attempts: usize,
    /// Place of the net whose rounds are under way.
    pub net: usize,
    /// How many rounds that net has had, the one under way included.
    pub attempts: usize,
    /// Whether a round is under way.
    pub in_round: bool,
    /// Place, among the connections of the net, of the connection whose
    /// turn it is in the round under way.
    pub cursor: usize,
    /// For each connection of the net, how many candidates it got in
    /// this iteration.
    pub generated: Vec<usize>,
}

/// Where a sample iteration stands, as plain values.
pub struct PlanView {
    pub nets: Seq<Seq<ConnectionID>>,
    pub quota: usize,
    pub max_generation_attempts: nat,
    pub net: nat,
    pub attempts: nat,
    pub in_round: bool,
    pub cursor: nat,
    pub generated: Seq<usize>,
}

/// The connections of each net.
pub open spec fn nets_view(nets: Seq<NetPlan>) -> Seq<Seq<ConnectionID>> {
    Seq::new(nets.len(), |i: int| nets[i].connections@)
}

impl View for SamplePlan {
    type V = PlanView;

    open spec fn view(&self) -> PlanView {
        PlanView {
            nets: nets_view(self.nets@),
            quota: self.quota,
            max_generation_attempts: self.max_generation_attempts as nat,
            net: self.net as nat,
            attempts: self.attempts as nat,
            in_round: self.in_round,
            cursor: self.cursor as nat,
            generated: self.generated@,
        }
    }
}

/// Whether some connection has fewer candidates than the quota.
pub open spec fn needy(generated: Seq<usize>, quota: usize) -> bool {
    exists|i: int| 0 <= i < generated.len() && #[trigger] generated[i] < quota
}

/// How many connections the net under way has; none once all nets are
/// done.
pub open spec fn width(p: PlanView) -> nat {
    if p.net < p.nets.len() {
        p.nets[p.net as int].len()
    } else {
        0
    }
}

/// Whether the plan is consistent: the counts belong to the connections
/// of the net under way, none exceeds the quota, the rounds are within
/// their limit, and the cursor is within the net.
pub open spec fn plan_ok(p: PlanView) -> bool {
    &&& p.net <= p.nets.len()
    &&& p.generated.len() == width(p)
    &&& p.cursor <= width(p)
    &&& p.attempts <= p.max_generation_attempts
    &&& (p.in_round ==> p.net < p.nets.len() && p.attempts >= 1)
    &&& forall|i: int| 0 <= i < p.generated.len() ==> #[trigger] p.generated[i] <= p.quota
}

/// The plan once the turn of the connection at the cursor is over.
pub open spec fn skipped(p: PlanView) -> PlanView {
    PlanView { cursor: p.cursor + 1, ..p }
}

/// The plan once the round under way is over.
pub open spec fn round_over(p: PlanView) -> PlanView {
    PlanView { in_round: false, ..p }
}

/// The plan at the start of a new round.
pub open spec fn round_started(p: PlanView) -> PlanView {
    PlanView { in_round: true, cursor: 0, attempts: p.attempts + 1, ..p }
}

/// The plan at the next net.
pub open spec fn net_started(p: PlanView) -> PlanView {
    PlanView {
        net: p.net + 1,
        attempts: 0,
        in_round: false,
        cursor: 0,
        generated: Seq::new(
            if p.net + 1 < p.nets.len() {
                p.nets[(p.net + 1) as int].len()
            } else {
                0
            },
            |i: int| 0usize,
        ),
        ..p
    }
}

/// What comes next and where the plan then stands. In a round, the
/// connections of the net have their turn in order, those with a full
/// quota being passed over. After a round, another one starts as long as
/// the net has had fewer rounds than allowed and one of its connections
/// is short of the quota; else the next net starts.
pub open spec fn plan_next(p: PlanView) -> (SampleWork, PlanView)
    decreases p.nets.len() - p.net, if p.in_round { 1 + width(p) - p.cursor } else { 0 },
    when plan_ok(p)
{
    if p.net >= p.nets.len() {
        (SampleWork::Done, p)
    } else if p.in_round {
        if p.cursor < width(p) {
            if p.generated[p.cursor as int] < p.quota {
                (
                    SampleWork::Generate {
                        net: p.net as usize,
                        connection: p.nets[p.net as int][p.cursor as int],
                    },
                    p,
                )
            } else {
                plan_next(skipped(p))
            }
        } else {
            plan_next(round_over(p))
        }
    } else if p.attempts < p.max_generation_attempts && needy(p.generated, p.quota) {
        (SampleWork::Obstacles { net: p.net as usize }, round_started(p))
    } else {
        plan_next(net_started(p))
    }
}

/// The plan once the work on the connection at the cursor is reported:
/// a candidate found counts for the connection, and the turn passes on.
pub open spec fn reported(p: PlanView, found: bool) -> PlanView {
    PlanView {
        cursor: p.cursor + 1,
        generated: if found {
            p.generated.update(p.cursor as int, (p.generated[p.cursor as int] + 1) as usize)
        } else {
            p.generated
        },
        ..p
    }
}

fn zeros(n: usize) -> (r: Vec<usize>)
    ensures
        r@ == Seq::new(n as nat, |i: int| 0usize),
{
    let mut r: Vec<usize> = Vec::new();
    let mut k: usize = 0;
    while k < n
        invariant
            k <= n,
            r@.len() == k,
            forall|i: int| 0 <= i < k ==> r@[i] == 0,
        decreases n - k,
    {
        r.push(0);
        k = k + 1;
    }
    assert(r@ =~= Seq::new(n as nat, |i: int| 0usize));
    r
}

fn exec_needy(generated: &Vec<usize>, quota: usize) -> (r: bool)
    ensures
        r == needy(generated@, quota),
{
    let mut k: usize = 0;
    while k < generated.len()
        invariant
            k <= generated@.len(),
            forall|i: int| 0 <= i < k ==> generated@[i] >= quota,
        decreases generated@.len() - k,
    {
        if generated[k] < quota {
            return true;
        }
        k = k + 1;
    }
    false
}

impl SamplePlan {
    /// The plan at the start of a sample iteration.
    pub fn new(nets: Vec<NetPlan>, quota: usize, max_generation_attempts: usize) -> (r: SamplePlan)
        ensures
            r@.nets == nets_view(nets@),
            r@.quota == quota,
            r@.max_generation_attempts == max_generation_attempts,
            r@.net == 0,
            r@.attempts == 0,
            !r@.in_round,
            r@.cursor == 0,
            plan_ok(r@),
            forall|i: int| 0 <= i < r@.generated.len() ==> r@.generated[i] == 0,
    {
        let first = if nets.len() > 0 {
            nets[0].connections.len()
        } else {
            0
        };
        let generated = zeros(first);
        let r = SamplePlan {
            nets,
            quota,
            max_generation_attempts,
            net: 0,
            attempts: 0,
            in_round: false,
            cursor: 0,
            generated,
        };
        assert(r@.nets.len() > 0 ==> r@.nets[0] == r.nets@[0].connections@);
        r
    }

    /// Says what is to be done next and moves the plan there.
    pub fn next_work(&mut self) -> (r: SampleWork)
        requires
            plan_ok(old(self)@),
        ensures
            r == plan_next(old(self)@).0,
            final(self)@ == plan_next(old(self)@).1,
            plan_ok(final(self)@),
            ({
                let q = final(self)@;
                match r {
                    SampleWork::Obstacles { net } => net == q.net && net < q.nets.len() && q.in_round
                        && q.nets[net as int].len() > 0,
                    SampleWork::Generate { net, connection } => net == q.net && q.in_round
                        && q.cursor < width(q) && connection == q.nets[net as int][q.cursor as int]
                        && q.generated[q.cursor as int] < q.quota,
                    SampleWork::Done => q.net == q.nets.len(),
                }
            }),
    {
        loop
            invariant
                plan_ok(self@),
                plan_next(self@) == plan_next(old(self)@),
            decreases
                    self@.nets.len() - self@.net,
                    if self@.in_round {
                        1 + width(self@) - self@.cursor
                    } else {
                        0
                    },
        {
            if self.net >= self.nets.len() {
                return SampleWork::Done;
            }
            let ghost p = self@;
            assert(p.nets[p.net as int] == self.nets@[self.net as int].connections@);
            if self.in_round {
                if self.cursor < self.generated.len() {
                    if self.generated[self.cursor] < self.quota {
                        return SampleWork::Generate {
                            net: self.net,
                            connection: self.nets[self.net].connections[self.cursor],
                        };
                    }
                    self.cursor = self.cursor + 1;
                    assert(self@ == skipped(p));
                } else {
                    self.in_round = false;
                    assert(self@ == round_over(p));
                }
            } else if self.attempts < self.max_generation_attempts && exec_needy(
                &self.generated,
                self.quota,
            ) {
                self.attempts = self.attempts + 1;
                self.in_round = true;
                self.cursor = 0;
                assert(self@ == round_started(p));
                return SampleWork::Obstacles { net: self.net };
            } else {
                self.net = self.net + 1;
                self.attempts = 0;
                self.cursor = 0;
                let n = if self.net < self.nets.len() {
                    self.nets[self.net].connections.len()
                } else {
                    0
                };
                self.generated = zeros(n);
                proof {
                    if p.net + 1 < p.nets.len() {
                        assert(p.nets[(p.net + 1) as int] == self.nets@[(p.net + 1) as int].connections@);
                    }
                    assert(self@ == net_started(p));
                }
            }
        }
    }

    /// Takes note of what the work on the connection at the cursor led
    /// to: whether a new candidate was found for it.
    pub fn report(&mut self, found: bool)
        requires
            plan_ok(old(self)@),
            old(self)@.in_round,
            old(self)@.cursor < width(old(self)@),
            old(self)@.generated[old(self)@.cursor as int] < old(self)@.quota,
        ensures
            final(self)@ == reported(old(self)@, found),
            plan_ok(final(self)@),
    {
        let len = self.generated.len();
        if found {
            let n = self.generated[self.cursor];
            self.generated.set(self.cursor, n + 1);
        }
        self.cursor = self.cursor + 1;
    }
}

/// A net without connections gets no work: the plan passes it over.
pub proof fn lemma_idle_net_skipped(p: PlanView)
    requires
        plan_ok(p),
        p.net < p.nets.len(),
        p.nets[p.net as int].len() == 0,
        !p.in_round,
    ensures
        plan_next(p) == plan_next(net_started(p)),
{
    assert(!needy(p.generated, p.quota));
    assert(plan_ok(net_started(p)));
}

/// Without nets there is nothing to do.
pub proof fn lemma_no_nets(p: PlanView)
    requires
        plan_ok(p),
        p.nets.len() == 0,
    ensures
        plan_next(p).0 == SampleWork::Done,
{
}

} // verus!
