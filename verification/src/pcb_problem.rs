//! Names, identifiers and layer sets of a routing problem, and the traces
//! that a solution fixes.

use vstd::prelude::*;
use crate::trace_path::{PathView, TracePath};

verus! {

/// Name of a pad.
#[derive(Debug, Clone, PartialEq, Eq, PartialOrd, Ord, Hash)]
pub struct PadName(pub String);

/// Name of a net.
#[derive(Debug, Clone, PartialEq, Eq, PartialOrd, Ord, Hash)]
pub struct NetName(pub String);

/// Name of a net class.
#[derive(Debug, Clone, PartialEq, Eq, PartialOrd, Ord, Hash)]
pub struct NetClassName(pub String);

/// Identifier of a connection, unique over the whole problem.
#[derive(Copy, Debug, Clone, PartialEq, Eq, Structural, PartialOrd, Ord, Hash)]
pub struct ConnectionID(pub usize);

/// Identifier of a candidate trace of the probabilistic model.
#[derive(Copy, Debug, Clone, PartialEq, Eq, Structural, PartialOrd, Ord, Hash)]
pub struct ProbaTraceID(pub usize);

/// One pair of pads of a net that a trace has to join.
#[derive(Debug, Clone)]
pub struct Connection {
    pub net_name: NetName,
    pub connection_id: ConnectionID,
    pub start_pad: PadName,
    pub end_pad: PadName,
}

/// The copper layers on which a pad can be reached.
#[derive(Debug, Clone, Copy, PartialEq, Eq, Structural)]
pub enum PadLayer {
    Front,
    Back,
    All,
}

/// A trace that the solver has committed to.
#[derive(Debug, Clone)]
pub struct FixedTrace {
    pub net_name: NetName,
    pub connection_id: ConnectionID,
    pub trace_path: TracePath,
}

/// What a fixed trace holds, as plain values.
pub struct FixedTraceView {
    pub net_name: Seq<char>,
    pub connection_id: ConnectionID,
    pub trace_path: PathView,
}

impl View for FixedTrace {
    type V = FixedTraceView;

    open spec fn view(&self) -> FixedTraceView {
        FixedTraceView {
            net_name: self.net_name@,
            connection_id: self.connection_id,
            trace_path: self.trace_path@,
        }
    }
}

/// The plain values of a list of fixed traces.
pub open spec fn traces_view(v: Seq<FixedTrace>) -> Seq<FixedTraceView> {
    Seq::new(v.len(), |i: int| v[i]@)
}

/// The connections of a list of fixed traces.
pub open spec fn trace_ids(v: Seq<FixedTraceView>) -> Seq<ConnectionID> {
    Seq::new(v.len(), |i: int| v[i].connection_id)
}

impl FixedTrace {
    /// A copy of the trace.
    pub fn duplicate(&self) -> (r: FixedTrace)
        ensures
            r@ == self@,
    {
        FixedTrace {
            net_name: NetName(self.net_name.0.clone()),
            connection_id: self.connection_id,
            trace_path: self.trace_path.duplicate(),
        }
    }
}

/// A copy of a list of fixed traces.
pub fn duplicate_traces(v: &Vec<FixedTrace>) -> (r: Vec<FixedTrace>)
    ensures
        traces_view(r@) == traces_view(v@),
{
    let mut r: Vec<FixedTrace> = Vec::new();
    let mut k: usize = 0;
    while k < v.len()
        invariant
            k <= v@.len(),
            r@.len() == k,
            forall|j: int| 0 <= j < k ==> (#[trigger] r@[j])@ == v@[j]@,
        decreases v@.len() - k,
    {
        r.push(v[k].duplicate());
        k = k + 1;
    }
    assert(traces_view(r@) =~= traces_view(v@));
    r
}

/// A copy of a list of connections.
pub fn duplicate_ids(v: &Vec<ConnectionID>) -> (r: Vec<ConnectionID>)
    ensures
        r@ == v@,
{
    let mut r: Vec<ConnectionID> = Vec::new();
    let mut k: usize = 0;
    while k < v.len()
        invariant
            k <= v@.len(),
            r@ == v@.take(k as int),
        decreases v@.len() - k,
    {
        r.push(v[k]);
        assert(v@.take(k + 1) =~= v@.take(k as int).push(v@[k as int]));
        k = k + 1;
    }
    assert(v@.take(v@.len() as int) =~= v@);
    r
}

impl View for NetName {
    type V = Seq<char>;

    open spec fn view(&self) -> Seq<char> {
        self.0@
    }
}

impl View for PadName {
    type V = Seq<char>;

    open spec fn view(&self) -> Seq<char> {
        self.0@
    }
}

impl NetName {
    /// Whether two net names are the same text.
    pub fn same_as(&self, other: &NetName) -> (r: bool)
        ensures
            r == (self@ == other@),
    {
        self.0 == other.0
    }
}

impl PadName {
    /// Whether two pad names are the same text.
    pub fn same_as(&self, other: &PadName) -> (r: bool)
        ensures
            r == (self@ == other@),
    {
        self.0 == other.0
    }
}

impl PadLayer {
    /// First layer of the set on a board of `num_layers` layers.
    pub open spec fn first_layer(self, num_layers: int) -> int {
        match self {
            PadLayer::Front => 0,
            PadLayer::Back => num_layers - 1,
            PadLayer::All => 0,
        }
    }

    /// One past the last layer of the set on a board of `num_layers`
    /// layers.
    pub open spec fn end_layer(self, num_layers: int) -> int {
        match self {
            PadLayer::Front => 1,
            PadLayer::Back => num_layers,
            PadLayer::All => num_layers,
        }
    }

    /// Whether `layer` belongs to the set.
    pub open spec fn has(self, layer: int, num_layers: int) -> bool {
        self.first_layer(num_layers) <= layer < self.end_layer(num_layers)
    }

    /// The layers of the set in ascending order: the front layer, the
    /// back layer, or all of them.
    pub fn get_iter(&self, num_layers: usize) -> (r: Vec<usize>)
        requires
            *self == PadLayer::Back ==> num_layers >= 1,
        ensures
            r@.len() == self.end_layer(num_layers as int) - self.first_layer(num_layers as int),
            forall|k: int|
                0 <= k < r@.len() ==> #[trigger] r@[k] == self.first_layer(num_layers as int) + k,
    {
        let (lo, hi) = match self {
            PadLayer::Front => (0, 1),
            PadLayer::Back => (num_layers - 1, num_layers),
            PadLayer::All => (0, num_layers),
        };
        let mut r: Vec<usize> = Vec::new();
        let mut k: usize = lo;
        while k < hi
            invariant
                lo <= k <= hi || (hi <= lo && k == lo),
                lo == self.first_layer(num_layers as int),
                hi == self.end_layer(num_layers as int),
                r@.len() == k - lo,
                forall|j: int| 0 <= j < r@.len() ==> #[trigger] r@[j] == lo + j,
            decreases hi - k,
        {
            r.push(k);
            k = k + 1;
        }
        r
    }

    /// Whether `layer` belongs to the set on a board of `num_layers`
    /// layers.
    pub fn contains(&self, layer: usize, num_layers: usize) -> (r: bool)
        ensures
            r == self.has(layer as int, num_layers as int),
    {
        match self {
            PadLayer::Front => layer == 0,
            PadLayer::Back => num_layers >= 1 && layer == num_layers - 1,
            PadLayer::All => layer < num_layers,
        }
    }
}

} // verus!
