//! The reactive graph: versioned nodes, the capture stack that records what an
//! evaluation reads, and the per-holder queues of nodes that changed.

pub mod bindings;
pub mod bond;
pub mod cage;
pub mod lotus;
pub mod runtime;
pub mod scheduler;

pub use crate::reflow::bond::Bond;
pub use crate::reflow::cage::Cage;
pub use crate::reflow::lotus::Lotus;
pub use crate::reflow::scheduler::{batch, schedule, untrack};

use crate::id_set::IdSet;
use crate::reflow::bindings::{distinct, BindingView};
use crate::reflow::bond::evaluated;
use crate::reflow::runtime::Runtime;
use vstd::prelude::*;

verus! {

/// A counter that hands out identifiers in increasing order, starting at 1.
pub struct IdSource {
    next: u64,
}

impl IdSource {
    /// The identifier that the next draw gives.
    pub closed spec fn upcoming(&self) -> u64 {
        self.next
    }

    pub fn new() -> (source: IdSource)
        ensures
            source.upcoming() == 1,
    {
        IdSource { next: 1 }
    }

    /// Whether another identifier can be drawn.
    pub fn has_next(&self) -> (b: bool)
        ensures
            b == (self.upcoming() < u64::MAX),
    {
        self.next < u64::MAX
    }

    pub(crate) fn draw(&mut self) -> (id: u64)
        requires
            old(self).upcoming() < u64::MAX,
        ensures
            id == old(self).upcoming(),
            final(self).upcoming() == id + 1,
    {
        let id = self.next;
        self.next = id + 1;
        id
    }
}

/// Names one node of the graph. Identifiers grow with every node made and are
/// never handed out twice; 0 is kept for values that are no node.
#[derive(Debug, Clone, Copy, PartialEq, Eq, Structural, Hash)]
pub struct RevisableId(pub u64);

impl View for RevisableId {
    type V = u64;

    open spec fn view(&self) -> u64 {
        self.0
    }
}

impl RevisableId {
    /// Draws the next node identifier from `source`.
    pub fn next(source: &mut IdSource) -> (id: RevisableId)
        requires
            old(source).upcoming() < u64::MAX,
        ensures
            id@ == old(source).upcoming(),
            final(source).upcoming() == id@ + 1,
    {
        RevisableId(source.draw())
    }

    /// The number behind the identifier.
    pub fn value(&self) -> (n: u64)
        ensures
            n == self@,
    {
        self.0
    }
}

/// One node of the graph as contracts see it.
#[verifier::ext_equal]
pub struct NodeView<T> {
    /// A derived node (a bond); else a cell that is written directly (a cage).
    pub is_bond: bool,
    /// A cage counts its writes here, starting at 1. A bond keeps the sum of
    /// the versions that its dependencies had when its value was computed.
    pub version: nat,
    pub value: T,
    /// The views that re-render when the node changes.
    pub bindings: Seq<BindingView>,
    /// The cages that the value of a bond was computed from.
    pub gathers: Seq<u64>,
}

/// The scheduling state of one holder.
#[verifier::ext_equal]
pub struct HolderView {
    pub running: bool,
    pub batching: bool,
    pub untracking: bool,
    /// The nodes whose views the scheduler re-renders in the current pass.
    pub revising: Seq<u64>,
    /// The nodes that changed while a pass was running.
    pub pending: Seq<u64>,
    /// Whether the last run of the scheduler was cut short with writes still
    /// waiting.
    pub cut_short: bool,
}

/// The state of a holder that has done nothing yet.
pub open spec fn idle_holder() -> HolderView {
    HolderView {
        running: false,
        batching: false,
        untracking: false,
        revising: Seq::empty(),
        pending: Seq::empty(),
        cut_short: false,
    }
}

/// The whole runtime as contracts see it. The node with identifier `id` stands
/// at position `id - 1`; `holders` is defined on every holder number.
#[verifier::ext_equal]
pub struct RuntimeView<T> {
    pub nodes: Seq<NodeView<T>>,
    pub holders: Map<u64, HolderView>,
    /// The open capture frames, the innermost last.
    pub layers: Seq<Seq<u64>>,
}

/// `layers` after a read of node `id`: every frame that lacks it gets it at its end.
pub open spec fn recorded(layers: Seq<Seq<u64>>, id: u64) -> Seq<Seq<u64>> {
    Seq::new(
        layers.len(),
        |i: int|
            if layers[i].contains(id) {
                layers[i]
            } else {
                layers[i].push(id)
            },
    )
}

/// `ids` with `id` added at the end unless it is there.
pub open spec fn with_id(ids: Seq<u64>, id: u64) -> Seq<u64> {
    if ids.contains(id) {
        ids
    } else {
        ids.push(id)
    }
}

impl<T> RuntimeView<T> {
    pub open spec fn has_node(self, id: u64) -> bool {
        1 <= id <= self.nodes.len()
    }

    pub open spec fn node(self, id: u64) -> NodeView<T> {
        self.nodes[id - 1]
    }

    pub open spec fn is_cage(self, id: u64) -> bool {
        self.has_node(id) && !self.node(id).is_bond
    }

    pub open spec fn is_bond(self, id: u64) -> bool {
        self.has_node(id) && self.node(id).is_bond
    }

    pub open spec fn holder(self, h: u64) -> HolderView {
        self.holders[h]
    }

    /// The holder that a node belongs to: that of its first subscriber.
    pub open spec fn owner(self, id: u64) -> Option<u64> {
        if self.node(id).bindings.len() > 0 {
            Some(self.node(id).bindings[0].view.holder)
        } else {
            None
        }
    }

    /// The sum of the versions of the nodes `ids`.
    pub open spec fn dep_sum(self, ids: Seq<u64>) -> nat
        decreases ids.len(),
    {
        if ids.len() == 0 {
            0
        } else {
            self.dep_sum(ids.drop_last()) + self.node(ids.last()).version
        }
    }

    /// A bond's value is current when its version is the sum of the versions of
    /// its dependencies.
    pub open spec fn is_current(self, bond: u64) -> bool {
        self.node(bond).version == self.dep_sum(self.node(bond).gathers)
    }

    /// `ids` names cages of this runtime, none of them twice.
    pub open spec fn cages(self, ids: Seq<u64>) -> bool {
        &&& ids.no_duplicates()
        &&& forall|i: int| 0 <= i < ids.len() ==> self.is_cage(#[trigger] ids[i])
    }

    pub open spec fn node_ok(self, n: NodeView<T>) -> bool {
        &&& distinct(n.bindings)
        &&& forall|i: int|
            0 <= i < n.bindings.len() ==> 1 <= (#[trigger] n.bindings[i]).count <= usize::MAX
        &&& self.cages(n.gathers)
        &&& !n.is_bond ==> n.gathers.len() == 0 && 1 <= n.version <= usize::MAX
        &&& n.version <= u128::MAX
    }

    pub open spec fn holder_ok(self, hv: HolderView) -> bool {
        &&& self.cages(hv.revising)
        &&& self.cages(hv.pending)
    }

    pub open spec fn wf(self) -> bool {
        &&& self.nodes.len() < u64::MAX
        &&& forall|i: int| 0 <= i < self.nodes.len() ==> self.node_ok(#[trigger] self.nodes[i])
        &&& forall|h: u64| self.holders.dom().contains(h)
        &&& forall|h: u64| self.holder_ok(#[trigger] self.holders[h])
        &&& forall|i: int| 0 <= i < self.layers.len() ==> self.cages(#[trigger] self.layers[i])
    }

    pub open spec fn with_node(self, id: u64, n: NodeView<T>) -> RuntimeView<T> {
        RuntimeView { nodes: self.nodes.update(id - 1, n), ..self }
    }

    pub open spec fn with_holder(self, h: u64, hv: HolderView) -> RuntimeView<T> {
        RuntimeView { holders: self.holders.insert(h, hv), ..self }
    }

    pub open spec fn with_layers(self, layers: Seq<Seq<u64>>) -> RuntimeView<T> {
        RuntimeView { layers, ..self }
    }
}

/// The frames that are open while an expression is evaluated. Every node read
/// meanwhile is recorded in each of them.
pub struct TrackingStack {
    layers: Vec<IdSet>,
}

impl View for TrackingStack {
    type V = Seq<Seq<u64>>;

    closed spec fn view(&self) -> Seq<Seq<u64>> {
        Seq::new(self.layers.len() as nat, |i: int| self.layers[i]@)
    }
}

impl TrackingStack {
    /// No frame names a node twice.
    pub open spec fn wf(&self) -> bool {
        forall|i: int| 0 <= i < self@.len() ==> (#[trigger] self@[i]).no_duplicates()
    }

    pub fn new() -> (stack: TrackingStack)
        ensures
            stack@ == Seq::<Seq<u64>>::empty(),
            stack.wf(),
    {
        let stack = TrackingStack { layers: Vec::new() };
        assert(stack@ =~= Seq::<Seq<u64>>::empty());
        stack
    }

    /// No frame is open.
    pub fn is_idle(&self) -> (b: bool)
        ensures
            b == (self@.len() == 0),
    {
        self.layers.len() == 0
    }

    /// Opens an empty frame.
    pub fn push_layer(&mut self)
        requires
            old(self).wf(),
        ensures
            final(self).wf(),
            final(self)@ == old(self)@.push(Seq::<u64>::empty()),
    {
        self.layers.push(IdSet::new());
        assert(self@ =~= old(self)@.push(Seq::<u64>::empty()));
    }

    /// Closes the innermost frame and gives what it recorded.
    pub fn pop_layer(&mut self) -> (layer: Option<IdSet>)
        requires
            old(self).wf(),
        ensures
            final(self).wf(),
            old(self)@.len() == 0 ==> layer.is_none() && final(self)@ == old(self)@,
            old(self)@.len() > 0 ==> layer.is_some() && layer.unwrap()@ == old(self)@.last()
                && layer.unwrap().wf() && final(self)@ == old(self)@.drop_last(),
    {
        let layer = self.layers.pop();
        proof {
            if old(self)@.len() > 0 {
                assert(self@ =~= old(self)@.drop_last());
                assert(layer.unwrap()@ == old(self)@[old(self)@.len() - 1]);
            } else {
                assert(self@ =~= old(self)@);
            }
        }
        layer
    }

    /// Records a read of node `id` in every open frame.
    pub fn track(&mut self, id: u64)
        requires
            old(self).wf(),
        ensures
            final(self).wf(),
            final(self)@ == recorded(old(self)@, id),
    {
        let n = self.layers.len();
        let mut i: usize = 0;
        assert forall|j: int| 0 <= j < n implies (#[trigger] self.layers[j]).wf() by {
            assert(self@[j] == self.layers[j]@);
        }
        while i < n
            invariant
                i <= n,
                n == self.layers.len(),
                n == old(self)@.len(),
                forall|j: int| 0 <= j < n ==> (#[trigger] self.layers[j]).wf(),
                forall|j: int| 0 <= j < i ==> (#[trigger] self.layers[j])@ == recorded(old(self)@, id)[j],
                forall|j: int| i <= j < n ==> (#[trigger] self.layers[j])@ == old(self)@[j],
            decreases n - i,
        {
            let ghost before = self.layers@;
            self.layers[i].insert(id);
            assert(forall|j: int| 0 <= j < n && j != i ==> self.layers[j] == before[j]);
            i = i + 1;
        }
        assert(self@ =~= recorded(old(self)@, id));
    }
}

/// Evaluates `func` in a capture frame of its own and gives what it read
/// together with what it returned.
pub fn gather<T, R, F: FnOnce(&mut Runtime<T>) -> R>(rt: &mut Runtime<T>, func: F) -> (r: (IdSet, R))
    requires
        old(rt).wf(),
        forall|m: &mut Runtime<T>|
            mut_ref_current(m)@ == old(rt)@.with_layers(old(rt)@.layers.push(Seq::empty()))
                && mut_ref_current(m).wf() ==> call_requires(func, (m,)),
        forall|m: &mut Runtime<T>, out: R| #[trigger]
            call_ensures(func, (m,), out) ==> evaluated(mut_ref_current(m), mut_ref_future(m)),
    ensures
        final(rt).wf(),
        r.0.wf(),
        exists|m: &mut Runtime<T>, out: R|
            mut_ref_current(m)@ == old(rt)@.with_layers(old(rt)@.layers.push(Seq::empty()))
                && #[trigger] call_ensures(func, (m,), out) && out == r.1
                    && r.0@ == mut_ref_future(m)@.layers.last()
                    && final(rt)@ == mut_ref_future(m)@.with_layers(
                mut_ref_future(m)@.layers.drop_last(),
            ),
{
    rt.push_layer();
    let result = func(rt);
    let ghost mid = rt@;
    let gathers = rt.pop_layer().unwrap();
    proof {
        assert(gathers@ == mid.layers.last());
        assert(rt@ == mid.with_layers(mid.layers.drop_last()));
    }
    (gathers, result)
}

} // verus!
