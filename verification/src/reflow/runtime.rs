//! The runtime: the arena of nodes, the state of every holder and the capture
//! stack, with the elementary steps that the cells and the scheduler are made of.

use crate::holder::HolderId;
use crate::id_set::IdSet;
use crate::reflow::bindings::{
    count_of, has_view, lemma_without_view, loosened, with_binding, with_view, without_view,
    Bindings,
};
use crate::reflow::{
    idle_holder, recorded, with_id, HolderView, IdSource, NodeView, RevisableId, RuntimeView,
    TrackingStack,
};
use crate::view::{ViewId, ViewKey};
use std::collections::HashMap;
use vstd::prelude::*;

verus! {

broadcast use vstd::std_specs::hash::group_hash_axioms;

struct Node<T> {
    is_bond: bool,
    version: u128,
    value: T,
    bindings: Bindings,
    gathers: IdSet,
}

struct HolderState {
    running: bool,
    batching: bool,
    untracking: bool,
    revising: IdSet,
    pending: IdSet,
    cut_short: bool,
}

spec fn node_view<T>(n: Node<T>) -> NodeView<T> {
    NodeView {
        is_bond: n.is_bond,
        version: n.version as nat,
        value: n.value,
        bindings: n.bindings@,
        gathers: n.gathers@,
    }
}

spec fn holder_view(s: HolderState) -> HolderView {
    HolderView {
        running: s.running,
        batching: s.batching,
        untracking: s.untracking,
        revising: s.revising@,
        pending: s.pending@,
        cut_short: s.cut_short,
    }
}

fn idle_state() -> (s: HolderState)
    ensures
        holder_view(s) == idle_holder(),
{
    HolderState {
        running: false,
        batching: false,
        untracking: false,
        revising: IdSet::new(),
        pending: IdSet::new(),
        cut_short: false,
    }
}

/// The reactive graph of one process, with the scheduling state of each holder.
pub struct Runtime<T> {
    nodes: Vec<Node<T>>,
    ids: IdSource,
    holders: HashMap<u64, HolderState>,
    stack: TrackingStack,
}

impl<T> View for Runtime<T> {
    type V = RuntimeView<T>;

    closed spec fn view(&self) -> RuntimeView<T> {
        RuntimeView {
            nodes: Seq::new(self.nodes.len() as nat, |i: int| node_view(self.nodes[i])),
            holders: Map::new(
                |h: u64| true,
                |h: u64|
                    if self.holders@.contains_key(h) {
                        holder_view(self.holders@[h])
                    } else {
                        idle_holder()
                    },
            ),
            layers: self.stack@,
        }
    }
}

/// Cages stay cages: what names cages of `pre` names cages of `post`.
pub proof fn lemma_cages_stay<T>(pre: RuntimeView<T>, post: RuntimeView<T>, ids: Seq<u64>)
    requires
        pre.cages(ids),
        pre.nodes.len() <= post.nodes.len(),
        forall|i: int| 0 <= i < pre.nodes.len()
            ==> (#[trigger] post.nodes[i]).is_bond == pre.nodes[i].is_bond,
    ensures
        post.cages(ids),
{
    assert forall|i: int| 0 <= i < ids.len() implies post.is_cage(#[trigger] ids[i]) by {
        assert(pre.is_cage(ids[i]));
        assert(post.nodes[ids[i] - 1].is_bond == pre.nodes[ids[i] - 1].is_bond);
    }
}

/// A runtime stays well formed when nodes are only added or changed in ways
/// that keep each of them in order, and the holders and frames stay as they were.
pub proof fn lemma_wf_nodes<T>(pre: RuntimeView<T>, post: RuntimeView<T>)
    requires
        pre.wf(),
        post.holders == pre.holders,
        post.layers == pre.layers,
        pre.nodes.len() <= post.nodes.len() < u64::MAX,
        forall|i: int| 0 <= i < pre.nodes.len()
            ==> (#[trigger] post.nodes[i]).is_bond == pre.nodes[i].is_bond,
        forall|i: int|
            0 <= i < post.nodes.len() ==> (#[trigger] post.nodes[i] == pre.nodes[i] && i
                < pre.nodes.len()) || post.node_ok(post.nodes[i]),
    ensures
        post.wf(),
{
    assert forall|i: int| 0 <= i < post.nodes.len() implies post.node_ok(
        #[trigger] post.nodes[i],
    ) by {
        if post.nodes[i] == pre.nodes[i] && i < pre.nodes.len() {
            assert(pre.node_ok(pre.nodes[i]));
            lemma_cages_stay(pre, post, pre.nodes[i].gathers);
        }
    }
    assert forall|h: u64| post.holder_ok(#[trigger] post.holders[h]) by {
        assert(pre.holder_ok(pre.holders[h]));
        lemma_cages_stay(pre, post, pre.holders[h].revising);
        lemma_cages_stay(pre, post, pre.holders[h].pending);
    }
    assert forall|i: int| 0 <= i < post.layers.len() implies post.cages(
        #[trigger] post.layers[i],
    ) by {
        assert(pre.cages(pre.layers[i]));
        lemma_cages_stay(pre, post, pre.layers[i]);
    }
}

/// Adding one cage at the end of a list of distinct cages that lacks it keeps
/// the list one of distinct cages.
pub proof fn lemma_with_id<T>(rt: RuntimeView<T>, ids: Seq<u64>, id: u64)
    requires
        rt.cages(ids),
        rt.is_cage(id),
    ensures
        rt.cages(with_id(ids, id)),
{
    let out = with_id(ids, id);
    if !ids.contains(id) {
        assert forall|i: int, j: int| 0 <= i < out.len() && 0 <= j < out.len() && i != j implies out[i]
            != out[j] by {
            if i < ids.len() && j < ids.len() {
            } else if i < ids.len() {
                assert(ids.contains(ids[i]));
            } else {
                assert(ids.contains(ids[j]));
            }
        }
    }
}

/// Changing one node for another of the same kind that is in order keeps the
/// runtime well formed.
pub proof fn lemma_with_node<T>(pre: RuntimeView<T>, id: u64, n: NodeView<T>)
    requires
        pre.wf(),
        pre.has_node(id),
        n.is_bond == pre.node(id).is_bond,
        pre.node_ok(n),
    ensures
        pre.with_node(id, n).wf(),
{
    let post = pre.with_node(id, n);
    lemma_cages_stay(pre, post, n.gathers);
    lemma_wf_nodes(pre, post);
}

/// Changing the state of one holder for another that is in order keeps the
/// runtime well formed.
pub proof fn lemma_with_holder<T>(pre: RuntimeView<T>, h: u64, hv: HolderView)
    requires
        pre.wf(),
        pre.holder_ok(hv),
    ensures
        pre.with_holder(h, hv).wf(),
{
    let post = pre.with_holder(h, hv);
    assert forall|i: int| 0 <= i < post.nodes.len() implies post.node_ok(
        #[trigger] post.nodes[i],
    ) by {
        assert(pre.node_ok(pre.nodes[i]));
    }
    assert forall|k: u64| post.holder_ok(#[trigger] post.holders[k]) by {
        if k != h {
            assert(pre.holder_ok(pre.holders[k]));
        }
    }
    assert forall|i: int| 0 <= i < post.layers.len() implies post.cages(
        #[trigger] post.layers[i],
    ) by {
        assert(pre.cages(pre.layers[i]));
    }
}

/// Changing the frames for others that name distinct cages keeps the runtime
/// well formed.
pub proof fn lemma_with_layers<T>(pre: RuntimeView<T>, layers: Seq<Seq<u64>>)
    requires
        pre.wf(),
        forall|i: int| 0 <= i < layers.len() ==> pre.cages(#[trigger] layers[i]),
    ensures
        pre.with_layers(layers).wf(),
{
    let post = pre.with_layers(layers);
    assert forall|i: int| 0 <= i < post.nodes.len() implies post.node_ok(
        #[trigger] post.nodes[i],
    ) by {
        assert(pre.node_ok(pre.nodes[i]));
    }
    assert forall|k: u64| post.holder_ok(#[trigger] post.holders[k]) by {
        assert(pre.holder_ok(pre.holders[k]));
    }
}

/// `rt` with the view `v` taken from the subscribers of every node.
pub open spec fn forgotten<T>(rt: RuntimeView<T>, v: ViewKey) -> RuntimeView<T> {
    RuntimeView {
        nodes: Seq::new(
            rt.nodes.len(),
            |i: int| NodeView { bindings: without_view(rt.nodes[i].bindings, v), ..rt.nodes[i] },
        ),
        ..rt
    }
}

impl<T> Runtime<T> {
    /// The identifier source is in step with the arena.
    pub closed spec fn in_step(&self) -> bool {
        self.ids.upcoming() == self.nodes.len() + 1
    }

    pub open spec fn wf(&self) -> bool {
        &&& self@.wf()
        &&& self.in_step()
    }

    /// A runtime without nodes, with every holder idle and no frame open.
    pub fn new() -> (rt: Runtime<T>)
        ensures
            rt.wf(),
            rt@.nodes.len() == 0,
            rt@.layers.len() == 0,
            forall|h: u64| rt@.holder(h) == idle_holder(),
    {
        let rt = Runtime {
            nodes: Vec::new(),
            ids: IdSource::new(),
            holders: HashMap::new(),
            stack: TrackingStack::new(),
        };
        rt
    }

    /// The number of nodes made so far.
    pub fn node_count(&self) -> (n: usize)
        ensures
            n == self@.nodes.len(),
    {
        self.nodes.len()
    }

    /// Whether `id` names a node of this runtime.
    pub fn has_node(&self, id: RevisableId) -> (b: bool)
        ensures
            b == self@.has_node(id@),
    {
        1 <= id.0 && id.0 - 1 < self.nodes.len() as u64
    }

    /// Whether one more node can be made.
    pub fn has_room(&self) -> (b: bool)
        requires
            self.wf(),
        ensures
            b == (self@.nodes.len() + 1 < u64::MAX),
    {
        self.ids.has_next()
    }

    pub fn is_bond(&self, id: RevisableId) -> (b: bool)
        requires
            self@.has_node(id@),
        ensures
            b == self@.node(id@).is_bond,
    {
        self.nodes[(id.0 - 1) as usize].is_bond
    }

    pub fn version(&self, id: RevisableId) -> (v: u128)
        requires
            self@.has_node(id@),
        ensures
            v == self@.node(id@).version,
    {
        self.nodes[(id.0 - 1) as usize].version
    }

    pub fn value(&self, id: RevisableId) -> (v: &T)
        requires
            self@.has_node(id@),
        ensures
            *v == self@.node(id@).value,
    {
        &self.nodes[(id.0 - 1) as usize].value
    }

    /// The subscribers of node `id`.
    pub fn bindings(&self, id: RevisableId) -> (b: &Bindings)
        requires
            self.wf(),
            self@.has_node(id@),
        ensures
            b@ == self@.node(id@).bindings,
            b.wf(),
    {
        proof {
            assert(self@.node_ok(self@.nodes[id@ - 1]));
        }
        &self.nodes[(id.0 - 1) as usize].bindings
    }

    /// The dependencies of node `id`.
    pub fn gathers(&self, id: RevisableId) -> (g: &IdSet)
        requires
            self.wf(),
            self@.has_node(id@),
        ensures
            g@ == self@.node(id@).gathers,
            g.wf(),
    {
        proof {
            assert(self@.node_ok(self@.nodes[id@ - 1]));
        }
        &self.nodes[(id.0 - 1) as usize].gathers
    }

    /// Adds a node at the end of the arena and gives its identifier.
    pub fn push_node(&mut self, is_bond: bool, value: T, version: u128, gathers: IdSet) -> (id:
        RevisableId)
        requires
            old(self).wf(),
            old(self)@.nodes.len() + 1 < u64::MAX,
            old(self)@.cages(gathers@),
            !is_bond ==> gathers@.len() == 0 && 1 <= version <= usize::MAX,
        ensures
            final(self).wf(),
            id@ == old(self)@.nodes.len() + 1,
            final(self)@ == (RuntimeView {
                nodes: old(self)@.nodes.push(
                    NodeView {
                        is_bond,
                        version: version as nat,
                        value,
                        bindings: Seq::empty(),
                        gathers: gathers@,
                    },
                ),
                ..old(self)@
            }),
    {
        let id = RevisableId::next(&mut self.ids);
        self.nodes.push(Node { is_bond, version, value, bindings: Bindings::new(), gathers });
        proof {
            let post = self@;
            let pre = old(self)@;
            assert(post.nodes =~= pre.nodes.push(
                NodeView {
                    is_bond,
                    version: version as nat,
                    value,
                    bindings: Seq::empty(),
                    gathers: gathers@,
                },
            ));
            assert(post.holders =~= pre.holders);
            lemma_cages_stay(pre, post, gathers@);
            lemma_wf_nodes(pre, post);
        }
        id
    }

    /// Sets the version of node `id`.
    pub fn set_version(&mut self, id: RevisableId, version: u128)
        requires
            old(self).wf(),
            old(self)@.has_node(id@),
            old(self)@.is_cage(id@) ==> 1 <= version <= usize::MAX,
        ensures
            final(self).wf(),
            final(self)@ == old(self)@.with_node(
                id@,
                NodeView { version: version as nat, ..old(self)@.node(id@) },
            ),
    {
        self.nodes[(id.0 - 1) as usize].version = version;
        proof {
            let post = self@;
            let pre = old(self)@;
            assert(post.nodes =~= pre.nodes.update(
                id@ - 1,
                NodeView { version: version as nat, ..pre.node(id@) },
            ));
            assert(post.holders =~= pre.holders);
            assert(pre.node_ok(pre.nodes[id@ - 1]));
            lemma_cages_stay(pre, post, pre.nodes[id@ - 1].gathers);
            lemma_wf_nodes(pre, post);
        }
    }

    /// Puts `value` in node `id` and gives the value that was there.
    pub fn replace_value(&mut self, id: RevisableId, value: T) -> (before: T)
        requires
            old(self).wf(),
            old(self)@.has_node(id@),
        ensures
            final(self).wf(),
            before == old(self)@.node(id@).value,
            final(self)@ == old(self)@.with_node(id@, NodeView { value, ..old(self)@.node(id@) }),
    {
        let mut value = value;
        core::mem::swap(&mut self.nodes[(id.0 - 1) as usize].value, &mut value);
        proof {
            let post = self@;
            let pre = old(self)@;
            assert(post.nodes =~= pre.nodes.update(
                id@ - 1,
                NodeView { value: post.node(id@).value, ..pre.node(id@) },
            ));
            assert(post.holders =~= pre.holders);
            assert(pre.node_ok(pre.nodes[id@ - 1]));
            lemma_cages_stay(pre, post, pre.nodes[id@ - 1].gathers);
            lemma_wf_nodes(pre, post);
        }
        value
    }

    /// Replaces the dependencies of bond `id`.
    pub fn set_gathers(&mut self, id: RevisableId, gathers: IdSet)
        requires
            old(self).wf(),
            old(self)@.is_bond(id@),
            old(self)@.cages(gathers@),
        ensures
            final(self).wf(),
            final(self)@ == old(self)@.with_node(
                id@,
                NodeView { gathers: gathers@, ..old(self)@.node(id@) },
            ),
    {
        self.nodes[(id.0 - 1) as usize].gathers = gathers;
        proof {
            let post = self@;
            let pre = old(self)@;
            assert(post.nodes =~= pre.nodes.update(
                id@ - 1,
                NodeView { gathers: gathers@, ..pre.node(id@) },
            ));
            assert(post.holders =~= pre.holders);
            assert(pre.node_ok(pre.nodes[id@ - 1]));
            lemma_cages_stay(pre, post, gathers@);
            lemma_wf_nodes(pre, post);
        }
    }

    /// The sum of the versions of the cages `ids`.
    pub fn dep_sum(&self, ids: &IdSet) -> (sum: u128)
        requires
            self.wf(),
            self@.cages(ids@),
        ensures
            sum == self@.dep_sum(ids@),
    {
        let n = ids.len();
        let mut sum: u128 = 0;
        let mut i: usize = 0;
        while i < n
            invariant
                self.wf(),
                self@.cages(ids@),
                n == ids@.len(),
                i <= n,
                sum == self@.dep_sum(ids@.subrange(0, i as int)),
                sum <= i * 0xFFFF_FFFF_FFFF_FFFF,
            decreases n - i,
        {
            let id = ids.get_index(i).unwrap();
            proof {
                assert(self@.is_cage(ids@[i as int]));
                assert(self@.node_ok(self@.nodes[id - 1]));
                assert(ids@.subrange(0, i + 1).drop_last() =~= ids@.subrange(0, i as int));
            }
            let v = self.nodes[(id - 1) as usize].version;
            sum = sum + v;
            i = i + 1;
        }
        assert(ids@.subrange(0, n as int) =~= ids@);
        sum
    }

    /// Makes `view_id` a subscriber of node `id` unless it is one; says whether
    /// it was added.
    pub fn bind_once(&mut self, id: RevisableId, view_id: &ViewId) -> (fresh: bool)
        requires
            old(self).wf(),
            old(self)@.has_node(id@),
        ensures
            final(self).wf(),
            fresh == !crate::reflow::bindings::has_view(old(self)@.node(id@).bindings, view_id@),
            final(self)@ == old(self)@.with_node(
                id@,
                NodeView {
                    bindings: with_view(old(self)@.node(id@).bindings, view_id@),
                    ..old(self)@.node(id@)
                },
            ),
    {
        proof {
            assert(self@.node_ok(self@.nodes[id@ - 1]));
        }
        let fresh = self.nodes[(id.0 - 1) as usize].bindings.insert(view_id);
        proof {
            let pre = old(self)@;
            let n = NodeView { bindings: with_view(pre.node(id@).bindings, view_id@), ..pre.node(id@) };
            assert(self@.nodes =~= pre.nodes.update(id@ - 1, n));
            assert(self@.holders =~= pre.holders);
            lemma_with_node(pre, id@, n);
        }
        fresh
    }

    /// Binds `view_id` to node `id` once more.
    pub fn bind_counted(&mut self, id: RevisableId, view_id: &ViewId)
        requires
            old(self).wf(),
            old(self)@.has_node(id@),
            count_of(old(self)@.node(id@).bindings, view_id@) < usize::MAX,
        ensures
            final(self).wf(),
            final(self)@ == old(self)@.with_node(
                id@,
                NodeView {
                    bindings: with_binding(old(self)@.node(id@).bindings, view_id@),
                    ..old(self)@.node(id@)
                },
            ),
    {
        proof {
            assert(self@.node_ok(self@.nodes[id@ - 1]));
        }
        self.nodes[(id.0 - 1) as usize].bindings.bind(view_id);
        proof {
            let pre = old(self)@;
            let n = NodeView {
                bindings: with_binding(pre.node(id@).bindings, view_id@),
                ..pre.node(id@)
            };
            assert(self@.nodes =~= pre.nodes.update(id@ - 1, n));
            assert(self@.holders =~= pre.holders);
            lemma_with_node(pre, id@, n);
        }
    }

    /// Takes `view_id` from the subscribers of node `id`; gives the number of
    /// bindings that it held there.
    pub fn unbind(&mut self, id: RevisableId, view_id: &ViewId) -> (count: usize)
        requires
            old(self).wf(),
            old(self)@.has_node(id@),
        ensures
            final(self).wf(),
            count == count_of(old(self)@.node(id@).bindings, view_id@),
            final(self)@ == old(self)@.with_node(
                id@,
                NodeView {
                    bindings: without_view(old(self)@.node(id@).bindings, view_id@),
                    ..old(self)@.node(id@)
                },
            ),
    {
        proof {
            assert(self@.node_ok(self@.nodes[id@ - 1]));
        }
        let count = self.nodes[(id.0 - 1) as usize].bindings.remove(view_id);
        proof {
            let pre = old(self)@;
            let n = NodeView {
                bindings: without_view(pre.node(id@).bindings, view_id@),
                ..pre.node(id@)
            };
            assert(self@.nodes =~= pre.nodes.update(id@ - 1, n));
            assert(self@.holders =~= pre.holders);
            lemma_with_node(pre, id@, n);
        }
        count
    }

    /// Takes `view_id` from the subscribers of every node: afterwards the view
    /// is a subscriber of none.
    pub fn forget_view(&mut self, view_id: &ViewId)
        requires
            old(self).wf(),
        ensures
            final(self).wf(),
            final(self)@ == forgotten(old(self)@, view_id@),
            forall|id: u64|
                final(self)@.has_node(id) ==> !has_view(
                    #[trigger] final(self)@.node(id).bindings,
                    view_id@,
                ),
    {
        let n = self.nodes.len();
        let mut i: usize = 0;
        while i < n
            invariant
                self.wf(),
                i <= n,
                n == self@.nodes.len(),
                n == old(self)@.nodes.len(),
                self@.holders == old(self)@.holders,
                self@.layers == old(self)@.layers,
                forall|j: int|
                    0 <= j < i ==> #[trigger] self@.nodes[j] == forgotten(old(self)@, view_id@).nodes[j]
                        && !has_view(self@.nodes[j].bindings, view_id@),
                forall|j: int| i <= j < n ==> #[trigger] self@.nodes[j] == old(self)@.nodes[j],
            decreases n - i,
        {
            let ghost pre = self@;
            proof {
                assert(pre.node_ok(pre.nodes[i as int]));
                lemma_without_view(pre.nodes[i as int].bindings, view_id@);
            }
            let id = RevisableId((i + 1) as u64);
            let _ = self.unbind(id, view_id);
            i = i + 1;
        }
        proof {
            assert(self@.nodes =~= forgotten(old(self)@, view_id@).nodes);
            assert forall|id: u64| self@.has_node(id) implies !has_view(
                #[trigger] self@.node(id).bindings,
                view_id@,
            ) by {
                assert(!has_view(self@.nodes[id - 1].bindings, view_id@));
            }
        }
    }

    /// Gives up `loose` bindings of `view_id` to node `id`; returns how many
    /// were given up.
    pub fn loosen(&mut self, id: RevisableId, view_id: &ViewId, loose: usize) -> (given: usize)
        requires
            old(self).wf(),
            old(self)@.has_node(id@),
        ensures
            final(self).wf(),
            given == if loose >= count_of(old(self)@.node(id@).bindings, view_id@) {
                count_of(old(self)@.node(id@).bindings, view_id@)
            } else {
                loose as nat
            },
            final(self)@ == old(self)@.with_node(
                id@,
                NodeView {
                    bindings: loosened(old(self)@.node(id@).bindings, view_id@, loose as nat),
                    ..old(self)@.node(id@)
                },
            ),
    {
        proof {
            assert(self@.node_ok(self@.nodes[id@ - 1]));
        }
        let given = self.nodes[(id.0 - 1) as usize].bindings.loosen(view_id, loose);
        proof {
            let pre = old(self)@;
            let n = NodeView {
                bindings: loosened(pre.node(id@).bindings, view_id@, loose as nat),
                ..pre.node(id@)
            };
            assert(self@.nodes =~= pre.nodes.update(id@ - 1, n));
            assert(self@.holders =~= pre.holders);
            lemma_with_node(pre, id@, n);
        }
        given
    }

    fn take_holder(&mut self, h: u64) -> (s: HolderState)
        ensures
            holder_view(s) == old(self)@.holders[h],
            final(self).nodes == old(self).nodes,
            final(self).ids == old(self).ids,
            final(self).stack == old(self).stack,
            final(self).holders@ == old(self).holders@.remove(h),
    {
        match self.holders.remove(&h) {
            Some(s) => s,
            None => idle_state(),
        }
    }

    fn put_holder(&mut self, h: u64, s: HolderState)
        ensures
            final(self).nodes == old(self).nodes,
            final(self).ids == old(self).ids,
            final(self).stack == old(self).stack,
            final(self).holders@ == old(self).holders@.insert(h, s),
    {
        self.holders.insert(h, s);
    }

    /// Whether the scheduler is in a pass for holder `h`.
    pub fn running(&self, h: HolderId) -> (b: bool)
        ensures
            b == self@.holder(h@).running,
    {
        match self.holders.get(&h.0) {
            Some(s) => s.running,
            None => false,
        }
    }

    /// Whether holder `h` is collecting writes in a batch.
    pub fn batching(&self, h: HolderId) -> (b: bool)
        ensures
            b == self@.holder(h@).batching,
    {
        match self.holders.get(&h.0) {
            Some(s) => s.batching,
            None => false,
        }
    }

    /// Whether change signals of holder `h` are suppressed.
    pub fn untracking(&self, h: HolderId) -> (b: bool)
        ensures
            b == self@.holder(h@).untracking,
    {
        match self.holders.get(&h.0) {
            Some(s) => s.untracking,
            None => false,
        }
    }

    /// Whether the last run of the scheduler for holder `h` was cut short with
    /// writes still waiting.
    pub fn cut_short(&self, h: HolderId) -> (b: bool)
        ensures
            b == self@.holder(h@).cut_short,
    {
        match self.holders.get(&h.0) {
            Some(s) => s.cut_short,
            None => false,
        }
    }

    /// Notes whether the run that ends for holder `h` was cut short.
    pub fn set_cut_short(&mut self, h: HolderId, cut_short: bool)
        requires
            old(self).wf(),
        ensures
            final(self).wf(),
            final(self)@ == old(self)@.with_holder(
                h@,
                HolderView { cut_short, ..old(self)@.holder(h@) },
            ),
    {
        let mut s = self.take_holder(h.0);
        s.cut_short = cut_short;
        self.put_holder(h.0, s);
        proof {
            let pre = old(self)@;
            let hv = HolderView { cut_short, ..pre.holder(h@) };
            assert(self@.nodes =~= pre.nodes);
            assert(self@.holders =~= pre.holders.insert(h@, hv));
            assert(pre.holder_ok(pre.holders[h@]));
            lemma_with_holder(pre, h@, hv);
        }
    }

    pub fn set_running(&mut self, h: HolderId, running: bool)
        requires
            old(self).wf(),
        ensures
            final(self).wf(),
            final(self)@ == old(self)@.with_holder(
                h@,
                HolderView { running, ..old(self)@.holder(h@) },
            ),
    {
        let mut s = self.take_holder(h.0);
        s.running = running;
        self.put_holder(h.0, s);
        proof {
            let pre = old(self)@;
            let hv = HolderView { running, ..pre.holder(h@) };
            assert(self@.nodes =~= pre.nodes);
            assert(self@.holders =~= pre.holders.insert(h@, hv));
            assert(pre.holder_ok(pre.holders[h@]));
            lemma_with_holder(pre, h@, hv);
        }
    }

    pub fn set_batching(&mut self, h: HolderId, batching: bool)
        requires
            old(self).wf(),
        ensures
            final(self).wf(),
            final(self)@ == old(self)@.with_holder(
                h@,
                HolderView { batching, ..old(self)@.holder(h@) },
            ),
    {
        let mut s = self.take_holder(h.0);
        s.batching = batching;
        self.put_holder(h.0, s);
        proof {
            let pre = old(self)@;
            let hv = HolderView { batching, ..pre.holder(h@) };
            assert(self@.nodes =~= pre.nodes);
            assert(self@.holders =~= pre.holders.insert(h@, hv));
            assert(pre.holder_ok(pre.holders[h@]));
            lemma_with_holder(pre, h@, hv);
        }
    }

    pub fn set_untracking(&mut self, h: HolderId, untracking: bool)
        requires
            old(self).wf(),
        ensures
            final(self).wf(),
            final(self)@ == old(self)@.with_holder(
                h@,
                HolderView { untracking, ..old(self)@.holder(h@) },
            ),
    {
        let mut s = self.take_holder(h.0);
        s.untracking = untracking;
        self.put_holder(h.0, s);
        proof {
            let pre = old(self)@;
            let hv = HolderView { untracking, ..pre.holder(h@) };
            assert(self@.nodes =~= pre.nodes);
            assert(self@.holders =~= pre.holders.insert(h@, hv));
            assert(pre.holder_ok(pre.holders[h@]));
            lemma_with_holder(pre, h@, hv);
        }
    }

    /// The number of nodes in the current pass of holder `h`.
    pub fn revising_len(&self, h: HolderId) -> (n: usize)
        ensures
            n == self@.holder(h@).revising.len(),
    {
        match self.holders.get(&h.0) {
            Some(s) => s.revising.len(),
            None => 0,
        }
    }

    /// The node at position `i` of the current pass of holder `h`.
    pub fn revising_at(&self, h: HolderId, i: usize) -> (id: Option<RevisableId>)
        ensures
            id == if i < self@.holder(h@).revising.len() {
                Some(RevisableId(self@.holder(h@).revising[i as int]))
            } else {
                None
            },
    {
        match self.holders.get(&h.0) {
            Some(s) => match s.revising.get_index(i) {
                Some(id) => Some(RevisableId(id)),
                None => None,
            },
            None => None,
        }
    }

    /// Whether node `id` is in the current pass of holder `h`.
    pub fn revising_contains(&self, h: HolderId, id: RevisableId) -> (b: bool)
        ensures
            b == self@.holder(h@).revising.contains(id@),
    {
        match self.holders.get(&h.0) {
            Some(s) => s.revising.contains(id.0),
            None => false,
        }
    }

    /// The number of nodes that wait for the next pass of holder `h`.
    pub fn pending_len(&self, h: HolderId) -> (n: usize)
        ensures
            n == self@.holder(h@).pending.len(),
    {
        match self.holders.get(&h.0) {
            Some(s) => s.pending.len(),
            None => 0,
        }
    }

    /// Puts cage `id` in the current pass of holder `h` unless it is there;
    /// says whether it was added.
    pub fn mark_revising(&mut self, h: HolderId, id: RevisableId) -> (fresh: bool)
        requires
            old(self).wf(),
            old(self)@.is_cage(id@),
        ensures
            final(self).wf(),
            fresh == !old(self)@.holder(h@).revising.contains(id@),
            final(self)@ == old(self)@.with_holder(
                h@,
                HolderView {
                    revising: with_id(old(self)@.holder(h@).revising, id@),
                    ..old(self)@.holder(h@)
                },
            ),
    {
        proof {
            assert(self@.holder_ok(self@.holders[h@]));
        }
        let mut s = self.take_holder(h.0);
        let fresh = s.revising.insert(id.0);
        self.put_holder(h.0, s);
        proof {
            let pre = old(self)@;
            let hv = HolderView { revising: with_id(pre.holder(h@).revising, id@), ..pre.holder(h@) };
            assert(self@.nodes =~= pre.nodes);
            assert(self@.holders =~= pre.holders.insert(h@, hv));
            lemma_with_id(pre, pre.holder(h@).revising, id@);
            lemma_with_holder(pre, h@, hv);
        }
        fresh
    }

    /// Puts cage `id` among those that wait for the next pass of holder `h`
    /// unless it is there; says whether it was added.
    pub fn mark_pending(&mut self, h: HolderId, id: RevisableId) -> (fresh: bool)
        requires
            old(self).wf(),
            old(self)@.is_cage(id@),
        ensures
            final(self).wf(),
            fresh == !old(self)@.holder(h@).pending.contains(id@),
            final(self)@ == old(self)@.with_holder(
                h@,
                HolderView {
                    pending: with_id(old(self)@.holder(h@).pending, id@),
                    ..old(self)@.holder(h@)
                },
            ),
    {
        proof {
            assert(self@.holder_ok(self@.holders[h@]));
        }
        let mut s = self.take_holder(h.0);
        let fresh = s.pending.insert(id.0);
        self.put_holder(h.0, s);
        proof {
            let pre = old(self)@;
            let hv = HolderView { pending: with_id(pre.holder(h@).pending, id@), ..pre.holder(h@) };
            assert(self@.nodes =~= pre.nodes);
            assert(self@.holders =~= pre.holders.insert(h@, hv));
            lemma_with_id(pre, pre.holder(h@).pending, id@);
            lemma_with_holder(pre, h@, hv);
        }
        fresh
    }

    /// Empties the waiting list of holder `h` and gives what it held.
    pub fn take_pending(&mut self, h: HolderId) -> (taken: IdSet)
        requires
            old(self).wf(),
        ensures
            final(self).wf(),
            taken@ == old(self)@.holder(h@).pending,
            taken.wf(),
            final(self)@.cages(taken@),
            final(self)@ == old(self)@.with_holder(
                h@,
                HolderView { pending: Seq::empty(), ..old(self)@.holder(h@) },
            ),
    {
        proof {
            assert(self@.holder_ok(self@.holders[h@]));
        }
        let mut s = self.take_holder(h.0);
        let mut taken = IdSet::new();
        core::mem::swap(&mut s.pending, &mut taken);
        self.put_holder(h.0, s);
        proof {
            let pre = old(self)@;
            let hv = HolderView { pending: Seq::empty(), ..pre.holder(h@) };
            assert(self@.nodes =~= pre.nodes);
            assert(self@.holders =~= pre.holders.insert(h@, hv));
            lemma_with_holder(pre, h@, hv);
            lemma_cages_stay(pre, self@, taken@);
        }
        taken
    }

    /// Makes `ids` the current pass of holder `h`.
    pub fn set_revising(&mut self, h: HolderId, ids: IdSet)
        requires
            old(self).wf(),
            old(self)@.cages(ids@),
        ensures
            final(self).wf(),
            final(self)@ == old(self)@.with_holder(
                h@,
                HolderView { revising: ids@, ..old(self)@.holder(h@) },
            ),
    {
        proof {
            assert(self@.holder_ok(self@.holders[h@]));
        }
        let mut s = self.take_holder(h.0);
        s.revising = ids;
        self.put_holder(h.0, s);
        proof {
            let pre = old(self)@;
            let hv = HolderView { revising: ids@, ..pre.holder(h@) };
            assert(self@.nodes =~= pre.nodes);
            assert(self@.holders =~= pre.holders.insert(h@, hv));
            lemma_with_holder(pre, h@, hv);
        }
    }

    /// Forgets everything that is kept for holder `h`: its flags and both of
    /// its queues. The nodes and the other holders stay as they are.
    pub fn release_holder(&mut self, h: HolderId)
        requires
            old(self).wf(),
        ensures
            final(self).wf(),
            final(self)@ == old(self)@.with_holder(h@, idle_holder()),
    {
        let _ = self.take_holder(h.0);
        proof {
            let pre = old(self)@;
            assert(self@.nodes =~= pre.nodes);
            assert(self@.holders =~= pre.holders.insert(h@, idle_holder()));
            lemma_with_holder(pre, h@, idle_holder());
        }
    }

    /// Whether no capture frame is open.
    pub fn is_idle(&self) -> (b: bool)
        ensures
            b == (self@.layers.len() == 0),
    {
        self.stack.is_idle()
    }

    /// Opens an empty capture frame.
    pub fn push_layer(&mut self)
        requires
            old(self).wf(),
        ensures
            final(self).wf(),
            final(self)@ == old(self)@.with_layers(old(self)@.layers.push(Seq::empty())),
    {
        proof {
            self.lemma_stack_wf();
        }
        self.stack.push_layer();
        proof {
            let pre = old(self)@;
            assert(self@.nodes =~= pre.nodes);
            assert(self@.holders =~= pre.holders);
            let layers = pre.layers.push(Seq::empty());
            assert forall|i: int| 0 <= i < layers.len() implies pre.cages(#[trigger] layers[i]) by {
                if i < pre.layers.len() {
                    assert(pre.cages(pre.layers[i]));
                }
            }
            lemma_with_layers(pre, layers);
        }
    }

    /// Closes the innermost capture frame and gives what it recorded; `None`
    /// where no frame is open.
    pub fn pop_layer(&mut self) -> (layer: Option<IdSet>)
        requires
            old(self).wf(),
        ensures
            final(self).wf(),
            old(self)@.layers.len() == 0 ==> layer.is_none() && final(self)@ == old(self)@,
            old(self)@.layers.len() > 0 ==> layer.is_some()
                && layer.unwrap()@ == old(self)@.layers.last() && layer.unwrap().wf()
                && final(self)@.cages(layer.unwrap()@)
                && final(self)@ == old(self)@.with_layers(old(self)@.layers.drop_last()),
    {
        proof {
            self.lemma_stack_wf();
        }
        let layer = self.stack.pop_layer();
        proof {
            let pre = old(self)@;
            assert(self@.nodes =~= pre.nodes);
            assert(self@.holders =~= pre.holders);
            if pre.layers.len() > 0 {
                let layers = pre.layers.drop_last();
                assert forall|i: int| 0 <= i < layers.len() implies pre.cages(
                    #[trigger] layers[i],
                ) by {
                    assert(pre.cages(pre.layers[i]));
                }
                lemma_with_layers(pre, layers);
                assert(pre.cages(pre.layers[pre.layers.len() - 1]));
                lemma_cages_stay(pre, self@, layer.unwrap()@);
            } else {
                assert(self@ == pre);
            }
        }
        layer
    }

    /// Records a read of cage `id` in every open capture frame.
    pub fn track(&mut self, id: RevisableId)
        requires
            old(self).wf(),
            old(self)@.is_cage(id@),
        ensures
            final(self).wf(),
            final(self)@ == old(self)@.with_layers(recorded(old(self)@.layers, id@)),
    {
        proof {
            self.lemma_stack_wf();
        }
        self.stack.track(id.0);
        proof {
            let pre = old(self)@;
            assert(self@.nodes =~= pre.nodes);
            assert(self@.holders =~= pre.holders);
            let layers = recorded(pre.layers, id@);
            assert forall|i: int| 0 <= i < layers.len() implies pre.cages(#[trigger] layers[i]) by {
                assert(pre.cages(pre.layers[i]));
                lemma_with_id(pre, pre.layers[i], id@);
                assert(layers[i] == with_id(pre.layers[i], id@));
            }
            lemma_with_layers(pre, layers);
        }
    }

    /// Lets `opt` change the value of node `id` in place and gives what `opt`
    /// returns.
    pub fn update_value<R, F: FnOnce(&mut T) -> R>(&mut self, id: RevisableId, opt: F) -> (out: R)
        requires
            old(self).wf(),
            old(self)@.has_node(id@),
            forall|r: &mut T|
                mut_ref_current(r) == old(self)@.node(id@).value ==> call_requires(opt, (r,)),
        ensures
            final(self).wf(),
            exists|r: &mut T|
                mut_ref_current(r) == old(self)@.node(id@).value
                    && mut_ref_future(r) == final(self)@.node(id@).value
                    && call_ensures(opt, (r,), out),
            final(self)@ == old(self)@.with_node(
                id@,
                NodeView { value: final(self)@.node(id@).value, ..old(self)@.node(id@) },
            ),
    {
        let out = opt(&mut self.nodes[(id.0 - 1) as usize].value);
        proof {
            let post = self@;
            let pre = old(self)@;
            let n = NodeView { value: post.node(id@).value, ..pre.node(id@) };
            assert(post.nodes =~= pre.nodes.update(id@ - 1, n));
            assert(post.holders =~= pre.holders);
            assert(pre.node_ok(pre.nodes[id@ - 1]));
            lemma_with_node(pre, id@, n);
        }
        out
    }

    /// Copies of the views subscribed to node `id`, in their order.
    pub fn view_ids(&self, id: RevisableId) -> (list: Vec<ViewId>)
        requires
            self.wf(),
            self@.has_node(id@),
        ensures
            list.len() == self@.node(id@).bindings.len(),
            forall|i: int|
                0 <= i < list.len() ==> (#[trigger] list[i])@ == self@.node(id@).bindings[i].view,
    {
        let bindings = self.bindings(id);
        let n = bindings.len();
        let mut list: Vec<ViewId> = Vec::new();
        let mut i: usize = 0;
        while i < n
            invariant
                n == bindings@.len(),
                i <= n,
                list.len() == i,
                forall|j: int| 0 <= j < i ==> (#[trigger] list[j])@ == bindings@[j].view,
            decreases n - i,
        {
            list.push(bindings.view_at(i).clone());
            i = i + 1;
        }
        list
    }

    proof fn lemma_stack_wf(&self)
        requires
            self.wf(),
        ensures
            self.stack.wf(),
    {
        assert forall|i: int| 0 <= i < self.stack@.len() implies (
        #[trigger] self.stack@[i]).no_duplicates() by {
            assert(self@.cages(self@.layers[i]));
        }
    }
}

} // verus!
