//! Bonds: values derived from cages, computed again only after a dependency
//! has changed.

use crate::holder::HolderId;
use crate::reflow::bindings::{count_of, loosened, views_of, with_binding, with_view, without_view};
use crate::reflow::cage::{in_pass, Cage};
use crate::reflow::{recorded, NodeView, RevisableId, RuntimeView};
use crate::reflow::runtime::Runtime;
use crate::view::{ViewId, ViewKey};
use vstd::prelude::*;

verus! {

/// `now` has every node of `base`, each of the kind it had there.
pub open spec fn extends<T>(base: RuntimeView<T>, now: RuntimeView<T>) -> bool {
    &&& base.nodes.len() <= now.nodes.len()
    &&& forall|i: int|
        0 <= i < base.nodes.len() ==> (#[trigger] now.nodes[i]).is_bond == base.nodes[i].is_bond
}

/// What an evaluation may do to the runtime: it leaves it well formed, with the
/// same number of capture frames open and with every node it had; it may have
/// made nodes.
pub open spec fn evaluated<T>(pre: Runtime<T>, post: Runtime<T>) -> bool {
    &&& post.wf()
    &&& post@.layers.len() == pre@.layers.len()
    &&& extends(pre@, post@)
}

/// The sum of the versions of some nodes is the same in two runtimes that give
/// each of them the same version.
pub proof fn lemma_dep_sum_same<T>(pre: RuntimeView<T>, post: RuntimeView<T>, ids: Seq<u64>)
    requires
        forall|i: int| 0 <= i < ids.len()
            ==> post.node(#[trigger] ids[i]).version == pre.node(ids[i]).version,
    ensures
        post.dep_sum(ids) == pre.dep_sum(ids),
    decreases ids.len(),
{
    if ids.len() > 0 {
        let rest = ids.drop_last();
        assert forall|i: int| 0 <= i < rest.len() implies post.node(#[trigger] rest[i]).version
            == pre.node(rest[i]).version by {
            assert(rest[i] == ids[i]);
        }
        lemma_dep_sum_same(pre, post, rest);
        assert(ids.last() == ids[ids.len() - 1]);
    }
}

/// `mapper` can be called on every well-formed runtime that extends `base`.
pub open spec fn callable<T, M: Fn(&mut Runtime<T>) -> T>(mapper: M, base: RuntimeView<T>) -> bool {
    forall|r: &mut Runtime<T>|
        mut_ref_current(r).wf() && extends(base, mut_ref_current(r)@) ==> call_requires(
            mapper,
            (r,),
        )
}

/// `pre` with `v` subscribed to each of the nodes `ids`.
pub open spec fn each_bound<T>(pre: RuntimeView<T>, ids: Seq<u64>, v: ViewKey) -> RuntimeView<T> {
    RuntimeView {
        nodes: Seq::new(
            pre.nodes.len(),
            |k: int|
                if ids.contains((k + 1) as u64) {
                    NodeView { bindings: with_view(pre.nodes[k].bindings, v), ..pre.nodes[k] }
                } else {
                    pre.nodes[k]
                },
        ),
        ..pre
    }
}

/// `pre` with `v` taken from the subscribers of each of the nodes `ids`.
pub open spec fn each_unbound<T>(pre: RuntimeView<T>, ids: Seq<u64>, v: ViewKey) -> RuntimeView<T> {
    RuntimeView {
        nodes: Seq::new(
            pre.nodes.len(),
            |k: int|
                if ids.contains((k + 1) as u64) {
                    NodeView { bindings: without_view(pre.nodes[k].bindings, v), ..pre.nodes[k] }
                } else {
                    pre.nodes[k]
                },
        ),
        ..pre
    }
}

/// `pre` with `v` bound once more to each of the nodes `ids`.
pub open spec fn each_counted<T>(pre: RuntimeView<T>, ids: Seq<u64>, v: ViewKey) -> RuntimeView<T> {
    RuntimeView {
        nodes: Seq::new(
            pre.nodes.len(),
            |k: int|
                if ids.contains((k + 1) as u64) {
                    NodeView { bindings: with_binding(pre.nodes[k].bindings, v), ..pre.nodes[k] }
                } else {
                    pre.nodes[k]
                },
        ),
        ..pre
    }
}

/// `pre` with `loose` bindings of `v` given up at each of the nodes `ids`.
pub open spec fn each_loosened<T>(pre: RuntimeView<T>, ids: Seq<u64>, v: ViewKey, loose: nat) -> RuntimeView<
    T,
> {
    RuntimeView {
        nodes: Seq::new(
            pre.nodes.len(),
            |k: int|
                if ids.contains((k + 1) as u64) {
                    NodeView { bindings: loosened(pre.nodes[k].bindings, v, loose), ..pre.nodes[k] }
                } else {
                    pre.nodes[k]
                },
        ),
        ..pre
    }
}

/// `pre` with each of `views`, in turn, subscribed to each of the nodes `ids`.
pub open spec fn all_bound<T>(pre: RuntimeView<T>, ids: Seq<u64>, views: Seq<ViewKey>) -> RuntimeView<T>
    decreases views.len(),
{
    if views.len() == 0 {
        pre
    } else {
        each_bound(all_bound(pre, ids, views.drop_last()), ids, views.last())
    }
}

/// `layers` after a read of each of the nodes `ids`, in turn.
pub open spec fn recorded_all(layers: Seq<Seq<u64>>, ids: Seq<u64>) -> Seq<Seq<u64>>
    decreases ids.len(),
{
    if ids.len() == 0 {
        layers
    } else {
        recorded(recorded_all(layers, ids.drop_last()), ids.last())
    }
}

/// The runtime after bond `bond` has taken in a new evaluation. `mid` is the
/// runtime as the evaluation left it, the innermost frame holding what it read;
/// `value` is what it gave and `stamp` the version to keep. The frame is closed
/// and becomes the bond's dependencies, and every view subscribed to the bond is
/// subscribed to each of them.
pub open spec fn recomputed<T>(mid: RuntimeView<T>, bond: u64, value: T, stamp: nat) -> RuntimeView<T> {
    let gathers = mid.layers.last();
    let closed = mid.with_layers(mid.layers.drop_last());
    let stored = closed.with_node(
        bond,
        NodeView { value, version: stamp, gathers, ..closed.node(bond) },
    );
    all_bound(stored, gathers, views_of(stored.node(bond).bindings))
}

/// Subscribing a view to cages keeps the runtime well formed.
pub proof fn lemma_each_bound<T>(pre: RuntimeView<T>, ids: Seq<u64>, v: ViewKey)
    requires
        pre.wf(),
        pre.cages(ids),
    ensures
        each_bound(pre, ids, v).wf(),
        extends(pre, each_bound(pre, ids, v)),
{
    let post = each_bound(pre, ids, v);
    assert forall|i: int| 0 <= i < post.nodes.len() implies (#[trigger] post.nodes[i] == pre.nodes[i]
        && i < pre.nodes.len()) || post.node_ok(post.nodes[i]) by {
        assert(pre.node_ok(pre.nodes[i]));
        if ids.contains((i + 1) as u64) {
            crate::reflow::runtime::lemma_cages_stay(pre, post, pre.nodes[i].gathers);
        }
    }
    crate::reflow::runtime::lemma_wf_nodes(pre, post);
}

/// The first `j + 1` items of `s` hold what the first `j` hold, and `s[j]`.
pub proof fn lemma_prefix_contains(s: Seq<u64>, j: int, id: u64)
    requires
        0 <= j < s.len(),
    ensures
        s.subrange(0, j + 1).contains(id) <==> s.subrange(0, j).contains(id) || s[j] == id,
{
    let long = s.subrange(0, j + 1);
    let short = s.subrange(0, j);
    if long.contains(id) {
        let m = choose|m: int| 0 <= m < long.len() && long[m] == id;
        if m < j {
            assert(short[m] == id);
        }
    }
    if short.contains(id) {
        let m = choose|m: int| 0 <= m < short.len() && short[m] == id;
        assert(long[m] == id);
    }
    if s[j] == id {
        assert(long[j] == id);
    }
}

/// In a list without repeats the first `j` items do not hold `s[j]`.
pub proof fn lemma_prefix_lacks(s: Seq<u64>, j: int)
    requires
        0 <= j < s.len(),
        s.no_duplicates(),
    ensures
        !s.subrange(0, j).contains(s[j]),
{
    let short = s.subrange(0, j);
    if short.contains(s[j]) {
        let m = choose|m: int| 0 <= m < short.len() && short[m] == s[j];
        assert(s[m] == s[j]);
    }
}

/// Subscribes `view_id` to each dependency of node `bond`.
fn bind_each<T>(rt: &mut Runtime<T>, bond: RevisableId, view_id: &ViewId)
    requires
        old(rt).wf(),
        old(rt)@.has_node(bond@),
    ensures
        final(rt).wf(),
        final(rt)@ == each_bound(old(rt)@, old(rt)@.node(bond@).gathers, view_id@),
{
    let ghost pre = rt@;
    let ghost gs = rt@.node(bond@).gathers;
    proof {
        assert(pre.node_ok(pre.nodes[bond@ - 1]));
        assert(rt@.nodes =~= each_bound(pre, gs.subrange(0, 0), view_id@).nodes);
    }
    let n = rt.gathers(bond).len();
    let mut j: usize = 0;
    while j < n
        invariant
            rt.wf(),
            pre.wf(),
            pre.cages(gs),
            rt@.has_node(bond@),
            rt@.node(bond@).gathers == gs,
            n == gs.len(),
            j <= n,
            rt@ == each_bound(pre, gs.subrange(0, j as int), view_id@),
        decreases n - j,
    {
        let g = rt.gathers(bond).get_index(j).unwrap();
        proof {
            assert(pre.is_cage(gs[j as int]));
            lemma_prefix_lacks(gs, j as int);
        }
        rt.bind_once(RevisableId(g), view_id);
        proof {
            let next = each_bound(pre, gs.subrange(0, j + 1), view_id@);
            assert forall|k: int| 0 <= k < next.nodes.len() implies rt@.nodes[k] == next.nodes[k] by {
                let id = (k + 1) as u64;
                lemma_prefix_contains(gs, j as int, id);
            }
            assert(rt@.nodes =~= next.nodes);
        }
        j = j + 1;
    }
    assert(gs.subrange(0, n as int) =~= gs);
}

/// Binds `view_id` once more to each dependency of node `bond`.
fn bind_each_counted<T>(rt: &mut Runtime<T>, bond: RevisableId, view_id: &ViewId)
    requires
        old(rt).wf(),
        old(rt)@.has_node(bond@),
        forall|i: int|
            0 <= i < old(rt)@.node(bond@).gathers.len() ==> count_of(
                old(rt)@.node(#[trigger] old(rt)@.node(bond@).gathers[i]).bindings,
                view_id@,
            ) < usize::MAX,
    ensures
        final(rt).wf(),
        final(rt)@ == each_counted(old(rt)@, old(rt)@.node(bond@).gathers, view_id@),
{
    let ghost pre = rt@;
    let ghost gs = rt@.node(bond@).gathers;
    proof {
        assert(pre.node_ok(pre.nodes[bond@ - 1]));
        assert(rt@.nodes =~= each_counted(pre, gs.subrange(0, 0), view_id@).nodes);
    }
    let n = rt.gathers(bond).len();
    let mut j: usize = 0;
    while j < n
        invariant
            rt.wf(),
            pre.wf(),
            pre.cages(gs),
            rt@.has_node(bond@),
            rt@.node(bond@).gathers == gs,
            n == gs.len(),
            j <= n,
            forall|i: int|
                0 <= i < gs.len() ==> count_of(pre.node(#[trigger] gs[i]).bindings, view_id@)
                    < usize::MAX,
            rt@ == each_counted(pre, gs.subrange(0, j as int), view_id@),
        decreases n - j,
    {
        let g = rt.gathers(bond).get_index(j).unwrap();
        proof {
            assert(pre.is_cage(gs[j as int]));
            lemma_prefix_lacks(gs, j as int);
            assert(rt@.nodes[g - 1] == pre.nodes[g - 1]);
        }
        rt.bind_counted(RevisableId(g), view_id);
        proof {
            let next = each_counted(pre, gs.subrange(0, j + 1), view_id@);
            assert forall|k: int| 0 <= k < next.nodes.len() implies rt@.nodes[k] == next.nodes[k] by {
                let id = (k + 1) as u64;
                lemma_prefix_contains(gs, j as int, id);
            }
            assert(rt@.nodes =~= next.nodes);
        }
        j = j + 1;
    }
    assert(gs.subrange(0, n as int) =~= gs);
}

/// Gives up `loose` bindings of `view_id` at each dependency of node `bond`.
fn loosen_each<T>(rt: &mut Runtime<T>, bond: RevisableId, view_id: &ViewId, loose: usize)
    requires
        old(rt).wf(),
        old(rt)@.has_node(bond@),
    ensures
        final(rt).wf(),
        final(rt)@ == each_loosened(
            old(rt)@,
            old(rt)@.node(bond@).gathers,
            view_id@,
            loose as nat,
        ),
{
    let ghost pre = rt@;
    let ghost gs = rt@.node(bond@).gathers;
    proof {
        assert(pre.node_ok(pre.nodes[bond@ - 1]));
        assert(rt@.nodes =~= each_loosened(pre, gs.subrange(0, 0), view_id@, loose as nat).nodes);
    }
    let n = rt.gathers(bond).len();
    let mut j: usize = 0;
    while j < n
        invariant
            rt.wf(),
            pre.wf(),
            pre.cages(gs),
            rt@.has_node(bond@),
            rt@.node(bond@).gathers == gs,
            n == gs.len(),
            j <= n,
            rt@ == each_loosened(pre, gs.subrange(0, j as int), view_id@, loose as nat),
        decreases n - j,
    {
        let g = rt.gathers(bond).get_index(j).unwrap();
        proof {
            assert(pre.is_cage(gs[j as int]));
            lemma_prefix_lacks(gs, j as int);
        }
        let _ = rt.loosen(RevisableId(g), view_id, loose);
        proof {
            let next = each_loosened(pre, gs.subrange(0, j + 1), view_id@, loose as nat);
            assert forall|k: int| 0 <= k < next.nodes.len() implies rt@.nodes[k] == next.nodes[k] by {
                let id = (k + 1) as u64;
                lemma_prefix_contains(gs, j as int, id);
            }
            assert(rt@.nodes =~= next.nodes);
        }
        j = j + 1;
    }
    assert(gs.subrange(0, n as int) =~= gs);
}

/// Records a read of each dependency of node `bond` in every open frame.
fn track_each<T>(rt: &mut Runtime<T>, bond: RevisableId)
    requires
        old(rt).wf(),
        old(rt)@.has_node(bond@),
    ensures
        final(rt).wf(),
        final(rt)@ == old(rt)@.with_layers(
            recorded_all(old(rt)@.layers, old(rt)@.node(bond@).gathers),
        ),
{
    let ghost pre = rt@;
    let ghost gs = rt@.node(bond@).gathers;
    proof {
        assert(pre.node_ok(pre.nodes[bond@ - 1]));
        assert(rt@ =~= pre.with_layers(recorded_all(pre.layers, gs.subrange(0, 0))));
    }
    let n = rt.gathers(bond).len();
    let mut j: usize = 0;
    while j < n
        invariant
            rt.wf(),
            pre.cages(gs),
            rt@.has_node(bond@),
            rt@.node(bond@).gathers == gs,
            n == gs.len(),
            j <= n,
            rt@ == pre.with_layers(recorded_all(pre.layers, gs.subrange(0, j as int))),
        decreases n - j,
    {
        let g = rt.gathers(bond).get_index(j).unwrap();
        proof {
            assert(pre.is_cage(gs[j as int]));
            assert(gs.subrange(0, j + 1).drop_last() =~= gs.subrange(0, j as int));
        }
        rt.track(RevisableId(g));
        j = j + 1;
    }
    assert(gs.subrange(0, n as int) =~= gs);
}

/// A derived value. `mapper` computes it from the cages that it reads; the
/// runtime keeps the value, the cages it was computed from, and the sum of
/// their versions at that time.
pub struct Bond<T, M> {
    id: RevisableId,
    mapper: M,
    base: Ghost<RuntimeView<T>>,
}

impl<T, M: Fn(&mut Runtime<T>) -> T> Bond<T, M> {
    /// The identifier of the bond's node.
    pub closed spec fn node_id(&self) -> u64 {
        self.id@
    }

    /// The function that computes the value.
    pub closed spec fn mapper(&self) -> M {
        self.mapper
    }

    /// The runtime in which the bond was made.
    pub closed spec fn base(&self) -> RuntimeView<T> {
        self.base@
    }

    /// The bond belongs to `rt`.
    pub open spec fn wf(&self, rt: &Runtime<T>) -> bool {
        &&& rt@.is_bond(self.node_id())
        &&& extends(self.base(), rt@)
        &&& callable(self.mapper(), self.base())
    }

    /// Evaluates `mapper` once in a capture frame of its own and keeps the
    /// value, what was read, and the sum of the versions of what was read.
    /// There must be room for the bond's node once `mapper` has made its own.
    pub fn new(rt: &mut Runtime<T>, mapper: M) -> (bond: Bond<T, M>)
        requires
            old(rt).wf(),
            old(rt)@.nodes.len() + 1 < u64::MAX,
            callable(mapper, old(rt)@),
            forall|r: &mut Runtime<T>, out: T| #[trigger]
                call_ensures(mapper, (r,), out) ==> evaluated(
                    mut_ref_current(r),
                    mut_ref_future(r),
                ) && mut_ref_future(r)@.nodes.len() + 1 < u64::MAX,
        ensures
            final(rt).wf(),
            bond.wf(final(rt)),
            bond.mapper() == mapper,
            bond.base() == old(rt)@,
            final(rt)@.is_current(bond.node_id()),
            exists|r: &mut Runtime<T>, out: T|
                mut_ref_current(r)@ == old(rt)@.with_layers(old(rt)@.layers.push(Seq::empty()))
                    && #[trigger] call_ensures(mapper, (r,), out) && first_stored(
                    mut_ref_future(r)@,
                    final(rt)@,
                    bond.node_id(),
                    out,
                ),
    {
        let ghost base = rt@;
        rt.push_layer();
        let value = mapper(rt);
        let ghost mid = rt@;
        let gathers = rt.pop_layer().unwrap();
        let version = rt.dep_sum(&gathers);
        let ghost closed = rt@;
        let id = rt.push_node(true, value, version, gathers);
        proof {
            lemma_dep_sum_same(mid, closed, gathers@);
            assert(first_stored(mid, rt@, id@, value));
            assert forall|i: int| 0 <= i < gathers@.len() implies rt@.node(
                #[trigger] gathers@[i],
            ).version == closed.node(gathers@[i]).version by {
                assert(closed.is_cage(gathers@[i]));
            }
            lemma_dep_sum_same(closed, rt@, gathers@);
        }
        Bond { id, mapper, base: Ghost(base) }
    }

    pub fn id(&self) -> (id: RevisableId)
        ensures
            id@ == self.node_id(),
    {
        self.id
    }

    /// The holder that the bond belongs to: that of the first view bound to it.
    pub fn holder_id(&self, rt: &Runtime<T>) -> (h: Option<HolderId>)
        requires
            rt.wf(),
            rt@.has_node(self.node_id()),
        ensures
            h == match rt@.owner(self.node_id()) {
                Some(n) => Some(HolderId(n)),
                None => None,
            },
    {
        rt.bindings(self.id).first_holder()
    }

    /// The sum of the versions that the dependencies had when the value was
    /// last computed.
    pub fn version(&self, rt: &Runtime<T>) -> (v: u128)
        requires
            rt@.has_node(self.node_id()),
        ensures
            v == rt@.node(self.node_id()).version,
    {
        rt.version(self.id)
    }

    /// Copies of the views subscribed to the bond, in their order.
    pub fn view_ids(&self, rt: &Runtime<T>) -> (list: Vec<ViewId>)
        requires
            rt.wf(),
            rt@.has_node(self.node_id()),
        ensures
            list.len() == rt@.node(self.node_id()).bindings.len(),
            forall|i: int|
                0 <= i < list.len() ==> (#[trigger] list[i])@ == rt@.node(
                    self.node_id(),
                ).bindings[i].view,
    {
        rt.view_ids(self.id)
    }

    /// Whether one of the dependencies is in the current pass of its holder.
    pub fn is_revising(&self, rt: &Runtime<T>) -> (b: bool)
        requires
            rt.wf(),
            rt@.has_node(self.node_id()),
        ensures
            b == exists|i: int|
                0 <= i < rt@.node(self.node_id()).gathers.len() && in_pass(
                    rt@,
                    #[trigger] rt@.node(self.node_id()).gathers[i],
                ),
    {
        let gathers = rt.gathers(self.id);
        proof {
            assert(rt@.node_ok(rt@.nodes[self.node_id() - 1]));
        }
        let n = gathers.len();
        let mut i: usize = 0;
        while i < n
            invariant
                rt.wf(),
                rt@.cages(gathers@),
                gathers@ == rt@.node(self.node_id()).gathers,
                n == gathers@.len(),
                i <= n,
                forall|j: int| 0 <= j < i ==> !in_pass(rt@, #[trigger] gathers@[j]),
            decreases n - i,
        {
            let g = gathers.get_index(i).unwrap();
            assert(rt@.is_cage(gathers@[i as int]));
            if Cage::from_id(RevisableId(g)).is_revising(rt) {
                return true;
            }
            i = i + 1;
        }
        false
    }

    /// Binds `view_id` once more to the bond and to each dependency.
    pub fn bind_view(&self, rt: &mut Runtime<T>, view_id: &ViewId)
        requires
            old(rt).wf(),
            old(rt)@.has_node(self.node_id()),
            count_of(old(rt)@.node(self.node_id()).bindings, view_id@) < usize::MAX,
            forall|i: int|
                0 <= i < old(rt)@.node(self.node_id()).gathers.len() ==> count_of(
                    old(rt)@.node(#[trigger] old(rt)@.node(self.node_id()).gathers[i]).bindings,
                    view_id@,
                ) < usize::MAX,
        ensures
            final(rt).wf(),
            final(rt)@ == bound(old(rt)@, self.node_id(), view_id@),
    {
        proof {
            assert(rt@.node_ok(rt@.nodes[self.node_id() - 1]));
            assert forall|i: int| 0 <= i < rt@.node(self.node_id()).gathers.len() implies rt@.is_cage(
                #[trigger] rt@.node(self.node_id()).gathers[i],
            ) by {}
        }
        rt.bind_counted(self.id, view_id);
        bind_each_counted(rt, self.id, view_id);
    }

    /// Gives up one binding of `view_id` to the bond and, where it held one,
    /// one at each dependency. The view leaves where it gives up its last.
    pub fn unbind_view(&self, rt: &mut Runtime<T>, view_id: &ViewId)
        requires
            old(rt).wf(),
            old(rt)@.has_node(self.node_id()),
        ensures
            final(rt).wf(),
            final(rt)@ == unlaced(old(rt)@, self.node_id(), view_id@, 1),
    {
        self.unlace_view(rt, view_id, 1);
    }

    /// Gives up `loose` bindings of `view_id` to the bond, or as many as it
    /// holds where those are fewer, and as many at each dependency.
    pub fn unlace_view(&self, rt: &mut Runtime<T>, view_id: &ViewId, loose: usize)
        requires
            old(rt).wf(),
            old(rt)@.has_node(self.node_id()),
        ensures
            final(rt).wf(),
            final(rt)@ == unlaced(old(rt)@, self.node_id(), view_id@, loose as nat),
    {
        let given = rt.loosen(self.id, view_id, loose);
        if given > 0 {
            loosen_each(rt, self.id, view_id, given);
        }
    }

    /// Reads the value. Where a dependency has changed since the value was
    /// computed, it is computed again in a capture frame of its own. Where it
    /// is current, each dependency is recorded in every open capture frame.
    pub fn get<'a>(&self, rt: &'a mut Runtime<T>) -> (value: &'a T)
        requires
            old(rt).wf(),
            self.wf(old(rt)),
            forall|r: &mut Runtime<T>, out: T| #[trigger]
                call_ensures(self.mapper(), (r,), out) ==> evaluated(
                    mut_ref_current(r),
                    mut_ref_future(r),
                ),
        ensures
            final(rt).wf(),
            self.wf(final(rt)),
            *value == final(rt)@.node(self.node_id()).value,
            old(rt)@.is_current(self.node_id()) ==> final(rt)@ == old(rt)@.with_layers(
                recorded_all(old(rt)@.layers, old(rt)@.node(self.node_id()).gathers),
            ),
            !old(rt)@.is_current(self.node_id()) ==> exists|r: &mut Runtime<T>, out: T|
                mut_ref_current(r)@ == old(rt)@.with_layers(old(rt)@.layers.push(Seq::empty()))
                    && #[trigger] call_ensures(self.mapper(), (r,), out) && final(rt)@
                    == recomputed(
                    mut_ref_future(r)@,
                    self.node_id(),
                    out,
                    old(rt)@.dep_sum(old(rt)@.node(self.node_id()).gathers),
                ),
    {
        let ghost pre = rt@;
        proof {
            assert(pre.node_ok(pre.nodes[self.node_id() - 1]));
        }
        let stamp = rt.dep_sum(rt.gathers(self.id));
        if rt.version(self.id) != stamp {
            rt.push_layer();
            let value = (self.mapper)(rt);
            let ghost mid = rt@;
            let gathers = rt.pop_layer().unwrap();
            let ghost gs = gathers@;
            let _ = rt.replace_value(self.id, value);
            rt.set_gathers(self.id, gathers);
            rt.set_version(self.id, stamp);
            let ghost stored = rt@;
            let views = rt.view_ids(self.id);
            let ghost vs = views_of(stored.node(self.node_id()).bindings);
            let n = views.len();
            let mut i: usize = 0;
            proof {
                assert(stored.nodes =~= mid.with_layers(mid.layers.drop_last()).with_node(
                    self.node_id(),
                    NodeView {
                        value,
                        version: stamp as nat,
                        gathers: gs,
                        ..mid.node(self.node_id())
                    },
                ).nodes);
            }
            while i < n
                invariant
                    rt.wf(),
                    stored.wf(),
                    stored.cages(gs),
                    stored.has_node(self.node_id()),
                    rt@.has_node(self.node_id()),
                    rt@.node(self.node_id()).gathers == gs,
                    extends(stored, rt@),
                    n == views.len(),
                    n == vs.len(),
                    forall|j: int| 0 <= j < n ==> (#[trigger] views[j])@ == vs[j],
                    i <= n,
                    rt@ == all_bound(stored, gs, vs.subrange(0, i as int)),
                decreases n - i,
            {
                let ghost cur = rt@;
                bind_each(rt, self.id, &views[i]);
                proof {
                    assert(vs.subrange(0, i + 1).drop_last() =~= vs.subrange(0, i as int));
                    crate::reflow::runtime::lemma_cages_stay(stored, cur, gs);
                    lemma_each_bound(cur, gs, vs[i as int]);
                }
                i = i + 1;
            }
            proof {
                assert(vs.subrange(0, n as int) =~= vs);
            }
        } else {
            if !rt.is_idle() {
                track_each(rt, self.id);
            } else {
                proof {
                    lemma_recorded_all_idle(pre.layers, pre.node(self.node_id()).gathers);
                }
            }
        }
        rt.value(self.id)
    }

    /// Reads the value, computing it again where a dependency has changed. No
    /// capture frame is opened and the dependencies stay as they are.
    pub fn get_untracked<'a>(&self, rt: &'a mut Runtime<T>) -> (value: &'a T)
        requires
            old(rt).wf(),
            self.wf(old(rt)),
            forall|r: &mut Runtime<T>, out: T| #[trigger]
                call_ensures(self.mapper(), (r,), out) ==> evaluated(
                    mut_ref_current(r),
                    mut_ref_future(r),
                ),
        ensures
            final(rt).wf(),
            self.wf(final(rt)),
            *value == final(rt)@.node(self.node_id()).value,
            old(rt)@.is_current(self.node_id()) ==> final(rt)@ == old(rt)@,
            !old(rt)@.is_current(self.node_id()) ==> exists|r: &mut Runtime<T>, out: T|
                mut_ref_current(r)@ == old(rt)@ && #[trigger] call_ensures(
                    self.mapper(),
                    (r,),
                    out,
                ) && final(rt)@ == mut_ref_future(r)@.with_node(
                    self.node_id(),
                    NodeView {
                        value: out,
                        version: old(rt)@.dep_sum(old(rt)@.node(self.node_id()).gathers),
                        ..mut_ref_future(r)@.node(self.node_id())
                    },
                ),
    {
        let ghost pre = rt@;
        proof {
            assert(pre.node_ok(pre.nodes[self.node_id() - 1]));
        }
        let stamp = rt.dep_sum(rt.gathers(self.id));
        if rt.version(self.id) != stamp {
            let value = (self.mapper)(rt);
            let _ = rt.replace_value(self.id, value);
            rt.set_version(self.id, stamp);
        }
        rt.value(self.id)
    }
}

/// The runtime after view `v` was bound once more to bond `bond`: its count
/// grows by one at the bond and at each dependency.
pub open spec fn bound<T>(pre: RuntimeView<T>, bond: u64, v: ViewKey) -> RuntimeView<T> {
    each_counted(
        pre.with_node(
            bond,
            NodeView { bindings: with_binding(pre.node(bond).bindings, v), ..pre.node(bond) },
        ),
        pre.node(bond).gathers,
        v,
    )
}

/// The runtime after `loose` bindings of view `v` to bond `bond` were given up:
/// the bond gives up as many as it holds, at most `loose`, and each dependency
/// gives up as many as the bond did.
pub open spec fn unlaced<T>(pre: RuntimeView<T>, bond: u64, v: ViewKey, loose: nat) -> RuntimeView<T> {
    let held = count_of(pre.node(bond).bindings, v);
    let given = if loose >= held {
        held
    } else {
        loose
    };
    let cut = pre.with_node(
        bond,
        NodeView { bindings: loosened(pre.node(bond).bindings, v, loose), ..pre.node(bond) },
    );
    if given > 0 {
        each_loosened(cut, pre.node(bond).gathers, v, given)
    } else {
        cut
    }
}

/// With no frame open, reads are recorded nowhere.
pub proof fn lemma_recorded_all_idle(layers: Seq<Seq<u64>>, ids: Seq<u64>)
    requires
        layers.len() == 0,
    ensures
        recorded_all(layers, ids) == layers,
    decreases ids.len(),
{
    if ids.len() > 0 {
        lemma_recorded_all_idle(layers, ids.drop_last());
        assert(recorded(layers, ids.last()) =~= layers);
    }
}

/// `post` is `mid` with its innermost frame closed and a bond `bond` added that
/// holds `value`, depends on what the frame recorded and keeps the sum of the
/// versions of those cages.
pub open spec fn first_stored<T>(
    mid: RuntimeView<T>,
    post: RuntimeView<T>,
    bond: u64,
    value: T,
) -> bool {
    let gathers = mid.layers.last();
    &&& bond == mid.nodes.len() + 1
    &&& post == (RuntimeView {
        nodes: mid.nodes.push(
            NodeView {
                is_bond: true,
                version: mid.dep_sum(gathers),
                value,
                bindings: Seq::empty(),
                gathers,
            },
        ),
        layers: mid.layers.drop_last(),
        ..mid
    })
}

/// Binding a view to a bond leaves every node of the kind it was.
pub proof fn lemma_bound_extends<T>(pre: RuntimeView<T>, bond: u64, v: ViewKey)
    requires
        pre.has_node(bond),
    ensures
        extends(pre, bound(pre, bond, v)),
{
}

/// Giving up bindings of a view to a bond leaves every node of the kind it was.
pub proof fn lemma_unlaced_extends<T>(pre: RuntimeView<T>, bond: u64, v: ViewKey, loose: nat)
    requires
        pre.has_node(bond),
    ensures
        extends(pre, unlaced(pre, bond, v, loose)),
{
}

} // verus!
