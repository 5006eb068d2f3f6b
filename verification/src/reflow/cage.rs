//! Cages: the cells of the graph that are written directly.

use crate::holder::HolderId;
use crate::reflow::bindings::{count_of, loosened, with_binding};
use crate::reflow::lotus::Lotus;
use crate::reflow::{recorded, with_id, HolderView, NodeView, RevisableId, RuntimeView};
use crate::reflow::runtime::Runtime;
use crate::reflow::scheduler::{schedule, scheduled};
use crate::view::ViewId;
use crate::view_map::ViewMap;
use crate::widget::Widget;
use vstd::prelude::*;

verus! {

/// The runtime after cage `id` has raised its change signal.
///
/// A cage that no view is bound to raises nothing, and neither does one whose
/// holder suppresses signals. While the scheduler is in a pass for the holder
/// the cage waits for the next pass; else it joins the current one.
pub open spec fn signalled<T>(pre: RuntimeView<T>, id: u64) -> RuntimeView<T> {
    match pre.owner(id) {
        None => pre,
        Some(h) => {
            let hv = pre.holder(h);
            if hv.untracking {
                pre
            } else if hv.running {
                pre.with_holder(h, HolderView { pending: with_id(hv.pending, id), ..hv })
            } else {
                pre.with_holder(h, HolderView { revising: with_id(hv.revising, id), ..hv })
            }
        },
    }
}

/// Whether the change signal of cage `id` asks for a scheduler pass: it is the
/// first to join the current pass of a holder that is not in one.
pub open spec fn signal_due<T>(pre: RuntimeView<T>, id: u64) -> bool {
    match pre.owner(id) {
        None => false,
        Some(h) => {
            let hv = pre.holder(h);
            !hv.untracking && !hv.running && !hv.revising.contains(id)
        },
    }
}

/// Whether cage `id` is in the current pass of its holder.
pub open spec fn in_pass<T>(rt: RuntimeView<T>, id: u64) -> bool {
    match rt.owner(id) {
        Some(h) => rt.holder(h).revising.contains(id),
        None => false,
    }
}

/// The runtime after one write to cage `id` that leaves `value` in it: the
/// version has grown by one.
pub open spec fn written<T>(pre: RuntimeView<T>, id: u64, value: T) -> RuntimeView<T> {
    pre.with_node(id, NodeView { value, version: pre.node(id).version + 1, ..pre.node(id) })
}

/// A handle to a cell that is written directly. Copies of a handle name the
/// same cell.
#[derive(Debug, Clone, Copy)]
pub struct Cage {
    id: RevisableId,
}

impl View for Cage {
    type V = u64;

    closed spec fn view(&self) -> u64 {
        self.id@
    }
}

impl Cage {
    /// Makes a cell that holds `source`, at version 1 and with no subscriber.
    pub fn new<T>(rt: &mut Runtime<T>, source: T) -> (cage: Cage)
        requires
            old(rt).wf(),
            old(rt)@.nodes.len() + 1 < u64::MAX,
        ensures
            final(rt).wf(),
            cage@ == old(rt)@.nodes.len() + 1,
            final(rt)@.is_cage(cage@),
            final(rt)@ == (RuntimeView {
                nodes: old(rt)@.nodes.push(
                    NodeView {
                        is_bond: false,
                        version: 1,
                        value: source,
                        bindings: Seq::empty(),
                        gathers: Seq::empty(),
                    },
                ),
                ..old(rt)@
            }),
    {
        let id = rt.push_node(false, source, 1, crate::id_set::IdSet::new());
        Cage { id }
    }

    pub fn id(&self) -> (id: RevisableId)
        ensures
            id@ == self@,
    {
        self.id
    }

    /// The handle of the cage with identifier `id`.
    pub fn from_id(id: RevisableId) -> (cage: Cage)
        ensures
            cage@ == id@,
    {
        Cage { id }
    }

    /// Copies of the views subscribed to the cell, in their order.
    pub fn view_ids<T>(&self, rt: &Runtime<T>) -> (list: Vec<ViewId>)
        requires
            rt.wf(),
            rt@.is_cage(self@),
        ensures
            list.len() == rt@.node(self@).bindings.len(),
            forall|i: int|
                0 <= i < list.len() ==> (#[trigger] list[i])@ == rt@.node(self@).bindings[i].view,
    {
        rt.view_ids(self.id)
    }

    /// The holder that the cell belongs to: that of the first view bound to it.
    pub fn holder_id<T>(&self, rt: &Runtime<T>) -> (h: Option<HolderId>)
        requires
            rt.wf(),
            rt@.is_cage(self@),
        ensures
            h == match rt@.owner(self@) {
                Some(n) => Some(HolderId(n)),
                None => None,
            },
    {
        rt.bindings(self.id).first_holder()
    }

    /// The number of writes so far, plus one.
    pub fn version<T>(&self, rt: &Runtime<T>) -> (v: usize)
        requires
            rt.wf(),
            rt@.is_cage(self@),
        ensures
            v == rt@.node(self@).version,
    {
        proof {
            assert(rt@.node_ok(rt@.nodes[self@ - 1]));
        }
        rt.version(self.id) as usize
    }

    /// Binds `view_id` once more: a new subscriber goes to the end with one
    /// binding, a subscriber stays where it is and holds one binding more.
    pub fn bind_view<T>(&self, rt: &mut Runtime<T>, view_id: &ViewId)
        requires
            old(rt).wf(),
            old(rt)@.is_cage(self@),
            count_of(old(rt)@.node(self@).bindings, view_id@) < usize::MAX,
        ensures
            final(rt).wf(),
            final(rt)@ == old(rt)@.with_node(
                self@,
                NodeView {
                    bindings: with_binding(old(rt)@.node(self@).bindings, view_id@),
                    ..old(rt)@.node(self@)
                },
            ),
    {
        rt.bind_counted(self.id, view_id);
    }

    /// Gives up one binding of `view_id`. The view leaves where that was its
    /// last; else it stays a subscriber with one binding less.
    pub fn unbind_view<T>(&self, rt: &mut Runtime<T>, view_id: &ViewId)
        requires
            old(rt).wf(),
            old(rt)@.is_cage(self@),
        ensures
            final(rt).wf(),
            final(rt)@ == old(rt)@.with_node(
                self@,
                NodeView {
                    bindings: loosened(old(rt)@.node(self@).bindings, view_id@, 1),
                    ..old(rt)@.node(self@)
                },
            ),
    {
        let _ = rt.loosen(self.id, view_id, 1);
    }

    /// Gives up `loose` bindings of `view_id`, or all it holds where those are
    /// fewer.
    pub fn unlace_view<T>(&self, rt: &mut Runtime<T>, view_id: &ViewId, loose: usize)
        requires
            old(rt).wf(),
            old(rt)@.is_cage(self@),
        ensures
            final(rt).wf(),
            final(rt)@ == old(rt)@.with_node(
                self@,
                NodeView {
                    bindings: loosened(old(rt)@.node(self@).bindings, view_id@, loose as nat),
                    ..old(rt)@.node(self@)
                },
            ),
    {
        let _ = rt.loosen(self.id, view_id, loose);
    }

    /// Whether the cell is in the current pass of its holder.
    pub fn is_revising<T>(&self, rt: &Runtime<T>) -> (b: bool)
        requires
            rt.wf(),
            rt@.is_cage(self@),
        ensures
            b == in_pass(rt@, self@),
    {
        match self.holder_id(rt) {
            Some(h) => rt.revising_contains(h, self.id),
            None => false,
        }
    }

    /// Records the read in every open capture frame. Outside any capture
    /// nothing is recorded.
    pub fn track<T>(&self, rt: &mut Runtime<T>)
        requires
            old(rt).wf(),
            old(rt)@.is_cage(self@),
        ensures
            final(rt).wf(),
            final(rt)@ == old(rt)@.with_layers(recorded(old(rt)@.layers, self@)),
    {
        if !rt.is_idle() {
            rt.track(self.id);
        } else {
            assert(recorded(rt@.layers, self@) =~= rt@.layers);
        }
    }

    /// Reads the value and records the read in every open capture frame.
    pub fn get<'a, T>(&self, rt: &'a mut Runtime<T>) -> (value: &'a T)
        requires
            old(rt).wf(),
            old(rt)@.is_cage(self@),
        ensures
            final(rt).wf(),
            *value == old(rt)@.node(self@).value,
            final(rt)@ == old(rt)@.with_layers(recorded(old(rt)@.layers, self@)),
    {
        self.track(rt);
        rt.value(self.id)
    }

    /// Reads the value; no capture frame learns of it.
    pub fn get_untracked<'a, T>(&self, rt: &'a Runtime<T>) -> (value: &'a T)
        requires
            rt@.has_node(self@),
        ensures
            *value == rt@.node(self@).value,
    {
        rt.value(self.id)
    }

    /// Reads the value; no capture frame learns of it.
    pub fn borrow<'a, T>(&self, rt: &'a Runtime<T>) -> (value: &'a T)
        requires
            rt@.has_node(self@),
        ensures
            *value == rt@.node(self@).value,
    {
        rt.value(self.id)
    }

    /// Lets `opt` change the value and raises the version by one. No change
    /// signal is raised.
    pub fn revise_silent<T, R, F: FnOnce(&mut T) -> R>(&self, rt: &mut Runtime<T>, opt: F) -> (out:
        R)
        requires
            old(rt).wf(),
            old(rt)@.is_cage(self@),
            old(rt)@.node(self@).version < usize::MAX,
            forall|r: &mut T|
                mut_ref_current(r) == old(rt)@.node(self@).value ==> call_requires(opt, (r,)),
        ensures
            final(rt).wf(),
            exists|r: &mut T|
                mut_ref_current(r) == old(rt)@.node(self@).value
                    && mut_ref_future(r) == final(rt)@.node(self@).value
                    && call_ensures(opt, (r,), out),
            final(rt)@ == written(old(rt)@, self@, final(rt)@.node(self@).value),
    {
        let out = rt.update_value(self.id, opt);
        let version = rt.version(self.id);
        rt.set_version(self.id, version + 1);
        proof {
            assert(rt@.nodes =~= written(old(rt)@, self@, rt@.node(self@).value).nodes);
        }
        out
    }

    /// The cell as a value to show.
    pub fn read<T, M>(&self) -> (lotus: Lotus<T, M>)
        ensures
            lotus == Lotus::<T, M>::Cage(*self),
    {
        Lotus::Cage(*self)
    }

    /// Raises the change signal of the cell and says whether a scheduler pass
    /// is due for its holder.
    pub fn signal<T>(&self, rt: &mut Runtime<T>) -> (due: bool)
        requires
            old(rt).wf(),
            old(rt)@.is_cage(self@),
        ensures
            final(rt).wf(),
            final(rt)@ == signalled(old(rt)@, self@),
            due == signal_due(old(rt)@, self@),
    {
        let holder_id = match self.holder_id(rt) {
            Some(h) => h,
            None => {
                return false;
            },
        };
        if rt.untracking(holder_id) {
            return false;
        }
        if rt.running(holder_id) {
            rt.mark_pending(holder_id, self.id);
            false
        } else {
            rt.mark_revising(holder_id, self.id)
        }
    }

    /// Lets `opt` change the value, raises the version by one and raises the
    /// change signal. Where the signal asks for it, the scheduler runs for the
    /// cell's holder before `revise` returns.
    pub fn revise<T, W: Widget<T>, R, F: FnOnce(&mut T) -> R>(
        &self,
        rt: &mut Runtime<T>,
        views: &mut ViewMap<W>,
        opt: F,
    ) -> (out: R)
        requires
            old(rt).wf(),
            old(views).wf(),
            old(rt)@.is_cage(self@),
            old(rt)@.node(self@).version < usize::MAX,
            forall|r: &mut T|
                mut_ref_current(r) == old(rt)@.node(self@).value ==> call_requires(opt, (r,)),
        ensures
            final(rt).wf(),
            final(views).wf(),
            exists|r: &mut T, mid: Runtime<T>|
                mut_ref_current(r) == old(rt)@.node(self@).value && #[trigger] call_ensures(
                    opt,
                    (r,),
                    out,
                ) && mid.wf() && mid@ == signalled(
                    written(old(rt)@, self@, mut_ref_future(r)),
                    self@,
                ) && #[trigger] revised(
                    old(views).0@,
                    mid,
                    final(views).0@,
                    *final(rt),
                    self@,
                    old(rt)@,
                ),
            !signal_due(old(rt)@, self@) ==> *final(views) == *old(views),
            crate::scope::ids_of(final(views).0@) == crate::scope::ids_of(old(views).0@),
            crate::scope::same_flags(old(views).0@, final(views).0@),
    {
        let out = self.revise_silent(rt, opt);
        let ghost wrote = rt@;
        let due = self.signal(rt);
        let ghost mid = *rt;
        proof {
            assert(wrote.owner(self@) == old(rt)@.owner(self@));
            assert(signal_due(wrote, self@) == signal_due(old(rt)@, self@));
        }
        if due {
            match self.holder_id(rt) {
                Some(holder_id) => {
                    schedule(rt, views, holder_id);
                },
                None => {},
            }
        }
        proof {
            assert(revised(old(views).0@, mid, views.0@, *rt, self@, old(rt)@));
        }
        out
    }
}

/// What follows the change signal of cage `id`: where the signal asks for a
/// pass, the scheduler is called for the cage's holder; else nothing happens.
/// `pre` is the runtime before the write.
pub open spec fn revised<T, W: Widget<T>>(
    vs0: Seq<crate::scope::View<W>>,
    mid: Runtime<T>,
    vs1: Seq<crate::scope::View<W>>,
    post: Runtime<T>,
    id: u64,
    pre: RuntimeView<T>,
) -> bool {
    if signal_due(pre, id) {
        scheduled(vs0, mid, vs1, post, pre.owner(id).unwrap())
    } else {
        post == mid && vs1 == vs0
    }
}

} // verus!
