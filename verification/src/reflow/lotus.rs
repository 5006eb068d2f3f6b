//! Values that may or may not be reactive: a plain value, a cage or a bond.

use crate::holder::HolderId;
use crate::reflow::bindings::count_of;
use crate::reflow::bond::{evaluated, recomputed, recorded_all, unlaced, Bond};
use crate::reflow::cage::{in_pass, Cage};
use crate::reflow::{recorded, RevisableId};
use crate::reflow::runtime::Runtime;
use crate::view::ViewId;
use vstd::prelude::*;

verus! {

/// A value to show: one that never changes, a cage, or a bond. A widget that
/// takes a `Lotus` works with all three.
pub enum Lotus<T, M> {
    /// A plain value, with the holder of the view that it was last bound to.
    Bare { holder_id: Option<HolderId>, data: T },
    Cage(Cage),
    Bond(Bond<T, M>),
}

impl<T, M: Fn(&mut Runtime<T>) -> T> Lotus<T, M> {
    /// What is in a cage or a bond belongs to `rt`.
    pub open spec fn wf(&self, rt: &Runtime<T>) -> bool {
        match *self {
            Lotus::Bare { .. } => true,
            Lotus::Cage(cage) => rt@.is_cage(cage@),
            Lotus::Bond(bond) => bond.wf(rt),
        }
    }

    /// The identifier of the node behind the value; 0 for a plain value.
    pub open spec fn node_id(&self) -> u64 {
        match *self {
            Lotus::Bare { .. } => 0,
            Lotus::Cage(cage) => cage@,
            Lotus::Bond(bond) => bond.node_id(),
        }
    }

    /// A plain value that no view has bound yet.
    pub fn bare(data: T) -> (lotus: Lotus<T, M>)
        ensures
            lotus == (Lotus::<T, M>::Bare { holder_id: None, data }),
    {
        Lotus::Bare { holder_id: None, data }
    }

    pub fn id(&self) -> (id: RevisableId)
        ensures
            id@ == self.node_id(),
    {
        match self {
            Lotus::Bare { .. } => RevisableId(0),
            Lotus::Cage(cage) => cage.id(),
            Lotus::Bond(bond) => bond.id(),
        }
    }

    /// The holder that the value belongs to.
    pub fn holder_id(&self, rt: &Runtime<T>) -> (h: Option<HolderId>)
        requires
            rt.wf(),
            self.wf(rt),
        ensures
            h == match *self {
                Lotus::Bare { holder_id, .. } => holder_id,
                _ => match rt@.owner(self.node_id()) {
                    Some(n) => Some(HolderId(n)),
                    None => None,
                },
            },
    {
        match self {
            Lotus::Bare { holder_id, .. } => *holder_id,
            Lotus::Cage(cage) => cage.holder_id(rt),
            Lotus::Bond(bond) => bond.holder_id(rt),
        }
    }

    /// The version of the node behind the value; 0 for a plain value.
    pub fn version(&self, rt: &Runtime<T>) -> (v: u128)
        requires
            rt.wf(),
            self.wf(rt),
        ensures
            v == match *self {
                Lotus::Bare { .. } => 0,
                _ => rt@.node(self.node_id()).version,
            },
    {
        match self {
            Lotus::Bare { .. } => 0,
            Lotus::Cage(cage) => rt.version(cage.id()),
            Lotus::Bond(bond) => bond.version(rt),
        }
    }

    /// Copies of the views subscribed to the value; none for a plain value.
    pub fn view_ids(&self, rt: &Runtime<T>) -> (list: Vec<ViewId>)
        requires
            rt.wf(),
            self.wf(rt),
        ensures
            match *self {
                Lotus::Bare { .. } => list.len() == 0,
                _ => list.len() == rt@.node(self.node_id()).bindings.len() && forall|i: int|
                    0 <= i < list.len() ==> (#[trigger] list[i])@ == rt@.node(
                        self.node_id(),
                    ).bindings[i].view,
            },
    {
        match self {
            Lotus::Bare { .. } => Vec::new(),
            Lotus::Cage(cage) => cage.view_ids(rt),
            Lotus::Bond(bond) => bond.view_ids(rt),
        }
    }

    /// Whether the value is about to be rendered again; never for a plain value.
    pub fn is_revising(&self, rt: &Runtime<T>) -> (b: bool)
        requires
            rt.wf(),
            self.wf(rt),
        ensures
            b == match *self {
                Lotus::Bare { .. } => false,
                Lotus::Cage(cage) => in_pass(rt@, cage@),
                Lotus::Bond(bond) => exists|i: int|
                    0 <= i < rt@.node(bond.node_id()).gathers.len() && in_pass(
                        rt@,
                        #[trigger] rt@.node(bond.node_id()).gathers[i],
                    ),
            },
    {
        match self {
            Lotus::Bare { .. } => false,
            Lotus::Cage(cage) => cage.is_revising(rt),
            Lotus::Bond(bond) => bond.is_revising(rt),
        }
    }

    /// Binds `view_id` to the value. A plain value only notes the view's holder.
    pub fn bind_view(&mut self, rt: &mut Runtime<T>, view_id: &ViewId)
        requires
            old(rt).wf(),
            old(self).wf(old(rt)),
            !(*old(self) is Bare) ==> count_of(
                old(rt)@.node(old(self).node_id()).bindings,
                view_id@,
            ) < usize::MAX,
            *old(self) is Bond ==> forall|i: int|
                0 <= i < old(rt)@.node(old(self).node_id()).gathers.len() ==> count_of(
                    old(rt)@.node(
                        #[trigger] old(rt)@.node(old(self).node_id()).gathers[i],
                    ).bindings,
                    view_id@,
                ) < usize::MAX,
        ensures
            final(rt).wf(),
            final(self).wf(final(rt)),
            match *old(self) {
                Lotus::Bare { holder_id, data } => *final(self) == (Lotus::<T, M>::Bare {
                    holder_id: Some(HolderId(view_id@.holder)),
                    data,
                }) && *final(rt) == *old(rt),
                Lotus::Cage(cage) => *final(self) == *old(self) && final(rt)@ == old(rt)@.with_node(
                    cage@,
                    crate::reflow::NodeView {
                        bindings: crate::reflow::bindings::with_binding(
                            old(rt)@.node(cage@).bindings,
                            view_id@,
                        ),
                        ..old(rt)@.node(cage@)
                    },
                ),
                Lotus::Bond(bond) => *final(self) == *old(self) && final(rt)@
                    == crate::reflow::bond::bound(old(rt)@, bond.node_id(), view_id@),
            },
    {
        match self {
            Lotus::Bare { holder_id, .. } => {
                *holder_id = Some(view_id.holder_id());
            },
            Lotus::Cage(cage) => {
                cage.bind_view(rt, view_id);
            },
            Lotus::Bond(bond) => {
                bond.bind_view(rt, view_id);
                proof {
                    crate::reflow::bond::lemma_bound_extends(old(rt)@, bond.node_id(), view_id@);
                }
            },
        }
    }

    /// Gives up one binding of `view_id` to the value.
    pub fn unbind_view(&self, rt: &mut Runtime<T>, view_id: &ViewId)
        requires
            old(rt).wf(),
            self.wf(old(rt)),
        ensures
            final(rt).wf(),
            self.wf(final(rt)),
            final(rt)@ == match *self {
                Lotus::Bare { .. } => old(rt)@,
                Lotus::Cage(cage) => old(rt)@.with_node(
                    cage@,
                    crate::reflow::NodeView {
                        bindings: crate::reflow::bindings::loosened(
                            old(rt)@.node(cage@).bindings,
                            view_id@,
                            1,
                        ),
                        ..old(rt)@.node(cage@)
                    },
                ),
                Lotus::Bond(bond) => unlaced(old(rt)@, bond.node_id(), view_id@, 1),
            },
    {
        match self {
            Lotus::Bare { .. } => {},
            Lotus::Cage(cage) => {
                cage.unbind_view(rt, view_id);
            },
            Lotus::Bond(bond) => {
                bond.unbind_view(rt, view_id);
                proof {
                    crate::reflow::bond::lemma_unlaced_extends(old(rt)@, bond.node_id(), view_id@, 1);
                }
            },
        }
    }

    /// Gives up `loose` bindings of `view_id` to the value.
    pub fn unlace_view(&self, rt: &mut Runtime<T>, view_id: &ViewId, loose: usize)
        requires
            old(rt).wf(),
            self.wf(old(rt)),
        ensures
            final(rt).wf(),
            self.wf(final(rt)),
            final(rt)@ == match *self {
                Lotus::Bare { .. } => old(rt)@,
                Lotus::Cage(cage) => old(rt)@.with_node(
                    cage@,
                    crate::reflow::NodeView {
                        bindings: crate::reflow::bindings::loosened(
                            old(rt)@.node(cage@).bindings,
                            view_id@,
                            loose as nat,
                        ),
                        ..old(rt)@.node(cage@)
                    },
                ),
                Lotus::Bond(bond) => unlaced(old(rt)@, bond.node_id(), view_id@, loose as nat),
            },
    {
        match self {
            Lotus::Bare { .. } => {},
            Lotus::Cage(cage) => {
                cage.unlace_view(rt, view_id, loose);
            },
            Lotus::Bond(bond) => {
                bond.unlace_view(rt, view_id, loose);
                proof {
                    crate::reflow::bond::lemma_unlaced_extends(
                        old(rt)@,
                        bond.node_id(),
                        view_id@,
                        loose as nat,
                    );
                }
            },
        }
    }

    /// Reads the value: a plain value as it is, a cage or a bond as their
    /// `get` reads them.
    pub fn get<'a>(&'a self, rt: &'a mut Runtime<T>) -> (value: &'a T)
        requires
            old(rt).wf(),
            self.wf(old(rt)),
            forall|r: &mut Runtime<T>, out: T, bond: Bond<T, M>|
                *self == Lotus::<T, M>::Bond(bond) && #[trigger] call_ensures(
                    bond.mapper(),
                    (r,),
                    out,
                ) ==> evaluated(mut_ref_current(r), mut_ref_future(r)),
        ensures
            final(rt).wf(),
            self.wf(final(rt)),
            match *self {
                Lotus::Bare { data, .. } => *value == data && *final(rt) == *old(rt),
                Lotus::Cage(cage) => *value == old(rt)@.node(cage@).value
                    && final(rt)@ == old(rt)@.with_layers(recorded(old(rt)@.layers, cage@)),
                Lotus::Bond(bond) => {
                    &&& *value == final(rt)@.node(bond.node_id()).value
                    &&& old(rt)@.is_current(bond.node_id()) ==> final(rt)@ == old(rt)@.with_layers(
                        recorded_all(old(rt)@.layers, old(rt)@.node(bond.node_id()).gathers),
                    )
                    &&& !old(rt)@.is_current(bond.node_id()) ==> exists|
                        r: &mut Runtime<T>,
                        out: T,
                    |
                        mut_ref_current(r)@ == old(rt)@.with_layers(
                            old(rt)@.layers.push(Seq::empty()),
                        ) && #[trigger] call_ensures(bond.mapper(), (r,), out) && final(rt)@
                            == recomputed(
                            mut_ref_future(r)@,
                            bond.node_id(),
                            out,
                            old(rt)@.dep_sum(old(rt)@.node(bond.node_id()).gathers),
                        )
                },
            },
    {
        match self {
            Lotus::Bare { data, .. } => data,
            Lotus::Cage(cage) => cage.get(rt),
            Lotus::Bond(bond) => bond.get(rt),
        }
    }

    /// Reads the value: a plain value as it is, a cage or a bond as their
    /// `get_untracked` reads them.
    pub fn get_untracked<'a>(&'a self, rt: &'a mut Runtime<T>) -> (value: &'a T)
        requires
            old(rt).wf(),
            self.wf(old(rt)),
            forall|r: &mut Runtime<T>, out: T, bond: Bond<T, M>|
                *self == Lotus::<T, M>::Bond(bond) && #[trigger] call_ensures(
                    bond.mapper(),
                    (r,),
                    out,
                ) ==> evaluated(mut_ref_current(r), mut_ref_future(r)),
        ensures
            final(rt).wf(),
            self.wf(final(rt)),
            match *self {
                Lotus::Bare { data, .. } => *value == data && *final(rt) == *old(rt),
                Lotus::Cage(cage) => *value == old(rt)@.node(cage@).value && *final(rt) == *old(rt),
                Lotus::Bond(bond) => {
                    &&& *value == final(rt)@.node(bond.node_id()).value
                    &&& old(rt)@.is_current(bond.node_id()) ==> final(rt)@ == old(rt)@
                    &&& !old(rt)@.is_current(bond.node_id()) ==> exists|
                        r: &mut Runtime<T>,
                        out: T,
                    |
                        mut_ref_current(r)@ == old(rt)@ && #[trigger] call_ensures(
                            bond.mapper(),
                            (r,),
                            out,
                        ) && final(rt)@ == mut_ref_future(r)@.with_node(
                            bond.node_id(),
                            crate::reflow::NodeView {
                                value: out,
                                version: old(rt)@.dep_sum(old(rt)@.node(bond.node_id()).gathers),
                                ..mut_ref_future(r)@.node(bond.node_id())
                            },
                        )
                },
            },
    {
        match self {
            Lotus::Bare { data, .. } => data,
            Lotus::Cage(cage) => cage.get_untracked(rt),
            Lotus::Bond(bond) => bond.get_untracked(rt),
        }
    }
}

} // verus!
