//! Tenants: every session that renders owns one holder, and the runtime keeps
//! each holder's scheduling state apart from every other's.

use crate::node::Node;
use crate::reflow::IdSource;
use crate::reflow::runtime::Runtime;
use crate::scope::{ids_of, with_key, Scope};
use crate::text::{decimal, decimal_text};
use crate::truck::Truck;
use crate::view::{ViewId, ViewKey};
use crate::view_map::ViewMap;
use crate::widget::{mount_to, Widget};
use vstd::prelude::*;
use vstd::string::*;

verus! {

/// Names one tenant. The null holder, number 0, stands for "no tenant".
#[derive(Debug, Clone, Copy, PartialEq, Eq, Structural, Hash)]
pub struct HolderId(pub u64);

impl View for HolderId {
    type V = u64;

    open spec fn view(&self) -> u64 {
        self.0
    }
}

impl HolderId {
    pub fn null() -> (id: HolderId)
        ensures
            id@ == 0,
    {
        HolderId(0)
    }

    pub fn is_null(&self) -> (b: bool)
        ensures
            b == (self@ == 0),
    {
        self.0 == 0
    }

    /// Draws the next holder identifier from `source`.
    pub fn next(source: &mut IdSource) -> (id: HolderId)
        requires
            old(source).upcoming() < u64::MAX,
        ensures
            id@ == old(source).upcoming(),
            final(source).upcoming() == id@ + 1,
    {
        HolderId(source.draw())
    }

    /// The number behind the identifier.
    pub fn value(&self) -> (n: u64)
        ensures
            n == self@,
    {
        self.0
    }

    /// The text form: `#` and the number in decimal.
    pub fn to_string(&self) -> (s: String)
        ensures
            s@ == seq!['#'] + decimal(self@ as nat),
    {
        proof {
            reveal_strlit("#");
            assert("#"@ =~= seq!['#']);
        }
        let mut s = String::from_str("#");
        let number = decimal_text(self.0);
        s.append(number.as_str());
        s
    }
}

impl Default for HolderId {
    fn default() -> (id: HolderId)
        ensures
            id@ == 0,
    {
        HolderId(0)
    }
}

/// Something that prepares a holder before its widgets are mounted, by what
/// it puts in the holder's truck.
pub trait Enabler: Sized {
    fn enable(self, truck: &mut Truck)
        requires
            old(truck).wf(),
        ensures
            final(truck).wf(),
    ;
}

/// Lets `enabler` prepare `truck`: the truck is left as the enabler's `enable`
/// leaves it.
pub fn enable<E: Enabler>(truck: &mut Truck, enabler: E)
    requires
        old(truck).wf(),
    ensures
        final(truck).wf(),
        exists|r: &mut Truck|
            mut_ref_current(r) == *old(truck) && mut_ref_future(r) == *final(truck)
                && #[trigger] call_ensures(E::enable, (enabler, r), ()),
{
    enabler.enable(truck);
}

/// One tenant of the runtime: a session that renders widgets of its own. It
/// owns its root views and its truck; everything that the runtime keeps for it
/// is kept under its identifier.
pub struct Holder<W> {
    id: HolderId,
    truck: Truck,
    views: ViewMap<W>,
    next_root_view_id: u64,
}

impl<W> Holder<W> {
    /// The holder's identifier.
    pub closed spec fn holder_id(&self) -> HolderId {
        self.id
    }

    /// The holder's root views.
    pub closed spec fn root_views(&self) -> ViewMap<W> {
        self.views
    }

    /// The number that the next root view gets as its path.
    pub closed spec fn next_root(&self) -> u64 {
        self.next_root_view_id
    }

    /// The holder's truck.
    pub closed spec fn cargo(&self) -> Truck {
        self.truck
    }

    /// The root views and the truck are in order.
    pub closed spec fn wf(&self) -> bool {
        &&& self.views.wf()
        &&& self.truck.wf()
    }

    /// A holder with the next identifier from `source`, without views and with
    /// an empty truck.
    pub fn new(source: &mut IdSource) -> (holder: Holder<W>)
        requires
            old(source).upcoming() < u64::MAX,
        ensures
            holder.wf(),
            holder.holder_id()@ == old(source).upcoming(),
            final(source).upcoming() == old(source).upcoming() + 1,
            holder.root_views().0@.len() == 0,
            holder.next_root() == 0,
    {
        Holder {
            id: HolderId::next(source),
            truck: Truck::new(),
            views: ViewMap::new(),
            next_root_view_id: 0,
        }
    }

    pub fn id(&self) -> (id: HolderId)
        ensures
            id == self.holder_id(),
    {
        self.id
    }

    pub fn views(&self) -> (views: &ViewMap<W>)
        requires
            self.wf(),
        ensures
            *views == self.root_views(),
            views.wf(),
    {
        &self.views
    }

    pub fn truck(&self) -> (truck: &Truck)
        requires
            self.wf(),
        ensures
            *truck == self.cargo(),
            truck.wf(),
    {
        &self.truck
    }

    /// Lets `enabler` prepare the holder's truck: the truck is left as the
    /// enabler's `enable` leaves it, and nothing else changes.
    pub fn enable<E: Enabler>(&mut self, enabler: E)
        requires
            old(self).wf(),
        ensures
            final(self).wf(),
            final(self).holder_id() == old(self).holder_id(),
            final(self).root_views() == old(self).root_views(),
            final(self).next_root() == old(self).next_root(),
            exists|r: &mut Truck|
                mut_ref_current(r) == old(self).cargo() && mut_ref_future(r) == final(self).cargo()
                    && #[trigger] call_ensures(E::enable, (enabler, r), ()),
    {
        enabler.enable(&mut self.truck);
    }

    /// Mounts `widget` as the holder's next root view, rendering into
    /// `host_node`. The root views are numbered from 0, and the number, in
    /// decimal, is the view's path. The view starts with the scope of a root
    /// view and is mounted among the holder's root views.
    pub fn mount<T>(&mut self, widget: W, host_node: Node, rt: &mut Runtime<T>) -> (view_id:
        ViewId) where W: Widget<T>
        requires
            old(self).wf(),
            old(rt).wf(),
        ensures
            final(self).wf(),
            final(rt).wf(),
            final(self).holder_id() == old(self).holder_id(),
            final(self).next_root() == crate::scope::bumped(old(self).next_root()),
            view_id@ == (ViewKey {
                holder: old(self).holder_id()@,
                raw: crate::text::decimal(old(self).next_root() as nat),
            }),
            ids_of(final(self).root_views().0@) == with_key(
                ids_of(old(self).root_views().0@),
                view_id@,
            ),
            forall|i: int|
                0 <= i < final(self).root_views().0.len()
                    && (#[trigger] final(self).root_views().0[i]).id@ == view_id@
                    ==> final(self).root_views().0[i].scope.is_attached
                    && final(self).root_views().0[i].scope.is_built,
            crate::reflow::bond::extends(old(rt)@, final(rt)@),
            exists|ctx: Scope<W>|
                crate::scope::fresh_root(ctx, view_id@) && #[trigger] crate::widget::mounted(
                    widget,
                    ctx,
                    host_node,
                    old(self).root_views().0@,
                    *old(rt),
                    final(self).root_views().0@,
                    *final(rt),
                ),
    {
        let number = self.next_root_view_id;
        self.next_root_view_id = if number == u64::MAX {
            0
        } else {
            number + 1
        };
        let view_id = ViewId::new(self.id, decimal_text(number));
        let scope = Scope::new_root(view_id);
        let ghost ctx = scope;
        let ghost made = widget;
        let view_id = mount_to(widget, scope, host_node, &mut self.views, rt);
        proof {
            assert(crate::scope::fresh_root(ctx, view_id@));
            assert(crate::widget::mounted(
                made,
                ctx,
                host_node,
                old(self).root_views().0@,
                *old(rt),
                self.root_views().0@,
                *rt,
            ));
        }
        view_id
    }

    /// Runs the scheduler for this holder unless it is in a pass or a batch is
    /// open.
    pub fn schedule<T>(&mut self, rt: &mut Runtime<T>) where W: Widget<T>
        requires
            old(self).wf(),
            old(rt).wf(),
        ensures
            final(self).wf(),
            final(rt).wf(),
            final(self).holder_id() == old(self).holder_id(),
            final(self).next_root() == old(self).next_root(),
            ids_of(final(self).root_views().0@) == ids_of(old(self).root_views().0@),
            crate::reflow::scheduler::scheduled(
                old(self).root_views().0@,
                *old(rt),
                final(self).root_views().0@,
                *final(rt),
                old(self).holder_id()@,
            ),
    {
        crate::reflow::scheduler::schedule(rt, &mut self.views, self.id);
    }

    /// Writes to `cage` and, where the write asks for a scheduler run, lets the
    /// scheduler re-render among this holder's views.
    pub fn revise<T, R, F: FnOnce(&mut T) -> R>(
        &mut self,
        cage: crate::reflow::Cage,
        rt: &mut Runtime<T>,
        opt: F,
    ) -> (out: R) where W: Widget<T>
        requires
            old(self).wf(),
            old(rt).wf(),
            old(rt)@.is_cage(cage@),
            old(rt)@.node(cage@).version < usize::MAX,
            forall|r: &mut T|
                mut_ref_current(r) == old(rt)@.node(cage@).value ==> call_requires(opt, (r,)),
        ensures
            final(self).wf(),
            final(rt).wf(),
            final(self).holder_id() == old(self).holder_id(),
            final(self).next_root() == old(self).next_root(),
            ids_of(final(self).root_views().0@) == ids_of(old(self).root_views().0@),
            exists|r: &mut T, mid: Runtime<T>|
                mut_ref_current(r) == old(rt)@.node(cage@).value && #[trigger] call_ensures(
                    opt,
                    (r,),
                    out,
                ) && mid.wf() && mid@ == crate::reflow::cage::signalled(
                    crate::reflow::cage::written(old(rt)@, cage@, mut_ref_future(r)),
                    cage@,
                ) && #[trigger] crate::reflow::cage::revised(
                    old(self).root_views().0@,
                    mid,
                    final(self).root_views().0@,
                    *final(rt),
                    cage@,
                    old(rt)@,
                ),
    {
        cage.revise(rt, &mut self.views, opt)
    }

    /// Ends the session: the views and the truck are dropped, and the runtime
    /// forgets the holder's flags and both of its queues. Nothing of the
    /// holder is left anywhere.
    pub fn close<T>(self, rt: &mut Runtime<T>)
        requires
            old(rt).wf(),
        ensures
            final(rt).wf(),
            final(rt)@ == old(rt)@.with_holder(self.holder_id()@, crate::reflow::idle_holder()),
    {
        rt.release_holder(self.id);
    }
}

} // verus!
