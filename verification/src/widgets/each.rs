//! A list of child views, one for each item of a list, kept in step with the
//! list by the keys of its items.

use crate::keyed_views::{has_key, key_place, values_of, with_entry, without_entry, KeyedViews};
use crate::reflow::runtime::Runtime;
use crate::reflow::scheduler::{batch_closed, batch_opened, enter_batch, leave_batch};
use crate::scope::{
    bumped, child_hidden, child_path, child_shown, ids_of, lemma_ids_place, lemma_views_wf_update, moved,
    views_wf, Scope, View as ChildView,
};
use crate::view::{ViewId, ViewKey};
use crate::widget::{
    hidden_all, kept, lemma_steady_batch, lemma_steady_trans, show_in, steady, store_in, stored,
    Widget,
};
use vstd::prelude::*;

verus! {

/// What is left of the entries `old` once the entry under each of `keys` has
/// been taken out, in turn.
pub open spec fn remaining(old: Seq<(u64, ViewKey)>, keys: Seq<u64>) -> Seq<(u64, ViewKey)>
    decreases keys.len(),
{
    if keys.len() == 0 {
        old
    } else {
        without_entry(remaining(old, keys.drop_last()), keys.last())
    }
}

/// The views for the items with keys `keys`, and the number that the next new
/// child gets.
///
/// The keys are taken in turn. A key that `old` still holds an entry for keeps
/// the view of that entry, and the entry is used up. Any other key gets a new
/// view: the next child of the scope with path `raw` in `holder`. The view goes
/// under its key behind the entries `acc`.
pub open spec fn reconciled(
    acc: Seq<(u64, ViewKey)>,
    old: Seq<(u64, ViewKey)>,
    keys: Seq<u64>,
    holder: u64,
    raw: Seq<char>,
    next: u64,
) -> (Seq<(u64, ViewKey)>, u64)
    decreases keys.len(),
{
    if keys.len() == 0 {
        (acc, next)
    } else {
        let before = reconciled(acc, old, keys.drop_last(), holder, raw, next);
        let left = remaining(old, keys.drop_last());
        let key = keys.last();
        if has_key(left, key) {
            (with_entry(before.0, key, left[key_place(left, key)].1), before.1)
        } else {
            (
                with_entry(before.0, key, ViewKey { holder, raw: child_path(raw, before.1) }),
                bumped(before.1),
            )
        }
    }
}

/// What is to be done with the view of one item.
pub enum ViewOperation {
    /// The view was there: it goes to the given place.
    Reuse(usize, ViewId),
    /// The view is new: it goes to the given place.
    Insert(usize, ViewId),
}

/// What is to be done with the view of one item, by the view's key.
pub enum Planned {
    /// The view was there: it goes to the given place.
    Reuse(usize, ViewKey),
    /// The view is new: it goes to the given place.
    Insert(usize, ViewKey),
}

impl View for ViewOperation {
    type V = Planned;

    open spec fn view(&self) -> Planned {
        match *self {
            ViewOperation::Reuse(place, id) => Planned::Reuse(place, id@),
            ViewOperation::Insert(place, id) => Planned::Insert(place, id@),
        }
    }
}

/// What `ops` say by the keys of their views.
pub open spec fn plan_of(ops: Seq<ViewOperation>) -> Seq<Planned> {
    Seq::new(ops.len(), |i: int| ops[i]@)
}

/// What is to be done with the views for the items with keys `keys`, one step
/// for each item in turn. An item whose key still has an entry in `old` has
/// its view used again; any other gets the next new child of the scope with
/// path `raw` in `holder`, the number of the first being `next`.
pub open spec fn planned(
    old: Seq<(u64, ViewKey)>,
    keys: Seq<u64>,
    holder: u64,
    raw: Seq<char>,
    next: u64,
) -> Seq<Planned>
    decreases keys.len(),
{
    if keys.len() == 0 {
        Seq::empty()
    } else {
        let before = planned(old, keys.drop_last(), holder, raw, next);
        let left = remaining(old, keys.drop_last());
        let key = keys.last();
        let place = (keys.len() - 1) as usize;
        if has_key(left, key) {
            before.push(Planned::Reuse(place, left[key_place(left, key)].1))
        } else {
            let number = reconciled(Seq::empty(), old, keys.drop_last(), holder, raw, next).1;
            before.push(Planned::Insert(place, ViewKey { holder, raw: child_path(raw, number) }))
        }
    }
}

/// The view that the step `op` makes, where it makes one.
pub open spec fn made_by(op: Planned) -> Option<ViewKey> {
    match op {
        Planned::Insert(_, id) => Some(id),
        Planned::Reuse(_, _) => None,
    }
}

/// Whether a step of `plan` makes the view `id`.
pub open spec fn makes(plan: Seq<Planned>, id: ViewKey) -> bool {
    exists|k: int| 0 <= k < plan.len() && made_by(#[trigger] plan[k]) == Some(id)
}

/// The scope `s1` is what the step `op` made of `s0` before anything is
/// moved: for a new view the widget that `tmpl_fn` makes for the place is
/// stored as a child; for a view that is used again nothing changes.
pub open spec fn stock_step<W, F: Fn(usize) -> W>(
    s0: Scope<W>,
    op: Planned,
    tmpl_fn: F,
    s1: Scope<W>,
) -> bool {
    match op {
        Planned::Insert(place, _) => exists|widget: W|
            call_ensures(tmpl_fn, (place,), widget) && #[trigger] stored(s0, widget, s1),
        Planned::Reuse(_, _) => s1 == s0,
    }
}

/// The scope `s1` is `s0` with the new views of `plan` stored, in turn.
pub open spec fn stocked<W, F: Fn(usize) -> W>(
    s0: Scope<W>,
    plan: Seq<Planned>,
    tmpl_fn: F,
    s1: Scope<W>,
) -> bool
    decreases plan.len(),
{
    if plan.len() == 0 {
        s1 == s0
    } else {
        exists|sm: Scope<W>|
            stocked(s0, plan.drop_last(), tmpl_fn, sm) && #[trigger] stock_step(
                sm,
                plan.last(),
                tmpl_fn,
                s1,
            )
    }
}

/// `s1` is `s0` with other children, `views`.
pub open spec fn rearranged<W>(s0: Scope<W>, views: Seq<ChildView<W>>, s1: Scope<W>) -> bool {
    s1 == (Scope { child_views: s1.child_views, ..s0 }) && s1.child_views@ == views
}

/// The view `v` as one that is not attached.
pub open spec fn loose<W>(v: ChildView<W>) -> ChildView<W> {
    ChildView { scope: Scope { is_attached: false, ..v.scope }, ..v }
}

/// The children `views` with the one named `id` moved to `place` and taken as
/// not attached.
pub open spec fn brought<W>(views: Seq<ChildView<W>>, id: ViewKey, place: int) -> Seq<
    ChildView<W>,
> {
    let shifted = moved(views, ids_of(views).index_of(id), place);
    shifted.update(place, loose(shifted[place]))
}

/// The children `views` with the last moved to `place`, where that is among
/// them.
pub open spec fn fetched<W>(views: Seq<ChildView<W>>, place: int) -> Seq<ChildView<W>> {
    if place < views.len() && views.len() - 1 != place {
        moved(views, views.len() - 1, place)
    } else {
        views
    }
}

/// The scope `s1` and the runtime `r1` are what putting the view `id`, which
/// was there, in its place made of `s0` and `r0`. The view stays as it is
/// where it stands at its place, is no child, or its place is behind the
/// children. Else it is moved to its place, taken as not attached, and shown.
pub open spec fn placed_again<T, W: Widget<T>>(
    s0: Scope<W>,
    r0: Runtime<T>,
    place: usize,
    id: ViewKey,
    s1: Scope<W>,
    r1: Runtime<T>,
) -> bool {
    let ids = ids_of(s0.child_views@);
    if ids.contains(id) && ids.index_of(id) != place && place < s0.child_views@.len() {
        exists|sm: Scope<W>|
            rearranged(s0, brought(s0.child_views@, id, place as int), sm)
                && #[trigger] child_shown(sm, r0, id, s1, r1)
    } else {
        s1 == s0 && r1 == r0
    }
}

/// The scope `s1` and the runtime `r1` are what putting the new view `id` in
/// its place made of `s0` and `r0`. The new view is the last child: it is
/// moved to its place where that is among the children, and shown.
pub open spec fn placed_new<T, W: Widget<T>>(
    s0: Scope<W>,
    r0: Runtime<T>,
    place: usize,
    id: ViewKey,
    s1: Scope<W>,
    r1: Runtime<T>,
) -> bool {
    exists|sm: Scope<W>|
        rearranged(s0, fetched(s0.child_views@, place as int), sm) && #[trigger] child_shown(
            sm,
            r0,
            id,
            s1,
            r1,
        )
}

/// The scope `s1` and the runtime `r1` are what the step `op` made of `s0` and
/// `r0` when the views are put in their places.
pub open spec fn placed<T, W: Widget<T>>(
    s0: Scope<W>,
    r0: Runtime<T>,
    op: Planned,
    s1: Scope<W>,
    r1: Runtime<T>,
) -> bool {
    match op {
        Planned::Reuse(place, id) => placed_again(s0, r0, place, id, s1, r1),
        Planned::Insert(place, id) => placed_new(s0, r0, place, id, s1, r1),
    }
}

/// The scope `s1` and the runtime `r1` are what the steps of `plan`, taken in
/// turn, made of `s0` and `r0` when the views are put in their places.
pub open spec fn placed_all<T, W: Widget<T>>(
    s0: Scope<W>,
    r0: Runtime<T>,
    plan: Seq<Planned>,
    s1: Scope<W>,
    r1: Runtime<T>,
) -> bool
    decreases plan.len(),
{
    if plan.len() == 0 {
        s1 == s0 && r1 == r0
    } else {
        exists|sm: Scope<W>, rm: Runtime<T>|
            placed_all(s0, r0, plan.drop_last(), sm, rm) && #[trigger] placed(
                sm,
                rm,
                plan.last(),
                s1,
                r1,
            )
    }
}

/// The scope `s1` and the runtime `r1` are what carrying out `plan` made of
/// `s0` and `r0`, the views `gone` being those that no item has any more.
///
/// First the new views are stored. Then the views of `gone` are hidden in
/// turn, inside one batch of the scope's holder; where `gone` is empty no
/// batch is opened. Last the views of `plan` are put in their places.
pub open spec fn carried_out<T, W: Widget<T>, F: Fn(usize) -> W>(
    s0: Scope<W>,
    r0: Runtime<T>,
    plan: Seq<Planned>,
    gone: Seq<ViewKey>,
    tmpl_fn: F,
    s1: Scope<W>,
    r1: Runtime<T>,
) -> bool {
    exists|stock: Scope<W>|
        {
            &&& #[trigger] stocked(s0, plan, tmpl_fn, stock)
            &&& exists|bare: Scope<W>, mid: Runtime<T>|
                {
                    &&& #[trigger] placed_all(bare, mid, plan, s1, r1)
                    &&& if gone.len() == 0 {
                        bare == stock && mid == r0
                    } else {
                        exists|ra: Runtime<T>, rb: Runtime<T>|
                            ra.wf() && ra@ == batch_opened(r0@, s0.holder_id@)
                                && #[trigger] hidden_all(stock, ra, gone, bare, rb) && mid@
                                == batch_closed(
                                rb@,
                                s0.holder_id@,
                                r0@.holder(s0.holder_id@).batching,
                            )
                    }
                }
        }
}

/// The child views of a list, each under the key of its item.
pub struct Each {
    key_view_ids: KeyedViews,
}

impl View for Each {
    type V = Seq<(u64, ViewKey)>;

    closed spec fn view(&self) -> Seq<(u64, ViewKey)> {
        self.key_view_ids@
    }
}

/// Moving a child keeps the identifiers that the children have.
pub proof fn lemma_moved_ids<W>(views: Seq<ChildView<W>>, from: int, to: int, id: ViewKey)
    requires
        0 <= from < views.len(),
        0 <= to < views.len(),
    ensures
        ids_of(moved(views, from, to)).contains(id) <==> ids_of(views).contains(id),
{
    let out = moved(views, from, to);
    let back = |a: int|
        if a == to {
            from
        } else {
            let b = if a < to {
                a
            } else {
                a - 1
            };
            if b < from {
                b
            } else {
                b + 1
            }
        };
    let forth = |b: int|
        if b == from {
            to
        } else {
            let a = if b < from {
                b
            } else {
                b - 1
            };
            if a < to {
                a
            } else {
                a + 1
            }
        };
    if ids_of(out).contains(id) {
        let a = choose|a: int| 0 <= a < ids_of(out).len() && ids_of(out)[a] == id;
        assert(out[a] == views[back(a)]);
        assert(ids_of(views)[back(a)] == id);
    }
    if ids_of(views).contains(id) {
        let b = choose|b: int| 0 <= b < ids_of(views).len() && ids_of(views)[b] == id;
        assert(out[forth(b)] == views[b]);
        assert(ids_of(out)[forth(b)] == id);
    }
}

impl Each {
    /// No key occurs twice.
    pub closed spec fn wf(&self) -> bool {
        self.key_view_ids.wf()
    }

    pub fn new() -> (each: Each)
        ensures
            each.wf(),
            each@.len() == 0,
    {
        Each { key_view_ids: KeyedViews::new() }
    }

    /// The number of items that have a view.
    pub fn len(&self) -> (n: usize)
        ensures
            n == self@.len(),
    {
        self.key_view_ids.len()
    }

    /// The key and the view at position `i`.
    pub fn get_index(&self, i: usize) -> (r: Option<(u64, ViewId)>)
        ensures
            match r {
                Some(e) => i < self@.len() && (e.0, e.1@) == self@[i as int],
                None => i >= self@.len(),
            },
    {
        self.key_view_ids.get_index(i)
    }

    /// Makes a child to show for each of `keys`: `tmpl_fn` makes the widget
    /// for the item at a position, and the new view goes under the item's key.
    pub fn build<W, F: Fn(usize) -> W>(&mut self, keys: &Vec<u64>, ctx: &mut Scope<W>, tmpl_fn: F)
        requires
            old(self).wf(),
            old(ctx).wf(),
            forall|i: usize| i < keys.len() ==> call_requires(tmpl_fn, (i,)),
        ensures
            final(self).wf(),
            kept(*old(ctx), *final(ctx)),
            final(self)@ == reconciled(
                old(self)@,
                Seq::empty(),
                keys@,
                old(ctx).holder_id@,
                old(ctx).view_id@.raw,
                old(ctx).next_child_view_id,
            ).0,
            final(ctx).next_child_view_id == reconciled(
                old(self)@,
                Seq::empty(),
                keys@,
                old(ctx).holder_id@,
                old(ctx).view_id@.raw,
                old(ctx).next_child_view_id,
            ).1,
            forall|i: int|
                0 <= i < old(ctx).child_views.len() ==> ids_of(final(ctx).child_views@).contains(
                    (#[trigger] old(ctx).child_views[i]).id@,
                ),
    {
        let ghost holder = ctx.holder_id@;
        let ghost raw = ctx.view_id@.raw;
        let ghost next = ctx.next_child_view_id;
        let ghost acc = self@;
        let ghost none = Seq::<(u64, ViewKey)>::empty();
        let n = keys.len();
        let mut index: usize = 0;
        proof {
            assert forall|i: int| 0 <= i < old(ctx).child_views.len() implies ids_of(
                ctx.child_views@,
            ).contains((#[trigger] old(ctx).child_views[i]).id@) by {
                assert(ids_of(ctx.child_views@)[i] == old(ctx).child_views[i].id@);
            }
        }
        while index < n
            invariant
                n == keys.len(),
                index <= n,
                forall|i: usize| i < keys.len() ==> call_requires(tmpl_fn, (i,)),
                self.wf(),
                kept(*old(ctx), *ctx),
                ctx.holder_id@ == holder,
                ctx.view_id@.raw == raw,
                none == Seq::<(u64, ViewKey)>::empty(),
                (self@, ctx.next_child_view_id) == reconciled(
                    acc,
                    none,
                    keys@.subrange(0, index as int),
                    holder,
                    raw,
                    next,
                ),
                forall|i: int|
                    0 <= i < old(ctx).child_views.len() ==> ids_of(ctx.child_views@).contains(
                        (#[trigger] old(ctx).child_views[i]).id@,
                    ),
            decreases n - index,
        {
            let key = keys[index];
            let ghost before = ids_of(ctx.child_views@);
            let view_id = show_in(tmpl_fn(index), ctx);
            let _ = self.key_view_ids.insert(key, view_id);
            proof {
                let upto = keys@.subrange(0, index + 1);
                assert(upto.drop_last() =~= keys@.subrange(0, index as int));
                assert(upto.last() == key);
                lemma_remaining_of_none(upto.drop_last());
                assert(!has_key(none, key));
                lemma_with_key_keeps(before, view_id@);
            }
            index = index + 1;
        }
        assert(keys@.subrange(0, n as int) =~= keys@);
    }

    /// Brings the children in step with the list whose items have the keys
    /// `keys`.
    ///
    /// An item whose key had a view keeps that view. An item with a new key
    /// gets a new child, made by `tmpl_fn` from its position. The views of the
    /// keys that are gone are detached, inside one batch of the scope's holder.
    /// Then each item's view is moved to the item's place: a view that was
    /// there is attached again where it had to move, a new view is attached.
    /// Every other child of the scope stays. No hook runs but the `detach`
    /// hooks of the views whose keys are gone and the hooks that showing the
    /// moved and the new views calls. An attached child whose key is gone is
    /// no child afterwards, unless a new view took its identifier.
    pub fn patch<T, W: Widget<T>, F: Fn(usize) -> W>(
        &mut self,
        keys: &Vec<u64>,
        ctx: &mut Scope<W>,
        rt: &mut Runtime<T>,
        tmpl_fn: F,
    )
        requires
            old(self).wf(),
            old(ctx).wf(),
            old(rt).wf(),
            forall|i: usize| i < keys.len() ==> call_requires(tmpl_fn, (i,)),
        ensures
            final(self).wf(),
            kept(*old(ctx), *final(ctx)),
            steady(*old(rt), *final(rt)),
            final(self)@ == reconciled(
                Seq::empty(),
                old(self)@,
                keys@,
                old(ctx).holder_id@,
                old(ctx).view_id@.raw,
                old(ctx).next_child_view_id,
            ).0,
            final(ctx).next_child_view_id == reconciled(
                Seq::empty(),
                old(self)@,
                keys@,
                old(ctx).holder_id@,
                old(ctx).view_id@.raw,
                old(ctx).next_child_view_id,
            ).1,
            forall|i: int|
                0 <= i < old(ctx).child_views.len() && !values_of(
                    remaining(old(self)@, keys@),
                ).contains((#[trigger] old(ctx).child_views[i]).id@) ==> ids_of(
                    final(ctx).child_views@,
                ).contains(old(ctx).child_views[i].id@),
            forall|i: int|
                0 <= i < old(ctx).child_views.len() && (#[trigger] old(
                    ctx,
                ).child_views[i]).scope.is_attached && values_of(
                    remaining(old(self)@, keys@),
                ).contains(old(ctx).child_views[i].id@) && !makes(
                    planned(
                        old(self)@,
                        keys@,
                        old(ctx).holder_id@,
                        old(ctx).view_id@.raw,
                        old(ctx).next_child_view_id,
                    ),
                    old(ctx).child_views[i].id@,
                ) ==> !ids_of(final(ctx).child_views@).contains(old(ctx).child_views[i].id@),
            carried_out(
                *old(ctx),
                *old(rt),
                planned(
                    old(self)@,
                    keys@,
                    old(ctx).holder_id@,
                    old(ctx).view_id@.raw,
                    old(ctx).next_child_view_id,
                ),
                values_of(remaining(old(self)@, keys@)),
                tmpl_fn,
                *final(ctx),
                *final(rt),
            ),
    {
        let ghost holder = ctx.holder_id@;
        let ghost raw = ctx.view_id@.raw;
        let ghost next = ctx.next_child_view_id;
        let ghost old_items = self@;
        let ghost none = Seq::<(u64, ViewKey)>::empty();
        let ghost first = ids_of(old(ctx).child_views@);
        let mut key_view_ids = KeyedViews::new();
        core::mem::swap(&mut self.key_view_ids, &mut key_view_ids);
        let mut operations: Vec<ViewOperation> = Vec::new();
        let n = keys.len();
        let mut index: usize = 0;
        while index < n
            invariant
                n == keys.len(),
                index <= n,
                forall|i: usize| i < keys.len() ==> call_requires(tmpl_fn, (i,)),
                self.wf(),
                key_view_ids.wf(),
                kept(*old(ctx), *ctx),
                ctx.holder_id@ == holder,
                ctx.view_id@.raw == raw,
                first == ids_of(old(ctx).child_views@),
                none == Seq::<(u64, ViewKey)>::empty(),
                key_view_ids@ == remaining(old_items, keys@.subrange(0, index as int)),
                (self@, ctx.next_child_view_id) == reconciled(
                    none,
                    old_items,
                    keys@.subrange(0, index as int),
                    holder,
                    raw,
                    next,
                ),
                forall|i: int| 0 <= i < first.len()
                    ==> ids_of(ctx.child_views@).contains(#[trigger] first[i]),
                plan_of(operations@) == planned(
                    old_items,
                    keys@.subrange(0, index as int),
                    holder,
                    raw,
                    next,
                ),
                stocked(*old(ctx), plan_of(operations@), tmpl_fn, *ctx),
                ctx.child_views.len() >= old(ctx).child_views.len(),
                forall|i: int|
                    0 <= i < old(ctx).child_views.len() && !makes(
                        plan_of(operations@),
                        (#[trigger] old(ctx).child_views[i]).id@,
                    ) ==> ctx.child_views[i] == old(ctx).child_views[i],
            decreases n - index,
        {
            let key = keys[index];
            let ghost ops = operations@;
            let ghost held = *ctx;
            proof {
                let upto = keys@.subrange(0, index + 1);
                assert(upto.drop_last() =~= keys@.subrange(0, index as int));
                assert(upto.last() == key);
                assert(upto.len() - 1 == index);
            }
            match key_view_ids.swap_remove(key) {
                Some(view_id) => {
                    let _ = self.key_view_ids.insert(key, view_id.clone());
                    operations.push(ViewOperation::Reuse(index, view_id));
                },
                None => {
                    let ghost before = ids_of(ctx.child_views@);
                    let widget = tmpl_fn(index);
                    let ghost made = widget;
                    let view_id = store_in(widget, ctx);
                    proof {
                        lemma_with_key_keeps(before, view_id@);
                        assert(call_ensures(tmpl_fn, (index,), made) && stored(held, made, *ctx));
                    }
                    let _ = self.key_view_ids.insert(key, view_id.clone());
                    operations.push(ViewOperation::Insert(index, view_id));
                },
            }
            proof {
                let plan = plan_of(operations@);
                assert(plan =~= plan_of(ops).push(operations@.last()@));
                assert(plan.drop_last() =~= plan_of(ops));
                assert(stock_step(held, plan.last(), tmpl_fn, *ctx));
                assert forall|i: int|
                    0 <= i < old(ctx).child_views.len() && !makes(
                        plan,
                        (#[trigger] old(ctx).child_views[i]).id@,
                    ) implies ctx.child_views[i] == old(ctx).child_views[i] by {
                    let id = old(ctx).child_views[i].id@;
                    if makes(plan_of(ops), id) {
                        let at = choose|at: int|
                            0 <= at < plan_of(ops).len() && made_by(#[trigger] plan_of(ops)[at])
                                == Some(id);
                        assert(plan[at] == plan_of(ops)[at]);
                    }
                    assert(made_by(plan[plan.len() - 1]) != Some(id));
                }
            }
            index = index + 1;
        }
        proof {
            assert(keys@.subrange(0, n as int) =~= keys@);
        }
        let ghost doomed = values_of(key_view_ids@);
        assert(doomed == values_of(remaining(old_items, keys@)));
        let ghost r0 = *rt;
        let ghost plan = plan_of(operations@);
        let ghost stock = *ctx;
        if !key_view_ids.is_empty() {
            let holder_id = ctx.holder_id();
            let entered = enter_batch(rt, holder_id);
            let ghost r1 = *rt;
            let m = key_view_ids.len();
            let mut j: usize = 0;
            proof {
                assert(doomed.subrange(0, 0) =~= Seq::<ViewKey>::empty());
                assert forall|i: int| 0 <= i < stock.child_views.len() implies ctx.child_views@.contains(
                    #[trigger] stock.child_views[i],
                ) by {
                    assert(ctx.child_views@[i] == stock.child_views[i]);
                }
            }
            while j < m
                invariant
                    m == key_view_ids@.len(),
                    m == doomed.len(),
                    j <= m,
                    hidden_all(stock, r1, doomed.subrange(0, j as int), *ctx, *rt),
                    plan == planned(old_items, keys@, holder, raw, next),
                    doomed == values_of(remaining(old_items, keys@)),
                    forall|i: int|
                        0 <= i < old(ctx).child_views.len() && !makes(
                            plan,
                            (#[trigger] old(ctx).child_views[i]).id@,
                        ) ==> i < stock.child_views.len() && stock.child_views[i] == old(
                            ctx,
                        ).child_views[i],
                    forall|i: int|
                        0 <= i < stock.child_views.len() && (#[trigger] stock.child_views[i]).scope.is_attached
                            && doomed.subrange(0, j as int).contains(stock.child_views[i].id@)
                            ==> !ids_of(ctx.child_views@).contains(stock.child_views[i].id@),
                    forall|i: int|
                        0 <= i < stock.child_views.len() && !doomed.subrange(0, j as int).contains(
                            (#[trigger] stock.child_views[i]).id@,
                        ) ==> ctx.child_views@.contains(stock.child_views[i]),
                    forall|x: ViewKey| #[trigger]
                        ids_of(ctx.child_views@).contains(x) ==> ids_of(stock.child_views@).contains(
                            x,
                        ),
                    doomed == values_of(key_view_ids@),
                    first == ids_of(old(ctx).child_views@),
                    kept(*old(ctx), *ctx),
                    ctx.wf(),
                    rt.wf(),
                    r1.wf(),
                    steady(r1, *rt),
                    ctx.next_child_view_id == reconciled(
                        none,
                        old_items,
                        keys@,
                        holder,
                        raw,
                        next,
                    ).1,
                    forall|i: int|
                        0 <= i < first.len() && !doomed.contains(#[trigger] first[i]) ==> ids_of(
                            ctx.child_views@,
                        ).contains(first[i]),
                decreases m - j,
            {
                let entry = key_view_ids.get_index(j).unwrap();
                let ghost before = *ctx;
                let ghost rb = *rt;
                let _ = ctx.detach_child(&entry.1, rt);
                proof {
                    lemma_steady_trans(r1, rb, *rt);
                    assert(doomed[j as int] == entry.1@);
                    let upto = doomed.subrange(0, j + 1);
                    assert(upto.drop_last() =~= doomed.subrange(0, j as int));
                    assert(child_hidden(before, rb, upto.last(), *ctx, *rt));
                    before.lemma_wf_parts();
                    let id = entry.1@;
                    let bids = ids_of(before.child_views@);
                    let hit = bids.contains(id) && before.child_views[bids.index_of(id)].scope.is_attached;
                    if hit {
                        lemma_child_gone(before.child_views@, id);
                    }
                    assert forall|i: int|
                        0 <= i < stock.child_views.len() && (
                        #[trigger] stock.child_views[i]).scope.is_attached && upto.contains(
                            stock.child_views[i].id@,
                        ) implies !ids_of(ctx.child_views@).contains(stock.child_views[i].id@) by {
                        let v = stock.child_views[i];
                        lemma_push_contains(upto.drop_last(), id, v.id@);
                        assert(upto =~= upto.drop_last().push(id));
                        if !upto.drop_last().contains(v.id@) {
                            let b = choose|b: int|
                                0 <= b < before.child_views@.len() && before.child_views@[b] == v;
                            lemma_ids_place(before.child_views@, b);
                        }
                    }
                    assert forall|i: int|
                        0 <= i < stock.child_views.len() && !upto.contains(
                            (#[trigger] stock.child_views[i]).id@,
                        ) implies ctx.child_views@.contains(stock.child_views[i]) by {
                        let v = stock.child_views[i];
                        lemma_push_contains(upto.drop_last(), id, v.id@);
                        assert(upto =~= upto.drop_last().push(id));
                    }
                    assert forall|i: int|
                        0 <= i < first.len() && !doomed.contains(#[trigger] first[i]) implies ids_of(
                        ctx.child_views@,
                    ).contains(first[i]) by {
                        lemma_detached_keeps(before.child_views@, ctx.child_views@, entry.1@, first[i]);
                    }
                }
                j = j + 1;
            }
            let ghost r2 = *rt;
            leave_batch(rt, holder_id, entered);
            proof {
                assert(doomed.subrange(0, m as int) =~= doomed);
                assert(rt@.holders =~= r2@.with_holder(
                    holder_id@,
                    crate::reflow::HolderView {
                        batching: r0@.holder(holder_id@).batching,
                        ..r2@.holder(holder_id@)
                    },
                ).holders);
                lemma_steady_batch(r0, r1, r2, *rt, holder_id@);
            }
        }
        let ghost bare = *ctx;
        let ghost mid = *rt;
        proof {
            assert(plan.subrange(0, 0) =~= Seq::<Planned>::empty());
        }
        let count = operations.len();
        let mut k: usize = 0;
        while k < count
            invariant
                count == operations.len(),
                plan == plan_of(operations@),
                k <= count,
                placed_all(bare, mid, plan.subrange(0, k as int), *ctx, *rt),
                plan == planned(old_items, keys@, holder, raw, next),
                doomed == values_of(remaining(old_items, keys@)),
                forall|i: int|
                    0 <= i < old(ctx).child_views.len() && !makes(
                        plan,
                        (#[trigger] old(ctx).child_views[i]).id@,
                    ) ==> i < stock.child_views.len() && stock.child_views[i] == old(
                        ctx,
                    ).child_views[i],
                forall|i: int|
                    0 <= i < stock.child_views.len() && (#[trigger] stock.child_views[i]).scope.is_attached
                        && doomed.contains(stock.child_views[i].id@) ==> !ids_of(
                        bare.child_views@,
                    ).contains(stock.child_views[i].id@),
                forall|x: ViewKey| #[trigger]
                    ids_of(ctx.child_views@).contains(x) ==> ids_of(bare.child_views@).contains(x),
                first == ids_of(old(ctx).child_views@),
                kept(*old(ctx), *ctx),
                ctx.wf(),
                rt.wf(),
                r0.wf(),
                steady(r0, *rt),
                ctx.next_child_view_id == reconciled(none, old_items, keys@, holder, raw, next).1,
                forall|i: int|
                    0 <= i < first.len() && !doomed.contains(#[trigger] first[i]) ==> ids_of(
                        ctx.child_views@,
                    ).contains(first[i]),
            decreases count - k,
        {
            let ghost before = *ctx;
            let ghost rb = *rt;
            match &operations[k] {
                ViewOperation::Reuse(index, view_id) => {
                    let index = *index;
                    proof {
                        before.lemma_wf_parts();
                    }
                    match ctx.index_of(view_id) {
                        Some(cur_index) => {
                            proof {
                                lemma_ids_place(before.child_views@, cur_index as int);
                            }
                            if cur_index != index && index < ctx.child_views.len() {
                                ctx.move_child(cur_index, index);
                                let ghost shifted = *ctx;
                                ctx.child_views[index].scope.is_attached = false;
                                proof {
                                    shifted.lemma_wf_parts();
                                    let views = shifted.child_views@;
                                    assert(views[index as int].wf());
                                    views[index as int].scope.lemma_wf_parts();
                                    ctx.child_views[index as int].scope.lemma_wf_from(
                                        views[index as int].scope,
                                    );
                                    assert(ctx.child_views@ =~= views.update(
                                        index as int,
                                        ctx.child_views[index as int],
                                    ));
                                    lemma_views_wf_update(views, index as int, ctx.child_views[index as int]);
                                    ctx.lemma_wf_from(shifted);
                                }
                                let ghost held = *ctx;
                                ctx.attach_child(view_id, rt);
                                proof {
                                    assert(held.child_views@[index as int] == loose(
                                        shifted.child_views@[index as int],
                                    ));
                                    assert(rearranged(
                                        before,
                                        brought(before.child_views@, view_id@, index as int),
                                        held,
                                    ));
                                    assert(child_shown(held, rb, view_id@, *ctx, *rt));
                                    assert(placed_again(
                                        before,
                                        rb,
                                        index,
                                        view_id@,
                                        *ctx,
                                        *rt,
                                    ));
                                    assert forall|i: int|
                                        0 <= i < first.len() && !doomed.contains(
                                            #[trigger] first[i],
                                        ) implies ids_of(ctx.child_views@).contains(first[i]) by {
                                        lemma_moved_ids(
                                            before.child_views@,
                                            cur_index as int,
                                            index as int,
                                            first[i],
                                        );
                                    }
                                    assert(ids_of(held.child_views@) =~= ids_of(
                                        shifted.child_views@,
                                    ));
                                    assert forall|x: ViewKey| #[trigger]
                                        ids_of(ctx.child_views@).contains(x) implies ids_of(
                                        bare.child_views@,
                                    ).contains(x) by {
                                        lemma_moved_ids(
                                            before.child_views@,
                                            cur_index as int,
                                            index as int,
                                            x,
                                        );
                                    }
                                }
                            }
                        },
                        None => {},
                    }
                },
                ViewOperation::Insert(index, view_id) => {
                    let index = *index;
                    let len = ctx.child_views.len();
                    if len > 0 && index < len {
                        if len - 1 != index {
                            ctx.move_child(len - 1, index);
                        }
                        proof {
                            assert forall|i: int|
                                0 <= i < first.len() && !doomed.contains(
                                    #[trigger] first[i],
                                ) implies ids_of(ctx.child_views@).contains(first[i]) by {
                                if len - 1 != index {
                                    lemma_moved_ids(
                                        before.child_views@,
                                        len - 1,
                                        index as int,
                                        first[i],
                                    );
                                }
                            }
                            assert forall|x: ViewKey| #[trigger]
                                ids_of(ctx.child_views@).contains(x) implies ids_of(
                                bare.child_views@,
                            ).contains(x) by {
                                if len - 1 != index {
                                    lemma_moved_ids(
                                        before.child_views@,
                                        len - 1,
                                        index as int,
                                        x,
                                    );
                                }
                            }
                        }
                    }
                    let ghost held = *ctx;
                    ctx.attach_child(view_id, rt);
                    proof {
                        assert(rearranged(before, held.child_views@, held));
                        assert(child_shown(held, rb, view_id@, *ctx, *rt));
                        let views = before.child_views@;
                        assert(operations[k as int]@ == Planned::Insert(index, view_id@));
                        assert(rearranged(before, fetched(views, index as int), held));
                        assert(placed_new(before, rb, index, view_id@, *ctx, *rt));
                        assert(placed(before, rb, operations[k as int]@, *ctx, *rt));
                    }
                },
            }
            proof {
                lemma_steady_trans(r0, rb, *rt);
                let upto = plan.subrange(0, k + 1);
                assert(upto.drop_last() =~= plan.subrange(0, k as int));
                assert(upto.last() == operations[k as int]@);
                assert(placed(before, rb, upto.last(), *ctx, *rt));
            }
            k = k + 1;
        }
        proof {
            assert(plan.subrange(0, count as int) =~= plan);
            assert forall|i: int|
                0 <= i < old(ctx).child_views.len() && (#[trigger] old(
                    ctx,
                ).child_views[i]).scope.is_attached && doomed.contains(old(ctx).child_views[i].id@)
                    && !makes(plan, old(ctx).child_views[i].id@) implies !ids_of(
                ctx.child_views@,
            ).contains(old(ctx).child_views[i].id@) by {
                assert(stock.child_views[i] == old(ctx).child_views[i]);
            }
        }
        proof {
            assert forall|i: int|
                0 <= i < old(ctx).child_views.len() && !doomed.contains(
                    (#[trigger] old(ctx).child_views[i]).id@,
                ) implies ids_of(ctx.child_views@).contains(old(ctx).child_views[i].id@) by {
                assert(first[i] == old(ctx).child_views[i].id@);
            }
        }
    }
}

/// A list with one more item holds what the list held, and that item.
pub proof fn lemma_push_contains(list: Seq<ViewKey>, last: ViewKey, x: ViewKey)
    ensures
        list.push(last).contains(x) <==> list.contains(x) || x == last,
{
    let out = list.push(last);
    if list.contains(x) {
        let i = choose|i: int| 0 <= i < list.len() && list[i] == x;
        assert(out[i] == x);
    }
    if x == last {
        assert(out[list.len() as int] == x);
    }
    if out.contains(x) {
        let i = choose|i: int| 0 <= i < out.len() && out[i] == x;
        if i < list.len() {
            assert(list[i] == x);
        }
    }
}

/// When the child `gone` leaves distinct children, the last child taking its
/// place, no child has its identifier any more, no identifier is new, and
/// every other child stays.
pub proof fn lemma_child_gone<W>(before: Seq<ChildView<W>>, gone: ViewKey)
    requires
        views_wf(before),
        ids_of(before).contains(gone),
    ensures
        ({
            let after = before.update(ids_of(before).index_of(gone), before.last()).drop_last();
            &&& !ids_of(after).contains(gone)
            &&& forall|x: ViewKey| #[trigger]
                ids_of(after).contains(x) ==> ids_of(before).contains(x)
            &&& forall|v: ChildView<W>|
                before.contains(v) && v.id@ != gone ==> #[trigger] after.contains(v)
        }),
{
    let at = ids_of(before).index_of(gone);
    let last = before.len() - 1;
    let after = before.update(at, before.last()).drop_last();
    assert(before[at].id@ == gone);
    assert forall|a: int| 0 <= a < after.len() implies (#[trigger] after[a]).id@ != gone
        && ids_of(before).contains(after[a].id@) by {
        let sa = if a == at { last } else { a };
        assert(after[a] == before[sa]);
        assert(ids_of(before)[sa] == before[sa].id@);
        if sa < at {
            assert(before[sa].id@ != before[at].id@);
        } else {
            assert(before[at].id@ != before[sa].id@);
        }
    }
    if ids_of(after).contains(gone) {
        let a = choose|a: int| 0 <= a < ids_of(after).len() && ids_of(after)[a] == gone;
        assert(after[a].id@ == gone);
    }
    assert forall|x: ViewKey| #[trigger] ids_of(after).contains(x) implies ids_of(before).contains(
        x,
    ) by {
        let a = choose|a: int| 0 <= a < ids_of(after).len() && ids_of(after)[a] == x;
        assert(after[a].id@ == x);
    }
    assert forall|v: ChildView<W>| before.contains(v) && v.id@ != gone implies #[trigger] after.contains(
        v,
    ) by {
        let b = choose|b: int| 0 <= b < before.len() && before[b] == v;
        if b == last {
            assert(after[at] == v);
        } else {
            assert(after[b] == v);
        }
    }
}

/// Nothing is left to take from no entries.
pub proof fn lemma_remaining_of_none(keys: Seq<u64>)
    ensures
        remaining(Seq::empty(), keys) == Seq::<(u64, ViewKey)>::empty(),
    decreases keys.len(),
{
    if keys.len() > 0 {
        lemma_remaining_of_none(keys.drop_last());
    }
}

/// Adding an identifier keeps those that are there.
pub proof fn lemma_with_key_keeps(list: Seq<ViewKey>, k: ViewKey)
    ensures
        forall|id: ViewKey| list.contains(id) ==> #[trigger] crate::scope::with_key(list, k).contains(id),
{
    let out = crate::scope::with_key(list, k);
    assert forall|id: ViewKey| list.contains(id) implies #[trigger] out.contains(id) by {
        let i = choose|i: int| 0 <= i < list.len() && list[i] == id;
        assert(out[i] == id);
    }
}

/// When a child leaves, or none does, every child with another identifier stays.
pub proof fn lemma_detached_keeps<W>(
    before: Seq<ChildView<W>>,
    after: Seq<ChildView<W>>,
    gone: ViewKey,
    id: ViewKey,
)
    requires
        views_wf(before),
        ids_of(before).contains(id),
        id != gone,
        after == before || (ids_of(before).contains(gone) && after == before.update(
            ids_of(before).index_of(gone),
            before.last(),
        ).drop_last()),
    ensures
        ids_of(after).contains(id),
{
    if after != before {
        let at = ids_of(before).index_of(gone);
        let b = choose|b: int| 0 <= b < ids_of(before).len() && ids_of(before)[b] == id;
        assert(before[b].id@ == id);
        assert(before[at].id@ == gone);
        if b == before.len() - 1 {
            assert(after[at] == before[b]);
            assert(ids_of(after)[at] == id);
        } else {
            assert(after[b] == before[b]);
            assert(ids_of(after)[b] == id);
        }
    }
}

} // verus!
