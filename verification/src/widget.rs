//! The hooks through which the library renders.

use crate::node::Node;
use crate::reflow::bond::extends;
use crate::reflow::runtime::Runtime;
use crate::reflow::RuntimeView;
use crate::reflow::scheduler::{
    batch_closed, batch_opened, enter_batch, leave_batch, schedule, scheduled,
};
use crate::scope::{
    ids_of, keys_of, lemma_ids_place, lemma_views_wf_update, list_insert, position_in,
    child_hidden, child_shown, view_attached, with_child, with_key, without_key, Scope, View,
};
use crate::view::{ViewId, ViewPosition};
use crate::view_map::ViewMap;
use vstd::prelude::*;
use vstd::view::View as _;

verus! {

/// What a hook leaves as it is in the scope that it is handed: the scope stays
/// in order, and keeps its identifier, its holder and its three flags.
pub open spec fn kept<W>(pre: Scope<W>, post: Scope<W>) -> bool {
    &&& post.wf()
    &&& post.view_id@ == pre.view_id@
    &&& post.holder_id == pre.holder_id
    &&& post.is_root == pre.is_root
    &&& post.is_built == pre.is_built
    &&& post.is_attached == pre.is_attached
}

/// View `v` is a subscriber of no node.
pub open spec fn unsubscribed<T>(rt: RuntimeView<T>, v: crate::view::ViewKey) -> bool {
    forall|n: u64| rt.has_node(n) ==> !crate::reflow::bindings::has_view(#[trigger] rt.node(n).bindings, v)
}

/// The runtime `post` has the nodes of `pre`, as many capture frames open, and
/// gives every holder the flags that it had.
pub open spec fn calm<T>(pre: RuntimeView<T>, post: RuntimeView<T>) -> bool {
    &&& extends(pre, post)
    &&& post.layers.len() == pre.layers.len()
    &&& forall|h: u64|
        (#[trigger] post.holder(h)).running == pre.holder(h).running && post.holder(h).batching
            == pre.holder(h).batching && post.holder(h).untracking == pre.holder(h).untracking
}

/// What a hook leaves as it is in the runtime: the runtime stays well formed
/// with the nodes it had, as many capture frames are open as before, and every
/// holder has the flags it had.
pub open spec fn steady<T>(pre: Runtime<T>, post: Runtime<T>) -> bool {
    &&& post.wf()
    &&& calm(pre@, post@)
}

/// Two calm steps in a row are a calm step.
pub proof fn lemma_calm_trans<T>(a: RuntimeView<T>, b: RuntimeView<T>, c: RuntimeView<T>)
    requires
        calm(a, b),
        calm(b, c),
    ensures
        calm(a, c),
{
    assert forall|i: int| 0 <= i < a.nodes.len() implies (#[trigger] c.nodes[i]).is_bond
        == a.nodes[i].is_bond by {
        assert(b.nodes[i].is_bond == a.nodes[i].is_bond);
    }
    assert forall|h: u64|
        (#[trigger] c.holder(h)).running == a.holder(h).running && c.holder(h).batching
            == a.holder(h).batching && c.holder(h).untracking == a.holder(h).untracking by {
        assert(b.holder(h).running == a.holder(h).running);
    }
}

/// Two hooks in a row leave as it is what each of them leaves as it is.
pub proof fn lemma_steady_trans<T>(a: Runtime<T>, b: Runtime<T>, c: Runtime<T>)
    requires
        steady(a, b),
        steady(b, c),
    ensures
        steady(a, c),
{
    lemma_calm_trans(a@, b@, c@);
}

/// A hook that runs inside a batch which is closed again as it was opened
/// leaves the runtime as steady as the hook alone.
pub proof fn lemma_steady_batch<T>(a: Runtime<T>, b: Runtime<T>, c: Runtime<T>, d: Runtime<T>, h: u64)
    requires
        a.wf(),
        b@ == a@.with_holder(h, crate::reflow::HolderView { batching: true, ..a@.holder(h) }),
        steady(b, c),
        d.wf(),
        d@ == c@.with_holder(
            h,
            crate::reflow::HolderView { batching: a@.holder(h).batching, ..c@.holder(h) },
        ),
    ensures
        steady(a, d),
{
    assert forall|i: int| 0 <= i < a@.nodes.len() implies (#[trigger] d@.nodes[i]).is_bond
        == a@.nodes[i].is_bond by {
        assert(c@.nodes[i].is_bond == b@.nodes[i].is_bond);
    }
    assert forall|k: u64|
        (#[trigger] d@.holder(k)).running == a@.holder(k).running && d@.holder(k).batching
            == a@.holder(k).batching && d@.holder(k).untracking == a@.holder(k).untracking by {
        assert(c@.holder(k).running == b@.holder(k).running);
    }
}

/// A piece of the user interface. The library calls the hooks at the points of
/// a view's life; what they render it never looks at.
///
/// `T` is the type of the values that the runtime keeps.
pub trait Widget<T>: Sized {
    /// What the `attach` hook makes of a widget, its scope and the runtime:
    /// the three as they were handed over, then as the hook left them. A
    /// widget that does not say what a hook does promises nothing of it.
    closed spec fn attaches(
        w0: Self,
        c0: Scope<Self>,
        r0: Runtime<T>,
        w1: Self,
        c1: Scope<Self>,
        r1: Runtime<T>,
    ) -> bool {
        true
    }

    /// What the `build` hook makes of a widget, its scope and the runtime.
    closed spec fn builds(
        w0: Self,
        c0: Scope<Self>,
        r0: Runtime<T>,
        w1: Self,
        c1: Scope<Self>,
        r1: Runtime<T>,
    ) -> bool {
        true
    }

    /// What the `flood` hook makes of a widget, its scope and the runtime.
    closed spec fn floods(
        w0: Self,
        c0: Scope<Self>,
        r0: Runtime<T>,
        w1: Self,
        c1: Scope<Self>,
        r1: Runtime<T>,
    ) -> bool {
        true
    }

    /// What the `patch` hook makes of a widget, its scope and the runtime.
    closed spec fn patches(
        w0: Self,
        c0: Scope<Self>,
        r0: Runtime<T>,
        w1: Self,
        c1: Scope<Self>,
        r1: Runtime<T>,
    ) -> bool {
        true
    }

    /// What the `detach` hook makes of a widget, its scope and the runtime.
    closed spec fn detaches(
        w0: Self,
        c0: Scope<Self>,
        r0: Runtime<T>,
        w1: Self,
        c1: Scope<Self>,
        r1: Runtime<T>,
    ) -> bool {
        true
    }

    /// Puts the widget's own output in the render target.
    fn attach(&mut self, ctx: &mut Scope<Self>, rt: &mut Runtime<T>)
        requires
            old(ctx).wf(),
            old(rt).wf(),
        ensures
            kept(*old(ctx), *final(ctx)),
            steady(*old(rt), *final(rt)),
            Self::attaches(*old(self), *old(ctx), *old(rt), *final(self), *final(ctx), *final(rt)),
    ;

    /// Runs once: reads the values the widget shows and makes its children.
    fn build(&mut self, ctx: &mut Scope<Self>, rt: &mut Runtime<T>)
        requires
            old(ctx).wf(),
            old(rt).wf(),
        ensures
            kept(*old(ctx), *final(ctx)),
            steady(*old(rt), *final(rt)),
            Self::builds(*old(self), *old(ctx), *old(rt), *final(self), *final(ctx), *final(rt)),
    ;

    /// Attaches the children.
    fn flood(&mut self, ctx: &mut Scope<Self>, rt: &mut Runtime<T>)
        requires
            old(ctx).wf(),
            old(rt).wf(),
        ensures
            kept(*old(ctx), *final(ctx)),
            steady(*old(rt), *final(rt)),
            Self::floods(*old(self), *old(ctx), *old(rt), *final(self), *final(ctx), *final(rt)),
    ;

    /// Renders again after a value that the view is bound to has changed.
    fn patch(&mut self, ctx: &mut Scope<Self>, rt: &mut Runtime<T>)
        requires
            old(ctx).wf(),
            old(rt).wf(),
        ensures
            kept(*old(ctx), *final(ctx)),
            steady(*old(rt), *final(rt)),
            Self::patches(*old(self), *old(ctx), *old(rt), *final(self), *final(ctx), *final(rt)),
    ;

    /// Takes the view's output from the render target. The view's bindings
    /// end when the hook has run, whatever it does.
    fn detach(&mut self, ctx: &mut Scope<Self>, rt: &mut Runtime<T>)
        requires
            old(ctx).wf(),
            old(rt).wf(),
        ensures
            kept(*old(ctx), *final(ctx)),
            steady(*old(rt), *final(rt)),
            Self::detaches(*old(self), *old(ctx), *old(rt), *final(self), *final(ctx), *final(rt)),
    ;
}

/// The scope `s1` is `s0` with `widget` as one more child, under the next
/// identifier that `s0` gives out. The child is neither built nor attached,
/// the show list is as it was, and so is every child with another identifier.
pub open spec fn stored<W>(s0: Scope<W>, widget: W, s1: Scope<W>) -> bool {
    let key = crate::view::ViewKey {
        holder: s0.holder_id@,
        raw: crate::scope::child_path(s0.view_id@.raw, s0.next_child_view_id),
    };
    &&& s1.wf()
    &&& ids_of(s1.child_views@) == with_key(ids_of(s0.child_views@), key)
    &&& s1.show_list == s0.show_list
    &&& s1.next_child_view_id == crate::scope::bumped(s0.next_child_view_id)
    &&& kept(s0, s1)
    &&& s1.child_views.len() >= s0.child_views.len()
    &&& forall|j: int|
        0 <= j < s0.child_views.len() && s0.child_views[j].id@ != key ==> #[trigger] s1.child_views[j]
            == s0.child_views[j]
    &&& exists|i: int|
        0 <= i < s1.child_views.len() && (#[trigger] s1.child_views[i]).id@ == key
            && s1.child_views[i].widget == widget && !s1.child_views[i].scope.is_attached
            && !s1.child_views[i].scope.is_built
}

/// Makes `widget` a child of `parent`, with a fresh scope, and gives the
/// child's identifier. The child is neither shown nor attached yet.
pub fn store_in<W>(widget: W, parent: &mut Scope<W>) -> (view_id: ViewId)
    requires
        old(parent).wf(),
    ensures
        view_id@ == (crate::view::ViewKey {
            holder: old(parent).holder_id@,
            raw: crate::scope::child_path(old(parent).view_id@.raw, old(parent).next_child_view_id),
        }),
        stored(*old(parent), widget, *final(parent)),
{
    let scope = parent.beget();
    let view = View::new(scope, widget);
    let view_id = view.id.clone();
    let ghost before = ids_of(parent.child_views@);
    let placed = parent.insert_child(view);
    proof {
        let after = ids_of(parent.child_views@);
        old(parent).lemma_wf_parts();
        if before.contains(view_id@) {
            assert(after =~= before);
        } else {
            assert(after =~= before.push(view_id@));
        }
        assert(parent.child_views[placed.0 as int].id@ == view_id@);
        assert forall|j: int|
            0 <= j < old(parent).child_views.len() && old(parent).child_views[j].id@
                != view_id@ implies #[trigger] parent.child_views[j] == old(parent).child_views[j] by {
            if before.contains(view_id@) {
                crate::scope::lemma_ids_place(old(parent).child_views@, j);
            }
        }
    }
    view_id
}

/// Makes `widget` a child of `parent` and puts it on the show list.
pub fn show_in<W>(widget: W, parent: &mut Scope<W>) -> (view_id: ViewId)
    requires
        old(parent).wf(),
    ensures
        final(parent).wf(),
        view_id@ == (crate::view::ViewKey {
            holder: old(parent).holder_id@,
            raw: crate::scope::child_path(old(parent).view_id@.raw, old(parent).next_child_view_id),
        }),
        ids_of(final(parent).child_views@) == with_key(ids_of(old(parent).child_views@), view_id@),
        keys_of(final(parent).show_list@) == with_key(keys_of(old(parent).show_list@), view_id@),
        final(parent).next_child_view_id == crate::scope::bumped(old(parent).next_child_view_id),
        kept(*old(parent), *final(parent)),
{
    let view_id = store_in(widget, parent);
    let ghost stored = *parent;
    proof {
        stored.lemma_wf_parts();
    }
    list_insert(&mut parent.show_list, &view_id);
    proof {
        parent.lemma_wf_from(stored);
    }
    view_id
}

/// The scope `s1` and the runtime `r1` are what showing the children `ids` in
/// turn made of `s0` and `r0`.
pub open spec fn shown_all<T, W: Widget<T>>(
    s0: Scope<W>,
    r0: Runtime<T>,
    ids: Seq<crate::view::ViewKey>,
    s1: Scope<W>,
    r1: Runtime<T>,
) -> bool
    decreases ids.len(),
{
    if ids.len() == 0 {
        s1 == s0 && r1 == r0
    } else {
        exists|sm: Scope<W>, rm: Runtime<T>|
            shown_all(s0, r0, ids.drop_last(), sm, rm) && #[trigger] child_shown(
                sm,
                rm,
                ids.last(),
                s1,
                r1,
            )
    }
}

/// The scope `s1` and the runtime `r1` are what hiding the children `ids` in
/// turn made of `s0` and `r0`.
pub open spec fn hidden_all<T, W: Widget<T>>(
    s0: Scope<W>,
    r0: Runtime<T>,
    ids: Seq<crate::view::ViewKey>,
    s1: Scope<W>,
    r1: Runtime<T>,
) -> bool
    decreases ids.len(),
{
    if ids.len() == 0 {
        s1 == s0 && r1 == r0
    } else {
        exists|sm: Scope<W>, rm: Runtime<T>|
            hidden_all(s0, r0, ids.drop_last(), sm, rm) && #[trigger] child_hidden(
                sm,
                rm,
                ids.last(),
                s1,
                r1,
            )
    }
}

/// The scope `s1` is `s0` with the position of every child set to the tail.
pub open spec fn tailed<W>(s0: Scope<W>, s1: Scope<W>) -> bool {
    &&& s1 == (Scope { child_views: s1.child_views, ..s0 })
    &&& s1.child_views.len() == s0.child_views.len()
    &&& forall|i: int|
        0 <= i < s0.child_views.len() ==> #[trigger] s1.child_views[i] == (View {
            scope: Scope { position: ViewPosition::Tail, ..s0.child_views[i].scope },
            ..s0.child_views[i]
        })
}

/// Attaches every child of `ctx`, each at the tail of what is there: what a
/// `flood` hook does that has nothing else to do. The position of every child
/// is set to the tail; then the children are shown in their order.
pub fn flood<T, W: Widget<T>>(ctx: &mut Scope<W>, rt: &mut Runtime<T>)
    requires
        old(ctx).wf(),
        old(rt).wf(),
    ensures
        kept(*old(ctx), *final(ctx)),
        steady(*old(rt), *final(rt)),
        ids_of(final(ctx).child_views@) == ids_of(old(ctx).child_views@),
        forall|i: int|
            0 <= i < final(ctx).child_views.len()
                ==> (#[trigger] final(ctx).child_views[i]).scope.is_attached,
        exists|start: Scope<W>|
            tailed(*old(ctx), start) && #[trigger] shown_all(
                start,
                *old(rt),
                ids_of(old(ctx).child_views@),
                *final(ctx),
                *final(rt),
            ),
{
    let n = ctx.child_views.len();
    let mut ids: Vec<ViewId> = Vec::new();
    let mut i: usize = 0;
    proof {
        old(ctx).lemma_wf_parts();
    }
    while i < n
        invariant
            n == ctx.child_views.len(),
            i <= n,
            ids.len() == i,
            forall|j: int| 0 <= j < i ==> (#[trigger] ids[j])@ == old(ctx).child_views[j].id@,
            forall|j: int| 0 <= j < n ==> (#[trigger] ctx.child_views[j]).id@ == old(ctx).child_views[j].id@,
            forall|j: int|
                0 <= j < i ==> #[trigger] ctx.child_views[j] == (View {
                    scope: Scope { position: ViewPosition::Tail, ..old(ctx).child_views[j].scope },
                    ..old(ctx).child_views[j]
                }),
            forall|j: int| i <= j < n ==> #[trigger] ctx.child_views[j] == old(ctx).child_views[j],
            crate::scope::views_wf(ctx.child_views@),
            *ctx == (Scope { child_views: ctx.child_views, ..*old(ctx) }),
        decreases n - i,
    {
        ids.push(ctx.child_views[i].id.clone());
        let ghost before = ctx.child_views@;
        ctx.child_views[i].scope.position = ViewPosition::Tail;
        proof {
            assert(before[i as int].wf());
            before[i as int].scope.lemma_wf_parts();
            ctx.child_views[i as int].scope.lemma_wf_from(before[i as int].scope);
            assert(ctx.child_views@ =~= before.update(i as int, ctx.child_views[i as int]));
            lemma_views_wf_update(before, i as int, ctx.child_views[i as int]);
        }
        i = i + 1;
    }
    proof {
        ctx.lemma_wf_from(*old(ctx));
        assert(ids_of(ctx.child_views@) =~= ids_of(old(ctx).child_views@));
    }
    let ghost all = ids_of(ctx.child_views@);
    let ghost start = *ctx;
    let ghost r0 = *rt;
    let mut k: usize = 0;
    proof {
        assert(tailed(*old(ctx), start));
        assert(all.subrange(0, 0) =~= Seq::<crate::view::ViewKey>::empty());
    }
    while k < n
        invariant
            n == ids.len(),
            n == all.len(),
            k <= n,
            shown_all(start, r0, all.subrange(0, k as int), *ctx, *rt),
            forall|j: int| 0 <= j < n ==> (#[trigger] ids[j])@ == all[j],
            kept(start, *ctx),
            ctx.wf(),
            rt.wf(),
            r0.wf(),
            steady(r0, *rt),
            ids_of(ctx.child_views@) == all,
            forall|j: int| 0 <= j < k ==> (#[trigger] ctx.child_views[j]).scope.is_attached,
        decreases n - k,
    {
        let ghost before = *ctx;
        let ghost rb = *rt;
        proof {
            before.lemma_wf_parts();
            lemma_ids_place(before.child_views@, k as int);
            assert(ids_of(before.child_views@)[k as int] == before.child_views[k as int].id@);
        }
        ctx.attach_child(&ids[k], rt);
        proof {
            lemma_steady_trans(r0, rb, *rt);
            let upto = all.subrange(0, k + 1);
            assert(upto.drop_last() =~= all.subrange(0, k as int));
            assert(upto.last() == ids[k as int]@);
            assert(child_shown(before, rb, upto.last(), *ctx, *rt));
            assert(shown_all(start, r0, upto, *ctx, *rt));
            assert forall|j: int| 0 <= j < k + 1 implies (#[trigger] ctx.child_views[j]).scope.is_attached by {
                if j < k {
                    assert(before.child_views[j].scope.is_attached);
                }
            }
        }
        k = k + 1;
    }
    proof {
        assert(all.subrange(0, n as int) =~= all);
    }
}

/// `list` without each of `ids`, taken out in turn.
pub open spec fn without_keys(list: Seq<crate::view::ViewKey>, ids: Seq<crate::view::ViewKey>) -> Seq<
    crate::view::ViewKey,
>
    decreases ids.len(),
{
    if ids.len() == 0 {
        list
    } else {
        without_key(without_keys(list, ids.drop_last()), ids.last())
    }
}

/// Detaches every attached child of `ctx` and takes it out of the children,
/// inside one batch of the scope's holder; the children that are not attached
/// stay. No child stays on the show list. This is what a `detach` hook does
/// that has nothing else to do. The children are hidden in the order in which
/// the scope held them.
pub fn detach_children<T, W: Widget<T>>(ctx: &mut Scope<W>, rt: &mut Runtime<T>)
    requires
        old(ctx).wf(),
        old(rt).wf(),
    ensures
        kept(*old(ctx), *final(ctx)),
        steady(*old(rt), *final(rt)),
        *final(ctx) == (Scope {
            child_views: final(ctx).child_views,
            show_list: final(ctx).show_list,
            ..*old(ctx)
        }),
        keys_of(final(ctx).show_list@) == without_keys(
            keys_of(old(ctx).show_list@),
            ids_of(old(ctx).child_views@),
        ),
        forall|i: int|
            0 <= i < final(ctx).child_views.len()
                ==> !(#[trigger] final(ctx).child_views[i]).scope.is_attached
                && old(ctx).child_views@.contains(final(ctx).child_views[i]),
        forall|j: int|
            0 <= j < old(ctx).child_views.len() && !(#[trigger] old(ctx).child_views[j]).scope.is_attached
                ==> final(ctx).child_views@.contains(old(ctx).child_views[j]),
        old(ctx).child_views.len() == 0 ==> *final(ctx) == *old(ctx) && *final(rt) == *old(rt),
        old(ctx).child_views.len() > 0 ==> exists|ra: Runtime<T>, rb: Runtime<T>|
            ra.wf() && ra@ == batch_opened(old(rt)@, old(ctx).holder_id@) && #[trigger] hidden_all(
                *old(ctx),
                ra,
                ids_of(old(ctx).child_views@),
                *final(ctx),
                rb,
            ) && final(rt)@ == batch_closed(
                rb@,
                old(ctx).holder_id@,
                old(rt)@.holder(old(ctx).holder_id@).batching,
            ),
{
    let n = ctx.child_views.len();
    let mut ids: Vec<ViewId> = Vec::new();
    let mut i: usize = 0;
    while i < n
        invariant
            n == ctx.child_views.len(),
            i <= n,
            ids.len() == i,
            *ctx == *old(ctx),
            forall|j: int| 0 <= j < i ==> (#[trigger] ids[j])@ == ctx.child_views[j].id@,
        decreases n - i,
    {
        ids.push(ctx.child_views[i].id.clone());
        i = i + 1;
    }
    if n == 0 {
        return;
    }
    let ghost all = ids_of(old(ctx).child_views@);
    let ghost shown = keys_of(old(ctx).show_list@);
    let ghost first = old(ctx).child_views@;
    let ghost r0 = *rt;
    let holder_id = ctx.holder_id();
    let entered = enter_batch(rt, holder_id);
    let ghost r1 = *rt;
    let mut k: usize = 0;
    proof {
        assert(keys_of(ids@) =~= all);
        assert forall|a: int| 0 <= a < first.len() implies first.contains(#[trigger] first[a]) by {}
        old(ctx).lemma_wf_parts();
        assert forall|a: int| 0 <= a < first.len() && (#[trigger] first[a]).scope.is_attached implies exists|
            m: int,
        | k <= m < n && all[m] == first[a].id@ by {
            assert(all[a] == first[a].id@);
        }
    }
    while k < n
        invariant
            n == ids.len(),
            n == all.len(),
            k <= n,
            keys_of(ids@) == all,
            kept(*old(ctx), *ctx),
            ctx.wf(),
            rt.wf(),
            r1.wf(),
            steady(r1, *rt),
            *ctx == (Scope { child_views: ctx.child_views, show_list: ctx.show_list, ..*old(ctx) }),
            keys_of(ctx.show_list@) == without_keys(shown, all.subrange(0, k as int)),
            hidden_all(*old(ctx), r1, all.subrange(0, k as int), *ctx, *rt),
            forall|a: int|
                0 <= a < ctx.child_views.len() ==> first.contains(#[trigger] ctx.child_views[a]),
            forall|a: int|
                0 <= a < ctx.child_views.len() && (#[trigger] ctx.child_views[a]).scope.is_attached
                    ==> exists|m: int| k <= m < n && all[m] == ctx.child_views[a].id@,
            forall|j: int|
                0 <= j < first.len() && !(#[trigger] first[j]).scope.is_attached
                    ==> ctx.child_views@.contains(first[j]),
        decreases n - k,
    {
        let ghost before = *ctx;
        let ghost rb = *rt;
        let gone = ctx.detach_child(&ids[k], rt);
        proof {
            lemma_steady_trans(r1, rb, *rt);
            assert(child_hidden(before, rb, ids[k as int]@, *ctx, *rt));
            assert(all.subrange(0, k + 1).drop_last() =~= all.subrange(0, k as int));
            assert(all.subrange(0, k + 1).last() == ids[k as int]@);
            assert(all[k as int] == ids[k as int]@);
            before.lemma_wf_parts();
            let views = before.child_views@;
            let now = ctx.child_views@;
            match gone {
                Some(view) => {
                    let at = ids_of(views).index_of(ids[k as int]@);
                    lemma_ids_place(views, at);
                    assert forall|a: int| 0 <= a < now.len() implies first.contains(#[trigger] now[a])
                        && (now[a].scope.is_attached ==> exists|m: int|
                        k + 1 <= m < n && all[m] == now[a].id@) by {
                        let sa = if a == at { views.len() - 1 } else { a };
                        assert(now[a] == views[sa]);
                        assert(first.contains(views[sa]));
                        if now[a].scope.is_attached {
                            let m = choose|m: int| k <= m < n && all[m] == views[sa].id@;
                            if m == k {
                                lemma_ids_place(views, sa);
                            }
                        }
                    }
                    assert forall|j: int|
                        0 <= j < first.len() && !(#[trigger] first[j]).scope.is_attached implies now.contains(
                        first[j],
                    ) by {
                        let b = choose|b: int| 0 <= b < views.len() && views[b] == first[j];
                        if b == views.len() - 1 {
                            assert(now[at] == views[b]);
                        } else {
                            assert(now[b] == views[b]);
                        }
                    }
                },
                None => {
                    assert forall|a: int|
                        0 <= a < now.len() && (#[trigger] now[a]).scope.is_attached implies exists|m: int|
                        k + 1 <= m < n && all[m] == now[a].id@ by {
                        let m = choose|m: int| k <= m < n && all[m] == views[a].id@;
                        if m == k {
                            lemma_ids_place(views, a);
                        }
                    }
                },
            }
        }
        k = k + 1;
    }
    let ghost r2 = *rt;
    leave_batch(rt, holder_id, entered);
    proof {
        assert(all.subrange(0, n as int) =~= all);
        assert(rt@.holders =~= r2@.with_holder(
            holder_id@,
            crate::reflow::HolderView {
                batching: r0@.holder(holder_id@).batching,
                ..r2@.holder(holder_id@)
            },
        ).holders);
        lemma_steady_batch(r0, r1, r2, *rt, holder_id@);
    }
}

/// The root view `ready` is `widget` with scope `ctx` made ready for mounting
/// into `parent_node`: the element is its parent element and its own target,
/// and the view is on its own show list.
pub open spec fn readied_root<W>(widget: W, ctx: Scope<W>, parent_node: Node, ready: View<W>) -> bool {
    &&& ready.widget == widget
    &&& ready.id@ == ctx.view_id@
    &&& ready.scope == (Scope {
        parent_node: Some(parent_node),
        graff_node: Some(parent_node),
        show_list: ready.scope.show_list,
        ..ctx
    })
    &&& keys_of(ready.scope.show_list@) == with_key(keys_of(ctx.show_list@), ctx.view_id@)
}

/// The root views `vs1` and the runtime `r1` are what mounting `widget` with
/// scope `ctx` into `parent_node` made of `vs0` and `r0`: the view is made
/// ready and attached inside a batch of its holder, joins the root views, and
/// the scheduler is called for the holder.
pub open spec fn mounted<T, W: Widget<T>>(
    widget: W,
    ctx: Scope<W>,
    parent_node: Node,
    vs0: Seq<View<W>>,
    r0: Runtime<T>,
    vs1: Seq<View<W>>,
    r1: Runtime<T>,
) -> bool {
    exists|
        ready: View<W>,
        ra: Runtime<T>,
        root: View<W>,
        rb: Runtime<T>,
        mid_views: Seq<View<W>>,
        mid: Runtime<T>,
    |
        readied_root(widget, ctx, parent_node, ready) && ra.wf() && ra@ == batch_opened(
            r0@,
            ctx.holder_id@,
        ) && #[trigger] view_attached(ready, ra, root, rb) && mid_views == with_child(vs0, root)
            && mid.wf() && mid@ == batch_closed(
            rb@,
            ctx.holder_id@,
            r0@.holder(ctx.holder_id@).batching,
        ) && #[trigger] scheduled(mid_views, mid, vs1, r1, ctx.holder_id@)
}

/// Mounts `widget` as a root view with scope `ctx`: its output goes into
/// `parent_node`. The view joins `views`, in the place of a root view with the
/// same identifier if there is one, and is built and attached inside a batch
/// of its holder; then the scheduler is called for the holder.
pub fn mount_to<T, W: Widget<T>>(
    widget: W,
    ctx: Scope<W>,
    parent_node: Node,
    views: &mut ViewMap<W>,
    rt: &mut Runtime<T>,
) -> (view_id: ViewId)
    requires
        ctx.wf(),
        old(views).wf(),
        old(rt).wf(),
    ensures
        final(views).wf(),
        final(rt).wf(),
        view_id@ == ctx.view_id@,
        ids_of(final(views).0@) == with_key(ids_of(old(views).0@), view_id@),
        forall|i: int|
            0 <= i < final(views).0.len() && (#[trigger] final(views).0[i]).id@ == view_id@
                ==> final(views).0[i].scope.is_attached
                    && (!ctx.is_attached ==> final(views).0[i].scope.is_built),
        crate::reflow::bond::extends(old(rt)@, final(rt)@),
        mounted(widget, ctx, parent_node, old(views).0@, *old(rt), final(views).0@, *final(rt)),
{
    let mut view = View::new(ctx, widget);
    view.scope.parent_node = Some(parent_node);
    view.scope.graff_node = Some(parent_node);
    proof {
        ctx.lemma_wf_parts();
    }
    list_insert(&mut view.scope.show_list, &view.id);
    proof {
        view.scope.lemma_wf_from(ctx);
    }
    let view_id = view.id.clone();
    let holder_id = view.holder_id();
    let ghost r0 = *rt;
    let entered = enter_batch(rt, holder_id);
    let ghost r1 = *rt;
    let ghost before = ids_of(views.0@);
    let ghost ready = view;
    let _ = views.insert(view);
    proof {
        let after = ids_of(views.0@);
        if before.contains(view_id@) {
            lemma_ids_place(old(views).0@, before.index_of(view_id@));
            assert(after =~= before);
        } else {
            assert(after =~= before.push(view_id@));
        }
    }
    match position_in(&views.0, &view_id) {
        Some(i) => {
            let ghost placed = views.0@;
            proof {
                assert(placed[i as int].wf());
                crate::scope::lemma_with_child(old(views).0@, ready);
                lemma_ids_place(placed, i as int);
                assert(placed[i as int] == ready);
            }
            views.0[i].attach(rt);
            proof {
                assert(views.0@ =~= placed.update(i as int, views.0@[i as int]));
                lemma_views_wf_update(placed, i as int, views.0@[i as int]);
                assert(views.0@[i as int].id@ == ready.id@);
                assert(views.0@ =~= with_child(old(views).0@, views.0@[i as int]));
            }
        },
        None => {},
    }
    let ghost r2 = *rt;
    let ghost mounted = views.0@;
    leave_batch(rt, holder_id, entered);
    let ghost r3 = *rt;
    if entered {
        schedule(rt, views, holder_id);
    }
    proof {
        let at = ids_of(mounted).index_of(view_id@);
        assert(ids_of(mounted).contains(view_id@)) by {
            crate::scope::lemma_with_child(old(views).0@, ready);
            let w = ids_of(with_child(old(views).0@, ready)).index_of(ready.id@);
            assert(ids_of(mounted)[w] == view_id@);
        }
        assert(mounted[at].id@ == view_id@);
        lemma_ids_place(mounted, at);
        assert(readied_root(widget, ctx, parent_node, ready));
        assert(view_attached(ready, r1, mounted[at], r2));
        assert(mounted =~= with_child(old(views).0@, mounted[at]));
        assert(r3@.holders =~= batch_closed(
            r2@,
            holder_id@,
            r0@.holder(holder_id@).batching,
        ).holders);
        assert(scheduled(mounted, r3, views.0@, *rt, holder_id@));
        assert forall|i: int|
            0 <= i < views.0.len()
                && (#[trigger] views.0[i]).id@ == view_id@ implies views.0[i].scope.is_attached
            && (!ctx.is_attached ==> views.0[i].scope.is_built) by {
            assert(ids_of(views.0@)[i] == ids_of(mounted)[i]);
            assert(mounted[i].id@ == view_id@);
            lemma_ids_place(mounted, i);
        }
        assert forall|i: int| 0 <= i < r0@.nodes.len() implies (#[trigger] rt@.nodes[i]).is_bond
            == r0@.nodes[i].is_bond by {
            assert(r2@.nodes[i].is_bond == r1@.nodes[i].is_bond);
            assert(r3@.nodes[i].is_bond == r2@.nodes[i].is_bond);
        }
    }
    view_id
}

} // verus!
