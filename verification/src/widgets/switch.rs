//! One of several child views, chosen by the first condition that holds.

use crate::reflow::runtime::Runtime;
use crate::scope::{bumped, child_hidden, child_path, child_shown, Scope, View as ChildView};
use crate::view::{ViewId, ViewKey};
use crate::widget::{kept, lemma_steady_trans, steady, store_in, stored, Widget};
use vstd::prelude::*;

verus! {

/// The position of the first of `conds` that holds.
pub open spec fn first_true(conds: Seq<bool>) -> Option<int> {
    if exists|i: int| 0 <= i < conds.len() && conds[i] {
        Some(choose|i: int| 0 <= i < conds.len() && conds[i] && forall|j: int| 0 <= j < i ==> !conds[j])
    } else {
        None
    }
}

/// Where a condition holds, a first one does.
pub proof fn lemma_first_true(conds: Seq<bool>, i: int)
    requires
        0 <= i < conds.len(),
        conds[i],
    ensures
        exists|k: int| 0 <= k <= i && conds[k] && forall|j: int| 0 <= j < k ==> !conds[j],
    decreases i,
{
    if exists|j: int| 0 <= j < i && conds[j] {
        let j = choose|j: int| 0 <= j < i && conds[j];
        lemma_first_true(conds, j);
    }
}

/// Finds the first of `conds` that holds.
pub fn find_first_true(conds: &Vec<bool>) -> (found: Option<usize>)
    ensures
        match found {
            Some(i) => first_true(conds@) == Some(i as int) && i < conds.len() && conds[i as int],
            None => first_true(conds@).is_none(),
        },
{
    let n = conds.len();
    let mut i: usize = 0;
    while i < n
        invariant
            n == conds.len(),
            i <= n,
            forall|j: int| 0 <= j < i ==> !conds[j],
        decreases n - i,
    {
        if conds[i] {
            proof {
                let k = choose|k: int|
                    0 <= k < conds@.len() && conds@[k] && forall|j: int| 0 <= j < k ==> !conds@[j];
                assert(exists|k: int| 0 <= k < conds@.len() && conds@[k]) by {
                    assert(conds@[i as int]);
                }
                lemma_first_true(conds@, i as int);
                if k < i {
                    assert(!conds[k]);
                } else if i < k {
                    assert(!conds@[i as int]);
                }
            }
            return Some(i);
        }
        i = i + 1;
    }
    None
}

/// The scope `s1` and the runtime `r1` are what hiding the view `shown`, where
/// there is one, made of `s0` and `r0`.
pub open spec fn put_away<T, W: Widget<T>>(
    s0: Scope<W>,
    r0: Runtime<T>,
    shown: Option<ViewId>,
    s1: Scope<W>,
    r1: Runtime<T>,
) -> bool {
    match shown {
        Some(id) => child_hidden(s0, r0, id@, s1, r1),
        None => s1 == s0 && r1 == r0,
    }
}

/// One of the views that a switch chooses from.
pub struct Case<W> {
    /// Whether the view is kept when the case stops being the active one.
    pub use_cache: bool,
    /// The view that was kept.
    pub cached_view: Option<ChildView<W>>,
}

impl<W> Case<W> {
    /// A case that keeps nothing.
    pub fn new() -> (case: Case<W>)
        ensures
            !case.use_cache,
            case.cached_view.is_none(),
    {
        Case { use_cache: false, cached_view: None }
    }

    /// Says whether the view is to be kept when the case stops being active.
    pub fn cache(self, value: bool) -> (case: Case<W>)
        ensures
            case.use_cache == value,
            case.cached_view == self.cached_view,
    {
        Case { use_cache: value, cached_view: self.cached_view }
    }
}

/// Shows the view of the first case whose condition holds, and none where no
/// condition holds.
pub struct Switch<W> {
    pub cases: Vec<Case<W>>,
    /// The case whose view is shown.
    pub active_index: Option<usize>,
    /// The view that was shown last.
    pub active_view_id: Option<ViewId>,
}

impl<W> Switch<W> {
    /// The active case is one of the cases, and every view that is kept is in
    /// order.
    pub open spec fn wf(&self) -> bool {
        &&& match self.active_index {
            Some(i) => i < self.cases.len(),
            None => true,
        }
        &&& forall|i: int|
            0 <= i < self.cases.len() ==> match (#[trigger] self.cases[i]).cached_view {
                Some(v) => v.wf(),
                None => true,
            }
    }

    /// A switch without cases.
    pub fn new() -> (switch: Switch<W>)
        ensures
            switch.wf(),
            switch.cases.len() == 0,
            switch.active_index.is_none(),
            switch.active_view_id.is_none(),
    {
        Switch { cases: Vec::new(), active_index: None, active_view_id: None }
    }

    /// Adds `case` behind the cases that are there.
    pub fn push(self, case: Case<W>) -> (switch: Switch<W>)
        requires
            self.wf(),
            match case.cached_view {
                Some(v) => v.wf(),
                None => true,
            },
        ensures
            switch.wf(),
            switch.cases@ == self.cases@.push(case),
            switch.active_index == self.active_index,
            switch.active_view_id == self.active_view_id,
    {
        let mut switch = self;
        switch.cases.push(case);
        proof {
            assert forall|i: int| 0 <= i < switch.cases.len() implies match (
            #[trigger] switch.cases[i]).cached_view {
                Some(v) => v.wf(),
                None => true,
            } by {
                if i < self.cases.len() {
                    assert(switch.cases[i] == self.cases[i]);
                }
            }
        }
        switch
    }

    /// Makes and attaches the view of the first case whose condition holds.
    /// `conds` holds the condition of each case, `tmpl_fn` makes the widget of
    /// the case at a position: that widget becomes a child of the scope and
    /// the child is shown.
    pub fn build<T, F: Fn(usize) -> W>(
        &mut self,
        conds: &Vec<bool>,
        ctx: &mut Scope<W>,
        rt: &mut Runtime<T>,
        tmpl_fn: F,
    ) where W: Widget<T>
        requires
            old(self).wf(),
            old(ctx).wf(),
            old(rt).wf(),
            conds.len() == old(self).cases.len(),
            forall|i: usize| i < conds.len() ==> call_requires(tmpl_fn, (i,)),
        ensures
            final(self).wf(),
            kept(*old(ctx), *final(ctx)),
            steady(*old(rt), *final(rt)),
            final(self).cases == old(self).cases,
            match first_true(conds@) {
                Some(i) => {
                    &&& final(self).active_index == Some(i as usize)
                    &&& final(self).active_view_id.is_some()
                    &&& final(self).active_view_id.unwrap()@ == (ViewKey {
                        holder: old(ctx).holder_id@,
                        raw: child_path(old(ctx).view_id@.raw, old(ctx).next_child_view_id),
                    })
                    &&& final(ctx).next_child_view_id == bumped(old(ctx).next_child_view_id)
                    &&& exists|widget: W, held: Scope<W>|
                        call_ensures(tmpl_fn, (i as usize,), widget) && #[trigger] stored(
                            *old(ctx),
                            widget,
                            held,
                        ) && child_shown(
                            held,
                            *old(rt),
                            final(self).active_view_id.unwrap()@,
                            *final(ctx),
                            *final(rt),
                        )
                },
                None => *final(self) == *old(self) && *final(ctx) == *old(ctx) && *final(rt)
                    == *old(rt),
            },
    {
        match find_first_true(conds) {
            Some(index) => {
                let view_id = store_in(tmpl_fn(index), ctx);
                self.active_index = Some(index);
                self.active_view_id = Some(view_id.clone());
                ctx.attach_child(&view_id, rt);
            },
            None => {},
        }
    }

    /// Brings the shown view in step with the conditions. Where the first case
    /// whose condition holds is the active one nothing changes. Else the view
    /// shown is detached, and kept where its case says so; the new case
    /// becomes the active one, and the view that it kept, or else a new view,
    /// is the one to show and is attached where it is a child.
    pub fn patch<T, F: Fn(usize) -> W>(
        &mut self,
        conds: &Vec<bool>,
        ctx: &mut Scope<W>,
        rt: &mut Runtime<T>,
        tmpl_fn: F,
    ) where W: Widget<T>
        requires
            old(self).wf(),
            old(ctx).wf(),
            old(rt).wf(),
            conds.len() == old(self).cases.len(),
            forall|i: usize| i < conds.len() ==> call_requires(tmpl_fn, (i,)),
        ensures
            final(self).wf(),
            kept(*old(ctx), *final(ctx)),
            steady(*old(rt), *final(rt)),
            final(self).cases.len() == old(self).cases.len(),
            forall|i: int|
                0 <= i < old(self).cases.len() ==> (#[trigger] final(self).cases[i]).use_cache == old(self).cases[i].use_cache,
            match first_true(conds@) {
                Some(i) => final(self).active_index == Some(i as usize),
                None => final(self).active_index.is_none(),
            },
            final(self).active_index == old(self).active_index ==> *final(self) == *old(self)
                && *final(ctx) == *old(ctx) && *final(rt) == *old(rt),
            final(self).active_index != old(self).active_index ==> match final(self).active_index {
                Some(i) => {
                    &&& final(self).active_view_id.is_some()
                    &&& match old(self).cases[i as int].cached_view {
                        Some(v) => final(self).active_view_id.unwrap()@ == v.id@ && final(ctx).next_child_view_id == old(ctx).next_child_view_id,
                        None => final(self).active_view_id.unwrap()@ == (ViewKey {
                            holder: old(ctx).holder_id@,
                            raw: child_path(old(ctx).view_id@.raw, old(ctx).next_child_view_id),
                        }) && final(ctx).next_child_view_id == bumped(
                            old(ctx).next_child_view_id,
                        ),
                    }
                },
                None => final(self).active_view_id == old(self).active_view_id && final(ctx).next_child_view_id == old(ctx).next_child_view_id,
            },
            final(self).active_index != old(self).active_index ==> exists|
                bare: Scope<W>,
                mid: Runtime<T>,
            |
                {
                    &&& #[trigger] put_away(
                        *old(ctx),
                        *old(rt),
                        old(self).active_view_id,
                        bare,
                        mid,
                    )
                    &&& match final(self).active_index {
                        Some(i) => exists|held: Scope<W>|
                            {
                                &&& match old(self).cases[i as int].cached_view {
                                    Some(v) => held == bare,
                                    None => exists|widget: W|
                                        call_ensures(tmpl_fn, (i,), widget) && #[trigger] stored(
                                            bare,
                                            widget,
                                            held,
                                        ),
                                }
                                &&& #[trigger] child_shown(
                                    held,
                                    mid,
                                    final(self).active_view_id.unwrap()@,
                                    *final(ctx),
                                    *final(rt),
                                )
                            },
                        None => *final(ctx) == bare && *final(rt) == mid,
                    }
                },
            forall|i: int|
                0 <= i < old(self).cases.len() && Some(i as usize) != old(self).active_index
                    ==> (#[trigger] final(self).cases[i]) == old(self).cases[i],
    {
        let index = find_first_true(conds);
        let same = match (index, self.active_index) {
            (Some(a), Some(b)) => a == b,
            (None, None) => true,
            _ => false,
        };
        if same {
            return;
        }
        let ghost r0 = *rt;
        let ghost cases = self.cases@;
        match (&self.active_view_id, self.active_index) {
            (Some(active_view_id), Some(active_index)) => {
                match ctx.detach_child(active_view_id, rt) {
                    Some(active_view) => {
                        if self.cases[active_index].use_cache {
                            self.cases[active_index].cached_view = Some(active_view);
                        }
                    },
                    None => {},
                }
            },
            (Some(active_view_id), None) => {
                let _ = ctx.detach_child(active_view_id, rt);
            },
            _ => {},
        }
        proof {
            assert forall|i: int| 0 <= i < self.cases.len() implies match (
            #[trigger] self.cases[i]).cached_view {
                Some(v) => v.wf(),
                None => true,
            } by {
                if self.cases[i] == cases[i] {
                    assert(match cases[i].cached_view {
                        Some(v) => v.wf(),
                        None => true,
                    });
                }
            }
        }
        let ghost r1 = *rt;
        let ghost bare = *ctx;
        proof {
            assert(put_away(*old(ctx), *old(rt), old(self).active_view_id, bare, r1));
        }
        self.active_index = index;
        match index {
            Some(index) => {
                let cached = match &self.cases[index].cached_view {
                    Some(view) => Some(view.id.clone()),
                    None => None,
                };
                let view_id = match cached {
                    Some(view_id) => view_id,
                    None => {
                        let widget = tmpl_fn(index);
                        let ghost made = widget;
                        let view_id = store_in(widget, ctx);
                        proof {
                            assert(call_ensures(tmpl_fn, (index,), made) && stored(bare, made, *ctx));
                        }
                        view_id
                    },
                };
                let ghost held = *ctx;
                self.active_view_id = Some(view_id.clone());
                ctx.attach_child(&view_id, rt);
                proof {
                    lemma_steady_trans(r0, r1, *rt);
                    assert(self.cases[index as int] == old(self).cases[index as int]);
                    assert(match old(self).cases[index as int].cached_view {
                        Some(v) => held == bare,
                        None => exists|widget: W|
                            call_ensures(tmpl_fn, (index,), widget) && #[trigger] stored(
                                bare,
                                widget,
                                held,
                            ),
                    });
                    assert(child_shown(held, r1, self.active_view_id.unwrap()@, *ctx, *rt));
                }
            },
            None => {},
        }
    }
}

} // verus!
