//! The root views of a holder, and the way from a view's identifier to the view.

use crate::reflow::runtime::Runtime;
use crate::scope::{
    ids_of, lemma_ids_place, lemma_views_wf_update, position_in, same_flags, view_detached,
    view_patched, views_wf, with_child, Scope, View,
};
use crate::view::{ancestor_paths, ViewId, ViewKey};
use crate::widget::{steady, unsubscribed, Widget};
use vstd::prelude::*;
use vstd::view::View as _;

verus! {

/// The view that the last `k` entries of `path` lead to: the entry `path[k - 1]`
/// names one of `views`, the entry before it one of that view's children, and
/// so on down to `path[0]`. All of them belong to `holder`.
pub open spec fn resolve<W>(views: Seq<View<W>>, path: Seq<Seq<char>>, holder: u64, k: nat) -> Option<
    View<W>,
>
    decreases k,
{
    if k == 0 || k > path.len() {
        None
    } else {
        let key = ViewKey { holder, raw: path[k - 1] };
        let ids = ids_of(views);
        if !ids.contains(key) {
            None
        } else {
            let v = views[ids.index_of(key)];
            if k == 1 {
                Some(v)
            } else {
                resolve(v.scope.child_views@, path, holder, (k - 1) as nat)
            }
        }
    }
}

/// The view that `id` names below the root views `views`: its path is followed
/// from the root down. `None` where a step of the path names no view.
pub open spec fn found_in<W>(views: Seq<View<W>>, id: ViewKey) -> Option<View<W>> {
    resolve(views, ancestor_paths(id.raw), id.holder, ancestor_paths(id.raw).len())
}

/// The views `vs1` and the runtime `r1` are what patching the view that `key`
/// names made of `vs0` and `r0`: the view is left as its `patch` hook leaves
/// it and nothing else in the tree changes. Where `key` names no view nothing
/// changes.
pub open spec fn patched_at<T, W: Widget<T>>(
    vs0: Seq<View<W>>,
    r0: Runtime<T>,
    key: ViewKey,
    vs1: Seq<View<W>>,
    r1: Runtime<T>,
) -> bool {
    if found_in(vs0, key).is_some() {
        exists|after: View<W>|
            swapped(
                vs0,
                vs1,
                ancestor_paths(key.raw),
                key.holder,
                ancestor_paths(key.raw).len(),
                after,
            ) && #[trigger] view_patched(found_in(vs0, key).unwrap(), r0, after, r1)
    } else {
        vs1 == vs0 && r1 == r0
    }
}

/// The view that a path leads to carries the identifier that the path ends in.
pub proof fn lemma_resolved_id<W>(views: Seq<View<W>>, path: Seq<Seq<char>>, holder: u64, k: nat)
    requires
        views_wf(views),
        resolve(views, path, holder, k).is_some(),
    ensures
        resolve(views, path, holder, k).unwrap().id@ == (ViewKey { holder, raw: path[0] }),
    decreases k,
{
    let key = ViewKey { holder, raw: path[k - 1] };
    let i = ids_of(views).index_of(key);
    assert(ids_of(views)[i] == key);
    if k > 1 {
        assert(views[i].wf());
        views[i].scope.lemma_wf_parts();
        lemma_resolved_id(views[i].scope.child_views@, path, holder, (k - 1) as nat);
    }
}

/// Which hook a walk down the tree runs on the view it reaches.
#[derive(Clone, Copy, PartialEq, Eq, Structural)]
pub enum Hook {
    Patch,
    Detach,
}

/// `new` is `old` with the view that the last `k` entries of `path` lead to
/// changed for `after`: on the way down each view keeps all but its children,
/// and every view off the way stays as it is.
pub open spec fn swapped<W>(
    old: Seq<View<W>>,
    new: Seq<View<W>>,
    path: Seq<Seq<char>>,
    holder: u64,
    k: nat,
    after: View<W>,
) -> bool
    decreases k,
{
    if k == 0 || k > path.len() {
        false
    } else {
        let key = ViewKey { holder, raw: path[k - 1] };
        let i = ids_of(old).index_of(key);
        &&& ids_of(old).contains(key)
        &&& new.len() == old.len()
        &&& forall|j: int| 0 <= j < old.len() && j != i ==> #[trigger] new[j] == old[j]
        &&& if k == 1 {
            new[i] == after
        } else {
            &&& new[i] == (View {
                scope: Scope { child_views: new[i].scope.child_views, ..old[i].scope },
                ..old[i]
            })
            &&& swapped(
                old[i].scope.child_views@,
                new[i].scope.child_views@,
                path,
                holder,
                (k - 1) as nat,
                after,
            )
        }
    }
}

/// Follows the last `k` entries of `path` down from `views` and runs `hook` on
/// the view that they lead to. That view is left as the hook leaves it, not
/// attached and a subscriber of no node where the hook is `detach`; nothing
/// else in `views` changes.
fn run_hook_in<T, W: Widget<T>>(
    views: &mut Vec<View<W>>,
    path: &Vec<ViewId>,
    k: usize,
    hook: Hook,
    rt: &mut Runtime<T>,
    Ghost(paths): Ghost<Seq<Seq<char>>>,
    Ghost(holder): Ghost<u64>,
)
    requires
        views_wf(old(views)@),
        old(rt).wf(),
        1 <= k <= path.len(),
        path.len() == paths.len(),
        forall|j: int| 0 <= j < path.len() ==> (#[trigger] path[j])@ == (ViewKey { holder, raw: paths[j] }),
        resolve(old(views)@, paths, holder, k as nat).is_some(),
    ensures
        views_wf(final(views)@),
        ids_of(final(views)@) == ids_of(old(views)@),
        hook == Hook::Patch ==> same_flags(old(views)@, final(views)@),
        steady(*old(rt), *final(rt)),
        hook == Hook::Patch ==> exists|after: View<W>|
            swapped(old(views)@, final(views)@, paths, holder, k as nat, after)
                && #[trigger] view_patched(
                resolve(old(views)@, paths, holder, k as nat).unwrap(),
                *old(rt),
                after,
                *final(rt),
            ),
        hook == Hook::Detach ==> exists|after: View<W>|
            swapped(old(views)@, final(views)@, paths, holder, k as nat, after)
                && #[trigger] view_detached(
                resolve(old(views)@, paths, holder, k as nat).unwrap(),
                *old(rt),
                after,
                *final(rt),
            ) && unsubscribed(final(rt)@, after.id@),
    decreases k,
{
    let i = position_in(views, &path[k - 1]).unwrap();
    proof {
        lemma_ids_place(views@, i as int);
        assert(views@[i as int].wf());
    }
    let ghost before = views@;
    let ghost r0 = *rt;
    if k == 1 {
        match hook {
            Hook::Patch => views[i].patch(rt),
            Hook::Detach => views[i].detach(rt),
        }
    } else {
        proof {
            before[i as int].scope.lemma_wf_parts();
        }
        run_hook_in(
            &mut views[i].scope.child_views,
            path,
            k - 1,
            hook,
            rt,
            Ghost(paths),
            Ghost(holder),
        );
        proof {
            views@[i as int].scope.lemma_wf_from(before[i as int].scope);
        }
    }
    proof {
        assert(views@ =~= before.update(i as int, views@[i as int]));
        lemma_views_wf_update(before, i as int, views@[i as int]);
        let key = ViewKey { holder, raw: paths[k - 1] };
        assert(ids_of(before)[i as int] == key);
        let target = resolve(before, paths, holder, k as nat).unwrap();
        if k == 1 {
            let after = views@[i as int];
            assert(swapped(before, views@, paths, holder, k as nat, after));
            if hook == Hook::Patch {
                assert(view_patched(target, r0, after, *rt));
            } else {
                assert(view_detached(target, r0, after, *rt));
            }
        } else {
            let inner_old = before[i as int].scope.child_views@;
            let inner_new = views@[i as int].scope.child_views@;
            if hook == Hook::Patch {
                let after = choose|after: View<W>|
                    swapped(inner_old, inner_new, paths, holder, (k - 1) as nat, after)
                        && #[trigger] view_patched(target, r0, after, *rt);
                assert(swapped(before, views@, paths, holder, k as nat, after));
            } else {
                let after = choose|after: View<W>|
                    swapped(inner_old, inner_new, paths, holder, (k - 1) as nat, after)
                        && #[trigger] view_detached(target, r0, after, *rt) && unsubscribed(
                        rt@,
                        after.id@,
                    );
                assert(swapped(before, views@, paths, holder, k as nat, after));
            }
        }
    }
}

/// The root views of one holder.
pub struct ViewMap<W>(pub Vec<View<W>>);

impl<W> ViewMap<W> {
    /// No two root views have the same identifier, and each is in order.
    pub open spec fn wf(&self) -> bool {
        views_wf(self.0@)
    }

    pub fn new() -> (map: ViewMap<W>)
        ensures
            map.wf(),
            map.0@.len() == 0,
    {
        ViewMap(Vec::new())
    }

    /// Puts `view` among the root views: in the place of the root view that
    /// has its identifier, which is handed back, or else at the end.
    pub fn insert(&mut self, view: View<W>) -> (before: Option<View<W>>)
        requires
            old(self).wf(),
            view.wf(),
        ensures
            final(self).wf(),
            final(self).0@ == with_child(old(self).0@, view),
            match before {
                Some(b) => ids_of(old(self).0@).contains(view.id@) && b == old(self).0[ids_of(
                    old(self).0@,
                ).index_of(view.id@)],
                None => !ids_of(old(self).0@).contains(view.id@),
            },
    {
        match position_in(&self.0, &view.id) {
            Some(i) => {
                let mut view = view;
                proof {
                    lemma_ids_place(self.0@, i as int);
                    lemma_views_wf_update(self.0@, i as int, view);
                }
                core::mem::swap(&mut self.0[i], &mut view);
                proof {
                    assert(self.0@ =~= with_child(old(self).0@, self.0[i as int]));
                }
                Some(view)
            },
            None => {
                let i = self.0.len();
                self.0.push(view);
                proof {
                    let views = self.0@;
                    assert forall|a: int, b: int| 0 <= a < b < views.len() implies (
                    #[trigger] views[a]).id@ != (#[trigger] views[b]).id@ by {
                        if b < i {
                            assert(old(self).0[a].id@ != old(self).0[b].id@);
                        } else {
                            assert(ids_of(old(self).0@)[a] == views[a].id@);
                        }
                    }
                    assert forall|a: int| 0 <= a < views.len() implies (#[trigger] views[a]).wf() by {
                        if a < i {
                            assert(old(self).0@[a].wf());
                        }
                    }
                }
                None
            },
        }
    }

    /// The view that `view_id` names: its path is followed from the root down.
    pub fn get(&self, view_id: &ViewId) -> (found: Option<&View<W>>)
        requires
            self.wf(),
        ensures
            match found {
                Some(v) => found_in(self.0@, view_id@) == Some(*v),
                None => found_in(self.0@, view_id@).is_none(),
            },
    {
        let path = view_id.rise_to_root();
        let ghost paths = ancestor_paths(view_id@.raw);
        let ghost holder = view_id@.holder;
        let mut k: usize = path.len();
        let mut views: &Vec<View<W>> = &self.0;
        loop
            invariant
                1 <= k <= path.len(),
                path.len() == paths.len(),
                forall|j: int|
                    0 <= j < path.len() ==> (#[trigger] path[j])@ == (ViewKey {
                        holder,
                        raw: paths[j],
                    }),
                views_wf(views@),
                found_in(self.0@, view_id@) == resolve(views@, paths, holder, k as nat),
            decreases k,
        {
            match position_in(views, &path[k - 1]) {
                None => {
                    return None;
                },
                Some(i) => {
                    proof {
                        lemma_ids_place(views@, i as int);
                        assert(views@[i as int].wf());
                        views@[i as int].scope.lemma_wf_parts();
                    }
                    if k == 1 {
                        return Some(&views[i]);
                    }
                    views = &views[i].scope.child_views;
                    k = k - 1;
                },
            }
        }
    }

    /// Runs the `patch` hook of the view that `view_id` names; says whether
    /// the view was found. The view is left as the hook leaves it and nothing
    /// else in the tree changes; where no view is found nothing changes.
    pub fn patch<T>(&mut self, view_id: &ViewId, rt: &mut Runtime<T>) -> (found: bool) where
        W: Widget<T>,

        requires
            old(self).wf(),
            old(rt).wf(),
        ensures
            final(self).wf(),
            ids_of(final(self).0@) == ids_of(old(self).0@),
            same_flags(old(self).0@, final(self).0@),
            found == found_in(old(self).0@, view_id@).is_some(),
            !found ==> *final(self) == *old(self) && *final(rt) == *old(rt),
            steady(*old(rt), *final(rt)),
            patched_at(old(self).0@, *old(rt), view_id@, final(self).0@, *final(rt)),
    {
        if self.get(view_id).is_none() {
            return false;
        }
        let path = view_id.rise_to_root();
        let k = path.len();
        run_hook_in(
            &mut self.0,
            &path,
            k,
            Hook::Patch,
            rt,
            Ghost(ancestor_paths(view_id@.raw)),
            Ghost(view_id@.holder),
        );
        true
    }

    /// Detaches the view that `view_id` names: a root view with this very
    /// identifier, or else the view that its path leads to. Says whether a
    /// view was found.
    pub fn detach<T>(&mut self, view_id: &ViewId, rt: &mut Runtime<T>) -> (found: bool) where
        W: Widget<T>,

        requires
            old(self).wf(),
            old(rt).wf(),
        ensures
            final(self).wf(),
            ids_of(final(self).0@) == ids_of(old(self).0@),
            found == (ids_of(old(self).0@).contains(view_id@) || found_in(
                old(self).0@,
                view_id@,
            ).is_some()),
            !found ==> *final(self) == *old(self) && *final(rt) == *old(rt),
            steady(*old(rt), *final(rt)),
            found ==> unsubscribed(final(rt)@, view_id@),
            ids_of(old(self).0@).contains(view_id@) ==> {
                let i = ids_of(old(self).0@).index_of(view_id@);
                &&& view_detached(old(self).0[i], *old(rt), final(self).0[i], *final(rt))
                &&& forall|j: int|
                    0 <= j < old(self).0.len() && j != i ==> #[trigger] final(self).0[j] == old(self).0[j]
            },
            !ids_of(old(self).0@).contains(view_id@) && found ==> exists|after: View<W>|
                swapped(
                    old(self).0@,
                    final(self).0@,
                    ancestor_paths(view_id@.raw),
                    view_id@.holder,
                    ancestor_paths(view_id@.raw).len(),
                    after,
                ) && #[trigger] view_detached(
                    found_in(old(self).0@, view_id@).unwrap(),
                    *old(rt),
                    after,
                    *final(rt),
                ),
    {
        match position_in(&self.0, view_id) {
            Some(i) => {
                let ghost before = self.0@;
                proof {
                    lemma_ids_place(before, i as int);
                    assert(before[i as int].wf());
                }
                self.0[i].detach(rt);
                proof {
                    assert(self.0@ =~= before.update(i as int, self.0@[i as int]));
                    lemma_views_wf_update(before, i as int, self.0@[i as int]);
                }
                true
            },
            None => {
                if self.get(view_id).is_none() {
                    return false;
                }
                let path = view_id.rise_to_root();
                let k = path.len();
                proof {
                    lemma_resolved_id(
                        self.0@,
                        ancestor_paths(view_id@.raw),
                        view_id@.holder,
                        k as nat,
                    );
                }
                run_hook_in(
                    &mut self.0,
                    &path,
                    k,
                    Hook::Detach,
                    rt,
                    Ghost(ancestor_paths(view_id@.raw)),
                    Ghost(view_id@.holder),
                );
                true
            },
        }
    }
}

/// Follows the last `k` entries of `path` down from `views` to the view that
/// they lead to.
fn find_mut<'a, W>(
    views: &'a mut Vec<View<W>>,
    path: &Vec<ViewId>,
    k: usize,
    Ghost(paths): Ghost<Seq<Seq<char>>>,
    Ghost(holder): Ghost<u64>,
) -> (found: &'a mut View<W>)
    requires
        views_wf(old(views)@),
        1 <= k <= path.len(),
        path.len() == paths.len(),
        forall|j: int| 0 <= j < path.len() ==> (#[trigger] path[j])@ == (ViewKey { holder, raw: paths[j] }),
        resolve(old(views)@, paths, holder, k as nat).is_some(),
    ensures
        resolve(old(views)@, paths, holder, k as nat) == Some(*found),
        found.wf(),
        final(found).wf() && final(found).id@ == found.id@ ==> views_wf(final(views)@) && ids_of(
            final(views)@,
        ) == ids_of(old(views)@),
    decreases k,
{
    let i = position_in(views, &path[k - 1]).unwrap();
    proof {
        lemma_ids_place(views@, i as int);
        assert(views@[i as int].wf());
        views@[i as int].scope.lemma_wf_parts();
    }
    if k == 1 {
        &mut views[i]
    } else {
        find_mut(&mut views[i].scope.child_views, path, k - 1, Ghost(paths), Ghost(holder))
    }
}

impl<W> ViewMap<W> {
    /// The view that `view_id` names, to be changed in place: its path is
    /// followed from the root down. The views stay in order as long as the
    /// view found stays in order and keeps its identifier.
    pub fn get_mut(&mut self, view_id: &ViewId) -> (found: Option<&mut View<W>>)
        requires
            old(self).wf(),
        ensures
            match found {
                Some(v) => found_in(old(self).0@, view_id@) == Some(*v)
                    && (final(v).wf() && final(v).id@ == v.id@ ==> final(self).wf() && ids_of(final(self).0@) == ids_of(
                    old(self).0@,
                )),
                None => found_in(old(self).0@, view_id@).is_none() && *final(self) == *old(self),
            },
    {
        if self.get(view_id).is_none() {
            return None;
        }
        let path = view_id.rise_to_root();
        let k = path.len();
        Some(
            find_mut(
                &mut self.0,
                &path,
                k,
                Ghost(ancestor_paths(view_id@.raw)),
                Ghost(view_id@.holder),
            ),
        )
    }
}

} // verus!
