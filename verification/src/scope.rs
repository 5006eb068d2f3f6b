//! Views and their scopes: the tree that the widgets are rendered in.

use crate::holder::HolderId;
use crate::node::Node;
use crate::reflow::runtime::{forgotten, Runtime};
use crate::reflow::scheduler::{batch_closed, batch_opened, enter_batch, leave_batch};
use crate::text::{decimal, decimal_text};
use crate::view::{VIEW_ID_DELIMITER, ViewId, ViewKey, ViewPosition};
use crate::widget::{kept, lemma_steady_batch, lemma_steady_trans, steady, unsubscribed, Widget};
use vstd::prelude::*;
use vstd::string::*;
use vstd::view::View as _;

verus! {

/// What a view keeps about its place in the tree: its children in order, the
/// children to show, where its output goes in the render target, and whether it
/// was built and attached.
pub struct Scope<W> {
    pub holder_id: HolderId,
    pub view_id: ViewId,
    pub is_root: bool,
    pub is_built: bool,
    pub is_attached: bool,
    /// The children, in order. No two of them have the same identifier.
    pub child_views: Vec<View<W>>,
    /// The children to show, each once.
    pub show_list: Vec<ViewId>,
    /// Where the view's output goes among that of its siblings.
    pub position: ViewPosition,
    pub parent_node: Option<Node>,
    pub graff_node: Option<Node>,
    pub first_child_node: Option<Node>,
    pub last_child_node: Option<Node>,
    /// The number that the next child made by `beget` gets in its path.
    pub next_child_view_id: u64,
}

/// A widget with its scope.
pub struct View<W> {
    pub widget: W,
    pub scope: Scope<W>,
    pub id: ViewId,
}

/// The identifiers of `views`, in order.
pub open spec fn ids_of<W>(views: Seq<View<W>>) -> Seq<ViewKey> {
    Seq::new(views.len(), |i: int| views[i].id@)
}

/// The identifiers `list`, as contracts see them.
pub open spec fn keys_of(list: Seq<ViewId>) -> Seq<ViewKey> {
    Seq::new(list.len(), |i: int| list[i]@)
}

/// The last element that `v` has put in the render target: its own, or else
/// that of the last of its children that has one.
pub open spec fn last_node_of<W>(v: View<W>) -> Option<Node>
    decreases v,
{
    if v.scope.last_child_node.is_some() {
        v.scope.last_child_node
    } else {
        last_node_in(v.scope.child_views@, v.scope.child_views@.len())
    }
}

/// The last element of the last view below position `end` that has one.
pub open spec fn last_node_in<W>(views: Seq<View<W>>, end: nat) -> Option<Node>
    decreases views, end,
{
    if end == 0 || end > views.len() {
        None
    } else {
        match last_node_of(views[end - 1]) {
            Some(n) => Some(n),
            None => last_node_in(views, (end - 1) as nat),
        }
    }
}

/// The first element that `v` has put in the render target: its own, or else
/// that of the first of its children that has one.
pub open spec fn first_node_of<W>(v: View<W>) -> Option<Node>
    decreases v,
{
    if v.scope.first_child_node.is_some() {
        v.scope.first_child_node
    } else {
        first_node_in(v.scope.child_views@, 0)
    }
}

/// The first element of the first view from position `from` on that has one.
pub open spec fn first_node_in<W>(views: Seq<View<W>>, from: nat) -> Option<Node>
    decreases views, views.len() - from,
{
    if from >= views.len() {
        None
    } else {
        match first_node_of(views[from as int]) {
            Some(n) => Some(n),
            None => first_node_in(views, from + 1),
        }
    }
}

/// The element behind which a new sibling goes: the last element of the
/// nearest attached view below position `end` that has one.
pub open spec fn prev_anchor<W>(views: Seq<View<W>>, end: nat) -> Option<Node>
    decreases end,
{
    if end == 0 || end > views.len() {
        None
    } else if views[end - 1].scope.is_attached && last_node_of(views[end - 1]).is_some() {
        last_node_of(views[end - 1])
    } else {
        prev_anchor(views, (end - 1) as nat)
    }
}

/// The element before which a new sibling goes: the first element of the
/// nearest attached view from position `from` on that has one.
pub open spec fn next_anchor<W>(views: Seq<View<W>>, from: nat) -> Option<Node>
    decreases views.len() - from,
{
    if from >= views.len() {
        None
    } else if views[from as int].scope.is_attached && first_node_of(views[from as int]).is_some() {
        first_node_of(views[from as int])
    } else {
        next_anchor(views, from + 1)
    }
}

/// Where the child at position `index` of `scope` goes when it is attached.
///
/// A child whose own position is not set is placed by its siblings: behind
/// the nearest attached sibling before it that has an element, or else before
/// the nearest attached sibling after it that has one. A child that siblings do
/// not place takes its parent's position if it shares the parent's target
/// element, and the tail otherwise.
pub open spec fn child_position<W>(scope: Scope<W>, index: int) -> ViewPosition {
    let views = scope.child_views@;
    let child = views[index];
    let behind = if child.scope.position == ViewPosition::Unset {
        prev_anchor(views, index as nat)
    } else {
        None
    };
    let before = if child.scope.position == ViewPosition::Unset && behind.is_none() {
        next_anchor(views, (index + 1) as nat)
    } else {
        None
    };
    if behind.is_some() {
        ViewPosition::Prev(behind.unwrap())
    } else if before.is_some() {
        ViewPosition::Next(before.unwrap())
    } else if scope.parent_node == child.scope.parent_node {
        scope.position
    } else {
        ViewPosition::Tail
    }
}

/// `list` with `k` added at the end unless it is there.
pub open spec fn with_key(list: Seq<ViewKey>, k: ViewKey) -> Seq<ViewKey> {
    if list.contains(k) {
        list
    } else {
        list.push(k)
    }
}

/// `list` without `k`: the last item takes the place that `k` leaves.
pub open spec fn without_key(list: Seq<ViewKey>, k: ViewKey) -> Seq<ViewKey> {
    if list.contains(k) {
        list.update(list.index_of(k), list.last()).drop_last()
    } else {
        list
    }
}

/// `scope` is the scope that a root view with identifier `key` starts with:
/// neither built nor attached, without children and without elements.
pub open spec fn fresh_root<W>(scope: Scope<W>, key: ViewKey) -> bool {
    &&& scope.wf()
    &&& scope.view_id@ == key
    &&& scope.holder_id@ == key.holder
    &&& scope.is_root && !scope.is_built && !scope.is_attached
    &&& scope.child_views.len() == 0
    &&& scope.show_list.len() == 0
    &&& scope.position == ViewPosition::Tail
    &&& scope.parent_node.is_none() && scope.graff_node.is_none()
        && scope.first_child_node.is_none() && scope.last_child_node.is_none()
    &&& scope.next_child_view_id == 0
}

/// No identifier occurs twice among `views`, and each view is in order.
pub open spec fn views_wf<W>(views: Seq<View<W>>) -> bool {
    &&& forall|i: int, j: int|
        0 <= i < j < views.len() ==> (#[trigger] views[i]).id@ != (#[trigger] views[j]).id@
    &&& forall|i: int| 0 <= i < views.len() ==> (#[trigger] views[i]).wf()
}

impl<W> View<W> {
    /// The view carries the identifier of its scope, and the scope is in order.
    pub open spec fn wf(&self) -> bool {
        &&& self.id@ == self.scope.view_id@
        &&& self.scope.wf()
    }

    /// Wraps `widget` with `scope`.
    pub fn new(scope: Scope<W>, widget: W) -> (view: View<W>)
        requires
            scope.wf(),
        ensures
            view.wf(),
            view.scope == scope,
            view.widget == widget,
            view.id@ == scope.view_id@,
    {
        View { id: scope.view_id.clone(), widget, scope }
    }

    pub fn holder_id(&self) -> (h: HolderId)
        ensures
            h@ == self.id@.holder,
    {
        self.id.holder_id()
    }

    pub fn is_built(&self) -> (b: bool)
        ensures
            b == self.scope.is_built,
    {
        self.scope.is_built
    }

    pub fn is_attached(&self) -> (b: bool)
        ensures
            b == self.scope.is_attached,
    {
        self.scope.is_attached
    }

    /// The child with identifier `view_id`.
    pub fn child(&self, view_id: &ViewId) -> (found: Option<&View<W>>)
        requires
            self.wf(),
        ensures
            match found {
                Some(v) => exists|i: int|
                    0 <= i < self.scope.child_views.len() && self.scope.child_views[i] == *v
                        && v.id@ == view_id@,
                None => !ids_of(self.scope.child_views@).contains(view_id@),
            },
    {
        match self.scope.index_of(view_id) {
            Some(i) => Some(&self.scope.child_views[i]),
            None => None,
        }
    }

    /// The last element that the view has put in the render target.
    pub fn last_child_node(&self) -> (node: Option<Node>)
        ensures
            node == last_node_of(*self),
        decreases *self,
    {
        if self.scope.last_child_node.is_some() {
            return self.scope.last_child_node;
        }
        let mut end: usize = self.scope.child_views.len();
        while end > 0
            invariant
                end <= self.scope.child_views.len(),
                self.scope.last_child_node.is_none(),
                last_node_of(*self) == last_node_in(self.scope.child_views@, end as nat),
            decreases end,
        {
            end = end - 1;
            let found = self.scope.child_views[end].last_child_node();
            if found.is_some() {
                return found;
            }
        }
        None
    }

    /// The first element that the view has put in the render target.
    pub fn first_child_node(&self) -> (node: Option<Node>)
        ensures
            node == first_node_of(*self),
        decreases *self,
    {
        if self.scope.first_child_node.is_some() {
            return self.scope.first_child_node;
        }
        let n = self.scope.child_views.len();
        let mut from: usize = 0;
        while from < n
            invariant
                n == self.scope.child_views.len(),
                from <= n,
                self.scope.first_child_node.is_none(),
                first_node_of(*self) == first_node_in(self.scope.child_views@, from as nat),
            decreases n - from,
        {
            let found = self.scope.child_views[from].first_child_node();
            if found.is_some() {
                return found;
            }
            from = from + 1;
        }
        None
    }
}

impl<W> Scope<W> {
    /// The scope belongs to the holder of its identifier; no two children have
    /// the same identifier, each child is in order, and no child is listed
    /// twice for showing.
    pub open spec fn wf(&self) -> bool
        decreases self,
    {
        &&& self.holder_id@ == self.view_id@.holder
        &&& forall|i: int, j: int|
            0 <= i < j < self.child_views.len() ==> (#[trigger] self.child_views[i]).id@ != (
            #[trigger] self.child_views[j]).id@
        &&& forall|i: int|
            0 <= i < self.child_views.len() ==> (#[trigger] self.child_views[i]).id@
                == self.child_views[i].scope.view_id@ && self.child_views[i].scope.wf()
        &&& forall|i: int, j: int|
            0 <= i < j < self.show_list.len() ==> (#[trigger] self.show_list[i])@ != (
            #[trigger] self.show_list[j])@
    }

    /// The scope of a view that is neither built nor attached, with no child.
    pub fn new(view_id: ViewId) -> (scope: Scope<W>)
        ensures
            scope.wf(),
            scope.view_id@ == view_id@,
            scope.holder_id@ == view_id@.holder,
            !scope.is_root && !scope.is_built && !scope.is_attached,
            scope.child_views.len() == 0,
            scope.show_list.len() == 0,
            scope.position == ViewPosition::Tail,
            scope.parent_node.is_none() && scope.graff_node.is_none()
                && scope.first_child_node.is_none() && scope.last_child_node.is_none(),
            scope.next_child_view_id == 0,
    {
        Scope {
            holder_id: view_id.holder_id(),
            view_id,
            is_root: false,
            is_built: false,
            is_attached: false,
            child_views: Vec::new(),
            show_list: Vec::new(),
            position: ViewPosition::Tail,
            parent_node: None,
            graff_node: None,
            first_child_node: None,
            last_child_node: None,
            next_child_view_id: 0,
        }
    }

    /// The scope of a root view.
    pub fn new_root(view_id: ViewId) -> (scope: Scope<W>)
        ensures
            fresh_root(scope, view_id@),
    {
        Scope {
            holder_id: view_id.holder_id(),
            view_id,
            is_root: true,
            is_built: false,
            is_attached: false,
            child_views: Vec::new(),
            show_list: Vec::new(),
            position: ViewPosition::Tail,
            parent_node: None,
            graff_node: None,
            first_child_node: None,
            last_child_node: None,
            next_child_view_id: 0,
        }
    }

    pub fn is_root(&self) -> (b: bool)
        ensures
            b == self.is_root,
    {
        self.is_root
    }

    pub fn is_attached(&self) -> (b: bool)
        ensures
            b == self.is_attached,
    {
        self.is_attached
    }

    pub fn is_built(&self) -> (b: bool)
        ensures
            b == self.is_built,
    {
        self.is_built
    }

    pub fn holder_id(&self) -> (h: HolderId)
        ensures
            h == self.holder_id,
    {
        self.holder_id
    }

    pub fn parent_node(&self) -> (node: Option<Node>)
        ensures
            node == self.parent_node,
    {
        self.parent_node
    }

    pub fn graff(&self) -> (node: Option<Node>)
        ensures
            node == self.graff_node,
    {
        self.graff_node
    }

    pub fn view_id(&self) -> (id: &ViewId)
        ensures
            *id == self.view_id,
    {
        &self.view_id
    }

    pub fn child_views(&self) -> (views: &Vec<View<W>>)
        ensures
            *views == self.child_views,
    {
        &self.child_views
    }

    /// Where the child with identifier `view_id` stands.
    pub fn index_of(&self, view_id: &ViewId) -> (found: Option<usize>)
        ensures
            match found {
                Some(i) => i < self.child_views.len() && self.child_views[i as int].id@
                    == view_id@,
                None => !ids_of(self.child_views@).contains(view_id@),
            },
    {
        position_in(&self.child_views, view_id)
    }
}

/// Where the view with identifier `view_id` stands among `views`.
pub fn position_in<W>(views: &Vec<View<W>>, view_id: &ViewId) -> (found: Option<usize>)
    ensures
        match found {
            Some(i) => i < views.len() && views[i as int].id@ == view_id@,
            None => !ids_of(views@).contains(view_id@),
        },
{
    let n = views.len();
    let mut i: usize = 0;
    while i < n
        invariant
            n == views.len(),
            i <= n,
            forall|j: int| 0 <= j < i ==> (#[trigger] views[j]).id@ != view_id@,
        decreases n - i,
    {
        if views[i].id == *view_id {
            return Some(i);
        }
        i = i + 1;
    }
    proof {
        let ids = ids_of(views@);
        if ids.contains(view_id@) {
            let j = choose|j: int| 0 <= j < ids.len() && ids[j] == view_id@;
            assert(views[j].id@ == view_id@);
        }
    }
    None
}

/// Where `id` stands in `list`.
pub fn position_in_list(list: &Vec<ViewId>, id: &ViewId) -> (found: Option<usize>)
    ensures
        match found {
            Some(i) => i < list.len() && list[i as int]@ == id@,
            None => !keys_of(list@).contains(id@),
        },
{
    let n = list.len();
    let mut i: usize = 0;
    while i < n
        invariant
            n == list.len(),
            i <= n,
            forall|j: int| 0 <= j < i ==> (#[trigger] list[j])@ != id@,
        decreases n - i,
    {
        if list[i] == *id {
            return Some(i);
        }
        i = i + 1;
    }
    proof {
        let keys = keys_of(list@);
        if keys.contains(id@) {
            let j = choose|j: int| 0 <= j < keys.len() && keys[j] == id@;
            assert(list[j]@ == id@);
        }
    }
    None
}

/// In a list without repeats, the place of an item is the only place that holds it.
pub proof fn lemma_key_place(list: Seq<ViewKey>, k: ViewKey, i: int)
    requires
        list.no_duplicates(),
        0 <= i < list.len(),
        list[i] == k,
    ensures
        list.contains(k),
        list.index_of(k) == i,
{
}

/// Adds `id` at the end of `list` unless it is there.
pub fn list_insert(list: &mut Vec<ViewId>, id: &ViewId)
    requires
        keys_of(old(list)@).no_duplicates(),
    ensures
        keys_of(final(list)@).no_duplicates(),
        keys_of(final(list)@) == with_key(keys_of(old(list)@), id@),
{
    match position_in_list(list, id) {
        Some(i) => {
            assert(keys_of(list@)[i as int] == id@);
        },
        None => {
            list.push(id.clone());
            let ghost before = keys_of(old(list)@);
            let ghost after = keys_of(list@);
            assert(after =~= before.push(id@));
            assert forall|a: int, b: int|
                0 <= a < after.len() && 0 <= b < after.len() && a != b implies after[a]
                != after[b] by {
                if a < before.len() && b < before.len() {
                } else if a < before.len() {
                    assert(before.contains(before[a]));
                } else {
                    assert(before.contains(before[b]));
                }
            }
        },
    }
}

/// Takes `id` out of `list`; the last item takes its place.
pub fn list_remove(list: &mut Vec<ViewId>, id: &ViewId)
    requires
        keys_of(old(list)@).no_duplicates(),
    ensures
        keys_of(final(list)@).no_duplicates(),
        keys_of(final(list)@) == without_key(keys_of(old(list)@), id@),
{
    match position_in_list(list, id) {
        Some(i) => {
            let ghost before = keys_of(old(list)@);
            proof {
                lemma_key_place(before, id@, i as int);
            }
            let _ = list.swap_remove(i);
            let ghost after = keys_of(list@);
            assert(after =~= before.update(i as int, before.last()).drop_last());
            assert forall|a: int, b: int|
                0 <= a < after.len() && 0 <= b < after.len() && a != b implies after[a]
                != after[b] by {
                let sa = if a == i { before.len() - 1 } else { a };
                let sb = if b == i { before.len() - 1 } else { b };
                assert(after[a] == before[sa]);
                assert(after[b] == before[sb]);
            }
        },
        None => {},
    }
}

impl<W> Scope<W> {
    /// The scope is in order as soon as its children are, they have distinct
    /// identifiers, and the rest is as in a scope that is in order.
    pub proof fn lemma_wf_from(self, other: Scope<W>)
        requires
            other.wf(),
            self.holder_id == other.holder_id,
            self.view_id@ == other.view_id@,
            keys_of(self.show_list@).no_duplicates(),
            views_wf(self.child_views@),
        ensures
            self.wf(),
    {
        assert forall|i: int, j: int| 0 <= i < j < self.show_list.len() implies (
        #[trigger] self.show_list[i])@ != (#[trigger] self.show_list[j])@ by {
            assert(keys_of(self.show_list@)[i] != keys_of(self.show_list@)[j]);
        }
        assert forall|i: int| 0 <= i < self.child_views.len() implies (
        #[trigger] self.child_views[i]).id@ == self.child_views[i].scope.view_id@
            && self.child_views[i].scope.wf() by {
            assert(self.child_views@[i].wf());
        }
    }

    /// In a scope that is in order the children are in order and the show list
    /// has no repeats.
    pub proof fn lemma_wf_parts(self)
        requires
            self.wf(),
        ensures
            views_wf(self.child_views@),
            keys_of(self.show_list@).no_duplicates(),
    {
        assert forall|i: int| 0 <= i < self.child_views@.len() implies (
        #[trigger] self.child_views@[i]).wf() by {
            assert(self.child_views[i].scope.wf());
        }
        assert forall|i: int, j: int|
            0 <= i < self.show_list.len() && 0 <= j < self.show_list.len() && i != j implies keys_of(
            self.show_list@,
        )[i] != keys_of(self.show_list@)[j] by {
            if i < j {
                assert(self.show_list[i]@ != self.show_list[j]@);
            } else {
                assert(self.show_list[j]@ != self.show_list[i]@);
            }
        }
    }
}

/// The view `v1` and the runtime `r1` are what the `patch` hook made of `v0`
/// and `r0`.
pub open spec fn view_patched<T, W: Widget<T>>(v0: View<W>, r0: Runtime<T>, v1: View<W>, r1: Runtime<T>) -> bool {
    &&& v1.id == v0.id
    &&& W::patches(v0.widget, v0.scope, r0, v1.widget, v1.scope, r1)
}

/// The view `v1` and the runtime `r1` are what detaching made of `v0` and
/// `r0`: the `detach` hook runs, the view counts as not attached, and it is
/// taken from the subscribers of every node.
pub open spec fn view_detached<T, W: Widget<T>>(v0: View<W>, r0: Runtime<T>, v1: View<W>, r1: Runtime<T>) -> bool {
    &&& v1.id == v0.id
    &&& exists|c: Scope<W>, rm: Runtime<T>| #[trigger]
        W::detaches(v0.widget, v0.scope, r0, v1.widget, c, rm) && v1.scope == (Scope {
            is_attached: false,
            ..c
        }) && r1@ == forgotten(rm@, v0.id@)
}

/// The view `v1` and the runtime `r1` are what building made of `v0` and `r0`.
/// A view that is built stays as it is. Else the `build` hook runs inside a
/// batch of the view's holder, and the view counts as built.
pub open spec fn view_built<T, W: Widget<T>>(v0: View<W>, r0: Runtime<T>, v1: View<W>, r1: Runtime<T>) -> bool {
    if v0.scope.is_built {
        v1 == v0 && r1 == r0
    } else {
        let h = v0.id@.holder;
        &&& v1.id == v0.id
        &&& exists|ra: Runtime<T>, c: Scope<W>, rb: Runtime<T>|
            ra.wf() && ra@ == batch_opened(r0@, h) && #[trigger] W::builds(
                v0.widget,
                v0.scope,
                ra,
                v1.widget,
                c,
                rb,
            ) && v1.scope == (Scope { is_built: true, ..c }) && r1@ == batch_closed(
                rb@,
                h,
                r0@.holder(h).batching,
            )
    }
}

/// The view `v1` and the runtime `r1` are what attaching made of `v0` and
/// `r0`. A view that is attached stays as it is. Else, inside a batch of the
/// view's holder, the `attach` hook runs and the view counts as attached, the
/// view is built, and the `flood` hook runs on what that left.
pub open spec fn view_attached<T, W: Widget<T>>(v0: View<W>, r0: Runtime<T>, v1: View<W>, r1: Runtime<T>) -> bool {
    if v0.scope.is_attached {
        v1 == v0 && r1 == r0
    } else {
        let h = v0.id@.holder;
        &&& v1.id == v0.id
        &&& exists|
            ra: Runtime<T>,
            wa: W,
            ca: Scope<W>,
            rb: Runtime<T>,
            vb: View<W>,
            rc: Runtime<T>,
            rd: Runtime<T>,
        |
            ra.wf() && ra@ == batch_opened(r0@, h) && #[trigger] W::attaches(
                v0.widget,
                v0.scope,
                ra,
                wa,
                ca,
                rb,
            ) && #[trigger] view_built(
                View { widget: wa, scope: Scope { is_attached: true, ..ca }, id: v0.id },
                rb,
                vb,
                rc,
            ) && #[trigger] W::floods(vb.widget, vb.scope, rc, v1.widget, v1.scope, rd) && r1@
                == batch_closed(rd@, h, r0@.holder(h).batching)
    }
}

/// The child at position `i` of scope `s0` as it is handed to its hooks: with
/// the position decided for it where that is set, the scope's target element
/// as its parent element and, where it has none, as its own target.
pub open spec fn readied<W>(s0: Scope<W>, i: int) -> View<W> {
    let c0 = s0.child_views[i];
    let decided = child_position(s0, i);
    View {
        scope: Scope {
            position: if decided != ViewPosition::Unset {
                decided
            } else {
                c0.scope.position
            },
            parent_node: s0.graff_node,
            graff_node: if c0.scope.graff_node.is_none() {
                s0.graff_node
            } else {
                c0.scope.graff_node
            },
            ..c0.scope
        },
        ..c0
    }
}

/// The child `child1` and the runtime `r1` are what attaching the child at
/// position `i` of scope `s0` made of it and of `r0`. A child that is attached
/// stays as it is. Else the child gets the position decided for it where that
/// is set, the scope's target element as its parent element and, where it has
/// none, as its own target; it is attached inside a batch of its holder; and
/// its position is unset again.
pub open spec fn child_attached<T, W: Widget<T>>(
    s0: Scope<W>,
    i: int,
    r0: Runtime<T>,
    child1: View<W>,
    r1: Runtime<T>,
) -> bool {
    let c0 = s0.child_views[i];
    if c0.scope.is_attached {
        child1 == c0 && r1 == r0
    } else {
        let h = c0.id@.holder;
        exists|ra: Runtime<T>, va: View<W>, rb: Runtime<T>|
            ra.wf() && ra@ == batch_opened(r0@, h) && #[trigger] view_attached(
                readied(s0, i),
                ra,
                va,
                rb,
            )
                && child1 == (View { scope: Scope { position: ViewPosition::Unset, ..va.scope }, ..va })
                && r1@ == batch_closed(rb@, h, r0@.holder(h).batching)
    }
}

/// The scope `s1` and the runtime `r1` are what showing the child `key` made
/// of `s0` and `r0`. Where `key` names no child nothing changes. Else the child
/// is put on the show list and attached as `child_attached` says, and every
/// other child stays as it is.
pub open spec fn child_shown<T, W: Widget<T>>(
    s0: Scope<W>,
    r0: Runtime<T>,
    key: ViewKey,
    s1: Scope<W>,
    r1: Runtime<T>,
) -> bool {
    if !ids_of(s0.child_views@).contains(key) {
        s1 == s0 && r1 == r0
    } else {
        let i = ids_of(s0.child_views@).index_of(key);
        &&& s1 == (Scope { child_views: s1.child_views, show_list: s1.show_list, ..s0 })
        &&& keys_of(s1.show_list@) == with_key(keys_of(s0.show_list@), key)
        &&& s1.child_views.len() == s0.child_views.len()
        &&& forall|j: int|
            0 <= j < s0.child_views.len() && j != i ==> #[trigger] s1.child_views[j]
                == s0.child_views[j]
        &&& child_attached(s0, i, r0, s1.child_views[i], r1)
    }
}

/// The scope `s1` and the runtime `r1` are what hiding the child `key` made of
/// `s0` and `r0`. The child leaves the show list. Where it is an attached
/// child it leaves the children, the last child taking its place, and its
/// `detach` hook runs on it inside a batch of the scope's holder. Else the
/// children and the runtime stay as they are.
pub open spec fn child_hidden<T, W: Widget<T>>(
    s0: Scope<W>,
    r0: Runtime<T>,
    key: ViewKey,
    s1: Scope<W>,
    r1: Runtime<T>,
) -> bool {
    let i = ids_of(s0.child_views@).index_of(key);
    &&& s1 == (Scope { child_views: s1.child_views, show_list: s1.show_list, ..s0 })
    &&& keys_of(s1.show_list@) == without_key(keys_of(s0.show_list@), key)
    &&& if ids_of(s0.child_views@).contains(key) && s0.child_views[i].scope.is_attached {
        &&& s1.child_views@ == s0.child_views@.update(i, s0.child_views@.last()).drop_last()
        &&& exists|ra: Runtime<T>, gone: View<W>, rb: Runtime<T>|
            ra.wf() && ra@ == batch_opened(r0@, s0.holder_id@) && #[trigger] view_detached(
                s0.child_views[i],
                ra,
                gone,
                rb,
            ) && r1@ == batch_closed(rb@, s0.holder_id@, r0@.holder(s0.holder_id@).batching)
    } else {
        s1.child_views@ == s0.child_views@ && r1 == r0
    }
}

impl<W> View<W> {
    /// Builds the view unless it is built. The widget's `build` hook runs
    /// inside a batch of the view's holder.
    pub fn build<T>(&mut self, rt: &mut Runtime<T>) where W: Widget<T>
        requires
            old(self).wf(),
            old(rt).wf(),
        ensures
            final(self).wf(),
            final(self).id == old(self).id,
            final(self).scope.is_built,
            final(self).scope.is_attached == old(self).scope.is_attached,
            final(self).scope.is_root == old(self).scope.is_root,
            steady(*old(rt), *final(rt)),
            old(self).scope.is_built ==> *final(self) == *old(self) && *final(rt) == *old(rt),
            view_built(*old(self), *old(rt), *final(self), *final(rt)),
    {
        if self.is_built() {
            return;
        }
        let ghost r0 = *rt;
        let holder_id = self.holder_id();
        let entered = enter_batch(rt, holder_id);
        let ghost r1 = *rt;
        self.widget.build(&mut self.scope, rt);
        let ghost r2 = *rt;
        leave_batch(rt, holder_id, entered);
        let ghost before = self.scope;
        self.scope.is_built = true;
        proof {
            assert(rt@.holders =~= r2@.with_holder(
                holder_id@,
                crate::reflow::HolderView {
                    batching: r0@.holder(holder_id@).batching,
                    ..r2@.holder(holder_id@)
                },
            ).holders);
            lemma_steady_batch(r0, r1, r2, *rt, holder_id@);
            before.lemma_wf_parts();
            self.scope.lemma_wf_from(before);
            assert(W::builds(old(self).widget, old(self).scope, r1, self.widget, before, r2));
        }
    }

    /// Attaches the view unless it is attached: the widget's `attach` hook
    /// runs, the view is built if need be, and the `flood` hook attaches the
    /// children, all inside a batch of the view's holder.
    pub fn attach<T>(&mut self, rt: &mut Runtime<T>) where W: Widget<T>
        requires
            old(self).wf(),
            old(rt).wf(),
        ensures
            final(self).wf(),
            final(self).id == old(self).id,
            final(self).scope.is_attached,
            !old(self).scope.is_attached ==> final(self).scope.is_built,
            final(self).scope.is_root == old(self).scope.is_root,
            steady(*old(rt), *final(rt)),
            old(self).scope.is_attached ==> *final(self) == *old(self) && *final(rt) == *old(rt),
            view_attached(*old(self), *old(rt), *final(self), *final(rt)),
    {
        if self.is_attached() {
            return;
        }
        let ghost r0 = *rt;
        let holder_id = self.holder_id();
        let entered = enter_batch(rt, holder_id);
        let ghost r1 = *rt;
        self.widget.attach(&mut self.scope, rt);
        let ghost before = self.scope;
        let ghost wa = self.widget;
        self.scope.is_attached = true;
        proof {
            before.lemma_wf_parts();
            self.scope.lemma_wf_from(before);
        }
        let ghost r2 = *rt;
        let ghost va = *self;
        if !self.is_built() {
            self.build(rt);
        }
        let ghost r3 = *rt;
        let ghost vb = *self;
        self.widget.flood(&mut self.scope, rt);
        let ghost r4 = *rt;
        leave_batch(rt, holder_id, entered);
        proof {
            lemma_steady_trans(r1, r2, r3);
            lemma_steady_trans(r1, r3, r4);
            assert(rt@.holders =~= r4@.with_holder(
                holder_id@,
                crate::reflow::HolderView {
                    batching: r0@.holder(holder_id@).batching,
                    ..r4@.holder(holder_id@)
                },
            ).holders);
            lemma_steady_batch(r0, r1, r4, *rt, holder_id@);
            assert(W::attaches(old(self).widget, old(self).scope, r1, wa, before, r2));
            assert(va == (View {
                widget: wa,
                scope: Scope { is_attached: true, ..before },
                id: old(self).id,
            }));
            assert(view_built(va, r2, vb, r3));
            assert(W::floods(vb.widget, vb.scope, r3, self.widget, self.scope, r4));
        }
    }

    /// Detaches the view: the widget's `detach` hook runs, and the view counts
    /// as not attached, whether it was or not. The widget and the rest of the
    /// scope are left as the hook leaves them. Then the view is taken from the
    /// subscribers of every node, so that no write renders it again.
    pub fn detach<T>(&mut self, rt: &mut Runtime<T>) where W: Widget<T>
        requires
            old(self).wf(),
            old(rt).wf(),
        ensures
            final(self).wf(),
            final(self).id == old(self).id,
            !final(self).scope.is_attached,
            final(self).scope.is_built == old(self).scope.is_built,
            final(self).scope.is_root == old(self).scope.is_root,
            steady(*old(rt), *final(rt)),
            unsubscribed(final(rt)@, old(self).id@),
            view_detached(*old(self), *old(rt), *final(self), *final(rt)),
    {
        self.widget.detach(&mut self.scope, rt);
        let ghost before = self.scope;
        let ghost mid = *rt;
        self.scope.is_attached = false;
        rt.forget_view(&self.id);
        proof {
            before.lemma_wf_parts();
            self.scope.lemma_wf_from(before);
            assert(W::detaches(old(self).widget, old(self).scope, *old(rt), self.widget, before, mid));
            assert(steady(mid, *rt));
            lemma_steady_trans(*old(rt), mid, *rt);
        }
    }
}

/// `views` with `v` put in: in the place of the view that has its identifier,
/// or at the end where none has.
pub open spec fn with_child<W>(views: Seq<View<W>>, v: View<W>) -> Seq<View<W>> {
    if ids_of(views).contains(v.id@) {
        views.update(ids_of(views).index_of(v.id@), v)
    } else {
        views.push(v)
    }
}

/// `views` with the view at `from` moved to `to`; those between shift by one.
pub open spec fn moved<W>(views: Seq<View<W>>, from: int, to: int) -> Seq<View<W>> {
    views.remove(from).insert(to, views[from])
}

/// The number after `n` for a child, starting again at 0 after the largest.
pub open spec fn bumped(n: u64) -> u64 {
    if n == u64::MAX {
        0
    } else {
        (n + 1) as u64
    }
}

/// The path of the child that a scope with path `raw` makes as its `n`-th.
pub open spec fn child_path(raw: Seq<char>, n: u64) -> Seq<char> {
    raw.push(VIEW_ID_DELIMITER) + decimal(n as nat)
}

/// The identifiers of children that are each in order and distinct stay
/// distinct when one child is changed for another with the same identifier.
pub proof fn lemma_views_wf_update<W>(views: Seq<View<W>>, i: int, v: View<W>)
    requires
        views_wf(views),
        0 <= i < views.len(),
        v.wf(),
        v.id@ == views[i].id@,
    ensures
        views_wf(views.update(i, v)),
        ids_of(views.update(i, v)) == ids_of(views),
{
    let out = views.update(i, v);
    assert forall|a: int, b: int| 0 <= a < b < out.len() implies (#[trigger] out[a]).id@ != (
    #[trigger] out[b]).id@ by {
        assert(views[a].id@ != views[b].id@);
    }
    assert forall|a: int| 0 <= a < out.len() implies (#[trigger] out[a]).wf() by {
        if a != i {
            assert(views[a].wf());
        }
    }
    assert(ids_of(out) =~= ids_of(views));
}

/// The identifiers of distinct children are a list without repeats, and the
/// place of a child is the place of its identifier.
pub proof fn lemma_ids_place<W>(views: Seq<View<W>>, i: int)
    requires
        views_wf(views),
        0 <= i < views.len(),
    ensures
        ids_of(views).no_duplicates(),
        ids_of(views).contains(views[i].id@),
        ids_of(views).index_of(views[i].id@) == i,
{
    let ids = ids_of(views);
    assert forall|a: int, b: int| 0 <= a < ids.len() && 0 <= b < ids.len() && a != b implies ids[a]
        != ids[b] by {
        if a < b {
            assert(views[a].id@ != views[b].id@);
        } else {
            assert(views[b].id@ != views[a].id@);
        }
    }
    assert(ids[i] == views[i].id@);
}

impl<W> Scope<W> {
    /// The identifier of the next child: this scope's path, the delimiter and
    /// the child's number. The number of the child after it is one more,
    /// starting again at 0 after the largest.
    pub fn next_child_view_id(&mut self) -> (id: ViewId)
        requires
            old(self).wf(),
        ensures
            final(self).wf(),
            id@ == (ViewKey {
                holder: old(self).holder_id@,
                raw: child_path(old(self).view_id@.raw, old(self).next_child_view_id),
            }),
            *final(self) == (Scope {
                next_child_view_id: if old(self).next_child_view_id == u64::MAX {
                    0
                } else {
                    (old(self).next_child_view_id + 1) as u64
                },
                ..*old(self)
            }),
    {
        let n = self.next_child_view_id;
        self.next_child_view_id = if n == u64::MAX {
            0
        } else {
            n + 1
        };
        proof {
            old(self).lemma_wf_parts();
            self.lemma_wf_from(*old(self));
            reveal_strlit("-");
            assert("-"@ =~= seq![VIEW_ID_DELIMITER]);
        }
        let mut raw = String::from_str(self.view_id.as_str());
        raw.append("-");
        let number = decimal_text(n);
        raw.append(number.as_str());
        assert(raw@ =~= child_path(self.view_id@.raw, n));
        ViewId::new(self.holder_id, raw)
    }

    /// A fresh scope for the next child.
    pub fn beget(&mut self) -> (child: Scope<W>)
        requires
            old(self).wf(),
        ensures
            final(self).wf(),
            child.wf(),
            child.view_id@ == (ViewKey {
                holder: old(self).holder_id@,
                raw: child_path(old(self).view_id@.raw, old(self).next_child_view_id),
            }),
            !child.is_root && !child.is_built && !child.is_attached,
            child.child_views.len() == 0,
            child.show_list.len() == 0,
            child.position == ViewPosition::Tail,
            child.parent_node.is_none() && child.graff_node.is_none(),
            *final(self) == (Scope {
                next_child_view_id: if old(self).next_child_view_id == u64::MAX {
                    0
                } else {
                    (old(self).next_child_view_id + 1) as u64
                },
                ..*old(self)
            }),
    {
        let id = self.next_child_view_id();
        Scope::new(id)
    }

    /// Puts `view` among the children: in the place of the child that has its
    /// identifier, which is handed back, or else at the end. Gives the place.
    pub fn insert_child(&mut self, view: View<W>) -> (r: (usize, Option<View<W>>))
        requires
            old(self).wf(),
            view.wf(),
        ensures
            final(self).wf(),
            final(self).child_views@ == with_child(old(self).child_views@, view),
            *final(self) == (Scope { child_views: final(self).child_views, ..*old(self) }),
            r.0 < final(self).child_views.len(),
            final(self).child_views[r.0 as int] == view,
            match r.1 {
                Some(before) => r.0 < old(self).child_views.len()
                    && before == old(self).child_views[r.0 as int] && before.id@ == view.id@,
                None => r.0 == old(self).child_views.len() && !ids_of(
                    old(self).child_views@,
                ).contains(view.id@),
            },
    {
        proof {
            old(self).lemma_wf_parts();
        }
        match self.index_of(&view.id) {
            Some(i) => {
                let mut view = view;
                proof {
                    lemma_ids_place(self.child_views@, i as int);
                    lemma_views_wf_update(self.child_views@, i as int, view);
                }
                core::mem::swap(&mut self.child_views[i], &mut view);
                proof {
                    assert(self.child_views@ =~= with_child(old(self).child_views@, self.child_views[i as int]));
                    self.lemma_wf_from(*old(self));
                }
                (i, Some(view))
            },
            None => {
                let i = self.child_views.len();
                self.child_views.push(view);
                proof {
                    let views = self.child_views@;
                    assert forall|a: int, b: int| 0 <= a < b < views.len() implies (
                    #[trigger] views[a]).id@ != (#[trigger] views[b]).id@ by {
                        if b < i {
                            assert(old(self).child_views[a].id@ != old(self).child_views[b].id@);
                        } else {
                            assert(ids_of(old(self).child_views@)[a] == views[a].id@);
                        }
                    }
                    assert forall|a: int| 0 <= a < views.len() implies (#[trigger] views[a]).wf() by {
                        if a < i {
                            assert(old(self).child_views@[a].wf());
                        }
                    }
                    self.lemma_wf_from(*old(self));
                }
                (i, None)
            },
        }
    }

    /// Moves the child at `from` to `to`; the children between shift by one.
    pub fn move_child(&mut self, from: usize, to: usize)
        requires
            old(self).wf(),
            from < old(self).child_views.len(),
            to < old(self).child_views.len(),
        ensures
            final(self).wf(),
            final(self).child_views@ == moved(old(self).child_views@, from as int, to as int),
            *final(self) == (Scope { child_views: final(self).child_views, ..*old(self) }),
    {
        proof {
            old(self).lemma_wf_parts();
        }
        let view = self.child_views.remove(from);
        self.child_views.insert(to, view);
        proof {
            let before = old(self).child_views@;
            let views = self.child_views@;
            let back = |a: int|
                if a == to {
                    from as int
                } else {
                    let b = if a < to {
                        a
                    } else {
                        a - 1
                    };
                    if b < from {
                        b
                    } else {
                        b + 1
                    }
                };
            assert forall|a: int| 0 <= a < views.len() implies views[a] == #[trigger] before[back(a)]
                && 0 <= back(a) < before.len() by {}
            assert forall|a: int, b: int| 0 <= a < b < views.len() implies (#[trigger] views[a]).id@
                != (#[trigger] views[b]).id@ by {
                assert(views[a] == before[back(a)]);
                assert(views[b] == before[back(b)]);
                if back(a) < back(b) {
                    assert(before[back(a)].id@ != before[back(b)].id@);
                } else {
                    assert(before[back(b)].id@ != before[back(a)].id@);
                }
            }
            assert forall|a: int| 0 <= a < views.len() implies (#[trigger] views[a]).wf() by {
                assert(views[a] == before[back(a)]);
                assert(before[back(a)].wf());
            }
            self.lemma_wf_from(*old(self));
        }
    }

    /// Decides where the child at `index` goes when it is attached.
    pub fn decide_position(&self, index: usize) -> (position: ViewPosition)
        requires
            index < self.child_views.len(),
        ensures
            position == child_position(*self, index as int),
    {
        let n = self.child_views.len();
        let child = &self.child_views[index];
        let mut position = ViewPosition::Unset;
        if child.scope.position == ViewPosition::Unset {
            let mut end: usize = index;
            while end > 0 && position == ViewPosition::Unset
                invariant
                    n == self.child_views.len(),
                    end <= index < n,
                    position == ViewPosition::Unset ==> prev_anchor(
                        self.child_views@,
                        index as nat,
                    ) == prev_anchor(self.child_views@, end as nat),
                    position != ViewPosition::Unset ==> prev_anchor(
                        self.child_views@,
                        index as nat,
                    ).is_some() && position == ViewPosition::Prev(
                        prev_anchor(self.child_views@, index as nat).unwrap(),
                    ),
                decreases end,
            {
                end = end - 1;
                let prev_view = &self.child_views[end];
                if prev_view.scope.is_attached() {
                    if let Some(prev_node) = prev_view.last_child_node() {
                        position = ViewPosition::Prev(prev_node);
                    }
                }
            }
            if position == ViewPosition::Unset {
                let mut i: usize = index + 1;
                while i < n && position == ViewPosition::Unset
                    invariant
                        n == self.child_views.len(),
                        index < i <= n,
                        position == ViewPosition::Unset ==> next_anchor(
                            self.child_views@,
                            (index + 1) as nat,
                        ) == next_anchor(self.child_views@, i as nat),
                        position != ViewPosition::Unset ==> next_anchor(
                            self.child_views@,
                            (index + 1) as nat,
                        ).is_some() && position == ViewPosition::Next(
                            next_anchor(self.child_views@, (index + 1) as nat).unwrap(),
                        ),
                    decreases n - i,
                {
                    let next_view = &self.child_views[i];
                    if next_view.scope.is_attached() {
                        if let Some(next_node) = next_view.first_child_node() {
                            position = ViewPosition::Next(next_node);
                        }
                    }
                    i = i + 1;
                }
            }
        }
        if position == ViewPosition::Unset {
            if self.parent_node == child.scope.parent_node {
                position = self.position;
            } else {
                position = ViewPosition::Tail;
            }
        }
        position
    }

    /// Shows the child `view_id` and attaches it unless it is attached. The
    /// child gets its position, and this scope's target element as its parent
    /// element and, where it has none, as its own target; its hooks run inside
    /// a batch of its holder. A `view_id` that names no child changes nothing.
    #[verifier::rlimit(80)]
    pub fn attach_child<T>(&mut self, view_id: &ViewId, rt: &mut Runtime<T>) where W: Widget<T>
        requires
            old(self).wf(),
            old(rt).wf(),
        ensures
            kept(*old(self), *final(self)),
            steady(*old(rt), *final(rt)),
            ids_of(final(self).child_views@) == ids_of(old(self).child_views@),
            *final(self) == (Scope {
                child_views: final(self).child_views,
                show_list: final(self).show_list,
                ..*old(self)
            }),
            child_shown(*old(self), *old(rt), view_id@, *final(self), *final(rt)),
            !ids_of(old(self).child_views@).contains(view_id@) ==> *final(self) == *old(self)
                && *final(rt) == *old(rt),
            ids_of(old(self).child_views@).contains(view_id@) ==> {
                let i = ids_of(old(self).child_views@).index_of(view_id@);
                &&& keys_of(final(self).show_list@) == with_key(
                    keys_of(old(self).show_list@),
                    view_id@,
                )
                &&& forall|j: int|
                    0 <= j < old(self).child_views.len() && j != i ==> final(self).child_views[j]
                        == old(self).child_views[j]
                &&& final(self).child_views[i].scope.is_attached
                &&& old(self).child_views[i].scope.is_attached ==> final(self).child_views[i]
                    == old(self).child_views[i] && *final(rt) == *old(rt)
                &&& !old(self).child_views[i].scope.is_attached
                    ==> final(self).child_views[i].scope.is_built
                    && final(self).child_views[i].scope.position
                    == ViewPosition::Unset
                &&& child_attached(
                    *old(self),
                    i,
                    *old(rt),
                    final(self).child_views[i],
                    *final(rt),
                )
            },
    {
        proof {
            old(self).lemma_wf_parts();
        }
        let index = match self.index_of(view_id) {
            Some(index) => index,
            None => {
                return;
            },
        };
        proof {
            lemma_ids_place(self.child_views@, index as int);
        }
        list_insert(&mut self.show_list, view_id);
        if self.child_views[index].is_attached() {
            proof {
                self.lemma_wf_from(*old(self));
            }
            return;
        }
        let position = self.decide_position(index);
        let graff_node = self.graff_node;
        let ghost r0 = *rt;
        let ghost before = self.child_views@;
        if position != ViewPosition::Unset {
            self.child_views[index].scope.position = position;
        }
        self.child_views[index].scope.parent_node = graff_node;
        if self.child_views[index].scope.graff_node.is_none() {
            self.child_views[index].scope.graff_node = graff_node;
        }
        proof {
            assert(before[index as int].wf());
            before[index as int].scope.lemma_wf_parts();
            self.child_views[index as int].scope.lemma_wf_from(before[index as int].scope);
        }
        let holder_id = view_id.holder_id();
        let entered = enter_batch(rt, holder_id);
        let ghost r1 = *rt;
        let ghost ready = self.child_views[index as int];
        self.child_views[index].attach(rt);
        let ghost r2 = *rt;
        let ghost va = self.child_views[index as int];
        leave_batch(rt, holder_id, entered);
        let ghost attached = self.child_views[index as int].scope;
        self.child_views[index].scope.position = ViewPosition::Unset;
        proof {
            attached.lemma_wf_parts();
            self.child_views[index as int].scope.lemma_wf_from(attached);
            assert(rt@.holders =~= r2@.with_holder(
                holder_id@,
                crate::reflow::HolderView {
                    batching: r0@.holder(holder_id@).batching,
                    ..r2@.holder(holder_id@)
                },
            ).holders);
            lemma_steady_batch(r0, r1, r2, *rt, holder_id@);
            assert(self.child_views@ =~= before.update(index as int, self.child_views[index as int]));
            lemma_views_wf_update(before, index as int, self.child_views[index as int]);
            self.lemma_wf_from(*old(self));
            assert(view_attached(ready, r1, va, r2));
            assert(position == child_position(*old(self), index as int));
            assert(ready == readied(*old(self), index as int));
            assert(self.child_views[index as int] == (View {
                scope: Scope { position: ViewPosition::Unset, ..va.scope },
                ..va
            }));
            assert(child_attached(
                *old(self),
                index as int,
                *old(rt),
                self.child_views[index as int],
                *rt,
            ));
        }
    }

    /// Takes the child `view_id` off the show list and, where it is attached,
    /// out of the children: its `detach` hook runs inside a batch of this
    /// scope's holder, and the view is handed back as the hook left it, a
    /// subscriber of no node. The last child takes the place that it leaves.
    pub fn detach_child<T>(&mut self, view_id: &ViewId, rt: &mut Runtime<T>) -> (gone: Option<
        View<W>,
    >) where W: Widget<T>
        requires
            old(self).wf(),
            old(rt).wf(),
        ensures
            kept(*old(self), *final(self)),
            steady(*old(rt), *final(rt)),
            keys_of(final(self).show_list@) == without_key(keys_of(old(self).show_list@), view_id@),
            *final(self) == (Scope {
                child_views: final(self).child_views,
                show_list: final(self).show_list,
                ..*old(self)
            }),
            child_hidden(*old(self), *old(rt), view_id@, *final(self), *final(rt)),
            match gone {
                Some(view) => {
                    let i = ids_of(old(self).child_views@).index_of(view_id@);
                    &&& ids_of(old(self).child_views@).contains(view_id@)
                    &&& old(self).child_views[i].scope.is_attached
                    &&& view.wf()
                    &&& view.id@ == view_id@
                    &&& !view.scope.is_attached
                    &&& unsubscribed(final(rt)@, view_id@)
                    &&& exists|ra: Runtime<T>, rb: Runtime<T>|
                        ra.wf() && ra@ == batch_opened(old(rt)@, old(self).holder_id@)
                            && #[trigger] view_detached(old(self).child_views[i], ra, view, rb)
                            && final(rt)@ == batch_closed(
                            rb@,
                            old(self).holder_id@,
                            old(rt)@.holder(old(self).holder_id@).batching,
                        )
                    &&& final(self).child_views@ == old(self).child_views@.update(
                        i,
                        old(self).child_views@.last(),
                    ).drop_last()
                },
                None => {
                    &&& final(self).child_views@ == old(self).child_views@
                    &&& *final(rt) == *old(rt)
                    &&& ids_of(old(self).child_views@).contains(view_id@)
                        ==> !old(self).child_views[ids_of(old(self).child_views@).index_of(view_id@)].scope.is_attached
                },
            },
    {
        proof {
            old(self).lemma_wf_parts();
        }
        list_remove(&mut self.show_list, view_id);
        proof {
            self.lemma_wf_from(*old(self));
        }
        let index = match self.index_of(view_id) {
            Some(index) => index,
            None => {
                return None;
            },
        };
        proof {
            lemma_ids_place(self.child_views@, index as int);
        }
        if !self.child_views[index].scope.is_attached() {
            return None;
        }
        let ghost before = self.child_views@;
        let mut view = self.child_views.swap_remove(index);
        proof {
            assert(before[index as int].wf());
            let views = self.child_views@;
            assert forall|a: int, b: int| 0 <= a < b < views.len() implies (#[trigger] views[a]).id@
                != (#[trigger] views[b]).id@ by {
                let sa = if a == index { before.len() - 1 } else { a };
                let sb = if b == index { before.len() - 1 } else { b };
                assert(views[a] == before[sa]);
                assert(views[b] == before[sb]);
                if sa < sb {
                    assert(before[sa].id@ != before[sb].id@);
                } else {
                    assert(before[sb].id@ != before[sa].id@);
                }
            }
            assert forall|a: int| 0 <= a < views.len() implies (#[trigger] views[a]).wf() by {
                let sa = if a == index { before.len() - 1 } else { a };
                assert(views[a] == before[sa]);
                assert(before[sa].wf());
            }
            self.lemma_wf_from(*old(self));
        }
        let ghost r0 = *rt;
        let holder_id = self.holder_id;
        let entered = enter_batch(rt, holder_id);
        let ghost r1 = *rt;
        let ghost child = view;
        view.detach(rt);
        let ghost r2 = *rt;
        leave_batch(rt, holder_id, entered);
        proof {
            assert(rt@.holders =~= r2@.with_holder(
                holder_id@,
                crate::reflow::HolderView {
                    batching: r0@.holder(holder_id@).batching,
                    ..r2@.holder(holder_id@)
                },
            ).holders);
            lemma_steady_batch(r0, r1, r2, *rt, holder_id@);
            assert(view_detached(child, r1, view, r2));
            assert(child == old(self).child_views[index as int]);
            assert(rt@.nodes == r2@.nodes);
            assert(unsubscribed(rt@, view_id@)) by {
                assert forall|n: u64| rt@.has_node(n) implies !crate::reflow::bindings::has_view(
                    #[trigger] rt@.node(n).bindings,
                    view_id@,
                ) by {
                    assert(rt@.node(n) == r2@.node(n));
                }
            }
        }
        Some(view)
    }
}

/// The views `post` are as many as `pre`, and each is attached, built and a
/// root exactly where the one in its place was.
pub open spec fn same_flags<W>(pre: Seq<View<W>>, post: Seq<View<W>>) -> bool {
    &&& post.len() == pre.len()
    &&& forall|i: int|
        0 <= i < pre.len() ==> (#[trigger] post[i]).scope.is_attached == pre[i].scope.is_attached
            && post[i].scope.is_built == pre[i].scope.is_built && post[i].scope.is_root
            == pre[i].scope.is_root
}

impl<W> View<W> {
    /// Runs the widget's `patch` hook: the widget, the scope and the runtime
    /// are left as the hook leaves them.
    pub fn patch<T>(&mut self, rt: &mut Runtime<T>) where W: Widget<T>
        requires
            old(self).wf(),
            old(rt).wf(),
        ensures
            final(self).wf(),
            final(self).id == old(self).id,
            final(self).scope.is_attached == old(self).scope.is_attached,
            final(self).scope.is_built == old(self).scope.is_built,
            final(self).scope.is_root == old(self).scope.is_root,
            steady(*old(rt), *final(rt)),
            view_patched(*old(self), *old(rt), *final(self), *final(rt)),
    {
        self.widget.patch(&mut self.scope, rt);
    }
}

/// `views` with `v` put in and then moved to position `to`, where one is given.
pub open spec fn put<W>(views: Seq<View<W>>, v: View<W>, to: Option<int>) -> Seq<View<W>> {
    let with = with_child(views, v);
    match to {
        Some(t) => moved(with, ids_of(with).index_of(v.id@), t),
        None => with,
    }
}

impl<W> Scope<W> {
    /// Puts `new_view` among the children, in the place of the child that has
    /// its identifier or else at the end; moves it to position `to` where one
    /// is given; then shows and attaches it.
    pub fn put_child<T>(&mut self, new_view: View<W>, to: Option<usize>, rt: &mut Runtime<T>) where
        W: Widget<T>,

        requires
            old(self).wf(),
            new_view.wf(),
            old(rt).wf(),
            match to {
                Some(t) => t < with_child(old(self).child_views@, new_view).len(),
                None => true,
            },
        ensures
            kept(*old(self), *final(self)),
            steady(*old(rt), *final(rt)),
            *final(self) == (Scope {
                child_views: final(self).child_views,
                show_list: final(self).show_list,
                ..*old(self)
            }),
            keys_of(final(self).show_list@) == with_key(keys_of(old(self).show_list@), new_view.id@),
            ids_of(final(self).child_views@) == ids_of(
                put(
                    old(self).child_views@,
                    new_view,
                    match to {
                        Some(t) => Some(t as int),
                        None => None,
                    },
                ),
            ),
            forall|j: int|
                0 <= j < final(self).child_views.len()
                    ==> if (#[trigger] final(self).child_views[j]).id@ == new_view.id@ {
                    final(self).child_views[j].scope.is_attached
                } else {
                    final(self).child_views[j] == put(
                        old(self).child_views@,
                        new_view,
                        match to {
                            Some(t) => Some(t as int),
                            None => None,
                        },
                    )[j]
                },
    {
        let new_view_id = new_view.id.clone();
        let placed = self.insert_child(new_view);
        let last_index = placed.0;
        proof {
            self.lemma_wf_parts();
            lemma_ids_place(self.child_views@, last_index as int);
        }
        match to {
            Some(t) => {
                if last_index != t {
                    self.move_child(last_index, t);
                } else {
                    assert(self.child_views@ =~= moved(self.child_views@, last_index as int, t as int));
                }
            },
            None => {},
        }
        let ghost mid = *self;
        proof {
            mid.lemma_wf_parts();
            let at = match to {
                Some(t) => t as int,
                None => last_index as int,
            };
            assert(mid.child_views[at].id@ == new_view.id@);
            lemma_ids_place(mid.child_views@, at);
        }
        self.attach_child(&new_view_id, rt);
        proof {
            let at = ids_of(mid.child_views@).index_of(new_view.id@);
            assert forall|j: int| 0 <= j < self.child_views.len() implies if (
            #[trigger] self.child_views[j]).id@ == new_view.id@ {
                self.child_views[j].scope.is_attached
            } else {
                self.child_views[j] == mid.child_views@[j]
            } by {
                assert(ids_of(self.child_views@)[j] == ids_of(mid.child_views@)[j]);
                if j != at {
                    lemma_ids_place(mid.child_views@, j);
                }
            }
        }
    }
}

impl<W> View<W> {
    /// Makes `new_view` the first child and attaches it.
    pub fn prepend_view<T>(&mut self, new_view: View<W>, rt: &mut Runtime<T>) where W: Widget<T>
        requires
            old(self).wf(),
            new_view.wf(),
            old(rt).wf(),
        ensures
            final(self).wf(),
            final(self).id@ == old(self).id@,
            steady(*old(rt), *final(rt)),
            ids_of(final(self).scope.child_views@) == ids_of(
                put(old(self).scope.child_views@, new_view, Some(0int)),
            ),
            final(self).scope.child_views.len() > 0,
            final(self).scope.child_views[0].id@ == new_view.id@,
            final(self).scope.child_views[0].scope.is_attached,
    {
        proof {
            old(self).scope.lemma_wf_parts();
            lemma_with_child(old(self).scope.child_views@, new_view);
        }
        self.scope.put_child(new_view, Some(0), rt);
        proof {
            let with = with_child(old(self).scope.child_views@, new_view);
            let placed = put(old(self).scope.child_views@, new_view, Some(0int));
            let at = ids_of(with).index_of(new_view.id@);
            assert(0 <= at < with.len());
            assert(placed.len() == with.len());
            assert(placed[0] == with[at]);
            assert(ids_of(placed).len() == placed.len());
            assert(ids_of(self.scope.child_views@).len() == self.scope.child_views@.len());
            assert(ids_of(self.scope.child_views@)[0] == ids_of(placed)[0]);
        }
    }

    /// Makes `new_view` a child, the last one unless a child with its
    /// identifier was there, and attaches it.
    pub fn append_view<T>(&mut self, new_view: View<W>, rt: &mut Runtime<T>) where W: Widget<T>
        requires
            old(self).wf(),
            new_view.wf(),
            old(rt).wf(),
        ensures
            final(self).wf(),
            final(self).id@ == old(self).id@,
            steady(*old(rt), *final(rt)),
            ids_of(final(self).scope.child_views@) == ids_of(
                with_child(old(self).scope.child_views@, new_view),
            ),
            forall|j: int|
                0 <= j < final(self).scope.child_views.len()
                    && (#[trigger] final(self).scope.child_views[j]).id@ == new_view.id@
                    ==> final(self).scope.child_views[j].scope.is_attached,
    {
        self.scope.put_child(new_view, None, rt);
    }

    /// Makes `new_view` the child just before the child `view_id` and attaches
    /// it. Where `view_id` names no child nothing changes and the answer is
    /// `false`.
    pub fn before_view<T>(&mut self, view_id: &ViewId, new_view: View<W>, rt: &mut Runtime<T>) -> (done:
        bool) where W: Widget<T>
        requires
            old(self).wf(),
            new_view.wf(),
            old(rt).wf(),
        ensures
            final(self).wf(),
            final(self).id@ == old(self).id@,
            steady(*old(rt), *final(rt)),
            done == ids_of(old(self).scope.child_views@).contains(view_id@),
            !done ==> *final(self) == *old(self) && *final(rt) == *old(rt),
            done ==> ids_of(final(self).scope.child_views@) == ids_of(
                put(
                    old(self).scope.child_views@,
                    new_view,
                    Some(ids_of(old(self).scope.child_views@).index_of(view_id@)),
                ),
            ),
    {
        let index = match self.scope.index_of(view_id) {
            Some(index) => index,
            None => {
                return false;
            },
        };
        proof {
            old(self).scope.lemma_wf_parts();
            lemma_ids_place(self.scope.child_views@, index as int);
            lemma_with_child(self.scope.child_views@, new_view);
        }
        self.scope.put_child(new_view, Some(index), rt);
        true
    }

    /// Makes `new_view` the child just behind the child `view_id` and attaches
    /// it. Where `view_id` names no child nothing changes and the answer is
    /// `false`. A view that takes the place of a child cannot go behind the
    /// last child: there is no place behind it.
    pub fn after_view<T>(&mut self, view_id: &ViewId, new_view: View<W>, rt: &mut Runtime<T>) -> (done:
        bool) where W: Widget<T>
        requires
            old(self).wf(),
            new_view.wf(),
            old(rt).wf(),
            ids_of(old(self).scope.child_views@).contains(new_view.id@) ==> ids_of(
                old(self).scope.child_views@,
            ).last() != view_id@,
        ensures
            final(self).wf(),
            final(self).id@ == old(self).id@,
            steady(*old(rt), *final(rt)),
            done == ids_of(old(self).scope.child_views@).contains(view_id@),
            !done ==> *final(self) == *old(self) && *final(rt) == *old(rt),
            done ==> ids_of(final(self).scope.child_views@) == ids_of(
                put(
                    old(self).scope.child_views@,
                    new_view,
                    Some(ids_of(old(self).scope.child_views@).index_of(view_id@) + 1),
                ),
            ),
    {
        let index = match self.scope.index_of(view_id) {
            Some(index) => index,
            None => {
                return false;
            },
        };
        proof {
            old(self).scope.lemma_wf_parts();
            lemma_ids_place(self.scope.child_views@, index as int);
            lemma_with_child(self.scope.child_views@, new_view);
            let ids = ids_of(self.scope.child_views@);
            if ids.contains(new_view.id@) {
                assert(ids.last() == ids[ids.len() - 1]);
            }
        }
        self.scope.put_child(new_view, Some(index + 1), rt);
        true
    }
}

/// Putting a view among children that are in order gives children as many as
/// before, or one more where the view's identifier is new; the view stands
/// where its identifier stands.
pub proof fn lemma_with_child<W>(views: Seq<View<W>>, v: View<W>)
    requires
        views_wf(views),
        v.wf(),
    ensures
        views_wf(with_child(views, v)),
        ids_of(views).contains(v.id@) ==> with_child(views, v).len() == views.len(),
        !ids_of(views).contains(v.id@) ==> with_child(views, v).len() == views.len() + 1,
        ids_of(with_child(views, v)).contains(v.id@),
        with_child(views, v)[ids_of(with_child(views, v)).index_of(v.id@)] == v,
{
    let out = with_child(views, v);
    let ids = ids_of(views);
    if ids.contains(v.id@) {
        let i = ids.index_of(v.id@);
        assert(views[i].id@ == v.id@);
        lemma_views_wf_update(views, i, v);
        lemma_ids_place(out, i);
    } else {
        assert forall|a: int, b: int| 0 <= a < b < out.len() implies (#[trigger] out[a]).id@ != (
        #[trigger] out[b]).id@ by {
            if b < views.len() {
                assert(views[a].id@ != views[b].id@);
            } else {
                assert(ids[a] == views[a].id@);
            }
        }
        assert forall|a: int| 0 <= a < out.len() implies (#[trigger] out[a]).wf() by {
            if a < views.len() {
                assert(views[a].wf());
            }
        }
        lemma_ids_place(out, views.len() as int);
    }
}

impl<W> View<W> {
    /// The child with identifier `view_id`, to be changed in place. Whatever
    /// is done to it, the other children and the rest of the view stay.
    pub fn child_mut(&mut self, view_id: &ViewId) -> (found: Option<&mut View<W>>)
        requires
            old(self).wf(),
        ensures
            match found {
                Some(v) => {
                    let i = ids_of(old(self).scope.child_views@).index_of(view_id@);
                    &&& ids_of(old(self).scope.child_views@).contains(view_id@)
                    &&& *v == old(self).scope.child_views[i]
                    &&& final(self).scope.child_views@ == old(self).scope.child_views@.update(
                        i,
                        *final(v),
                    )
                    &&& *final(self) == (View {
                        scope: Scope {
                            child_views: final(self).scope.child_views,
                            ..old(self).scope
                        },
                        ..*old(self)
                    })
                },
                None => !ids_of(old(self).scope.child_views@).contains(view_id@) && *final(self)
                    == *old(self),
            },
    {
        match self.scope.index_of(view_id) {
            Some(i) => {
                proof {
                    self.scope.lemma_wf_parts();
                    lemma_ids_place(self.scope.child_views@, i as int);
                }
                Some(&mut self.scope.child_views[i])
            },
            None => None,
        }
    }
}

} // verus!
