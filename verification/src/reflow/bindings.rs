//! The views subscribed to one node, each with the number of times it is bound.

use crate::holder::HolderId;
use crate::view::{ViewId, ViewKey};
use vstd::prelude::*;

verus! {

/// One subscriber: a view and how many times it has bound the node.
pub struct BindingView {
    pub view: ViewKey,
    pub count: nat,
}

/// Whether `k` is among the subscribers `s`.
pub open spec fn has_view(s: Seq<BindingView>, k: ViewKey) -> bool {
    exists|i: int| 0 <= i < s.len() && (#[trigger] s[i]).view == k
}

/// The place of `k` among the subscribers `s`, where it is one of them.
pub open spec fn index_of_view(s: Seq<BindingView>, k: ViewKey) -> int {
    choose|i: int| 0 <= i < s.len() && (#[trigger] s[i]).view == k
}

/// How many times `k` is bound in `s`: 0 where it is no subscriber.
pub open spec fn count_of(s: Seq<BindingView>, k: ViewKey) -> nat {
    if has_view(s, k) {
        s[index_of_view(s, k)].count
    } else {
        0
    }
}

/// No view is listed twice.
pub open spec fn distinct(s: Seq<BindingView>) -> bool {
    forall|i: int, j: int| 0 <= i < j < s.len() ==> (#[trigger] s[i]).view != (#[trigger] s[j]).view
}

/// The views of `s`, in order.
pub open spec fn views_of(s: Seq<BindingView>) -> Seq<ViewKey> {
    Seq::new(s.len(), |i: int| s[i].view)
}

/// `s` with `k` as a subscriber: unchanged where it already is one, else with
/// `k` added at the end, bound once.
pub open spec fn with_view(s: Seq<BindingView>, k: ViewKey) -> Seq<BindingView> {
    if has_view(s, k) {
        s
    } else {
        s.push(BindingView { view: k, count: 1 })
    }
}

/// `s` after one more binding of `k`: its count grows by one where it is a
/// subscriber, else it is added at the end, bound once.
pub open spec fn with_binding(s: Seq<BindingView>, k: ViewKey) -> Seq<BindingView> {
    if has_view(s, k) {
        let i = index_of_view(s, k);
        s.update(i, BindingView { view: k, count: s[i].count + 1 })
    } else {
        s.push(BindingView { view: k, count: 1 })
    }
}

/// `s` without `k`: the last subscriber takes the place that `k` leaves.
pub open spec fn without_view(s: Seq<BindingView>, k: ViewKey) -> Seq<BindingView> {
    if has_view(s, k) {
        s.update(index_of_view(s, k), s.last()).drop_last()
    } else {
        s
    }
}

/// `s` after `loose` bindings of `k` are given up: `k` leaves where it holds no
/// more than that, else its count shrinks by `loose`.
pub open spec fn loosened(s: Seq<BindingView>, k: ViewKey, loose: nat) -> Seq<BindingView> {
    if !has_view(s, k) {
        s
    } else if loose >= count_of(s, k) {
        without_view(s, k)
    } else {
        let i = index_of_view(s, k);
        s.update(i, BindingView { view: k, count: (s[i].count - loose) as nat })
    }
}

/// In a list without repeats, the place of a view is the only place that holds it.
pub proof fn lemma_index_of_view(s: Seq<BindingView>, k: ViewKey, i: int)
    requires
        distinct(s),
        0 <= i < s.len(),
        s[i].view == k,
    ensures
        has_view(s, k),
        index_of_view(s, k) == i,
{
    let j = index_of_view(s, k);
    if j < i {
        assert(s[j].view != s[i].view);
    } else if i < j {
        assert(s[i].view != s[j].view);
    }
}

/// Taking a view out keeps the list free of repeats, and the view is gone.
pub proof fn lemma_without_view(s: Seq<BindingView>, k: ViewKey)
    requires
        distinct(s),
    ensures
        distinct(without_view(s, k)),
        !has_view(without_view(s, k), k),
        forall|o: ViewKey| o != k ==> has_view(without_view(s, k), o) == has_view(s, o),
        forall|o: ViewKey| o != k ==> count_of(without_view(s, k), o) == count_of(s, o),
{
    let r = without_view(s, k);
    if has_view(s, k) {
        let i = index_of_view(s, k);
        assert forall|a: int, b: int| 0 <= a < b < r.len() implies (#[trigger] r[a]).view != (
        #[trigger] r[b]).view by {
            let sa = if a == i { s.len() - 1 } else { a };
            let sb = if b == i { s.len() - 1 } else { b };
            assert(r[a] == s[sa]);
            assert(r[b] == s[sb]);
            if sa < sb {
                assert(s[sa].view != s[sb].view);
            } else {
                assert(s[sb].view != s[sa].view);
            }
        }
        if has_view(r, k) {
            let a = index_of_view(r, k);
            let sa = if a == i { s.len() - 1 } else { a };
            assert(r[a] == s[sa]);
            lemma_index_of_view(s, k, sa);
        }
        assert forall|o: ViewKey| o != k implies has_view(r, o) == has_view(s, o) && count_of(r, o)
            == count_of(s, o) by {
            if has_view(s, o) {
                let a = index_of_view(s, o);
                let ra = if a == s.len() - 1 { i } else { a };
                assert(r[ra] == s[a]);
                lemma_index_of_view(r, o, ra);
            }
            if has_view(r, o) {
                let a = index_of_view(r, o);
                let sa = if a == i { s.len() - 1 } else { a };
                assert(r[a] == s[sa]);
                lemma_index_of_view(s, o, sa);
            }
        }
    }
}

/// One subscriber as it is stored.
pub struct Binding {
    view_id: ViewId,
    count: usize,
}

/// The subscribers of one node, in the order in which they first bound it.
pub struct Bindings {
    items: Vec<Binding>,
}

impl View for Bindings {
    type V = Seq<BindingView>;

    closed spec fn view(&self) -> Seq<BindingView> {
        Seq::new(
            self.items.len() as nat,
            |i: int| BindingView { view: self.items[i].view_id@, count: self.items[i].count as nat },
        )
    }
}

impl Bindings {
    /// No view is listed twice, and every listed view is bound at least once.
    pub open spec fn wf(&self) -> bool {
        &&& distinct(self@)
        &&& forall|i: int| 0 <= i < self@.len() ==> 1 <= (#[trigger] self@[i]).count <= usize::MAX
    }

    pub fn new() -> (b: Bindings)
        ensures
            b@ == Seq::<BindingView>::empty(),
            b.wf(),
    {
        let b = Bindings { items: Vec::new() };
        assert(b@ =~= Seq::<BindingView>::empty());
        b
    }

    pub fn len(&self) -> (n: usize)
        ensures
            n == self@.len(),
    {
        self.items.len()
    }

    /// The view at position `i`.
    pub fn view_at(&self, i: usize) -> (id: &ViewId)
        requires
            i < self@.len(),
        ensures
            id@ == self@[i as int].view,
    {
        &self.items[i].view_id
    }

    /// The number of bindings of the view at position `i`.
    pub fn count_at(&self, i: usize) -> (n: usize)
        requires
            i < self@.len(),
        ensures
            n == self@[i as int].count,
    {
        self.items[i].count
    }

    /// The holder of the first subscriber.
    pub fn first_holder(&self) -> (h: Option<HolderId>)
        ensures
            h == if self@.len() > 0 {
                Some(HolderId(self@[0].view.holder))
            } else {
                None
            },
    {
        if self.items.len() > 0 {
            Some(self.items[0].view_id.holder_id())
        } else {
            None
        }
    }

    /// Where `id` stands among the subscribers.
    pub fn position(&self, id: &ViewId) -> (r: Option<usize>)
        ensures
            match r {
                Some(i) => i < self@.len() && self@[i as int].view == id@,
                None => !has_view(self@, id@),
            },
    {
        let mut i: usize = 0;
        while i < self.items.len()
            invariant
                i <= self.items.len(),
                forall|j: int| 0 <= j < i ==> (#[trigger] self@[j]).view != id@,
            decreases self.items.len() - i,
        {
            if self.items[i].view_id == *id {
                return Some(i);
            }
            i = i + 1;
        }
        None
    }

    /// The number of bindings that `id` holds.
    pub fn count(&self, id: &ViewId) -> (n: usize)
        requires
            self.wf(),
        ensures
            n == count_of(self@, id@),
    {
        match self.position(id) {
            Some(i) => {
                proof {
                    lemma_index_of_view(self@, id@, i as int);
                }
                self.items[i].count
            },
            None => 0,
        }
    }

    /// Makes `id` a subscriber if it is none yet; says whether it was added.
    pub fn insert(&mut self, id: &ViewId) -> (fresh: bool)
        requires
            old(self).wf(),
        ensures
            final(self).wf(),
            fresh == !has_view(old(self)@, id@),
            final(self)@ == with_view(old(self)@, id@),
    {
        match self.position(id) {
            Some(_) => false,
            None => {
                self.items.push(Binding { view_id: id.clone(), count: 1 });
                assert(self@ =~= old(self)@.push(BindingView { view: id@, count: 1 }));
                true
            },
        }
    }

    /// Binds `id` once more.
    pub fn bind(&mut self, id: &ViewId)
        requires
            old(self).wf(),
            count_of(old(self)@, id@) < usize::MAX,
        ensures
            final(self).wf(),
            final(self)@ == with_binding(old(self)@, id@),
    {
        match self.position(id) {
            Some(i) => {
                proof {
                    lemma_index_of_view(self@, id@, i as int);
                }
                let count = self.items[i].count;
                self.items[i].count = count + 1;
                assert(self@ =~= old(self)@.update(
                    i as int,
                    BindingView { view: id@, count: (count + 1) as nat },
                ));
            },
            None => {
                self.items.push(Binding { view_id: id.clone(), count: 1 });
                assert(self@ =~= old(self)@.push(BindingView { view: id@, count: 1 }));
            },
        }
    }

    /// Takes `id` out and gives the number of bindings it held, 0 where it was
    /// no subscriber.
    pub fn remove(&mut self, id: &ViewId) -> (n: usize)
        requires
            old(self).wf(),
        ensures
            final(self).wf(),
            n == count_of(old(self)@, id@),
            final(self)@ == without_view(old(self)@, id@),
    {
        match self.position(id) {
            Some(i) => {
                proof {
                    lemma_index_of_view(self@, id@, i as int);
                    lemma_without_view(self@, id@);
                }
                let gone = self.items.swap_remove(i);
                assert(self@ =~= old(self)@.update(i as int, old(self)@.last()).drop_last());
                gone.count
            },
            None => 0,
        }
    }

    /// Gives up `loose` bindings of `id`; returns how many it really gave up.
    pub fn loosen(&mut self, id: &ViewId, loose: usize) -> (given: usize)
        requires
            old(self).wf(),
        ensures
            final(self).wf(),
            given == if loose >= count_of(old(self)@, id@) {
                count_of(old(self)@, id@)
            } else {
                loose as nat
            },
            final(self)@ == loosened(old(self)@, id@, loose as nat),
    {
        match self.position(id) {
            Some(i) => {
                proof {
                    lemma_index_of_view(self@, id@, i as int);
                    lemma_without_view(self@, id@);
                }
                let count = self.items[i].count;
                if loose >= count {
                    let gone = self.items.swap_remove(i);
                    assert(self@ =~= old(self)@.update(i as int, old(self)@.last()).drop_last());
                    count
                } else {
                    self.items[i].count = count - loose;
                    assert(self@ =~= old(self)@.update(
                        i as int,
                        BindingView { view: id@, count: (count - loose) as nat },
                    ));
                    loose
                }
            },
            None => 0,
        }
    }
}

} // verus!
