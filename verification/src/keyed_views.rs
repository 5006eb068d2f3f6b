//! The views made for the items of a list, each under the key of its item,
//! kept in an `indexmap::IndexMap` in the order in which the keys came.

use crate::view::{ViewId, ViewKey};
use indexmap::IndexMap;
use std::hash::RandomState;
use vstd::prelude::*;

verus! {

#[verifier::external_type_specification]
#[verifier::external_body]
#[verifier::reject_recursive_types(K)]
#[verifier::reject_recursive_types(V)]
#[verifier::reject_recursive_types(S)]
pub struct ExIndexMap<K, V, S>(IndexMap<K, V, S>);

/// The entries of an `IndexMap` from numbers to view identifiers, in the order
/// in which the map walks them.
pub uninterp spec fn map_items(m: IndexMap<u64, ViewId, RandomState>) -> Seq<(u64, ViewKey)>;

/// `IndexMap::new`: the new map holds nothing.
#[verifier::external_body]
fn map_new() -> (m: IndexMap<u64, ViewId, RandomState>)
    ensures
        map_items(m) == Seq::<(u64, ViewKey)>::empty(),
{
    IndexMap::new()
}

/// `IndexMap::len`: the number of entries.
#[verifier::external_body]
fn map_len(m: &IndexMap<u64, ViewId, RandomState>) -> (n: usize)
    ensures
        n == map_items(*m).len(),
{
    m.len()
}

/// `IndexMap::insert`: under a key that is held, the new value takes the place
/// of the old one, which is handed back, and the entry stays where it is; a new
/// key goes to the end with its value.
#[verifier::external_body]
fn map_insert(m: &mut IndexMap<u64, ViewId, RandomState>, key: u64, value: ViewId) -> (before:
    Option<ViewId>)
    ensures
        match before {
            Some(b) => exists|i: int|
                0 <= i < map_items(*old(m)).len() && #[trigger] map_items(*old(m))[i] == (key, b@)
                    && map_items(*final(m)) == map_items(*old(m)).update(i, (key, value@)),
            None => (forall|i: int|
                0 <= i < map_items(*old(m)).len() ==> (#[trigger] map_items(*old(m))[i]).0 != key)
                && map_items(*final(m)) == map_items(*old(m)).push((key, value@)),
        },
{
    m.insert(key, value)
}

/// `IndexMap::swap_remove`: the entry under the key leaves and its value is
/// handed back; the last entry takes its place. A key that is not held changes
/// nothing.
#[verifier::external_body]
fn map_swap_remove(m: &mut IndexMap<u64, ViewId, RandomState>, key: u64) -> (gone: Option<ViewId>)
    ensures
        match gone {
            Some(g) => exists|i: int|
                0 <= i < map_items(*old(m)).len() && #[trigger] map_items(*old(m))[i] == (key, g@)
                    && map_items(*final(m)) == map_items(*old(m)).update(
                    i,
                    map_items(*old(m)).last(),
                ).drop_last(),
            None => (forall|i: int|
                0 <= i < map_items(*old(m)).len() ==> (#[trigger] map_items(*old(m))[i]).0 != key)
                && map_items(*final(m)) == map_items(*old(m)),
        },
{
    m.swap_remove(&key)
}

/// `IndexMap::get_index`: the entry at a position below the length, `None`
/// from the length on.
#[verifier::external_body]
fn map_get_index(m: &IndexMap<u64, ViewId, RandomState>, i: usize) -> (r: Option<(u64, ViewId)>)
    ensures
        match r {
            Some(e) => i < map_items(*m).len() && (e.0, e.1@) == map_items(*m)[i as int],
            None => i >= map_items(*m).len(),
        },
{
    m.get_index(i).map(|(k, v)| (*k, v.clone()))
}

/// Whether `items` holds an entry under `key`.
pub open spec fn has_key(items: Seq<(u64, ViewKey)>, key: u64) -> bool {
    exists|i: int| 0 <= i < items.len() && (#[trigger] items[i]).0 == key
}

/// Where the entry under `key` stands in `items`.
pub open spec fn key_place(items: Seq<(u64, ViewKey)>, key: u64) -> int {
    choose|i: int| 0 <= i < items.len() && (#[trigger] items[i]).0 == key
}

/// No key occurs twice.
pub open spec fn keys_distinct(items: Seq<(u64, ViewKey)>) -> bool {
    forall|i: int, j: int| 0 <= i < j < items.len() ==> (#[trigger] items[i]).0 != (#[trigger] items[j]).0
}

/// `items` with `value` under `key`: in the place of the entry under `key`, or
/// at the end.
pub open spec fn with_entry(items: Seq<(u64, ViewKey)>, key: u64, value: ViewKey) -> Seq<
    (u64, ViewKey),
> {
    if has_key(items, key) {
        items.update(key_place(items, key), (key, value))
    } else {
        items.push((key, value))
    }
}

/// `items` without the entry under `key`: the last entry takes its place.
pub open spec fn without_entry(items: Seq<(u64, ViewKey)>, key: u64) -> Seq<(u64, ViewKey)> {
    if has_key(items, key) {
        items.update(key_place(items, key), items.last()).drop_last()
    } else {
        items
    }
}

/// The views of `items`, in order.
pub open spec fn values_of(items: Seq<(u64, ViewKey)>) -> Seq<ViewKey> {
    Seq::new(items.len(), |i: int| items[i].1)
}

/// Among distinct keys the place of a key is the only place that holds it.
pub proof fn lemma_key_place(items: Seq<(u64, ViewKey)>, key: u64, i: int)
    requires
        keys_distinct(items),
        0 <= i < items.len(),
        items[i].0 == key,
    ensures
        has_key(items, key),
        key_place(items, key) == i,
{
    let j = key_place(items, key);
    if j < i {
        assert(items[j].0 != items[i].0);
    } else if i < j {
        assert(items[i].0 != items[j].0);
    }
}

/// Views under the keys of the items of a list, in the order in which the keys
/// came.
pub struct KeyedViews {
    inner: IndexMap<u64, ViewId, RandomState>,
}

impl View for KeyedViews {
    type V = Seq<(u64, ViewKey)>;

    closed spec fn view(&self) -> Seq<(u64, ViewKey)> {
        map_items(self.inner)
    }
}

impl KeyedViews {
    /// No key occurs twice.
    pub open spec fn wf(&self) -> bool {
        keys_distinct(self@)
    }

    pub fn new() -> (m: KeyedViews)
        ensures
            m.wf(),
            m@ == Seq::<(u64, ViewKey)>::empty(),
    {
        KeyedViews { inner: map_new() }
    }

    pub fn len(&self) -> (n: usize)
        ensures
            n == self@.len(),
    {
        map_len(&self.inner)
    }

    pub fn is_empty(&self) -> (b: bool)
        ensures
            b == (self@.len() == 0),
    {
        map_len(&self.inner) == 0
    }

    /// Puts `value` under `key` and hands back the view that was there.
    pub fn insert(&mut self, key: u64, value: ViewId) -> (before: Option<ViewId>)
        requires
            old(self).wf(),
        ensures
            final(self).wf(),
            final(self)@ == with_entry(old(self)@, key, value@),
            match before {
                Some(b) => has_key(old(self)@, key) && b@ == old(self)@[key_place(
                    old(self)@,
                    key,
                )].1,
                None => !has_key(old(self)@, key),
            },
    {
        let before = map_insert(&mut self.inner, key, value);
        proof {
            let items = old(self)@;
            let out = self@;
            match &before {
                Some(b) => {
                    let i = choose|i: int|
                        0 <= i < items.len() && #[trigger] items[i] == (key, b@) && out
                            == items.update(i, (key, value@));
                    lemma_key_place(items, key, i);
                    assert forall|a: int, c: int| 0 <= a < c < out.len() implies (
                    #[trigger] out[a]).0 != (#[trigger] out[c]).0 by {
                        assert(items[a].0 != items[c].0);
                    }
                },
                None => {
                    assert forall|a: int, c: int| 0 <= a < c < out.len() implies (
                    #[trigger] out[a]).0 != (#[trigger] out[c]).0 by {
                        if c < items.len() {
                            assert(items[a].0 != items[c].0);
                        }
                    }
                },
            }
        }
        before
    }

    /// Takes the entry under `key` out and hands back its view.
    pub fn swap_remove(&mut self, key: u64) -> (gone: Option<ViewId>)
        requires
            old(self).wf(),
        ensures
            final(self).wf(),
            final(self)@ == without_entry(old(self)@, key),
            match gone {
                Some(g) => has_key(old(self)@, key) && g@ == old(self)@[key_place(old(self)@, key)].1,
                None => !has_key(old(self)@, key),
            },
    {
        let gone = map_swap_remove(&mut self.inner, key);
        proof {
            let items = old(self)@;
            let out = self@;
            match &gone {
                Some(g) => {
                    let i = choose|i: int|
                        0 <= i < items.len() && #[trigger] items[i] == (key, g@) && out
                            == items.update(i, items.last()).drop_last();
                    lemma_key_place(items, key, i);
                    assert forall|a: int, c: int| 0 <= a < c < out.len() implies (
                    #[trigger] out[a]).0 != (#[trigger] out[c]).0 by {
                        let sa = if a == i { items.len() - 1 } else { a };
                        let sc = if c == i { items.len() - 1 } else { c };
                        assert(out[a] == items[sa]);
                        assert(out[c] == items[sc]);
                        if sa < sc {
                            assert(items[sa].0 != items[sc].0);
                        } else {
                            assert(items[sc].0 != items[sa].0);
                        }
                    }
                },
                None => {},
            }
        }
        gone
    }

    /// The entry at position `i`.
    pub fn get_index(&self, i: usize) -> (r: Option<(u64, ViewId)>)
        ensures
            match r {
                Some(e) => i < self@.len() && (e.0, e.1@) == self@[i as int],
                None => i >= self@.len(),
            },
    {
        map_get_index(&self.inner, i)
    }
}

} // verus!
