//! Insertion-ordered sets of node identifiers, kept in an `indexmap::IndexSet`.

use indexmap::IndexSet;
use std::hash::RandomState;
use vstd::prelude::*;

verus! {

#[verifier::external_type_specification]
#[verifier::external_body]
#[verifier::reject_recursive_types(T)]
#[verifier::reject_recursive_types(S)]
pub struct ExIndexSet<T, S>(IndexSet<T, S>);

/// The items of an `IndexSet<u64>`, in the order in which the set walks them.
pub uninterp spec fn set_items(s: IndexSet<u64, RandomState>) -> Seq<u64>;

/// `IndexSet::new`: the new set holds nothing.
#[verifier::external_body]
fn set_new() -> (s: IndexSet<u64, RandomState>)
    ensures
        set_items(s) == Seq::<u64>::empty(),
{
    IndexSet::new()
}

/// `IndexSet::len`: the number of items held.
#[verifier::external_body]
fn set_len(s: &IndexSet<u64, RandomState>) -> (n: usize)
    ensures
        n == set_items(*s).len(),
{
    s.len()
}

/// `IndexSet::contains`: whether an equal item is held.
#[verifier::external_body]
fn set_contains(s: &IndexSet<u64, RandomState>, v: u64) -> (b: bool)
    ensures
        b == set_items(*s).contains(v),
{
    s.contains(&v)
}

/// `IndexSet::insert`: an item already held leaves the set as it was and gives
/// `false`; a new item goes to the end and gives `true`.
#[verifier::external_body]
fn set_insert(s: &mut IndexSet<u64, RandomState>, v: u64) -> (fresh: bool)
    ensures
        fresh == !set_items(*old(s)).contains(v),
        set_items(*final(s)) == if fresh {
            set_items(*old(s)).push(v)
        } else {
            set_items(*old(s))
        },
{
    s.insert(v)
}

/// `IndexSet::get_index`: the item at a position below the length, `None` from
/// the length on.
#[verifier::external_body]
fn set_get_index(s: &IndexSet<u64, RandomState>, i: usize) -> (r: Option<u64>)
    ensures
        r == if i < set_items(*s).len() {
            Some(set_items(*s)[i as int])
        } else {
            None
        },
{
    s.get_index(i).copied()
}

/// An insertion-ordered set of node identifiers.
pub struct IdSet {
    inner: IndexSet<u64, RandomState>,
}

impl View for IdSet {
    type V = Seq<u64>;

    closed spec fn view(&self) -> Seq<u64> {
        set_items(self.inner)
    }
}

impl IdSet {
    /// No identifier occurs twice.
    pub open spec fn wf(&self) -> bool {
        self@.no_duplicates()
    }

    pub fn new() -> (s: IdSet)
        ensures
            s@ == Seq::<u64>::empty(),
            s.wf(),
    {
        IdSet { inner: set_new() }
    }

    pub fn len(&self) -> (n: usize)
        ensures
            n == self@.len(),
    {
        set_len(&self.inner)
    }

    pub fn is_empty(&self) -> (b: bool)
        ensures
            b == (self@.len() == 0),
    {
        set_len(&self.inner) == 0
    }

    pub fn contains(&self, id: u64) -> (b: bool)
        ensures
            b == self@.contains(id),
    {
        set_contains(&self.inner, id)
    }

    /// Adds `id` at the end unless it is already held; says whether it was added.
    pub fn insert(&mut self, id: u64) -> (fresh: bool)
        requires
            old(self).wf(),
        ensures
            final(self).wf(),
            fresh == !old(self)@.contains(id),
            final(self)@ == if fresh {
                old(self)@.push(id)
            } else {
                old(self)@
            },
    {
        let fresh = set_insert(&mut self.inner, id);
        proof {
            if fresh {
                let before = old(self)@;
                let after = self@;
                assert forall|i: int, j: int|
                    0 <= i < after.len() && 0 <= j < after.len() && i != j implies after[i]
                    != after[j] by {
                    if i < before.len() && j < before.len() {
                    } else if i < before.len() {
                        assert(before.contains(before[i]));
                    } else {
                        assert(before.contains(before[j]));
                    }
                }
            }
        }
        fresh
    }

    /// The identifier at position `i`.
    pub fn get_index(&self, i: usize) -> (r: Option<u64>)
        ensures
            r == if i < self@.len() {
                Some(self@[i as int])
            } else {
                None
            },
    {
        set_get_index(&self.inner, i)
    }
}

} // verus!
