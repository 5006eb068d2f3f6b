//! A bag of values of any type, each kept under a text key.

use std::any::Any;
use vstd::prelude::*;
use vstd::string::*;

verus! {

/// A value of some type that the truck does not know.
#[verifier::external_body]
#[derive(Debug)]
pub struct AnyBox {
    inner: Box<dyn Any>,
}

/// `Box::new`, into a box of `dyn Any`.
#[verifier::external_body]
fn box_up<V: Any>(value: V) -> (boxed: AnyBox) {
    AnyBox { inner: Box::new(value) }
}

/// `<dyn Any>::downcast_ref`: the value within, where it is a `V`.
#[verifier::external_body]
fn downcast_ref<V: Any>(boxed: &AnyBox) -> (value: Option<&V>) {
    boxed.inner.downcast_ref::<V>()
}

/// `<dyn Any>::downcast_mut`: the value within where `<dyn Any>::is` says that
/// it is a `V`, else the box as it is.
#[verifier::external_body]
fn downcast_mut<V: Any>(boxed: &mut AnyBox) -> (value: Result<&mut V, &mut AnyBox>) {
    if boxed.inner.is::<V>() {
        Ok(boxed.inner.downcast_mut::<V>().unwrap())
    } else {
        Err(boxed)
    }
}

/// `Box::<dyn Any>::downcast`: the value within where it is a `V`, else the box
/// as it was.
#[verifier::external_body]
fn downcast<V: Any>(boxed: AnyBox) -> (value: Result<V, AnyBox>) {
    match boxed.inner.downcast::<V>() {
        Ok(v) => Ok(*v),
        Err(inner) => Err(AnyBox { inner }),
    }
}

/// `format!` with `{:?}` on `TypeId::of`: the key under which a value of type
/// `T` is kept when no key is given.
#[verifier::external_body]
fn type_key<T: 'static>() -> (key: String) {
    format!("{:?}", std::any::TypeId::of::<T>())
}

/// `Vec::capacity`: the room that the vector has, which is never less than
/// what it holds.
#[verifier::external_body]
fn vec_capacity(keys: &Vec<String>) -> (n: usize)
    ensures
        n >= keys@.len(),
{
    keys.capacity()
}

/// The keys `keys`, as contracts see them.
pub open spec fn key_texts(keys: Seq<String>) -> Seq<Seq<char>> {
    Seq::new(keys.len(), |i: int| keys[i]@)
}

/// `keys` with `k`: unchanged where it holds `k`, else with `k` at the end.
pub open spec fn with_text(keys: Seq<Seq<char>>, k: Seq<char>) -> Seq<Seq<char>> {
    if keys.contains(k) {
        keys
    } else {
        keys.push(k)
    }
}

/// `keys` without `k`: the last key takes the place that `k` leaves.
pub open spec fn without_text(keys: Seq<Seq<char>>, k: Seq<char>) -> Seq<Seq<char>> {
    if keys.contains(k) {
        keys.update(keys.index_of(k), keys.last()).drop_last()
    } else {
        keys
    }
}

/// `boxes` without the one at `place`, where `found` says that there is one to
/// take: the last takes the place that it leaves.
pub open spec fn without_place(boxes: Seq<AnyBox>, found: bool, place: int) -> Seq<AnyBox> {
    if found {
        boxes.update(place, boxes.last()).drop_last()
    } else {
        boxes
    }
}

/// Values of any type under text keys. Each key holds one value; a value put
/// under a key that is taken replaces the one that was there.
pub struct Truck {
    keys: Vec<String>,
    values: Vec<AnyBox>,
}

impl View for Truck {
    type V = Seq<Seq<char>>;

    /// The keys in use, in the order in which they came.
    closed spec fn view(&self) -> Seq<Seq<char>> {
        key_texts(self.keys@)
    }
}

impl Truck {
    /// Every key has its value.
    pub closed spec fn paired(&self) -> bool {
        self.keys.len() == self.values.len()
    }

    /// The values as they are kept, each at the place of its key.
    pub closed spec fn boxes(&self) -> Seq<AnyBox> {
        self.values@
    }

    /// Every key has its value, and no key occurs twice.
    pub open spec fn wf(&self) -> bool {
        &&& self.paired()
        &&& self@.no_duplicates()
    }

    /// A truck that is in order keeps as many values as keys.
    pub proof fn lemma_paired(&self)
        requires
            self.paired(),
        ensures
            self.boxes().len() == self@.len(),
    {
    }

    /// An empty truck.
    pub fn new() -> (truck: Truck)
        ensures
            truck.wf(),
            truck@.len() == 0,
            truck.boxes().len() == 0,
    {
        Truck { keys: Vec::new(), values: Vec::new() }
    }

    /// The keys and the values as they are kept, a value at the place of its
    /// key.
    pub fn inner(&self) -> (kept: (&Vec<String>, &Vec<AnyBox>))
        ensures
            key_texts(kept.0@) == self@,
            kept.1@ == self.boxes(),
    {
        (&self.keys, &self.values)
    }

    /// An empty truck with room for `capacity` values.
    pub fn with_capacity(capacity: usize) -> (truck: Truck)
        ensures
            truck.wf(),
            truck@.len() == 0,
            truck.boxes().len() == 0,
    {
        Truck { keys: Vec::with_capacity(capacity), values: Vec::with_capacity(capacity) }
    }

    /// The number of values that the truck has room for before it grows: never
    /// less than the number it holds.
    pub fn capacity(&self) -> (n: usize)
        ensures
            n >= self@.len(),
    {
        vec_capacity(&self.keys)
    }

    /// The number of values held.
    pub fn len(&self) -> (n: usize)
        ensures
            n == self@.len(),
    {
        self.keys.len()
    }

    fn position(&self, key: &str) -> (found: Option<usize>)
        ensures
            match found {
                Some(i) => i < self.keys.len() && self.keys[i as int]@ == key@,
                None => !self@.contains(key@),
            },
    {
        let n = self.keys.len();
        let mut i: usize = 0;
        while i < n
            invariant
                n == self.keys.len(),
                i <= n,
                forall|j: int| 0 <= j < i ==> (#[trigger] self.keys[j])@ != key@,
            decreases n - i,
        {
            if str_eq(self.keys[i].as_str(), key) {
                return Some(i);
            }
            i = i + 1;
        }
        proof {
            if self@.contains(key@) {
                let j = choose|j: int| 0 <= j < self@.len() && self@[j] == key@;
                assert(self.keys[j]@ == key@);
            }
        }
        None
    }

    /// Whether a value is kept under `key`.
    pub fn contains_key(&self, key: &str) -> (b: bool)
        ensures
            b == self@.contains(key@),
    {
        match self.position(key) {
            Some(i) => {
                assert(self@[i as int] == key@);
                true
            },
            None => false,
        }
    }

    /// Whether a value of type `T` was put in without a key.
    pub fn contains<T: Any>(&self) -> (b: bool)
        ensures
            b ==> self@.len() > 0,
    {
        let key = type_key::<T>();
        self.contains_key(key.as_str())
    }

    /// The value under `key`, where it is a `V`.
    ///
    /// `Err(None)` where nothing is kept under `key`; `Err(Some(..))` with the
    /// value as it is kept where it is no `V`.
    pub fn get<V: Any>(&self, key: &str) -> (r: Result<&V, Option<&AnyBox>>)
        requires
            self.wf(),
        ensures
            self@.contains(key@) <==> !(r matches Err(None)),
            match r {
                Err(Some(kept)) => *kept == self.boxes()[self@.index_of(key@)],
                _ => true,
            },
    {
        match self.position(key) {
            Some(i) => {
                assert(self@[i as int] == key@);
                assert(self@.index_of(key@) == i);
                let value = &self.values[i];
                match downcast_ref::<V>(value) {
                    Some(v) => Ok(v),
                    None => Err(Some(value)),
                }
            },
            None => Err(None),
        }
    }

    /// The value of type `T` that was put in without a key.
    pub fn obtain<T: Any>(&self) -> (r: Result<&T, Option<&AnyBox>>)
        requires
            self.wf(),
        ensures
            !(r matches Err(None)) ==> self@.len() > 0,
            match r {
                Err(Some(kept)) => self.boxes().contains(*kept),
                _ => true,
            },
    {
        let key = type_key::<T>();
        proof {
            self.lemma_paired();
        }
        self.get(key.as_str())
    }

    /// The value under `key`, where it is a `V`, to be changed in place.
    ///
    /// `Err(None)` where nothing is kept under `key`; `Err(Some(..))` with the
    /// value as it is kept where it is no `V`. The keys stay as they are.
    pub fn get_mut<V: Any>(&mut self, key: &str) -> (r: Result<&mut V, Option<&mut AnyBox>>)
        requires
            old(self).wf(),
        ensures
            old(self)@.contains(key@) <==> !(r matches Err(None)),
            final(self).wf(),
            final(self)@ == old(self)@,
            final(self).boxes().len() == old(self).boxes().len(),
            forall|j: int|
                0 <= j < old(self).boxes().len() && old(self)@[j] != key@
                    ==> #[trigger] final(self).boxes()[j] == old(self).boxes()[j],
    {
        match self.position(key) {
            Some(i) => {
                assert(self@[i as int] == key@);
                match downcast_mut::<V>(&mut self.values[i]) {
                    Ok(v) => Ok(v),
                    Err(boxed) => Err(Some(boxed)),
                }
            },
            None => Err(None),
        }
    }

    /// The value of type `T` that was put in without a key, to be changed in
    /// place.
    pub fn obtain_mut<T: Any>(&mut self) -> (r: Result<&mut T, Option<&mut AnyBox>>)
        requires
            old(self).wf(),
        ensures
            !(r matches Err(None)) ==> old(self)@.len() > 0,
            final(self).wf(),
            final(self)@ == old(self)@,
            final(self).boxes().len() == old(self).boxes().len(),
            r matches Err(None) ==> final(self).boxes() == old(self).boxes(),
    {
        let key = type_key::<T>();
        self.get_mut(key.as_str())
    }

    /// Takes the value under `key` out of the truck and hands it over where it
    /// is a `V`.
    ///
    /// `Err(None)` where nothing is kept under `key`; `Err(Some(..))` with the
    /// value as it was kept where it is no `V`. The key is free afterwards in
    /// either case.
    pub fn remove<V: Any>(&mut self, key: &str) -> (r: Result<V, Option<AnyBox>>)
        requires
            old(self).wf(),
        ensures
            final(self).wf(),
            final(self)@ == without_text(old(self)@, key@),
            !final(self)@.contains(key@),
            old(self)@.contains(key@) <==> !(r matches Err(None)),
            final(self).boxes() == without_place(
                old(self).boxes(),
                old(self)@.contains(key@),
                old(self)@.index_of(key@),
            ),
    {
        match self.take(key) {
            Some(value) => match downcast::<V>(value) {
                Ok(v) => Ok(v),
                Err(boxed) => Err(Some(boxed)),
            },
            None => Err(None),
        }
    }

    /// Takes the value of type `T` that was put in without a key out of the
    /// truck.
    pub fn scrape<T: Any>(&mut self) -> (r: Result<T, Option<AnyBox>>)
        requires
            old(self).wf(),
        ensures
            final(self).wf(),
            !(r matches Err(None)) ==> final(self)@.len() + 1 == old(self)@.len(),
            r matches Err(None) ==> final(self)@ == old(self)@ && final(self).boxes() == old(
                self,
            ).boxes(),
            exists|key: Seq<char>|
                final(self)@ == #[trigger] without_text(old(self)@, key) && (old(self)@.contains(key)
                    <==> !(r matches Err(None))),
    {
        let key = type_key::<T>();
        self.remove(key.as_str())
    }

    /// Frees `key`; says whether a value was kept under it.
    pub fn delete(&mut self, key: &str) -> (b: bool)
        requires
            old(self).wf(),
        ensures
            final(self).wf(),
            final(self)@ == without_text(old(self)@, key@),
            !final(self)@.contains(key@),
            b == old(self)@.contains(key@),
            final(self).boxes() == without_place(
                old(self).boxes(),
                old(self)@.contains(key@),
                old(self)@.index_of(key@),
            ),
    {
        self.take(key).is_some()
    }

    /// Takes the value under `key` out of the truck; the last key takes the
    /// place of `key`.
    fn take(&mut self, key: &str) -> (r: Option<AnyBox>)
        requires
            old(self).wf(),
        ensures
            final(self).wf(),
            final(self)@ == without_text(old(self)@, key@),
            !final(self)@.contains(key@),
            r.is_some() == old(self)@.contains(key@),
            final(self).boxes() == without_place(
                old(self).boxes(),
                old(self)@.contains(key@),
                old(self)@.index_of(key@),
            ),
            match r {
                Some(kept) => kept == old(self).boxes()[old(self)@.index_of(key@)],
                None => true,
            },
    {
        match self.position(key) {
            Some(i) => {
                let ghost before = old(self)@;
                assert(before[i as int] == key@);
                let _ = self.keys.swap_remove(i);
                let value = self.values.swap_remove(i);
                proof {
                    let after = self@;
                    assert(before.index_of(key@) == i);
                    assert(after =~= before.update(i as int, before.last()).drop_last());
                    assert(self.values@ =~= old(self).values@.update(
                        i as int,
                        old(self).values@.last(),
                    ).drop_last());
                    assert forall|a: int, b: int|
                        0 <= a < after.len() && 0 <= b < after.len() && a != b implies after[a]
                        != after[b] by {
                        let sa = if a == i { before.len() - 1 } else { a };
                        let sb = if b == i { before.len() - 1 } else { b };
                        assert(after[a] == before[sa]);
                        assert(after[b] == before[sb]);
                    }
                    if after.contains(key@) {
                        let a = choose|a: int| 0 <= a < after.len() && after[a] == key@;
                        let sa = if a == i { before.len() - 1 } else { a };
                        assert(after[a] == before[sa]);
                        assert(before[sa] == before[i as int]);
                    }
                }
                Some(value)
            },
            None => None,
        }
    }

    /// Puts `value` in under the key of its type, in the place of what was
    /// there. The key is the text that the build gives for the type: the keys
    /// that were there stay, in their order.
    pub fn inject<V: Any>(&mut self, value: V) -> (me: &mut Truck)
        requires
            old(self).wf(),
        ensures
            me.wf(),
            old(self)@.len() <= me@.len() <= old(self)@.len() + 1,
            me.boxes().len() == me@.len(),
            exists|key: Seq<char>| me@ == #[trigger] with_text(old(self)@, key),
            *final(self) == *final(me),
    {
        let key = type_key::<V>();
        self.insert(key.as_str(), value)
    }

    /// Moves everything into a new truck and leaves this one empty.
    pub fn transfer(&mut self) -> (truck: Truck)
        requires
            old(self).wf(),
        ensures
            final(self).wf(),
            final(self)@.len() == 0,
            final(self).boxes().len() == 0,
            truck.wf(),
            truck@ == old(self)@,
            truck.boxes() == old(self).boxes(),
    {
        let mut truck = Truck::new();
        core::mem::swap(self, &mut truck);
        truck
    }

    /// Puts `value` under `key`, in the place of what was there.
    pub fn insert<V: Any>(&mut self, key: &str, value: V) -> (me: &mut Truck)
        requires
            old(self).wf(),
        ensures
            me.wf(),
            me@ == with_text(old(self)@, key@),
            me.boxes().len() == me@.len(),
            forall|j: int|
                0 <= j < old(self).boxes().len() && old(self)@[j] != key@ ==> #[trigger] me.boxes()[j]
                    == old(self).boxes()[j],
            *final(self) == *final(me),
    {
        let boxed = box_up(value);
        match self.position(key) {
            Some(i) => {
                assert(self@[i as int] == key@);
                self.values[i] = boxed;
            },
            None => {
                self.keys.push(String::from_str(key));
                self.values.push(boxed);
                proof {
                    let before = old(self)@;
                    let after = self@;
                    assert(after =~= before.push(key@));
                    assert forall|a: int, b: int|
                        0 <= a < after.len() && 0 <= b < after.len() && a != b implies after[a]
                        != after[b] by {
                        if a < before.len() && b < before.len() {
                        } else if a < before.len() {
                            assert(before.contains(before[a]));
                        } else {
                            assert(before.contains(before[b]));
                        }
                    }
                }
            },
        }
        self
    }
}

/// Whether two texts are the same.
fn str_eq(a: &str, b: &str) -> (same: bool)
    ensures
        same == (a@ == b@),
{
    let x = String::from_str(a);
    let y = String::from_str(b);
    x == y
}

} // verus!
