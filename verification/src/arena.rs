//! A keyed arena: values found by a 64-bit key, each in a place of its own
//! that it keeps until it leaves.

use vstd::prelude::*;
use intmap::IntMap;

verus! {

/// `intmap::IntMap`, taken as it is.
#[verifier::external_type_specification]
#[verifier::external_body]
#[verifier::reject_recursive_types(V)]
pub struct ExIntMap<V>(IntMap<V>);

/// The keys of an `IntMap` of places, each with its place.
pub uninterp spec fn index_of(m: IntMap<u64>) -> Map<u64, u64>;

/// The most entries that an index can hold before its load computation,
/// which multiplies their number by 100, leaves the machine word.
pub open spec fn index_limit() -> nat {
    (usize::MAX / 100) as nat
}

/// `IntMap::new`: a map without entries.
#[verifier::external_body]
fn index_new() -> (r: IntMap<u64>)
    ensures
        index_of(r).dom() == Set::<u64>::empty(),
{
    IntMap::new()
}

/// `IntMap::get`: the place stored under `key`, if there is one.
#[verifier::external_body]
fn index_get(m: &IntMap<u64>, key: u64) -> (r: Option<u64>)
    ensures
        r == (if index_of(*m).contains_key(key) {
            Some(index_of(*m)[key])
        } else {
            None::<u64>
        }),
{
    m.get(key).copied()
}

/// `IntMap::insert`: stores `place` under `key` and returns `true`, unless
/// the key is present; then the map stays as it is and `false` is returned.
#[verifier::external_body]
fn index_insert(m: &mut IntMap<u64>, key: u64, place: u64) -> (r: bool)
    requires
        index_of(*old(m)).dom().finite(),
        index_of(*old(m)).len() < index_limit(),
    ensures
        r == !index_of(*old(m)).contains_key(key),
        r ==> index_of(*final(m)) == index_of(*old(m)).insert(key, place),
        !r ==> index_of(*final(m)) == index_of(*old(m)),
{
    m.insert(key, place)
}

/// `IntMap::remove`: takes the entry of `key` out and returns its place, if
/// there is one.
#[verifier::external_body]
fn index_remove(m: &mut IntMap<u64>, key: u64) -> (r: Option<u64>)
    ensures
        r == (if index_of(*old(m)).contains_key(key) {
            Some(index_of(*old(m))[key])
        } else {
            None::<u64>
        }),
        index_of(*final(m)) == index_of(*old(m)).remove(key),
{
    m.remove(key)
}

/// `IntMap::len`: the number of entries.
#[verifier::external_body]
fn index_len(m: &IntMap<u64>) -> (r: usize)
    ensures
        r == index_of(*m).len(),
{
    m.len()
}

/// Values of type `T` under 64-bit keys. An index finds the place of a key;
/// the values themselves lie in a vector, and a place that a value has left
/// is given to a later one.
pub struct Arena<T> {
    index: IntMap<u64>,
    slots: Vec<Option<T>>,
    free: Vec<usize>,
}

impl<T> Arena<T> {
    /// Every key's place holds a value, and no two keys share a place.
    pub closed spec fn wf(&self) -> bool {
        let index = index_of(self.index);
        &&& index.dom().finite()
        &&& index.len() <= index_limit()
        &&& forall|k: u64| #[trigger]
            index.contains_key(k) ==> index[k] < self.slots.len() && self.slots[index[k] as int] is Some
        &&& forall|j: u64, k: u64|
            #![trigger index.contains_key(j), index.contains_key(k)]
            index.contains_key(j) && index.contains_key(k) && j != k ==> index[j] != index[k]
    }

    /// The place of a key that is present.
    closed spec fn place(&self, k: u64) -> int {
        index_of(self.index)[k] as int
    }

    pub fn new() -> (r: Self)
        ensures
            r.wf(),
            r@ == Map::<u64, T>::empty(),
    {
        let r = Arena { index: index_new(), slots: Vec::new(), free: Vec::new() };
        assert(r@ =~= Map::<u64, T>::empty());
        r
    }

    /// An arena in order is finite and within the limit of its index.
    pub proof fn lemma_bounded(&self)
        requires
            self.wf(),
        ensures
            self@.dom().finite(),
            self@.len() <= index_limit(),
    {
        assert(self@.dom() =~= index_of(self.index).dom());
    }

    pub fn len(&self) -> (r: usize)
        requires
            self.wf(),
        ensures
            self@.dom().finite(),
            r == self@.len(),
    {
        assert(self@.dom() =~= index_of(self.index).dom());
        index_len(&self.index)
    }

    pub fn contains_key(&self, key: u64) -> (r: bool)
        ensures
            r == self@.contains_key(key),
    {
        index_get(&self.index, key).is_some()
    }

    pub fn get(&self, key: u64) -> (r: Option<&T>)
        requires
            self.wf(),
        ensures
            r == (if self@.contains_key(key) {
                Some(&self@[key])
            } else {
                None::<&T>
            }),
    {
        match index_get(&self.index, key) {
            Some(i) => self.slots[i as usize].as_ref(),
            None => None,
        }
    }

    pub fn get_mut(&mut self, key: u64) -> (r: Option<&mut T>)
        requires
            old(self).wf(),
        ensures
            final(self).wf(),
            final(self)@.dom() == old(self)@.dom(),
            match r {
                Some(v) => old(self)@.contains_key(key) && *v == old(self)@[key] && final(self)@ == old(
                    self,
                )@.insert(key, *final(v)),
                None => !old(self)@.contains_key(key) && final(self)@ == old(self)@,
            },
    {
        match index_get(&self.index, key) {
            Some(i) => {
                let slot = &mut self.slots[i as usize];
                match slot {
                    Some(v) => Some(v),
                    None => None,
                }
            },
            None => None,
        }
    }

    /// Stores `value` under `key` and returns `true`, unless the key is
    /// present; then nothing changes and `false` is returned.
    pub fn insert(&mut self, key: u64, value: T) -> (r: bool)
        requires
            old(self).wf(),
            old(self)@.len() < index_limit(),
        ensures
            final(self).wf(),
            r == !old(self)@.contains_key(key),
            r ==> final(self)@ == old(self)@.insert(key, value),
            !r ==> final(self)@ == old(self)@,
    {
        proof {
            assert(self@.dom() =~= index_of(self.index).dom());
        }
        if index_get(&self.index, key).is_some() {
            return false;
        }
        let ghost before = *self;
        let mut place: usize = self.slots.len();
        match self.free.pop() {
            Some(i) => {
                if i < self.slots.len() && self.slots[i].is_none() {
                    place = i;
                }
            },
            None => {},
        }
        if place == self.slots.len() {
            self.slots.push(Some(value));
        } else {
            self.slots[place] = Some(value);
        }
        let fresh = index_insert(&mut self.index, key, place as u64);
        proof {
            assert(fresh);
            let index = index_of(self.index);
            assert forall|k: u64| #[trigger] index.contains_key(k) implies index[k] < self.slots.len()
                && self.slots[index[k] as int] is Some by {
                if k != key {
                    assert(index_of(before.index).contains_key(k));
                }
            }
            assert forall|j: u64, k: u64|
                #![trigger index.contains_key(j), index.contains_key(k)]
                index.contains_key(j) && index.contains_key(k) && j != k implies index[j] != index[k] by {
                if j != key {
                    assert(index_of(before.index).contains_key(j));
                }
                if k != key {
                    assert(index_of(before.index).contains_key(k));
                }
            }
            assert forall|k: u64| self@.contains_key(k) implies #[trigger] self@[k] == before@.insert(
                key,
                value,
            )[k] by {
                if k != key {
                    assert(index_of(before.index).contains_key(k));
                }
            }
            assert(self@ =~= before@.insert(key, value));
        }
        true
    }

    /// Takes the value of `key` out, if there is one.
    pub fn remove(&mut self, key: u64) -> (r: Option<T>)
        requires
            old(self).wf(),
        ensures
            final(self).wf(),
            r == (if old(self)@.contains_key(key) {
                Some(old(self)@[key])
            } else {
                None::<T>
            }),
            final(self)@ == old(self)@.remove(key),
    {
        let ghost before = *self;
        match index_remove(&mut self.index, key) {
            Some(i) => {
                let mut taken: Option<T> = None;
                core::mem::swap(&mut self.slots[i as usize], &mut taken);
                self.free.push(i as usize);
                proof {
                    let index = index_of(self.index);
                    assert(index_of(before.index).contains_key(key));
                    assert forall|k: u64| #[trigger] index.contains_key(k) implies index[k]
                        < self.slots.len() && self.slots[index[k] as int] is Some by {
                        assert(index_of(before.index).contains_key(k));
                    }
                    assert forall|j: u64, k: u64|
                        #![trigger index.contains_key(j), index.contains_key(k)]
                        index.contains_key(j) && index.contains_key(k) && j != k implies index[j]
                        != index[k] by {
                        assert(index_of(before.index).contains_key(j));
                        assert(index_of(before.index).contains_key(k));
                    }
                    assert forall|k: u64| self@.contains_key(k) implies #[trigger] self@[k]
                        == before@.remove(key)[k] by {
                        assert(index_of(before.index).contains_key(k));
                    }
                    assert(self@ =~= before@.remove(key));
                }
                taken
            },
            None => {
                proof {
                    assert(index_of(self.index) =~= index_of(before.index));
                    assert(self@ =~= before@.remove(key));
                }
                None
            },
        }
    }
}

impl<T> View for Arena<T> {
    type V = Map<u64, T>;

    closed spec fn view(&self) -> Map<u64, T> {
        Map::new(
            |k: u64| index_of(self.index).contains_key(k),
            |k: u64| self.slots[index_of(self.index)[k] as int]->0,
        )
    }
}

} // verus!
