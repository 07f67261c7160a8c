//! A small map from slot numbers to values that keeps the order in which the
//! slots were first entered.

use vstd::prelude::*;
use linear_map::LinearMap;

verus! {

/// `linear_map::LinearMap`, taken as it is.
#[verifier::external_type_specification]
#[verifier::external_body]
#[verifier::reject_recursive_types(K)]
#[verifier::reject_recursive_types(V)]
pub struct ExLinearMap<K, V>(LinearMap<K, V>);

/// The keys of a `LinearMap` of places, each with its place.
pub uninterp spec fn places_of(m: LinearMap<u32, usize>) -> Map<u32, usize>;

/// `LinearMap::new`: a map without entries.
#[verifier::external_body]
fn places_new() -> (r: LinearMap<u32, usize>)
    ensures
        places_of(r).dom() == Set::<u32>::empty(),
{
    LinearMap::new()
}

/// `LinearMap::get`: the place stored under `key`, if there is one.
#[verifier::external_body]
fn places_get(m: &LinearMap<u32, usize>, key: u32) -> (r: Option<usize>)
    ensures
        r == (if places_of(*m).contains_key(key) {
            Some(places_of(*m)[key])
        } else {
            None::<usize>
        }),
{
    m.get(&key).copied()
}

/// `LinearMap::insert`: stores `place` under `key`, in place of what was
/// there, and returns what was there.
#[verifier::external_body]
fn places_insert(m: &mut LinearMap<u32, usize>, key: u32, place: usize) -> (r: Option<usize>)
    ensures
        r == (if places_of(*old(m)).contains_key(key) {
            Some(places_of(*old(m))[key])
        } else {
            None::<usize>
        }),
        places_of(*final(m)) == places_of(*old(m)).insert(key, place),
{
    m.insert(key, place)
}

/// Whether `s` has an entry for slot `k`.
pub open spec fn listed<V>(s: Seq<(u32, V)>, k: u32) -> bool {
    exists|i: int| 0 <= i < s.len() && s[i].0 == k
}

/// A place at which `s` has an entry for slot `k`.
pub open spec fn place_of<V>(s: Seq<(u32, V)>, k: u32) -> int {
    choose|i: int| 0 <= i < s.len() && s[i].0 == k
}

/// The map that a listing stands for, where no slot is listed twice.
pub open spec fn as_map<V>(s: Seq<(u32, V)>) -> Map<u32, V> {
    Map::new(|k: u32| listed(s, k), |k: u32| s[place_of(s, k)].1)
}

/// Whether no slot is listed twice in `s`.
pub open spec fn distinct<V>(s: Seq<(u32, V)>) -> bool {
    forall|i: int, j: int| 0 <= i < j < s.len() ==> s[i].0 != s[j].0
}

/// Values of type `V` under slot numbers. The entries lie in a vector, in the
/// order in which their slots were first entered; an index finds the place
/// of a slot.
pub struct SlotMap<V> {
    places: LinearMap<u32, usize>,
    items: Vec<(u32, V)>,
}

impl<V> View for SlotMap<V> {
    type V = Map<u32, V>;

    closed spec fn view(&self) -> Map<u32, V> {
        Map::new(
            |k: u32| places_of(self.places).contains_key(k),
            |k: u32| self.items[places_of(self.places)[k] as int].1,
        )
    }
}

impl<V> SlotMap<V> {
    /// The index and the vector agree: each entry's slot is indexed at the
    /// entry's place, and each indexed slot has its entry there.
    pub closed spec fn wf(&self) -> bool {
        let places = places_of(self.places);
        &&& forall|i: int|
            0 <= i < self.items.len() ==> places.contains_key(#[trigger] self.items[i].0)
                && places[self.items[i].0] == i
        &&& forall|k: u32| #[trigger]
            places.contains_key(k) ==> places[k] < self.items.len() && self.items[places[k] as int].0
                == k
    }

    /// The entries, in the order in which their slots were first entered.
    pub closed spec fn entries(&self) -> Seq<(u32, V)> {
        self.items@
    }

    /// The slots, in the order in which they were first entered.
    pub open spec fn keys(&self) -> Seq<u32> {
        Seq::new(self.entries().len(), |i: int| self.entries()[i].0)
    }

    /// The entries are those of the map, each slot once.
    pub proof fn lemma_entries(&self)
        requires
            self.wf(),
        ensures
            forall|i: int|
                0 <= i < self.entries().len() ==> self@.contains_key(#[trigger] self.entries()[i].0)
                    && self@[self.entries()[i].0] == self.entries()[i].1,
            forall|k: u32| #[trigger]
                self@.contains_key(k) ==> exists|i: int|
                    0 <= i < self.entries().len() && self.entries()[i].0 == k,
            distinct(self.entries()),
            self@ == as_map(self.entries()),
    {
        let places = places_of(self.places);
        assert forall|k: u32| #[trigger] self@.contains_key(k) implies exists|i: int|
            0 <= i < self.entries().len() && self.entries()[i].0 == k by {
            assert(places.contains_key(k));
            assert(self.entries()[places[k] as int].0 == k);
        }
        assert forall|i: int, j: int| 0 <= i < j < self.entries().len() implies self.entries()[i].0
            != self.entries()[j].0 by {
            assert(places.contains_key(self.items[i].0));
            assert(places.contains_key(self.items[j].0));
        }
        assert forall|k: u32| listed(self.entries(), k) implies self@.contains_key(k) && self@[k]
            == #[trigger] as_map(self.entries())[k] by {
            let p = place_of(self.entries(), k);
            assert(places.contains_key(self.items[p].0));
        }
        assert forall|k: u32| self@.contains_key(k) implies listed(self.entries(), k) by {
            assert(self.entries()[places[k] as int].0 == k);
        }
        assert(self@ =~= as_map(self.entries()));
    }

    pub fn new() -> (r: Self)
        ensures
            r.wf(),
            r@ == Map::<u32, V>::empty(),
            r.entries() == Seq::<(u32, V)>::empty(),
    {
        let r = SlotMap { places: places_new(), items: Vec::new() };
        assert(r@ =~= Map::<u32, V>::empty());
        r
    }

    pub fn len(&self) -> (r: usize)
        ensures
            r == self.entries().len(),
    {
        self.items.len()
    }

    /// Gives the entries up, in their order.
    pub fn into_entries(self) -> (r: Vec<(u32, V)>)
        ensures
            r@ == self.entries(),
    {
        self.items
    }

    pub fn contains_key(&self, key: u32) -> (r: bool)
        ensures
            r == self@.contains_key(key),
    {
        places_get(&self.places, key).is_some()
    }

    /// The slot of the entry at place `i`.
    pub fn key_at(&self, i: usize) -> (r: u32)
        requires
            self.wf(),
            i < self.entries().len(),
        ensures
            r == self.entries()[i as int].0,
            self@.contains_key(r),
            self@[r] == self.entries()[i as int].1,
    {
        self.items[i].0
    }

    /// The value of the entry at place `i`.
    pub fn value_at(&self, i: usize) -> (r: &V)
        requires
            i < self.entries().len(),
        ensures
            *r == self.entries()[i as int].1,
    {
        &self.items[i].1
    }

    pub fn get(&self, key: u32) -> (r: Option<&V>)
        requires
            self.wf(),
        ensures
            r == (if self@.contains_key(key) {
                Some(&self@[key])
            } else {
                None::<&V>
            }),
    {
        match places_get(&self.places, key) {
            Some(i) => Some(&self.items[i].1),
            None => None,
        }
    }

    pub fn get_mut(&mut self, key: u32) -> (r: Option<&mut V>)
        requires
            old(self).wf(),
        ensures
            final(self).wf(),
            final(self).keys() == old(self).keys(),
            match r {
                Some(v) => old(self)@.contains_key(key) && *v == old(self)@[key] && final(self)@ == old(
                    self,
                )@.insert(key, *final(v)),
                None => !old(self)@.contains_key(key) && final(self)@ == old(self)@,
            },
    {
        match places_get(&self.places, key) {
            Some(i) => Some(&mut self.items[i].1),
            None => None,
        }
    }

    /// Stores `value` under `key`. A slot that is present keeps its place and
    /// hands back the value it had; a new slot goes to the end.
    pub fn insert(&mut self, key: u32, value: V) -> (r: Option<V>)
        requires
            old(self).wf(),
        ensures
            final(self).wf(),
            final(self)@ == old(self)@.insert(key, value),
            r == (if old(self)@.contains_key(key) {
                Some(old(self)@[key])
            } else {
                None::<V>
            }),
            old(self)@.contains_key(key) ==> final(self).keys() == old(self).keys(),
            !old(self)@.contains_key(key) ==> final(self).entries() == old(self).entries().push(
                (key, value),
            ),
    {
        let ghost before = *self;
        match places_get(&self.places, key) {
            Some(i) => {
                self.items.push((key, value));
                let had = self.items.swap_remove(i);
                proof {
                    assert(self.items@ =~= before.items@.update(i as int, (key, value)));
                    assert(self@ =~= before@.insert(key, value));
                    assert(self.keys() =~= before.keys());
                    assert forall|j: int| 0 <= j < self.items.len() implies places_of(
                        self.places,
                    ).contains_key(#[trigger] self.items[j].0) && places_of(
                        self.places,
                    )[self.items[j].0] == j by {
                        assert(before.items[j].0 == self.items[j].0);
                    }
                }
                Some(had.1)
            },
            None => {
                let n = self.items.len();
                self.items.push((key, value));
                places_insert(&mut self.places, key, n);
                proof {
                    let places = places_of(self.places);
                    assert forall|j: int| 0 <= j < self.items.len() implies places.contains_key(
                        #[trigger] self.items[j].0,
                    ) && places[self.items[j].0] == j by {
                        if j < n {
                            assert(before.items[j].0 == self.items[j].0);
                            assert(places_of(before.places).contains_key(before.items[j].0));
                        }
                    }
                    assert forall|k: u32| #[trigger] places.contains_key(k) implies places[k]
                        < self.items.len() && self.items[places[k] as int].0 == k by {
                        if k != key {
                            assert(places_of(before.places).contains_key(k));
                        }
                    }
                    assert forall|k: u32| self@.contains_key(k) implies #[trigger] self@[k]
                        == before@.insert(key, value)[k] by {
                        if k != key {
                            assert(places_of(before.places).contains_key(k));
                        }
                    }
                    assert(self@ =~= before@.insert(key, value));
                }
                None
            },
        }
    }
}

} // verus!
