//! The declared slots of a flow: slot numbers with their types, kept in
//! ascending order of the numbers.

use vstd::prelude::*;
use crate::slot_map::{as_map, listed, place_of};
use crate::value::Type;

verus! {

/// Whether the slot numbers of `s` rise strictly.
pub open spec fn ascending(s: Seq<(u32, Type)>) -> bool {
    forall|i: int, j: int| 0 <= i < j < s.len() ==> s[i].0 < s[j].0
}

/// In an ascending listing each entry is the one that the map has for its
/// slot.
pub proof fn lemma_entry(s: Seq<(u32, Type)>, i: int)
    requires
        ascending(s),
        0 <= i < s.len(),
    ensures
        listed(s, s[i].0),
        place_of(s, s[i].0) == i,
        as_map(s).contains_key(s[i].0),
        as_map(s)[s[i].0] == s[i].1,
{
    let j = place_of(s, s[i].0);
    if j < i {
        assert(s[j].0 < s[i].0);
    } else if i < j {
        assert(s[i].0 < s[j].0);
    }
}

/// The slots of a flow of one direction, each with its type.
pub struct SlotTable {
    entries: Vec<(u32, Type)>,
}

impl View for SlotTable {
    type V = Map<u32, Type>;

    closed spec fn view(&self) -> Map<u32, Type> {
        as_map(self.entries@)
    }
}

impl SlotTable {
    /// The slot numbers rise strictly.
    pub closed spec fn wf(&self) -> bool {
        ascending(self.entries@)
    }

    /// The entries, in ascending order of their slot numbers.
    pub closed spec fn listing(&self) -> Seq<(u32, Type)> {
        self.entries@
    }

    /// The listing is ascending and stands for the map.
    pub proof fn lemma_listing(&self)
        requires
            self.wf(),
        ensures
            ascending(self.listing()),
            self@ == as_map(self.listing()),
            self@.dom().finite(),
            self@.len() == self.listing().len(),
    {
        lemma_size(self.entries@);
    }

    pub fn new() -> (r: Self)
        ensures
            r.wf(),
            r@ == Map::<u32, Type>::empty(),
            r.listing() == Seq::<(u32, Type)>::empty(),
    {
        let r = SlotTable { entries: Vec::new() };
        assert(r@ =~= Map::<u32, Type>::empty());
        r
    }

    pub fn len(&self) -> (r: usize)
        ensures
            r == self.listing().len(),
    {
        self.entries.len()
    }

    pub fn is_empty(&self) -> (r: bool)
        ensures
            r == (self.listing().len() == 0),
    {
        self.entries.len() == 0
    }

    /// The entry at place `i` of the listing.
    pub fn entry_at(&self, i: usize) -> (r: (u32, Type))
        requires
            i < self.listing().len(),
        ensures
            r == self.listing()[i as int],
    {
        self.entries[i]
    }

    /// The place of the first entry whose slot number is `key` or more.
    fn lower_bound(&self, key: u32) -> (r: usize)
        requires
            self.wf(),
        ensures
            r <= self.entries.len(),
            forall|i: int| 0 <= i < r ==> self.entries[i].0 < key,
            forall|i: int| r <= i < self.entries.len() ==> self.entries[i].0 >= key,
    {
        let mut i: usize = 0;
        while i < self.entries.len() && self.entries[i].0 < key
            invariant
                i <= self.entries.len(),
                forall|j: int| 0 <= j < i ==> self.entries[j].0 < key,
            decreases self.entries.len() - i,
        {
            i += 1;
        }
        proof {
            if i < self.entries.len() {
                assert forall|j: int| i <= j < self.entries.len() implies self.entries[j].0 >= key by {
                    if i < j {
                        assert(self.entries@[i as int].0 < self.entries@[j].0);
                    }
                }
            }
        }
        i
    }

    pub fn contains_key(&self, key: u32) -> (r: bool)
        requires
            self.wf(),
        ensures
            r == self@.contains_key(key),
    {
        self.get(key).is_some()
    }

    pub fn get(&self, key: u32) -> (r: Option<Type>)
        requires
            self.wf(),
        ensures
            r == (if self@.contains_key(key) {
                Some(self@[key])
            } else {
                None::<Type>
            }),
    {
        let i = self.lower_bound(key);
        if i < self.entries.len() && self.entries[i].0 == key {
            proof {
                lemma_entry(self.entries@, i as int);
            }
            Some(self.entries[i].1)
        } else {
            None
        }
    }

    /// The largest slot number in use.
    pub fn last_key(&self) -> (r: Option<u32>)
        requires
            self.wf(),
        ensures
            r is Some == (self.listing().len() > 0),
            r matches Some(k) ==> self@.contains_key(k) && forall|j: u32| self@.contains_key(j) ==> j <= k,
    {
        let n = self.entries.len();
        if n == 0 {
            None
        } else {
            proof {
                lemma_entry(self.entries@, n - 1);
                assert forall|j: u32| self@.contains_key(j) implies j <= self.entries[n - 1].0 by {
                    let p = place_of(self.entries@, j);
                    if p < n - 1 {
                        assert(self.entries@[p].0 < self.entries@[n - 1].0);
                    }
                }
            }
            Some(self.entries[n - 1].0)
        }
    }

    /// Enters `ty` for slot `key`, in place of what was there, and returns
    /// what was there.
    pub fn insert(&mut self, key: u32, ty: Type) -> (r: Option<Type>)
        requires
            old(self).wf(),
        ensures
            final(self).wf(),
            final(self)@ == old(self)@.insert(key, ty),
            r == (if old(self)@.contains_key(key) {
                Some(old(self)@[key])
            } else {
                None::<Type>
            }),
    {
        let ghost before = self.entries@;
        let i = self.lower_bound(key);
        if i < self.entries.len() && self.entries[i].0 == key {
            let had = self.entries[i].1;
            self.entries[i] = (key, ty);
            proof {
                lemma_entry(before, i as int);
                let after = self.entries@;
                assert(ascending(after)) by {
                    assert forall|a: int, b: int| 0 <= a < b < after.len() implies after[a].0 < after[b].0 by {
                        assert(before[a].0 < before[b].0);
                    }
                }
                assert forall|k: u32| listed(after, k) <==> listed(before, k) by {
                    if listed(after, k) {
                        let p = place_of(after, k);
                        assert(before[p].0 == k);
                    }
                    if listed(before, k) {
                        let p = place_of(before, k);
                        assert(after[p].0 == k);
                    }
                }
                assert forall|k: u32| listed(after, k) implies #[trigger] as_map(after)[k] == as_map(
                    before,
                ).insert(key, ty)[k] by {
                    let p = place_of(after, k);
                    lemma_entry(after, p);
                    if k != key {
                        assert(before[p].0 == k);
                        lemma_entry(before, p);
                    }
                }
                assert(as_map(after) =~= as_map(before).insert(key, ty));
            }
            Some(had)
        } else {
            self.entries.insert(i, (key, ty));
            proof {
                let after = self.entries@;
                assert(after == before.insert(i as int, (key, ty)));
                assert(ascending(after)) by {
                    assert forall|a: int, b: int| 0 <= a < b < after.len() implies after[a].0 < after[b].0 by {
                        if b < i {
                            assert(before[a].0 < before[b].0);
                        } else if b == i {
                        } else if a < i {
                            assert(before[a].0 < key);
                            assert(before[b - 1].0 >= key);
                        } else if a == i {
                            assert(before[b - 1].0 >= key);
                        } else {
                            assert(before[a - 1].0 < before[b - 1].0);
                        }
                    }
                }
                assert(!listed(before, key)) by {
                    if listed(before, key) {
                        let p = place_of(before, key);
                        if p < i {
                            assert(before[p].0 < key);
                        } else {
                            assert(before[p].0 >= key);
                            if p > i {
                                assert(before[i as int].0 < before[p].0);
                            }
                        }
                    }
                }
                assert forall|k: u32| listed(after, k) <==> (k == key || listed(before, k)) by {
                    if listed(after, k) && k != key {
                        let p = place_of(after, k);
                        if p < i {
                            assert(before[p].0 == k);
                        } else {
                            assert(before[p - 1].0 == k);
                        }
                    }
                    if listed(before, k) {
                        let p = place_of(before, k);
                        if p < i {
                            assert(after[p].0 == k);
                        } else {
                            assert(after[p + 1].0 == k);
                        }
                    }
                    if k == key {
                        assert(after[i as int].0 == k);
                    }
                }
                assert forall|k: u32| listed(after, k) implies #[trigger] as_map(after)[k] == as_map(
                    before,
                ).insert(key, ty)[k] by {
                    let p = place_of(after, k);
                    lemma_entry(after, p);
                    if k != key {
                        if p < i {
                            lemma_entry(before, p);
                        } else {
                            lemma_entry(before, p - 1);
                        }
                    } else {
                        lemma_entry(after, i as int);
                    }
                }
                assert(as_map(after) =~= as_map(before).insert(key, ty));
            }
            None
        }
    }

    /// Takes the entry of slot `key` out and returns its type, if there is
    /// one.
    pub fn remove(&mut self, key: u32) -> (r: Option<Type>)
        requires
            old(self).wf(),
        ensures
            final(self).wf(),
            final(self)@ == old(self)@.remove(key),
            r == (if old(self)@.contains_key(key) {
                Some(old(self)@[key])
            } else {
                None::<Type>
            }),
    {
        let ghost before = self.entries@;
        let i = self.lower_bound(key);
        if i < self.entries.len() && self.entries[i].0 == key {
            let had = self.entries.remove(i);
            proof {
                lemma_entry(before, i as int);
                let after = self.entries@;
                assert(after == before.remove(i as int));
                assert(ascending(after)) by {
                    assert forall|a: int, b: int| 0 <= a < b < after.len() implies after[a].0 < after[b].0 by {
                        let left = if a < i { a } else { a + 1 };
                        let right = if b < i { b } else { b + 1 };
                        assert(before[left].0 < before[right].0);
                    }
                }
                assert forall|k: u32| listed(after, k) <==> (k != key && listed(before, k)) by {
                    if listed(after, k) {
                        let p = place_of(after, k);
                        let shifted = if p < i { p } else { p + 1 };
                        assert(before[shifted].0 == k);
                        if shifted < i {
                            assert(before[shifted].0 < before[i as int].0);
                        } else {
                            assert(before[i as int].0 < before[shifted].0);
                        }
                    }
                    if k != key && listed(before, k) {
                        let p = place_of(before, k);
                        if p < i {
                            assert(after[p].0 == k);
                        } else {
                            assert(after[p - 1].0 == k);
                        }
                    }
                }
                assert forall|k: u32| listed(after, k) implies #[trigger] as_map(after)[k] == as_map(
                    before,
                ).remove(key)[k] by {
                    let p = place_of(after, k);
                    lemma_entry(after, p);
                    let shifted = if p < i { p } else { p + 1 };
                    lemma_entry(before, shifted);
                }
                assert(as_map(after) =~= as_map(before).remove(key));
            }
            Some(had.1)
        } else {
            proof {
                assert(!listed(before, key)) by {
                    if listed(before, key) {
                        let p = place_of(before, key);
                        if p < i {
                            assert(before[p].0 < key);
                        } else {
                            assert(before[p].0 >= key);
                            if p > i {
                                assert(before[i as int].0 < before[p].0);
                            }
                        }
                    }
                }
                assert(as_map(before) =~= as_map(before).remove(key));
            }
            None
        }
    }
}

/// An ascending listing has as many entries as its map has slots.
pub proof fn lemma_size(s: Seq<(u32, Type)>)
    requires
        ascending(s),
    ensures
        as_map(s).dom().finite(),
        as_map(s).dom().len() == s.len(),
    decreases s.len(),
{
    if s.len() == 0 {
        assert(as_map(s).dom() =~= Set::<u32>::empty());
    } else {
        let t = s.drop_last();
        let k = s.last().0;
        assert(ascending(t)) by {
            assert forall|i: int, j: int| 0 <= i < j < t.len() implies t[i].0 < t[j].0 by {
                assert(s[i].0 < s[j].0);
            }
        }
        lemma_size(t);
        assert(!listed(t, k)) by {
            if listed(t, k) {
                let p = place_of(t, k);
                assert(s[p].0 < s[s.len() - 1].0);
            }
        }
        assert(as_map(s).dom() =~= as_map(t).dom().insert(k)) by {
            assert forall|j: u32| listed(s, j) <==> (j == k || listed(t, j)) by {
                if listed(s, j) && j != k {
                    let p = place_of(s, j);
                    assert(t[p].0 == j);
                }
                if listed(t, j) {
                    let p = place_of(t, j);
                    assert(s[p].0 == j);
                }
                if j == k {
                    assert(s[s.len() - 1].0 == k);
                }
            }
        }
    }
}

} // verus!
