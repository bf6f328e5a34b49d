//! A small table from keys to values, in which no key occurs twice.
//!
//! Keys are compared by what they hold (their view), so the table's view is a
//! map from key views to values.

use vstd::prelude::*;

verus! {

/// A key: two keys are the same where their views are.
pub trait Key: View + Sized {
    /// Whether `self` and `other` hold the same.
    fn same(&self, other: &Self) -> (b: bool)
        ensures
            b == (self@ == other@),
    ;
}

impl Key for String {
    fn same(&self, other: &String) -> (b: bool) {
        *self == *other
    }
}

impl Key for Vec<u8> {
    fn same(&self, other: &Vec<u8>) -> (b: bool) {
        if self.len() != other.len() {
            return false;
        }
        let mut i: usize = 0;
        while i < self.len()
            invariant
                i <= self.len() == other.len(),
                forall|j: int| 0 <= j < i ==> self@[j] == other@[j],
            decreases self.len() - i,
        {
            if self[i] != other[i] {
                return false;
            }
            i += 1;
        }
        assert(self@ =~= other@);
        true
    }
}

/// A table from keys to values.
pub struct Table<K, T> {
    keys: Vec<K>,
    values: Vec<T>,
}

impl<K: Key, T> View for Table<K, T> {
    type V = Map<K::V, T>;

    closed spec fn view(&self) -> Map<K::V, T> {
        Map::new(|k: K::V| self.has(k), |k: K::V| self.values@[self.slot(k)])
    }
}

impl<K: Key, T> Table<K, T> {
    /// Every key has its value, and no key occurs twice.
    pub closed spec fn wf(&self) -> bool {
        &&& self.keys@.len() == self.values@.len()
        &&& forall|i: int, j: int|
            0 <= i < j < self.keys@.len() ==> self.held(i) != self.held(j)
    }

    /// What the key in place `i` holds.
    pub closed spec fn held(&self, i: int) -> K::V {
        self.keys@[i]@
    }

    /// The keys in the order in which the table holds them.
    pub closed spec fn order(&self) -> Seq<K::V> {
        Seq::new(self.keys@.len(), |i: int| self.held(i))
    }

    spec fn has(&self, key: K::V) -> bool {
        exists|i: int| 0 <= i < self.keys@.len() && #[trigger] self.held(i) == key
    }

    spec fn slot(&self, key: K::V) -> int {
        choose|i: int| 0 <= i < self.keys@.len() && #[trigger] self.held(i) == key
    }

    proof fn lemma_slot(&self, i: int)
        requires
            self.wf(),
            0 <= i < self.keys@.len(),
        ensures
            self.has(self.held(i)),
            self.slot(self.held(i)) == i,
            self@.contains_key(self.held(i)),
            self@[self.held(i)] == self.values@[i],
    {
        let j = self.slot(self.held(i));
        assert(self.held(j) == self.held(i));
    }

    /// The keys of the view are the keys in `order`, each once.
    pub proof fn lemma_order(&self)
        requires
            self.wf(),
        ensures
            self.order().no_duplicates(),
            forall|k: K::V| self@.contains_key(k) <==> self.order().contains(k),
    {
        assert forall|k: K::V| self@.contains_key(k) <==> self.order().contains(k) by {
            if self@.contains_key(k) {
                let i = self.slot(k);
                assert(self.order()[i] == k);
            }
            if self.order().contains(k) {
                let i = choose|i: int| 0 <= i < self.order().len() && self.order()[i] == k;
                assert(self.held(i) == k);
            }
        }
        assert forall|i: int, j: int|
            0 <= i < self.order().len() && 0 <= j < self.order().len() && i != j implies self.order()[i]
            != self.order()[j] by {
            if i < j {
                assert(self.held(i) != self.held(j));
            } else {
                assert(self.held(j) != self.held(i));
            }
        }
    }

    /// Two tables with the same keys in order have the same keys.
    pub proof fn lemma_same_keys<U>(&self, other: &Table<K, U>)
        requires
            self.wf(),
            other.wf(),
            self.order() == other.order(),
        ensures
            self@.dom() == other@.dom(),
    {
        self.lemma_order();
        other.lemma_order();
        assert forall|k: K::V| self@.dom().contains(k) <==> other@.dom().contains(k) by {
            assert(self@.contains_key(k) <==> self.order().contains(k));
            assert(other@.contains_key(k) <==> other.order().contains(k));
        }
        assert(self@.dom() =~= other@.dom());
    }

    /// A table that holds nothing.
    pub fn new() -> (table: Self)
        ensures
            table.wf(),
            table@ == Map::<K::V, T>::empty(),
            table.order() == Seq::<K::V>::empty(),
    {
        let table = Table { keys: Vec::new(), values: Vec::new() };
        assert(table@ =~= Map::<K::V, T>::empty());
        assert(table.order() =~= Seq::<K::V>::empty());
        table
    }

    /// The number of keys.
    pub fn count(&self) -> (n: usize)
        ensures
            n == self.order().len(),
    {
        self.keys.len()
    }

    /// Whether the table holds nothing.
    pub fn is_empty(&self) -> (b: bool)
        requires
            self.wf(),
        ensures
            b <==> forall|k: K::V| !self@.contains_key(k),
    {
        let b = self.keys.len() == 0;
        proof {
            if !b {
                self.lemma_slot(0);
            }
        }
        b
    }

    /// The key in place `i`.
    pub fn key(&self, i: usize) -> (key: &K)
        requires
            self.wf(),
            i < self.order().len(),
        ensures
            key@ == self.order()[i as int],
            self@.contains_key(key@),
    {
        proof {
            self.lemma_slot(i as int);
        }
        &self.keys[i]
    }

    /// The value in place `i`.
    pub fn value(&self, i: usize) -> (value: &T)
        requires
            self.wf(),
            i < self.order().len(),
        ensures
            *value == self@[self.order()[i as int]],
    {
        proof {
            self.lemma_slot(i as int);
        }
        &self.values[i]
    }

    /// The value in place `i`, to change it.
    pub fn value_mut(&mut self, i: usize) -> (value: &mut T)
        requires
            old(self).wf(),
            i < old(self).order().len(),
        ensures
            *value == old(self)@[old(self).order()[i as int]],
            final(self).wf(),
            final(self).order() == old(self).order(),
            final(self)@ == old(self)@.insert(old(self).order()[i as int], *final(value)),
    {
        proof {
            self.lemma_slot(i as int);
            let before = *self;
            assert forall|after: Self|
                after.keys@ == before.keys@ && after.values@ == before.values@.update(
                    i as int,
                    after.values@[i as int],
                ) implies #[trigger] after.wf() && after.order() == before.order() && after@
                == before@.insert(before.held(i as int), after.values@[i as int]) by {
                Self::lemma_updated(&before, &after, i as int);
            }
        }
        &mut self.values[i]
    }

    /// The value of `key`, to change it.
    pub fn get_mut(&mut self, key: &K) -> (value: &mut T)
        requires
            old(self).wf(),
            old(self)@.contains_key(key@),
        ensures
            *value == old(self)@[key@],
            final(self).wf(),
            final(self).order() == old(self).order(),
            final(self)@ == old(self)@.insert(key@, *final(value)),
    {
        let place = match self.position(key) {
            Some(place) => place,
            None => 0,
        };
        proof {
            self.lemma_slot(place as int);
        }
        self.value_mut(place)
    }

    proof fn lemma_updated(old: &Self, new: &Self, at: int)
        requires
            old.wf(),
            0 <= at < old.keys@.len(),
            new.keys@ == old.keys@,
            new.values@ == old.values@.update(at, new.values@[at]),
        ensures
            new.wf(),
            new.order() == old.order(),
            new@ == old@.insert(old.held(at), new.values@[at]),
    {
        assert forall|i: int| 0 <= i < old.keys@.len() implies new.held(i) == old.held(i) by {}
        assert(new.wf()) by {
            assert forall|i: int, j: int| 0 <= i < j < new.keys@.len() implies new.held(i)
                != new.held(j) by {
                assert(old.held(i) != old.held(j));
            }
        }
        assert(new.order() =~= old.order());
        let target = old@.insert(old.held(at), new.values@[at]);
        assert forall|k: K::V| new@.contains_key(k) <==> target.contains_key(k) by {
            if new@.contains_key(k) {
                let i = new.slot(k);
                assert(old.held(i) == k);
            }
            if old@.contains_key(k) {
                let i = old.slot(k);
                assert(new.held(i) == k);
            }
            old.lemma_slot(at);
            new.lemma_slot(at);
        }
        assert forall|k: K::V| new@.contains_key(k) implies new@[k] == target[k] by {
            let i = new.slot(k);
            new.lemma_slot(i);
            assert(old.held(i) == k);
            old.lemma_slot(i);
            old.lemma_slot(at);
        }
        assert(new@ =~= target);
    }

    fn position(&self, key: &K) -> (r: Option<usize>)
        requires
            self.wf(),
        ensures
            match r {
                Some(i) => i < self.keys@.len() && self.held(i as int) == key@,
                None => !self.has(key@),
            },
    {
        let mut i: usize = 0;
        while i < self.keys.len()
            invariant
                i <= self.keys@.len(),
                forall|j: int| 0 <= j < i ==> self.held(j) != key@,
            decreases self.keys@.len() - i,
        {
            if self.keys[i].same(key) {
                return Some(i);
            }
            i += 1;
        }
        None
    }

    /// Whether `key` is in the table.
    pub fn contains_key(&self, key: &K) -> (b: bool)
        requires
            self.wf(),
        ensures
            b == self@.contains_key(key@),
    {
        self.position(key).is_some()
    }

    /// The value of `key`, where the table has it.
    pub fn get(&self, key: &K) -> (r: Option<&T>)
        requires
            self.wf(),
        ensures
            self@.contains_key(key@) ==> r == Some(&self@[key@]),
            !self@.contains_key(key@) ==> r is None,
    {
        match self.position(key) {
            Some(i) => {
                proof {
                    self.lemma_slot(i as int);
                }
                Some(&self.values[i])
            },
            None => None,
        }
    }

    proof fn lemma_pushed(old: &Self, new: &Self, key: K, value: T)
        requires
            old.wf(),
            !old.has(key@),
            new.keys@ == old.keys@.push(key),
            new.values@ == old.values@.push(value),
        ensures
            new.wf(),
            new@ == old@.insert(key@, value),
            new.order() == old.order().push(key@),
    {
        let n = old.keys@.len() as int;
        assert forall|i: int| 0 <= i < n implies new.held(i) == old.held(i) by {}
        assert(new.held(n) == key@);
        assert(new.wf()) by {
            assert forall|i: int, j: int| 0 <= i < j < new.keys@.len() implies new.held(i)
                != new.held(j) by {
                if j < n {
                    assert(old.held(i) != old.held(j));
                } else {
                    assert(old.held(i) == new.held(i));
                }
            }
        }
        assert(new.order() =~= old.order().push(key@));
        assert forall|k: K::V| new@.contains_key(k) <==> old@.insert(key@, value).contains_key(
            k,
        ) by {
            if new@.contains_key(k) {
                let i = new.slot(k);
                if i < n {
                    assert(old.held(i) == k);
                }
            }
            if old@.contains_key(k) {
                let i = old.slot(k);
                assert(new.held(i) == k);
            }
        }
        assert forall|k: K::V| new@.contains_key(k) implies new@[k] == old@.insert(key@, value)[k] by {
            let i = new.slot(k);
            new.lemma_slot(i);
            if i < n {
                assert(old.held(i) == k);
                old.lemma_slot(i);
            }
        }
        assert(new@ =~= old@.insert(key@, value));
    }

    proof fn lemma_swap_removed(old: &Self, new: &Self, at: int)
        requires
            old.wf(),
            0 <= at < old.keys@.len(),
            new.keys@ == old.keys@.update(at, old.keys@.last()).drop_last(),
            new.values@ == old.values@.update(at, old.values@.last()).drop_last(),
        ensures
            new.wf(),
            new@ == old@.remove(old.held(at)),
            !new.has(old.held(at)),
    {
        let n = old.keys@.len() as int;
        let gone = old.held(at);
        // Where a key of the new table stood in the old one.
        assert forall|i: int| 0 <= i < n - 1 implies new.held(i) == old.held(
            if i == at {
                n - 1
            } else {
                i
            },
        ) by {}
        assert(new.wf()) by {
            assert forall|i: int, j: int| 0 <= i < j < new.keys@.len() implies new.held(i)
                != new.held(j) by {
                let a = if i == at {
                    n - 1
                } else {
                    i
                };
                let b = if j == at {
                    n - 1
                } else {
                    j
                };
                if a < b {
                    assert(old.held(a) != old.held(b));
                } else {
                    assert(old.held(b) != old.held(a));
                }
            }
        }
        assert(!new.has(gone)) by {
            if new.has(gone) {
                let i = new.slot(gone);
                let a = if i == at {
                    n - 1
                } else {
                    i
                };
                if a < at {
                    assert(old.held(a) != old.held(at));
                } else {
                    assert(old.held(at) != old.held(a));
                }
            }
        }
        assert forall|k: K::V| new@.contains_key(k) <==> old@.remove(gone).contains_key(k) by {
            if new@.contains_key(k) {
                let i = new.slot(k);
                let a = if i == at {
                    n - 1
                } else {
                    i
                };
                assert(old.held(a) == k);
            }
            if old@.contains_key(k) && k != gone {
                let a = old.slot(k);
                let i = if a == n - 1 {
                    at
                } else {
                    a
                };
                assert(new.held(i) == k);
            }
        }
        assert forall|k: K::V| new@.contains_key(k) implies new@[k] == old@.remove(gone)[k] by {
            let i = new.slot(k);
            new.lemma_slot(i);
            let a = if i == at {
                n - 1
            } else {
                i
            };
            assert(old.held(a) == k);
            old.lemma_slot(a);
        }
        assert(new@ =~= old@.remove(gone));
    }

    /// Puts `value` under `key` where the table has no such key, and hands
    /// `value` back where it has: what the table holds is never replaced.
    pub fn try_insert(&mut self, key: K, value: T) -> (r: Result<(), T>)
        requires
            old(self).wf(),
        ensures
            final(self).wf(),
            old(self)@.contains_key(key@) ==> r == Err::<(), T>(value) && final(self)@ == old(self)@
                && final(self).order() == old(self).order(),
            !old(self)@.contains_key(key@) ==> r is Ok && final(self)@ == old(self)@.insert(
                key@,
                value,
            ) && final(self).order() == old(self).order().push(key@),
    {
        match self.position(&key) {
            Some(_) => Err(value),
            None => {
                self.keys.push(key);
                self.values.push(value);
                proof {
                    Self::lemma_pushed(old(self), self, key, value);
                }
                Ok(())
            },
        }
    }

    /// Puts `value` under `key`, and hands out the value that was there.
    pub fn insert(&mut self, key: K, value: T) -> (r: Option<T>)
        requires
            old(self).wf(),
        ensures
            final(self).wf(),
            final(self)@ == old(self)@.insert(key@, value),
            old(self)@.contains_key(key@) ==> r == Some(old(self)@[key@]),
            !old(self)@.contains_key(key@) ==> r is None,
    {
        match self.position(&key) {
            Some(i) => {
                proof {
                    self.lemma_slot(i as int);
                }
                let was_key = self.keys.swap_remove(i);
                let was = self.values.swap_remove(i);
                let ghost between = *self;
                proof {
                    Self::lemma_swap_removed(old(self), &between, i as int);
                }
                self.keys.push(key);
                self.values.push(value);
                proof {
                    Self::lemma_pushed(&between, self, key, value);
                    assert(self@ =~= old(self)@.insert(key@, value));
                }
                Some(was)
            },
            None => {
                self.keys.push(key);
                self.values.push(value);
                proof {
                    Self::lemma_pushed(old(self), self, key, value);
                }
                None
            },
        }
    }

    /// Takes `key` out, and hands out its value.
    pub fn remove(&mut self, key: &K) -> (r: Option<T>)
        requires
            old(self).wf(),
        ensures
            final(self).wf(),
            final(self)@ == old(self)@.remove(key@),
            old(self)@.contains_key(key@) ==> r == Some(old(self)@[key@]),
            !old(self)@.contains_key(key@) ==> r is None,
    {
        match self.position(key) {
            Some(i) => {
                proof {
                    self.lemma_slot(i as int);
                }
                let was_key = self.keys.swap_remove(i);
                let was = self.values.swap_remove(i);
                proof {
                    Self::lemma_swap_removed(old(self), self, i as int);
                }
                Some(was)
            },
            None => {
                assert(self@ =~= old(self)@.remove(key@));
                None
            },
        }
    }
}

} // verus!
