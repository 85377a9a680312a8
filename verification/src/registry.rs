//! A map from names to items, kept in the order in which the names came.

use vstd::prelude::*;
use crate::names::{same_text, text_of};

verus! {

/// Items by name, no name twice.
pub struct Registry<T> {
    names: Vec<String>,
    items: Vec<T>,
}

/// Place of `name` among `names`.
pub open spec fn place_of(names: Seq<String>, name: Seq<char>) -> int {
    choose|i: int| 0 <= i < names.len() && (#[trigger] names[i])@ == name
}

/// Whether `name` is among `names`.
pub open spec fn is_listed(names: Seq<String>, name: Seq<char>) -> bool {
    exists|i: int| 0 <= i < names.len() && (#[trigger] names[i])@ == name
}

impl<T> Registry<T> {
    /// The names, in order.
    pub closed spec fn keys(&self) -> Seq<String> {
        self.names@
    }

    /// The items, each at the place of its name.
    pub closed spec fn values(&self) -> Seq<T> {
        self.items@
    }

    /// Every name has one item, and no name occurs twice.
    pub open spec fn wf(&self) -> bool {
        &&& self.keys().len() == self.values().len()
        &&& forall|i: int, j: int|
            0 <= i < j < self.keys().len() ==> (#[trigger] self.keys()[i])@ != (
            #[trigger] self.keys()[j])@
    }

    /// The items by name.
    pub open spec fn view(&self) -> Map<Seq<char>, T> {
        Map::new(
            |name: Seq<char>| is_listed(self.keys(), name),
            |name: Seq<char>| self.values()[place_of(self.keys(), name)],
        )
    }

    /// With distinct names, the item of the name at place `i` is the item
    /// at place `i`.
    pub proof fn lemma_place(&self, i: int)
        requires
            self.wf(),
            0 <= i < self.keys().len(),
        ensures
            self@.contains_key(self.keys()[i]@),
            place_of(self.keys(), self.keys()[i]@) == i,
            self@[self.keys()[i]@] == self.values()[i],
    {
        let name = self.keys()[i]@;
        let p = place_of(self.keys(), name);
        assert(self.keys()[i]@ == name);
        if p < i {
            assert(self.keys()[p]@ != self.keys()[i]@);
        } else if i < p {
            assert(self.keys()[i]@ != self.keys()[p]@);
        }
    }

    pub fn new() -> (registry: Self)
        ensures
            registry.wf(),
            registry@ == Map::<Seq<char>, T>::empty(),
            registry.keys().len() == 0,
    {
        let registry = Registry { names: Vec::new(), items: Vec::new() };
        assert(registry@ =~= Map::<Seq<char>, T>::empty());
        registry
    }

    pub fn len(&self) -> (count: usize)
        requires
            self.wf(),
        ensures
            count == self.keys().len(),
    {
        self.names.len()
    }

    /// Place of `name`, if it is there.
    pub fn position(&self, name: &str) -> (found: Option<usize>)
        requires
            self.wf(),
        ensures
            match found {
                Some(i) => i < self.keys().len() && self.keys()[i as int]@ == name@
                    && self@.contains_key(name@) && self@[name@] == self.values()[i as int],
                None => !self@.contains_key(name@),
            },
    {
        let mut i: usize = 0;
        while i < self.names.len()
            invariant
                self.wf(),
                i <= self.names@.len(),
                forall|k: int| 0 <= k < i ==> (#[trigger] self.names@[k])@ != name@,
            decreases self.names@.len() - i,
        {
            if same_text(self.names[i].as_str(), name) {
                proof {
                    self.lemma_place(i as int);
                }
                return Some(i);
            }
            i += 1;
        }
        None
    }

    pub fn contains(&self, name: &str) -> (found: bool)
        requires
            self.wf(),
        ensures
            found == self@.contains_key(name@),
    {
        self.position(name).is_some()
    }

    /// The item of `name`.
    pub fn get(&self, name: &str) -> (item: Option<&T>)
        requires
            self.wf(),
        ensures
            match item {
                Some(item) => self@.contains_key(name@) && *item == self@[name@],
                None => !self@.contains_key(name@),
            },
    {
        match self.position(name) {
            Some(i) => Some(&self.items[i]),
            None => None,
        }
    }

    /// The item at place `i`.
    pub fn item_at(&self, i: usize) -> (item: &T)
        requires
            self.wf(),
            i < self.keys().len(),
        ensures
            *item == self.values()[i as int],
            self@.contains_key(self.keys()[i as int]@),
            self@[self.keys()[i as int]@] == *item,
    {
        proof {
            self.lemma_place(i as int);
        }
        &self.items[i]
    }

    /// The item at place `i`, to be changed in place.
    pub fn item_mut(&mut self, i: usize) -> (item: &mut T)
        requires
            old(self).wf(),
            i < old(self).keys().len(),
        ensures
            *item == old(self).values()[i as int],
            final(self).keys() == old(self).keys(),
            final(self).values() == old(self).values().update(i as int, *final(item)),
    {
        &mut self.items[i]
    }

    /// Changing the item at place `i` changes the item of the name at that
    /// place, and nothing else.
    pub proof fn lemma_item_changed(&self, after: &Registry<T>, i: int)
        requires
            self.wf(),
            0 <= i < self.keys().len(),
            after.keys() == self.keys(),
            after.values() == self.values().update(i, after.values()[i]),
        ensures
            after.wf(),
            after@ == self@.insert(self.keys()[i]@, after.values()[i]),
    {
        assert forall|n: Seq<char>| #[trigger] after@.contains_key(n) implies after@[n]
            == self@.insert(self.keys()[i]@, after.values()[i])[n] by {
            let p = place_of(self.keys(), n);
            self.lemma_place(p);
            self.lemma_place(i);
        }
        self.lemma_place(i);
        assert(after@ =~= self@.insert(self.keys()[i]@, after.values()[i]));
    }

    /// Puts `item` under `name`, in place of the item that was there.
    pub fn insert(&mut self, name: &str, item: T)
        requires
            old(self).wf(),
        ensures
            final(self).wf(),
            final(self)@ == old(self)@.insert(name@, item),
    {
        match self.position(name) {
            Some(i) => {
                self.items[i] = item;
                proof {
                    assert forall|n: Seq<char>| #[trigger] self@.contains_key(n) implies self@[n]
                        == old(self)@.insert(name@, item)[n] by {
                        let p = place_of(self.keys(), n);
                        if n == name@ {
                            self.lemma_place(i as int);
                        }
                    }
                    assert(self@ =~= old(self)@.insert(name@, item));
                }
            },
            None => {
                self.names.push(text_of(name));
                self.items.push(item);
                proof {
                    let last = old(self).keys().len() as int;
                    assert(self.wf()) by {
                        assert forall|i: int, j: int| 0 <= i < j < self.keys().len() implies (
                        #[trigger] self.keys()[i])@ != (#[trigger] self.keys()[j])@ by {
                            if j == last {
                                assert(old(self).keys()[i]@ == self.keys()[i]@);
                                assert(is_listed(old(self).keys(), self.keys()[i]@));
                            } else {
                                assert(old(self).keys()[i]@ == self.keys()[i]@);
                                assert(old(self).keys()[j]@ == self.keys()[j]@);
                            }
                        }
                    }
                    assert forall|n: Seq<char>|
                        self@.contains_key(n) <==> old(self)@.insert(name@, item).contains_key(
                            n,
                        ) by {
                        if is_listed(old(self).keys(), n) {
                            let p = place_of(old(self).keys(), n);
                            assert(self.keys()[p]@ == n);
                        }
                        if n == name@ {
                            assert(self.keys()[last]@ == n);
                        }
                        if is_listed(self.keys(), n) {
                            let p = place_of(self.keys(), n);
                            if p < last {
                                assert(old(self).keys()[p]@ == n);
                            }
                        }
                    }
                    assert forall|n: Seq<char>| #[trigger] self@.contains_key(n) implies self@[n]
                        == old(self)@.insert(name@, item)[n] by {
                        let p = place_of(self.keys(), n);
                        self.lemma_place(p);
                        if p < last {
                            assert(old(self).keys()[p]@ == n);
                            old(self).lemma_place(p);
                        }
                    }
                    assert(self@ =~= old(self)@.insert(name@, item));
                }
            },
        }
    }

    /// Takes the item of `name` out.
    pub fn remove(&mut self, name: &str) -> (item: Option<T>)
        requires
            old(self).wf(),
        ensures
            final(self).wf(),
            final(self)@ == old(self)@.remove(name@),
            match item {
                Some(item) => old(self)@.contains_key(name@) && item == old(self)@[name@],
                None => !old(self)@.contains_key(name@),
            },
    {
        match self.position(name) {
            Some(i) => {
                self.names.remove(i);
                let item = self.items.remove(i);
                proof {
                    assert(self.wf()) by {
                        assert forall|a: int, b: int| 0 <= a < b < self.keys().len() implies (
                        #[trigger] self.keys()[a])@ != (#[trigger] self.keys()[b])@ by {
                            let oa = if a < i { a } else { a + 1 };
                            let ob = if b < i { b } else { b + 1 };
                            assert(self.keys()[a] == old(self).keys()[oa]);
                            assert(self.keys()[b] == old(self).keys()[ob]);
                        }
                    }
                    assert forall|n: Seq<char>|
                        self@.contains_key(n) <==> old(self)@.remove(name@).contains_key(n) by {
                        if is_listed(self.keys(), n) {
                            let p = place_of(self.keys(), n);
                            let op = if p < i { p } else { p + 1 };
                            assert(old(self).keys()[op]@ == n);
                            old(self).lemma_place(i as int);
                            old(self).lemma_place(op);
                        }
                        if old(self)@.remove(name@).contains_key(n) {
                            let op = place_of(old(self).keys(), n);
                            let p = if op < i { op } else { op - 1 };
                            assert(self.keys()[p]@ == n);
                        }
                    }
                    assert forall|n: Seq<char>| #[trigger] self@.contains_key(n) implies self@[n]
                        == old(self)@.remove(name@)[n] by {
                        let p = place_of(self.keys(), n);
                        self.lemma_place(p);
                        let op = if p < i { p } else { p + 1 };
                        assert(old(self).keys()[op]@ == n);
                        old(self).lemma_place(op);
                    }
                    assert(self@ =~= old(self)@.remove(name@));
                }
                Some(item)
            },
            None => {
                assert(self@ =~= old(self)@.remove(name@));
                None
            },
        }
    }

    /// Copies of the names, in order.
    pub fn names(&self) -> (names: Vec<String>)
        requires
            self.wf(),
        ensures
            names@.len() == self.keys().len(),
            forall|i: int| 0 <= i < names@.len() ==> (#[trigger] names@[i])@ == self.keys()[i]@,
    {
        let mut names: Vec<String> = Vec::new();
        let mut i: usize = 0;
        while i < self.names.len()
            invariant
                i <= self.names@.len(),
                names@.len() == i,
                forall|k: int| 0 <= k < i ==> (#[trigger] names@[k])@ == self.names@[k]@,
            decreases self.names@.len() - i,
        {
            names.push(self.names[i].clone());
            i += 1;
        }
        names
    }
}

} // verus!
