//! A set of collection names.

use vstd::prelude::*;

verus! {

/// A finite set of names.
pub struct NameSet {
    names: Vec<String>,
}

/// The set of the strings' values.
pub open spec fn values_of(names: Seq<String>) -> Set<Seq<char>> {
    Set::new(|name: Seq<char>| exists|i: int| 0 <= i < names.len() && (#[trigger] names[i])@ == name)
}

impl View for NameSet {
    type V = Set<Seq<char>>;

    closed spec fn view(&self) -> Set<Seq<char>> {
        values_of(self.names@)
    }
}

impl NameSet {
    pub fn new() -> (set: Self)
        ensures
            set@ == Set::<Seq<char>>::empty(),
    {
        let set = NameSet { names: Vec::new() };
        assert(set@ =~= Set::<Seq<char>>::empty());
        set
    }

    pub fn contains(&self, name: &str) -> (found: bool)
        ensures
            found == self@.contains(name@),
    {
        let mut i: usize = 0;
        while i < self.names.len()
            invariant
                i <= self.names@.len(),
                forall|k: int| 0 <= k < i ==> (#[trigger] self.names@[k])@ != name@,
            decreases self.names@.len() - i,
        {
            if same_text(self.names[i].as_str(), name) {
                return true;
            }
            i += 1;
        }
        false
    }

    pub fn insert(&mut self, name: &str)
        ensures
            final(self)@ == old(self)@.insert(name@),
    {
        if !self.contains(name) {
            self.names.push(text_of(name));
            assert(self@ =~= old(self)@.insert(name@)) by {
                assert forall|n: Seq<char>| self@.contains(n) <==> old(self)@.insert(name@).contains(
                    n,
                ) by {
                    if old(self)@.insert(name@).contains(n) {
                        if n == name@ {
                            assert(self.names@[self.names@.len() - 1]@ == n);
                        } else {
                            let i = choose|i: int|
                                0 <= i < old(self).names@.len()
                                    && (#[trigger] old(self).names@[i])@ == n;
                            assert(self.names@[i]@ == n);
                        }
                    }
                    if self@.contains(n) {
                        let i = choose|i: int|
                            0 <= i < self.names@.len() && (#[trigger] self.names@[i])@ == n;
                        if i < old(self).names@.len() {
                            assert(old(self).names@[i]@ == n);
                        }
                    }
                }
            }
        } else {
            assert(self@ =~= old(self)@.insert(name@));
        }
    }

    pub fn remove(&mut self, name: &str)
        ensures
            final(self)@ == old(self)@.remove(name@),
    {
        let mut kept: Vec<String> = Vec::new();
        let mut i: usize = 0;
        while i < self.names.len()
            invariant
                *self == *old(self),
                i <= self.names@.len(),
                forall|n: Seq<char>|
                    values_of(kept@).contains(n) <==> n != name@ && exists|k: int|
                        0 <= k < i && (#[trigger] self.names@[k])@ == n,
            decreases self.names@.len() - i,
        {
            let ghost before = kept@;
            if !same_text(self.names[i].as_str(), name) {
                kept.push(self.names[i].clone());
                proof {
                    assert forall|n: Seq<char>|
                        values_of(kept@).contains(n) <==> n != name@ && exists|k: int|
                            0 <= k < i + 1 && (#[trigger] self.names@[k])@ == n by {
                        if values_of(kept@).contains(n) {
                            let w = choose|w: int| 0 <= w < kept@.len() && (#[trigger] kept@[w])@ == n;
                            if w < before.len() {
                                assert(before[w]@ == n);
                                assert(values_of(before).contains(n));
                            } else {
                                assert(self.names@[i as int]@ == n);
                            }
                        }
                        if n != name@ && exists|k: int|
                            0 <= k < i + 1 && (#[trigger] self.names@[k])@ == n {
                            let k = choose|k: int|
                                0 <= k < i + 1 && (#[trigger] self.names@[k])@ == n;
                            if k < i {
                                assert(values_of(before).contains(n));
                                let w = choose|w: int|
                                    0 <= w < before.len() && (#[trigger] before[w])@ == n;
                                assert(kept@[w]@ == n);
                            } else {
                                assert(kept@[kept@.len() - 1]@ == n);
                            }
                        }
                    }
                }
            }
            i += 1;
        }
        self.names = kept;
        assert(self@ =~= old(self)@.remove(name@));
    }

    /// The names, each once for every time it was given.
    pub fn to_vec(&self) -> (names: Vec<String>)
        ensures
            values_of(names@) == self@,
    {
        let mut names: Vec<String> = Vec::new();
        let mut i: usize = 0;
        while i < self.names.len()
            invariant
                i <= self.names@.len(),
                names@.len() == i,
                forall|k: int| 0 <= k < i ==> (#[trigger] names@[k])@ == self.names@[k]@,
            decreases self.names@.len() - i,
        {
            names.push(self.names[i].clone());
            i += 1;
        }
        assert(values_of(names@) =~= self@) by {
            assert forall|n: Seq<char>| values_of(names@).contains(n) <==> self@.contains(n) by {
                if values_of(names@).contains(n) {
                    let k = choose|k: int| 0 <= k < names@.len() && (#[trigger] names@[k])@ == n;
                    assert(self.names@[k]@ == n);
                }
                if self@.contains(n) {
                    let k = choose|k: int|
                        0 <= k < self.names@.len() && (#[trigger] self.names@[k])@ == n;
                    assert(names@[k]@ == n);
                }
            }
        }
        names
    }
}

/// Whether two strings hold the same text.
pub fn same_text(a: &str, b: &str) -> (same: bool)
    ensures
        same == (a@ == b@),
{
    let left = text_of(a);
    let right = text_of(b);
    left == right
}

/// An owned copy of `text`.
pub fn text_of(text: &str) -> (owned: String)
    ensures
        owned@ == text@,
{
    text.to_owned()
}

} // verus!
