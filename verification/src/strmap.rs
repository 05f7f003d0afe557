//! A map from text to values.
use crate::text::same_text;
use vstd::prelude::*;

verus! {

/// A map from text to values, as a list of entries with different keys.
pub struct StrMap<V> {
    pub entries: Vec<(String, V)>,
}

impl<V> StrMap<V> {
    /// An entry has the key.
    pub open spec fn has(self, k: Seq<char>) -> bool {
        exists|i: int| 0 <= i < self.entries@.len() && (#[trigger] self.entries@[i]).0@ == k
    }

    /// The entry that has the key.
    pub open spec fn pos(self, k: Seq<char>) -> int {
        choose|i: int| 0 <= i < self.entries@.len() && (#[trigger] self.entries@[i]).0@ == k
    }

    /// No key occurs twice.
    pub open spec fn wf(self) -> bool {
        forall|i: int, j: int|
            0 <= i < j < self.entries@.len() ==> (#[trigger] self.entries@[i]).0@ != (
            #[trigger] self.entries@[j]).0@
    }
}

impl<V> View for StrMap<V> {
    type V = Map<Seq<char>, V>;

    open spec fn view(&self) -> Map<Seq<char>, V> {
        Map::new(|k: Seq<char>| self.has(k), |k: Seq<char>| self.entries@[self.pos(k)].1)
    }
}

impl<V> StrMap<V> {
    /// An entry is what the map holds under its key.
    proof fn lemma_entry(self, i: int)
        requires
            self.wf(),
            0 <= i < self.entries@.len(),
        ensures
            self@.contains_key(self.entries@[i].0@),
            self@[self.entries@[i].0@] == self.entries@[i].1,
    {
        let k = self.entries@[i].0@;
        assert(self.has(k));
        let j = self.pos(k);
        assert(0 <= j < self.entries@.len() && self.entries@[j].0@ == k);
        assert(i == j);
    }

    /// The empty map.
    pub fn new() -> (r: Self)
        ensures
            r.wf(),
            r@ == Map::<Seq<char>, V>::empty(),
    {
        let r = StrMap { entries: Vec::new() };
        proof {
            assert(r@ =~= Map::<Seq<char>, V>::empty());
        }
        r
    }

    /// The place of the key's entry.
    fn find(&self, key: &str) -> (r: Option<usize>)
        ensures
            match r {
                Some(i) => i < self.entries@.len() && self.entries@[i as int].0@ == key@,
                None => !self.has(key@),
            },
    {
        let mut i: usize = 0;
        while i < self.entries.len()
            invariant
                i <= self.entries@.len(),
                forall|j: int| 0 <= j < i ==> (#[trigger] self.entries@[j]).0@ != key@,
            decreases self.entries@.len() - i,
        {
            if same_text(self.entries[i].0.as_str(), key) {
                return Some(i);
            }
            i = i + 1;
        }
        None
    }

    /// The value under the key.
    pub fn get(&self, key: &str) -> (r: Option<&V>)
        requires
            self.wf(),
        ensures
            match r {
                Some(v) => self@.contains_key(key@) && *v == self@[key@],
                None => !self@.contains_key(key@),
            },
    {
        match self.find(key) {
            Some(i) => {
                proof {
                    self.lemma_entry(i as int);
                }
                Some(&self.entries[i].1)
            },
            None => None,
        }
    }

    /// Puts a value under the key, in place of the one that is there.
    pub fn insert(&mut self, key: &str, value: V)
        requires
            old(self).wf(),
        ensures
            final(self).wf(),
            final(self)@ == old(self)@.insert(key@, value),
    {
        match self.find(key) {
            Some(i) => {
                self.entries.set(i, (key.to_owned(), value));
            },
            None => {
                self.entries.push((key.to_owned(), value));
            },
        }
        proof {
            let post = *self;
            let n = post.entries@.len();
            assert(post.wf());
            assert forall|k: Seq<char>| post.has(k) <==> (old(self).has(k) || k == key@) by {
                if old(self).has(k) {
                    let i = old(self).pos(k);
                    assert(post.entries@[i].0@ == k);
                }
                if post.has(k) && k != key@ {
                    let i = post.pos(k);
                    assert(old(self).entries@[i].0@ == k);
                }
                if k == key@ {
                    if old(self).has(key@) {
                        let i = old(self).pos(key@);
                        assert(post.entries@[i].0@ == key@);
                    } else {
                        assert(post.entries@[n - 1].0@ == key@);
                    }
                }
            }
            assert forall|k: Seq<char>| #[trigger] post@.contains_key(k) implies post@[k] == old(
                self)@.insert(key@, value)[k] by {
                let i = post.pos(k);
                post.lemma_entry(i);
                if k != key@ {
                    assert(old(self).entries@[i] == post.entries@[i]);
                    old(self).lemma_entry(i);
                } else if old(self).has(key@) {
                    old(self).lemma_entry(i);
                }
            }
            assert(post@ =~= old(self)@.insert(key@, value));
        }
    }

    /// Takes the key away, and says whether it was there.
    pub fn remove(&mut self, key: &str) -> (r: bool)
        requires
            old(self).wf(),
        ensures
            final(self).wf(),
            r == old(self)@.contains_key(key@),
            final(self)@ == old(self)@.remove(key@),
            !r ==> *final(self) == *old(self),
    {
        match self.find(key) {
            Some(i) => {
                let _ = self.entries.remove(i);
                proof {
                    let post = *self;
                    let at = |j: int| if j < i { j } else { j + 1 };
                    assert forall|j: int| 0 <= j < post.entries@.len() implies post.entries@[j]
                        == #[trigger] old(self).entries@[at(j)] by {}
                    assert(post.wf()) by {
                        assert forall|a: int, b: int| 0 <= a < b < post.entries@.len() implies (
                        #[trigger] post.entries@[a]).0@ != (#[trigger] post.entries@[b]).0@ by {
                            assert(old(self).entries@[at(a)].0@ != old(self).entries@[at(b)].0@);
                        }
                    }
                    assert forall|k: Seq<char>| post.has(k) <==> (old(self).has(k) && k
                        != key@) by {
                        if post.has(k) {
                            let j = post.pos(k);
                            assert(old(self).entries@[at(j)].0@ == k);
                            assert(old(self).entries@[i as int].0@ == key@);
                        }
                        if old(self).has(k) && k != key@ {
                            let j = old(self).pos(k);
                            let b = if j < i {
                                j
                            } else {
                                j - 1
                            };
                            assert(post.entries@[b].0@ == k);
                        }
                    }
                    assert forall|k: Seq<char>| #[trigger] post@.contains_key(k) implies post@[k]
                        == old(self)@[k] by {
                        let j = post.pos(k);
                        post.lemma_entry(j);
                        assert(old(self).entries@[at(j)] == post.entries@[j]);
                        old(self).lemma_entry(at(j));
                    }
                    assert(post@ =~= old(self)@.remove(key@));
                    old(self).lemma_entry(i as int);
                }
                true
            },
            None => {
                proof {
                    assert(self@ =~= old(self)@.remove(key@));
                }
                false
            },
        }
    }
}

} // verus!
