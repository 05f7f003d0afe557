//! A registry of kernel objects: what exists, who owns it, and what it is part of.
use crate::tables::{sorted_keys, strike};
use std::collections::BTreeMap;
use vstd::prelude::*;

verus! {

broadcast use vstd::std_specs::btree::group_btree_axioms;

/// A registered object.
#[derive(Clone, Copy, PartialEq, Eq, Structural, Debug)]
pub struct KObjEntry {
    pub obj_id: usize,
    pub type_tag: u32,
    pub owner_pid: usize,
    pub created_tick: usize,
    pub ref_count: usize,
    pub parent_id: Option<usize>,
}

/// Objects by number, and the numbers of the objects of each type in the order in which
/// they were registered.
pub struct KObjRegistry {
    pub objects: BTreeMap<usize, KObjEntry>,
    pub seq: usize,
    pub type_index: BTreeMap<u32, Vec<usize>>,
}

impl KObjRegistry {
    /// The numbers that are listed under a type.
    pub open spec fn ids_of(self, tag: u32) -> Seq<usize> {
        if self.type_index@.contains_key(tag) {
            self.type_index@[tag]@
        } else {
            Seq::empty()
        }
    }

    /// The lists agree with the objects: each object stands once in the list of its
    /// type, and nothing else does.
    pub open spec fn consistent(self) -> bool {
        &&& forall|tag: u32, id: usize| #[trigger]
            self.ids_of(tag).contains(id) <==> self.objects@.contains_key(id)
                && self.objects@[id].type_tag == tag
        &&& forall|tag: u32| (#[trigger] self.ids_of(tag)).no_duplicates()
    }

    /// The objects without references.
    pub open spec fn dead(self) -> Set<usize> {
        self.objects@.dom().filter(|id: usize| self.objects@[id].ref_count == 0)
    }

    /// The test for what stays listed under a type once the objects of `gone` are taken away.
    pub open spec fn outlives(self, gone: Set<usize>, tag: u32) -> spec_fn(usize) -> bool {
        |id: usize| !(gone.contains(id) && self.objects@[id].type_tag == tag)
    }

    /// The object as it is registered.
    pub open spec fn made(
        self,
        type_tag: u32,
        owner_pid: usize,
        now: usize,
        parent_id: Option<usize>,
    ) -> KObjEntry {
        KObjEntry {
            obj_id: self.seq,
            type_tag,
            owner_pid,
            created_tick: now,
            ref_count: 1,
            parent_id,
        }
    }

    /// `post` is this registry with `e` registered under the next number.
    pub open spec fn registered(self, e: KObjEntry, post: KObjRegistry) -> bool {
        &&& post.seq == self.seq.wrapping_add(1)
        &&& post.objects@ == self.objects@.insert(self.seq, e)
        &&& forall|tag: u32| #[trigger]
            post.ids_of(tag) == (if tag == e.type_tag {
                self.ids_of(tag).push(self.seq)
            } else {
                self.ids_of(tag)
            })
    }

    /// An empty registry, which counts from 1 on.
    pub fn new() -> (r: Self)
        ensures
            r.objects@ == Map::<usize, KObjEntry>::empty(),
            r.seq == 1,
            r.type_index@ == Map::<u32, Vec<usize>>::empty(),
            r.consistent(),
    {
        KObjRegistry { objects: BTreeMap::new(), seq: 1, type_index: BTreeMap::new() }
    }

    /// Puts the object under the next number, which is returned.
    fn add_entry(&mut self, e: KObjEntry) -> (id: usize)
        requires
            e.obj_id == old(self).seq,
        ensures
            id == old(self).seq,
            old(self).registered(e, *final(self)),
            old(self).consistent() && !old(self).objects@.contains_key(old(self).seq) ==> final(
                self).consistent(),
    {
        let id: usize = self.seq;
        self.seq = self.seq.wrapping_add(1);
        let _ = self.objects.insert(id, e);
        let tag: u32 = e.type_tag;
        let mut list: Vec<usize> = match self.type_index.remove(&tag) {
            Some(l) => l,
            None => Vec::new(),
        };
        proof {
            assert(list@ == old(self).ids_of(tag));
        }
        list.push(id);
        let _ = self.type_index.insert(tag, list);
        proof {
            assert forall|t: u32| #[trigger] self.ids_of(t) == (if t == tag {
                old(self).ids_of(t).push(id)
            } else {
                old(self).ids_of(t)
            }) by {}
            if old(self).consistent() && !old(self).objects@.contains_key(id) {
                assert forall|t: u32, x: usize| #[trigger]
                    self.ids_of(t).contains(x) <==> self.objects@.contains_key(x)
                        && self.objects@[x].type_tag == t by {
                    crate::tables::lemma_push_contains(old(self).ids_of(t), id, x);
                    assert(old(self).ids_of(t).contains(x) <==> old(self).objects@.contains_key(x)
                        && old(self).objects@[x].type_tag == t);
                }
                assert forall|t: u32| (#[trigger] self.ids_of(t)).no_duplicates() by {
                    assert(old(self).ids_of(t).no_duplicates());
                    assert(!old(self).ids_of(t).contains(id));
                }
            }
        }
        id
    }

    /// Registers an object that is part of no other, and returns its number.
    pub fn register(&mut self, type_tag: u32, owner_pid: usize, now: usize) -> (id: usize)
        ensures
            id == old(self).seq,
            old(self).registered(old(self).made(type_tag, owner_pid, now, None), *final(self)),
            old(self).consistent() && !old(self).objects@.contains_key(old(self).seq) ==> final(
                self).consistent(),
    {
        let e = KObjEntry {
            obj_id: self.seq,
            type_tag,
            owner_pid,
            created_tick: now,
            ref_count: 1,
            parent_id: None,
        };
        self.add_entry(e)
    }

    /// Registers an object that is part of another, and returns its number.
    pub fn register_child(&mut self, type_tag: u32, owner_pid: usize, parent: usize, now: usize)
        -> (id: usize)
        ensures
            id == old(self).seq,
            old(self).registered(
                old(self).made(type_tag, owner_pid, now, Some(parent)),
                *final(self),
            ),
            old(self).consistent() && !old(self).objects@.contains_key(old(self).seq) ==> final(
                self).consistent(),
    {
        let e = KObjEntry {
            obj_id: self.seq,
            type_tag,
            owner_pid,
            created_tick: now,
            ref_count: 1,
            parent_id: Some(parent),
        };
        self.add_entry(e)
    }

    /// `post` is this registry without the object, which is there.
    pub open spec fn unregistered(self, id: usize, post: KObjRegistry) -> bool {
        &&& post.seq == self.seq
        &&& post.objects@ == self.objects@.remove(id)
        &&& forall|tag: u32| #[trigger]
            post.ids_of(tag) == (if tag == self.objects@[id].type_tag {
                crate::tables::without(self.ids_of(tag), id)
            } else {
                self.ids_of(tag)
            })
    }

    /// Takes an object away, and says whether it was there.
    pub fn unregister(&mut self, id: usize) -> (r: bool)
        ensures
            r == old(self).objects@.contains_key(id),
            !r ==> final(self).seq == old(self).seq && final(self).objects@ == old(
                self).objects@ && final(self).type_index@ == old(self).type_index@,
            r ==> old(self).unregistered(id, *final(self)),
            old(self).consistent() ==> final(self).consistent(),
    {
        match self.objects.remove(&id) {
            None => {
                proof {
                    assert(self.objects@ =~= old(self).objects@);
                    assert forall|t: u32| #[trigger] self.ids_of(t) == old(self).ids_of(t) by {}
                }
                false
            },
            Some(e) => {
                let tag: u32 = e.type_tag;
                if let Some(mut list) = self.type_index.remove(&tag) {
                    strike(&mut list, id);
                    let _ = self.type_index.insert(tag, list);
                } else {
                    proof {
                        assert(crate::tables::without(Seq::<usize>::empty(), id)
                            =~= Seq::empty()) by {
                            reveal(Seq::filter);
                        }
                    }
                }
                proof {
                    assert forall|t: u32| #[trigger] self.ids_of(t) == (if t == tag {
                        crate::tables::without(old(self).ids_of(t), id)
                    } else {
                        old(self).ids_of(t)
                    }) by {}
                    if old(self).consistent() {
                        lemma_unregister_consistent(*old(self), id, *self);
                    }
                }
                true
            },
        }
    }

    /// The numbers of the objects of a type, in the order in which they were registered.
    pub fn find_by_type(&self, tag: u32) -> (r: Vec<usize>)
        ensures
            r@ == self.ids_of(tag),
    {
        match self.type_index.get(&tag) {
            Some(list) => {
                let l = list.clone();
                proof {
                    assert(l@ =~= list@);
                }
                l
            },
            None => Vec::new(),
        }
    }

    /// What is part of what: each object that is part of another, with that other one
    /// first, by number.
    pub fn dump_graph(&self) -> (r: Vec<(usize, usize)>)
        ensures
            forall|i: int, j: int|
                0 <= i < j < r@.len() ==> (#[trigger] r@[i]).1 < (#[trigger] r@[j]).1,
            forall|p: usize, c: usize| #[trigger]
                r@.contains((p, c)) <==> self.objects@.contains_key(c)
                    && self.objects@[c].parent_id == Some(p),
    {
        let ids = sorted_keys(&self.objects);
        let mut r: Vec<(usize, usize)> = Vec::new();
        let mut i: usize = 0;
        while i < ids.len()
            invariant
                i <= ids@.len(),
                crate::tables::ascending(ids@),
                forall|k: usize| ids@.contains(k) <==> self.objects@.contains_key(k),
                forall|a: int, b: int|
                    0 <= a < b < r@.len() ==> (#[trigger] r@[a]).1 < (#[trigger] r@[b]).1,
                forall|a: int|
                    0 <= a < r@.len() ==> exists|k: int|
                        0 <= k < i && (#[trigger] r@[a]).1 == #[trigger] ids@[k]
                            && self.objects@[ids@[k]].parent_id == Some(r@[a].0),
                forall|k: int|
                    0 <= k < i && self.objects@[#[trigger] ids@[k]].parent_id is Some
                        ==> r@.contains((self.objects@[ids@[k]].parent_id->0, ids@[k])),
            decreases ids@.len() - i,
        {
            let id: usize = ids[i];
            let ghost before = r@;
            proof {
                assert(ids@.contains(id));
            }
            if let Some(e) = self.objects.get(&id) {
                if let Some(p) = e.parent_id {
                    r.push((p, id));
                    proof {
                        assert(r@[before.len() as int] == (p, id));
                        assert forall|k: int|
                            0 <= k < i && self.objects@[#[trigger] ids@[k]].parent_id
                                is Some implies r@.contains(
                            (self.objects@[ids@[k]].parent_id->0, ids@[k]),
                        ) by {
                            let pair = (self.objects@[ids@[k]].parent_id->0, ids@[k]);
                            let a = choose|a: int| 0 <= a < before.len() && before[a] == pair;
                            assert(r@[a] == pair);
                        }
                        assert forall|a: int| 0 <= a < r@.len() implies exists|k: int|
                            0 <= k < i + 1 && (#[trigger] r@[a]).1 == #[trigger] ids@[k]
                                && self.objects@[ids@[k]].parent_id == Some(r@[a].0) by {
                            if a < before.len() {
                                assert(r@[a] == before[a]);
                            } else {
                                assert(r@[a].1 == ids@[i as int]);
                            }
                        }
                    }
                }
            }
            i = i + 1;
        }
        proof {
            assert forall|p: usize, c: usize| #[trigger]
                r@.contains((p, c)) <==> self.objects@.contains_key(c)
                    && self.objects@[c].parent_id == Some(p) by {
                if r@.contains((p, c)) {
                    let a = choose|a: int| 0 <= a < r@.len() && r@[a] == (p, c);
                    assert(r@[a].1 == c);
                    let k = choose|k: int|
                        0 <= k < i && r@[a].1 == #[trigger] ids@[k]
                            && self.objects@[ids@[k]].parent_id == Some(r@[a].0);
                    assert(ids@.contains(c));
                }
                if self.objects@.contains_key(c) && self.objects@[c].parent_id == Some(p) {
                    assert(ids@.contains(c));
                    let k = choose|k: int| 0 <= k < ids@.len() && ids@[k] == c;
                    assert(self.objects@[ids@[k]].parent_id is Some);
                }
            }
        }
        r
    }

    /// Takes the objects without references away, and says how many they were.
    pub fn gc_sweep(&mut self) -> (r: usize)
        ensures
            r == old(self).dead().len(),
            final(self).seq == old(self).seq,
            final(self).objects@ == old(self).objects@.remove_keys(old(self).dead()),
            forall|tag: u32| #[trigger]
                final(self).ids_of(tag) == old(self).ids_of(tag).filter(
                    old(self).outlives(old(self).dead(), tag),
                ),
            old(self).consistent() ==> final(self).consistent(),
    {
        let ids = sorted_keys(&self.objects);
        let ghost dead = self.dead();
        let ghost mut done = Set::<usize>::empty();
        let mut count: usize = 0;
        let mut i: usize = 0;
        proof {
            assert(self.objects@.remove_keys(done) =~= self.objects@);
            assert forall|tag: u32| #[trigger] self.ids_of(tag) == old(self).ids_of(tag).filter(
                old(self).outlives(done, tag),
            ) by {
                lemma_filter_all(self.ids_of(tag), old(self).outlives(done, tag));
            }
        }
        while i < ids.len()
            invariant
                i <= ids@.len(),
                count <= i,
                crate::tables::ascending(ids@),
                forall|k: usize| ids@.contains(k) <==> old(self).objects@.contains_key(k),
                dead == old(self).dead(),
                done.finite(),
                done.len() == count,
                forall|k: usize| done.contains(k) <==> dead.contains(k) && ids@.take(
                    i as int,
                ).contains(k),
                self.seq == old(self).seq,
                self.objects@ == old(self).objects@.remove_keys(done),
                forall|tag: u32| #[trigger]
                    self.ids_of(tag) == old(self).ids_of(tag).filter(
                        old(self).outlives(done, tag),
                    ),
                old(self).consistent() ==> self.consistent(),
            decreases ids@.len() - i,
        {
            let id: usize = ids[i];
            let ghost before = *self;
            proof {
                assert(ids@.contains(id));
                assert(ids@.take(i + 1) =~= ids@.take(i as int).push(id));
                assert(!ids@.take(i as int).contains(id));
                assert forall|k: usize| ids@.take(i + 1).contains(k) <==> (ids@.take(
                    i as int,
                ).contains(k) || k == id) by {
                    crate::tables::lemma_push_contains(ids@.take(i as int), id, k);
                }
            }
            let gone = match self.objects.get(&id) {
                Some(e) => e.ref_count == 0,
                None => false,
            };
            if gone {
                let _ = self.unregister(id);
                count = count + 1;
                proof {
                    let was = done;
                    done = done.insert(id);
                    assert(self.objects@ =~= old(self).objects@.remove_keys(done));
                    assert forall|tag: u32| #[trigger] self.ids_of(tag) == old(self).ids_of(
                        tag,
                    ).filter(old(self).outlives(done, tag)) by {
                        let all = old(self).ids_of(tag);
                        let left = old(self).outlives(done.remove(id), tag);
                        let leaves = old(self).outlives(done, tag);
                        assert(before.ids_of(tag) == all.filter(left)) by {
                            assert(done.remove(id) =~= was);
                        }
                        if tag == before.objects@[id].type_tag {
                            let p = crate::tables::other_than(id);
                            assert(self.ids_of(tag) == before.ids_of(tag).filter(p));
                            lemma_filter_twice(all, left, p, leaves);
                        } else {
                            assert(left =~= leaves);
                        }
                    }
                }
            }
            i = i + 1;
        }
        proof {
            assert(ids@.take(i as int) =~= ids@);
            assert(done =~= dead);
        }
        count
    }

    /// `post` is this registry with another count of references to the object.
    pub open spec fn recounted(self, id: usize, n: usize, post: KObjRegistry) -> bool {
        &&& post.seq == self.seq
        &&& post.type_index@ == self.type_index@
        &&& post.objects@ == self.objects@.insert(
            id,
            KObjEntry { ref_count: n, ..self.objects@[id] },
        )
    }

    /// Counts one more reference to the object, and says whether it is there.
    pub fn ref_up(&mut self, id: usize) -> (r: bool)
        requires
            old(self).objects@.contains_key(id) ==> old(self).objects@[id].ref_count < usize::MAX,
        ensures
            r == old(self).objects@.contains_key(id),
            r ==> old(self).recounted(
                id,
                (old(self).objects@[id].ref_count + 1) as usize,
                *final(self),
            ),
            !r ==> *final(self) == *old(self),
    {
        let e = match self.objects.get(&id) {
            Some(e) => *e,
            None => {
                return false;
            },
        };
        let _ = self.objects.insert(id, recount(e, e.ref_count + 1));
        true
    }

    /// Counts one reference to the object less, though none below zero, and says whether
    /// it is there.
    pub fn ref_down(&mut self, id: usize) -> (r: bool)
        ensures
            r == old(self).objects@.contains_key(id),
            r ==> old(self).recounted(
                id,
                (if old(self).objects@[id].ref_count > 0 {
                    (old(self).objects@[id].ref_count - 1) as usize
                } else {
                    0
                }),
                *final(self),
            ),
            !r ==> *final(self) == *old(self),
    {
        let e = match self.objects.get(&id) {
            Some(e) => *e,
            None => {
                return false;
            },
        };
        let _ = self.objects.insert(id, recount(e, e.ref_count.saturating_sub(1)));
        true
    }

    /// The number of objects.
    pub fn count(&self) -> (r: usize)
        ensures
            r == self.objects@.len(),
    {
        self.objects.len()
    }

    /// The numbers of the objects of a process, in increasing order.
    pub fn owner_objects(&self, pid: usize) -> (r: Vec<usize>)
        ensures
            crate::tables::ascending(r@),
            forall|id: usize|
                r@.contains(id) <==> self.objects@.contains_key(id) && self.objects@[id].owner_pid
                    == pid,
    {
        let ids = sorted_keys(&self.objects);
        let ghost owned = |id: usize| self.objects@[id].owner_pid == pid;
        let mut r: Vec<usize> = Vec::new();
        let mut i: usize = 0;
        while i < ids.len()
            invariant
                i <= ids@.len(),
                crate::tables::ascending(ids@),
                forall|k: usize| ids@.contains(k) <==> self.objects@.contains_key(k),
                owned == (|id: usize| self.objects@[id].owner_pid == pid),
                crate::tables::collected(r@, ids@, i as int, owned),
            decreases ids@.len() - i,
        {
            let id: usize = ids[i];
            proof {
                assert(ids@.contains(id));
                crate::tables::lemma_collect_step(r@, ids@, i as int, owned);
            }
            if let Some(e) = self.objects.get(&id) {
                if e.owner_pid == pid {
                    r.push(id);
                }
            }
            i = i + 1;
        }
        proof {
            assert(ids@.take(i as int) =~= ids@);
        }
        r
    }
}

fn recount(e: KObjEntry, n: usize) -> (r: KObjEntry)
    ensures
        r == (KObjEntry { ref_count: n, ..e }),
{
    KObjEntry {
        obj_id: e.obj_id,
        type_tag: e.type_tag,
        owner_pid: e.owner_pid,
        created_tick: e.created_tick,
        ref_count: n,
        parent_id: e.parent_id,
    }
}

/// Taking an object away keeps the lists in agreement with the objects.
proof fn lemma_unregister_consistent(a: KObjRegistry, id: usize, b: KObjRegistry)
    requires
        a.consistent(),
        a.objects@.contains_key(id),
        a.unregistered(id, b),
    ensures
        b.consistent(),
{
    assert forall|t: u32, x: usize| #[trigger]
        b.ids_of(t).contains(x) <==> b.objects@.contains_key(x) && b.objects@[x].type_tag == t by {
        crate::tables::lemma_without(a.ids_of(t), id);
        assert(b.ids_of(t) == (if t == a.objects@[id].type_tag {
            crate::tables::without(a.ids_of(t), id)
        } else {
            a.ids_of(t)
        }));
        assert(a.ids_of(t).contains(x) <==> a.objects@.contains_key(x) && a.objects@[x].type_tag
            == t);
        assert(crate::tables::without(a.ids_of(t), id).contains(x) <==> a.ids_of(t).contains(x)
            && x != id);
    }
    assert forall|t: u32| (#[trigger] b.ids_of(t)).no_duplicates() by {
        assert(a.ids_of(t).no_duplicates());
        lemma_filter_no_duplicates(a.ids_of(t), crate::tables::other_than(id));
    }
}

/// What is left of a list without repetitions has none.
proof fn lemma_filter_no_duplicates(s: Seq<usize>, p: spec_fn(usize) -> bool)
    requires
        s.no_duplicates(),
    ensures
        s.filter(p).no_duplicates(),
    decreases s.len(),
{
    reveal(Seq::filter);
    if s.len() > 0 {
        let t = s.drop_last();
        lemma_filter_no_duplicates(t, p);
        crate::tables::lemma_filter_holds(t, p, s.last());
        if t.contains(s.last()) {
            let i = choose|i: int| 0 <= i < t.len() && t[i] == s.last();
            assert(s[i] == s[s.len() - 1]);
        }
    }
}

/// An object that was registered and taken away again leaves the objects as they were.
pub proof fn law_unregister_undoes_register(
    a: KObjRegistry,
    e: KObjEntry,
    b: KObjRegistry,
    c: KObjRegistry,
)
    requires
        a.consistent(),
        !a.objects@.contains_key(a.seq),
        a.registered(e, b),
        b.unregistered(a.seq, c),
    ensures
        c.objects@ == a.objects@,
        forall|tag: u32| #[trigger] c.ids_of(tag) == a.ids_of(tag),
{
    assert(c.objects@ =~= a.objects@);
    assert forall|tag: u32| #[trigger] c.ids_of(tag) == a.ids_of(tag) by {
        assert(b.ids_of(tag) == (if tag == e.type_tag {
            a.ids_of(tag).push(a.seq)
        } else {
            a.ids_of(tag)
        }));
        if tag == e.type_tag {
            let s = a.ids_of(tag);
            let p = crate::tables::other_than(a.seq);
            assert(!s.contains(a.seq));
            lemma_filter_all(s, p);
            assert(s.push(a.seq).filter(p) == s) by {
                reveal(Seq::filter);
                assert(s.push(a.seq).drop_last() =~= s);
            }
        }
    }
}

/// Two filters, one after the other, are one.
proof fn lemma_filter_twice(
    s: Seq<usize>,
    p: spec_fn(usize) -> bool,
    q: spec_fn(usize) -> bool,
    both: spec_fn(usize) -> bool,
)
    requires
        forall|x: usize| #[trigger] both(x) == (p(x) && q(x)),
    ensures
        s.filter(p).filter(q) == s.filter(both),
    decreases s.len(),
{
    reveal(Seq::filter);
    if s.len() > 0 {
        let t = s.drop_last();
        lemma_filter_twice(t, p, q, both);
        let x = s.last();
        assert(both(x) == (p(x) && q(x)));
        assert(t.filter(p).push(x).drop_last() =~= t.filter(p));
    }
}

/// A filter that everything passes changes nothing.
proof fn lemma_filter_all(s: Seq<usize>, p: spec_fn(usize) -> bool)
    requires
        forall|i: int| 0 <= i < s.len() ==> p(#[trigger] s[i]),
    ensures
        s.filter(p) == s,
    decreases s.len(),
{
    reveal(Seq::filter);
    if s.len() > 0 {
        lemma_filter_all(s.drop_last(), p);
        assert(s =~= s.drop_last().push(s.last()));
    }
}

/// A new object has the number that was next, one reference, and what it was made with.
pub proof fn law_new_object_has_one_reference(
    a: KObjRegistry,
    tag: u32,
    owner: usize,
    now: usize,
    parent: Option<usize>,
)
    ensures
        a.made(tag, owner, now, parent).obj_id == a.seq,
        a.made(tag, owner, now, parent).ref_count == 1,
        a.made(tag, owner, now, parent).type_tag == tag,
        a.made(tag, owner, now, parent).owner_pid == owner,
        a.made(tag, owner, now, parent).created_tick == now,
        a.made(tag, owner, now, parent).parent_id == parent,
{
}

/// A registered object is found by its number and by its type alone, and leaves every other
/// object as it was.
pub proof fn law_registered_object_is_found(a: KObjRegistry, e: KObjEntry, b: KObjRegistry)
    requires
        a.consistent(),
        !a.objects@.contains_key(a.seq),
        a.registered(e, b),
    ensures
        b.objects@.contains_key(a.seq),
        b.objects@[a.seq] == e,
        b.seq == a.seq + 1 || (a.seq == usize::MAX && b.seq == 0),
        forall|id: usize| id != a.seq ==> (#[trigger] b.objects@.contains_key(id)
            == a.objects@.contains_key(id)),
        forall|id: usize|
            id != a.seq && a.objects@.contains_key(id) ==> #[trigger] b.objects@[id]
                == a.objects@[id],
        forall|tag: u32| #[trigger]
            b.ids_of(tag).contains(a.seq) <==> tag == e.type_tag,
        forall|tag: u32, id: usize|
            id != a.seq ==> (#[trigger] b.ids_of(tag).contains(id) == a.ids_of(tag).contains(id)),
{
    assert forall|tag: u32| #[trigger] b.ids_of(tag).contains(a.seq) <==> tag == e.type_tag by {
        crate::tables::lemma_push_contains(a.ids_of(tag), a.seq, a.seq);
        assert(a.ids_of(tag).contains(a.seq) <==> a.objects@.contains_key(a.seq)
            && a.objects@[a.seq].type_tag == tag);
    }
    assert forall|tag: u32, id: usize| id != a.seq implies (#[trigger] b.ids_of(tag).contains(id)
        == a.ids_of(tag).contains(id)) by {
        crate::tables::lemma_push_contains(a.ids_of(tag), a.seq, id);
    }
}

/// A sweep keeps exactly the objects that somebody refers to, in the listings too.
pub proof fn law_sweep_keeps_what_is_referred_to(a: KObjRegistry, tag: u32, id: usize)
    requires
        a.consistent(),
    ensures
        a.objects@.remove_keys(a.dead()).contains_key(id) <==> a.objects@.contains_key(id)
            && a.objects@[id].ref_count > 0,
        a.objects@.remove_keys(a.dead()).contains_key(id) ==> a.objects@.remove_keys(a.dead())[id]
            == a.objects@[id],
        a.ids_of(tag).filter(a.outlives(a.dead(), tag)).contains(id) <==> a.objects@.contains_key(id)
            && a.objects@[id].type_tag == tag && a.objects@[id].ref_count > 0,
{
    crate::tables::lemma_filter_holds(a.ids_of(tag), a.outlives(a.dead(), tag), id);
    assert(a.ids_of(tag).contains(id) <==> a.objects@.contains_key(id) && a.objects@[id].type_tag
        == tag);
}

/// A change of an object's count changes that count and nothing else.
pub proof fn law_count_changes_alone(a: KObjRegistry, id: usize, n: usize, b: KObjRegistry)
    requires
        a.objects@.contains_key(id),
        a.recounted(id, n, b),
    ensures
        b.objects@[id].ref_count == n,
        b.objects@[id].type_tag == a.objects@[id].type_tag,
        b.objects@[id].owner_pid == a.objects@[id].owner_pid,
        b.objects@[id].parent_id == a.objects@[id].parent_id,
        b.objects@[id].obj_id == a.objects@[id].obj_id,
        b.objects@[id].created_tick == a.objects@[id].created_tick,
        b.objects@.dom() == a.objects@.dom(),
        forall|other: usize|
            other != id && a.objects@.contains_key(other) ==> #[trigger] b.objects@[other]
                == a.objects@[other],
        b.seq == a.seq,
        a.consistent() ==> b.consistent(),
{
    assert(b.objects@.dom() =~= a.objects@.dom());
    if a.consistent() {
        assert forall|tag: u32| #[trigger] b.ids_of(tag) == a.ids_of(tag) by {}
        assert forall|tag: u32, x: usize| #[trigger]
            b.ids_of(tag).contains(x) <==> b.objects@.contains_key(x) && b.objects@[x].type_tag
                == tag by {
            assert(a.ids_of(tag).contains(x) <==> a.objects@.contains_key(x)
                && a.objects@[x].type_tag == tag);
        }
    }
}

} // verus!
