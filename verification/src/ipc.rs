//! System V semaphores and shared memory.

use std::collections::BTreeMap;

use vstd::prelude::*;

use crate::sync::{EvFlag, Sema};
use crate::tables::{first_free, sorted_keys};

verus! {

broadcast use vstd::std_specs::btree::group_btree_axioms;

/// A process's own number for a semaphore array.
pub type SemId = usize;

/// The number of a semaphore in its array.
pub type SemNum = u16;

/// What an operation adds to a semaphore.
pub type SemOp = i16;

/// A process's own number for a shared memory segment.
pub type ShmId = usize;

// ---- Objects that are found by a key and live as long as something refers to them ----

/// Objects found by a key. Each has the number of references to it; with none left its
/// key no longer leads to it.
pub struct IpcStore<T> {
    pub items: Vec<T>,
    pub refs: Vec<usize>,
    pub keys: BTreeMap<usize, usize>,
}

/// What a store of objects holds.
#[verifier::ext_equal]
pub struct Stock<T> {
    pub items: Seq<T>,
    pub refs: Seq<usize>,
    pub keys: Map<usize, usize>,
}

/// The test for the keys that lead to `a`.
pub open spec fn leads_to(links: Map<usize, usize>, a: usize) -> spec_fn(usize) -> bool {
    |k: usize| links[k] == a
}

/// How many of the keys in `over` lead to `a`.
pub open spec fn uses_over(links: Map<usize, usize>, over: Set<usize>, a: usize) -> nat {
    over.filter(leads_to(links, a)).len()
}

/// How many keys lead to `a`.
pub open spec fn uses(links: Map<usize, usize>, a: usize) -> nat {
    uses_over(links, links.dom(), a)
}

/// The count with `k` taken off, or nothing where it is smaller.
pub open spec fn less(n: usize, k: nat) -> usize {
    if n >= k {
        (n - k) as usize
    } else {
        0
    }
}

impl<T> Stock<T> {
    /// Each object has a count, and every key leads to an object.
    pub open spec fn wf(self) -> bool {
        &&& self.items.len() == self.refs.len()
        &&& forall|k: usize| #[trigger]
            self.keys.contains_key(k) ==> self.keys[k] < self.items.len()
    }

    /// There is an object at `i` and something refers to it.
    pub open spec fn has(self, i: usize) -> bool {
        i < self.refs.len() && self.refs[i as int] > 0
    }

    /// The key leads to an object that something refers to.
    pub open spec fn live(self, key: usize) -> bool {
        self.keys.contains_key(key) && self.has(self.keys[key])
    }

    /// One reference more to `i`.
    pub open spec fn kept(self, i: usize) -> Stock<T> {
        Stock { refs: self.refs.update(i as int, (self.refs[i as int] + 1) as usize), ..self }
    }

    /// One reference less to `i`.
    pub open spec fn dropped(self, i: usize) -> Stock<T> {
        Stock { refs: self.refs.update(i as int, (self.refs[i as int] - 1) as usize), ..self }
    }

    /// A new object under a key, with one reference.
    pub open spec fn added(self, key: usize, item: T) -> Stock<T> {
        Stock {
            items: self.items.push(item),
            refs: self.refs.push(1),
            keys: self.keys.insert(key, self.items.len() as usize),
        }
    }

    /// Every link leads to an object.
    pub open spec fn reached_by(self, links: Map<usize, usize>) -> bool {
        &&& links.dom().finite()
        &&& forall|k: usize| #[trigger] links.contains_key(k) ==> links[k] < self.items.len()
    }

    /// There is room to count one reference more for each link.
    pub open spec fn room_for(self, links: Map<usize, usize>) -> bool {
        forall|a: usize|
            a < self.refs.len() ==> #[trigger] self.refs[a as int] + uses(links, a) <= usize::MAX
    }

    /// One reference less for each link, as far as there are any.
    pub open spec fn let_go_all(self, links: Map<usize, usize>) -> Stock<T> {
        Stock {
            refs: Seq::new(
                self.refs.len(),
                |a: int| less(self.refs[a], uses(links, a as usize)),
            ),
            ..self
        }
    }

    /// One reference more for each link.
    pub open spec fn kept_all(self, links: Map<usize, usize>) -> Stock<T> {
        Stock {
            refs: Seq::new(
                self.refs.len(),
                |a: int| (self.refs[a] + uses(links, a as usize)) as usize,
            ),
            ..self
        }
    }
}

proof fn lemma_uses_step(links: Map<usize, usize>, over: Set<usize>, k: usize, a: usize)
    requires
        over.finite(),
        !over.contains(k),
    ensures
        uses_over(links, over.insert(k), a) == uses_over(links, over, a) + if links[k] == a {
            1nat
        } else {
            0nat
        },
{
    let p = leads_to(links, a);
    if links[k] == a {
        assert(over.insert(k).filter(p) =~= over.filter(p).insert(k));
    } else {
        assert(over.insert(k).filter(p) =~= over.filter(p));
    }
}

proof fn lemma_uses_mono(links: Map<usize, usize>, over: Set<usize>, a: usize)
    requires
        links.dom().finite(),
        over.subset_of(links.dom()),
    ensures
        uses_over(links, over, a) <= uses(links, a),
{
    let p = leads_to(links, a);
    vstd::set_lib::lemma_len_subset(over.filter(p), links.dom().filter(p));
}

proof fn lemma_uses_none(links: Map<usize, usize>, a: usize)
    ensures
        uses_over(links, Set::empty(), a) == 0,
{
    assert(Set::<usize>::empty().filter(leads_to(links, a)) =~= Set::empty());
}

/// The keys that stand before place `n`.
spec fn before(ids: Seq<usize>, n: int) -> Set<usize> {
    ids.take(n).to_set()
}

proof fn lemma_before_step(ids: Seq<usize>, n: int)
    requires
        crate::tables::ascending(ids),
        0 <= n < ids.len(),
    ensures
        before(ids, n).finite(),
        !before(ids, n).contains(ids[n]),
        before(ids, n + 1) == before(ids, n).insert(ids[n]),
{
    vstd::seq_lib::seq_to_set_is_finite(ids.take(n));
    let (s, t) = (ids.take(n), ids.take(n + 1));
    assert forall|k: usize| before(ids, n + 1).contains(k) <==> before(ids, n).insert(
        ids[n],
    ).contains(k) by {
        if before(ids, n).contains(k) {
            let i = choose|i: int| 0 <= i < n && s[i] == k;
            assert(t[i] == k);
        }
        if before(ids, n + 1).contains(k) {
            let i = choose|i: int| 0 <= i < t.len() && t[i] == k;
            if i < n {
                assert(s[i] == k);
            }
        }
        if k == ids[n] {
            assert(t[n] == k);
        }
    }
    assert(before(ids, n + 1) =~= before(ids, n).insert(ids[n]));
}

proof fn lemma_before_all(ids: Seq<usize>, dom: Set<usize>)
    requires
        forall|k: usize| ids.contains(k) <==> dom.contains(k),
    ensures
        before(ids, ids.len() as int) == dom,
        before(ids, 0) == Set::<usize>::empty(),
{
    assert(ids.take(ids.len() as int) =~= ids);
    assert(before(ids, ids.len() as int) =~= dom);
    assert(before(ids, 0) =~= Set::empty());
}

/// The links from each of `ids` to what stands at the same place in `at`.
spec fn link_map(ids: Seq<usize>, at: Seq<usize>) -> Map<usize, usize> {
    Map::new(|k: usize| ids.contains(k), |k: usize| at[ids.index_of(k)])
}

proof fn lemma_link_map(ids: Seq<usize>, at: Seq<usize>, links: Map<usize, usize>)
    requires
        crate::tables::ascending(ids),
        ids.len() == at.len(),
        forall|k: usize| ids.contains(k) <==> links.contains_key(k),
        forall|i: int| 0 <= i < ids.len() ==> #[trigger] at[i] == links[ids[i]],
    ensures
        link_map(ids, at) == links,
{
    assert forall|k: usize| links.contains_key(k) implies #[trigger] link_map(ids, at)[k]
        == links[k] by {
        assert(ids.contains(k));
        let i = ids.index_of(k);
        assert(at[i] == links[ids[i]]);
    }
    assert(link_map(ids, at) =~= links);
}

impl<T> View for IpcStore<T> {
    type V = Stock<T>;

    open spec fn view(&self) -> Stock<T> {
        Stock { items: self.items@, refs: self.refs@, keys: self.keys@ }
    }
}

impl<T> IpcStore<T> {
    /// A store without objects.
    pub fn new() -> (r: Self)
        ensures
            r@ == (Stock::<T> { items: Seq::empty(), refs: Seq::empty(), keys: Map::empty() }),
            r@.wf(),
    {
        IpcStore { items: Vec::new(), refs: Vec::new(), keys: BTreeMap::new() }
    }

    /// The object under a key, while something refers to it.
    pub fn lookup(&self, key: usize) -> (r: Option<usize>)
        requires
            self@.wf(),
        ensures
            r == if self@.live(key) {
                Some(self@.keys[key])
            } else {
                None
            },
    {
        match self.keys.get(&key) {
            Some(i) => {
                assert(self@.keys.contains_key(key));
                if self.refs[*i] > 0 {
                    Some(*i)
                } else {
                    None
                }
            },
            None => None,
        }
    }

    /// Puts a new object under a key.
    pub fn put(&mut self, key: usize, item: T) -> (r: usize)
        requires
            old(self)@.wf(),
        ensures
            final(self)@.wf(),
            final(self)@ == old(self)@.added(key, item),
            r == old(self)@.items.len(),
            final(self)@.has(r),
    {
        let i: usize = self.items.len();
        self.items.push(item);
        self.refs.push(1);
        self.keys.insert(key, i);
        proof {
            assert forall|k: usize| #[trigger] self@.keys.contains_key(k) implies self@.keys[k]
                < self@.items.len() by {
                if k != key {
                    assert(old(self)@.keys.contains_key(k));
                }
            }
        }
        i
    }

    /// Takes one more reference to an object.
    pub fn retain(&mut self, i: usize)
        requires
            old(self)@.wf(),
            i < old(self)@.items.len(),
            old(self)@.refs[i as int] < usize::MAX,
        ensures
            final(self)@.wf(),
            final(self)@ == old(self)@.kept(i),
    {
        let n: usize = self.refs[i];
        self.refs[i] = n + 1;
        assert(self@.keys == old(self)@.keys);
    }

    /// Gives one reference to an object back.
    pub fn release(&mut self, i: usize)
        requires
            old(self)@.wf(),
            old(self)@.has(i),
        ensures
            final(self)@.wf(),
            final(self)@ == old(self)@.dropped(i),
    {
        let n: usize = self.refs[i];
        self.refs[i] = n - 1;
        assert(self@.keys == old(self)@.keys);
    }
}

impl<T> IpcStore<T> {
    /// Takes one more reference for each link.
    fn retain_each(&mut self, ids: &Vec<usize>, at: &Vec<usize>)
        requires
            crate::tables::ascending(ids@),
            ids@.len() == at@.len(),
            old(self)@.wf(),
            old(self)@.reached_by(link_map(ids@, at@)),
            old(self)@.room_for(link_map(ids@, at@)),
        ensures
            final(self)@.wf(),
            final(self)@ == old(self)@.kept_all(link_map(ids@, at@)),
    {
        let ghost links = link_map(ids@, at@);
        let mut n: usize = 0;
        proof {
            lemma_before_all(ids@, links.dom());
            assert forall|a: usize| a < self@.refs.len() implies #[trigger] self@.refs[a as int]
                == old(self)@.refs[a as int] + uses_over(links, before(ids@, 0), a) by {
                lemma_uses_none(links, a);
            }
        }
        while n < ids.len()
            invariant
                links == link_map(ids@, at@),
                crate::tables::ascending(ids@),
                ids@.len() == at@.len(),
                n <= ids@.len(),
                self@.wf(),
                self@.items == old(self)@.items,
                self@.keys == old(self)@.keys,
                old(self)@.reached_by(links),
                old(self)@.room_for(links),
                self@.refs.len() == old(self)@.refs.len(),
                forall|a: usize|
                    a < self@.refs.len() ==> #[trigger] self@.refs[a as int] == old(
                        self,
                    )@.refs[a as int] + uses_over(links, before(ids@, n as int), a),
            decreases ids@.len() - n,
        {
            let id: usize = ids[n];
            let a: usize = at[n];
            let ghost b = before(ids@, n as int);
            proof {
                assert(ids@.contains(id));
                assert(ids@.index_of(id) == n);
                assert(links[id] == a);
                assert(links.contains_key(id));
                lemma_before_step(ids@, n as int);
                assert(before(ids@, n + 1).subset_of(links.dom()));
                lemma_uses_step(links, b, id, a);
                lemma_uses_mono(links, before(ids@, n + 1), a);
                assert(old(self)@.refs[a as int] + uses(links, a) <= usize::MAX);
            }
            let ghost refs = self@.refs;
            self.retain(a);
            proof {
                assert forall|x: usize| x < self@.refs.len() implies #[trigger] self@.refs[x as int]
                    == old(self)@.refs[x as int] + uses_over(links, before(ids@, n + 1), x) by {
                    lemma_uses_step(links, b, id, x);
                    assert(refs[x as int] == old(self)@.refs[x as int] + uses_over(links, b, x));
                }
            }
            n += 1;
        }
        proof {
            lemma_before_all(ids@, links.dom());
            let want = old(self)@.kept_all(links).refs;
            assert forall|i: int| 0 <= i < want.len() implies self@.refs[i] == want[i] by {
                assert(self.refs.len() == self@.refs.len());
                let a = i as usize;
                assert(self@.refs[a as int] == old(self)@.refs[a as int] + uses(links, a));
            }
            assert(self@.refs =~= want);
        }
    }
}

impl<T> IpcStore<T> {
    /// Gives one reference back for each link, as far as there are any.
    fn release_each(&mut self, ids: &Vec<usize>, at: &Vec<usize>)
        requires
            crate::tables::ascending(ids@),
            ids@.len() == at@.len(),
            old(self)@.wf(),
            old(self)@.reached_by(link_map(ids@, at@)),
        ensures
            final(self)@.wf(),
            final(self)@ == old(self)@.let_go_all(link_map(ids@, at@)),
    {
        let ghost links = link_map(ids@, at@);
        let mut n: usize = 0;
        proof {
            lemma_before_all(ids@, links.dom());
            assert forall|a: usize| a < self@.refs.len() implies #[trigger] self@.refs[a as int]
                == less(old(self)@.refs[a as int], uses_over(links, before(ids@, 0), a)) by {
                lemma_uses_none(links, a);
            }
        }
        while n < ids.len()
            invariant
                links == link_map(ids@, at@),
                crate::tables::ascending(ids@),
                ids@.len() == at@.len(),
                n <= ids@.len(),
                self@.wf(),
                self@.items == old(self)@.items,
                self@.keys == old(self)@.keys,
                old(self)@.reached_by(links),
                self@.refs.len() == old(self)@.refs.len(),
                forall|a: usize|
                    a < self@.refs.len() ==> #[trigger] self@.refs[a as int] == less(
                        old(self)@.refs[a as int],
                        uses_over(links, before(ids@, n as int), a),
                    ),
            decreases ids@.len() - n,
        {
            let id: usize = ids[n];
            let a: usize = at[n];
            let ghost b = before(ids@, n as int);
            proof {
                assert(ids@.contains(id));
                assert(ids@.index_of(id) == n);
                assert(links[id] == a);
                assert(links.contains_key(id));
                lemma_before_step(ids@, n as int);
            }
            let ghost refs = self@.refs;
            if self.refs[a] > 0 {
                self.release(a);
            }
            proof {
                assert forall|x: usize| x < self@.refs.len() implies #[trigger] self@.refs[x as int]
                    == less(
                    old(self)@.refs[x as int],
                    uses_over(links, before(ids@, n + 1), x),
                ) by {
                    lemma_uses_step(links, b, id, x);
                    assert(refs[x as int] == less(
                        old(self)@.refs[x as int],
                        uses_over(links, b, x),
                    ));
                }
            }
            n += 1;
        }
        proof {
            lemma_before_all(ids@, links.dom());
            let want = old(self)@.let_go_all(links).refs;
            assert forall|i: int| 0 <= i < want.len() implies self@.refs[i] == want[i] by {
                assert(self.refs.len() == self@.refs.len());
                let a = i as usize;
                assert(self@.refs[a as int] == less(old(self)@.refs[a as int], uses(links, a)));
            }
            assert(self@.refs =~= want);
        }
    }
}

/// An object whose last reference is given back is no longer found by any key; while one
/// is left, it still is.
pub proof fn law_last_reference_hides<T>(a: Stock<T>, b: Stock<T>, key: usize)
    requires
        a.wf(),
        a.live(key),
        b == a.dropped(a.keys[key]),
    ensures
        b.live(key) <==> a.refs[a.keys[key] as int] > 1,
{
}

// ---- Semaphore arrays ----

/// Whose an object is and who may use it.
#[derive(Clone, Copy)]
pub struct IpcPerm {
    pub key: u32,
    pub uid: u32,
    pub gid: u32,
    pub cuid: u32,
    pub cgid: u32,
    pub mode: u32,
    pub seq: u32,
    pub pad1: usize,
    pub pad2: usize,
}

/// The description of a semaphore array.
#[derive(Clone, Copy)]
pub struct SemDs {
    pub perm: IpcPerm,
    pub otime: usize,
    pub pad1: usize,
    pub ctime: usize,
    pub pad2: usize,
    pub nsems: usize,
}

/// A semaphore array.
pub struct SemArr {
    pub ds: SemDs,
    pub sems: Vec<Sema>,
}

/// The arrays of the system.
pub type SemStore = IpcStore<SemArr>;

/// The description of a new array.
pub open spec fn fresh_ds(key: u32, nsems: usize, flags: usize) -> SemDs {
    SemDs {
        perm: IpcPerm {
            key,
            uid: 0,
            gid: 0,
            cuid: 0,
            cgid: 0,
            mode: (flags % 0x200) as u32,
            seq: 0,
            pad1: 0,
            pad2: 0,
        },
        otime: 0,
        pad1: 0,
        ctime: 0,
        pad2: 0,
        nsems,
    }
}

/// A semaphore with no units that nobody has touched.
pub open spec fn untouched(s: Sema) -> bool {
    s.cnt == 0 && s.pid == 0 && !s.rm && s.bus@ == crate::sync::Bus::empty()
}

/// An array as it is created.
pub open spec fn is_fresh_array(a: SemArr, key: u32, nsems: usize, flags: usize) -> bool {
    &&& a.ds == fresh_ds(key, nsems, flags)
    &&& a.sems@.len() == nsems
    &&& forall|i: int| 0 <= i < nsems ==> #[trigger] untouched(a.sems@[i])
}

/// Creation is asked for, and only creation.
pub open spec fn exclusive(flags: usize) -> bool {
    (flags / 0x200) % 2 == 1 && (flags / 0x400) % 2 == 1
}

/// `k` is the least positive key that is not taken.
pub open spec fn is_private_key(taken: Set<usize>, k: usize) -> bool {
    &&& 1 <= k <= u32::MAX
    &&& !taken.contains(k)
    &&& forall|i: usize| 1 <= i < k ==> taken.contains(i)
}

/// The outcome of asking for the array of a key, and the store after it.
pub open spec fn got_array(
    key: u32,
    nsems: usize,
    flags: usize,
    a: Stock<SemArr>,
    r: Result<usize, &'static str>,
    b: Stock<SemArr>,
) -> bool {
    if key != 0 && a.live(key as usize) {
        let i = a.keys[key as usize];
        if exclusive(flags) {
            r == Err::<usize, &'static str>("eexist") && b == a
        } else {
            r == Ok::<usize, &'static str>(i) && b == a.kept(i)
        }
    } else {
        let i = a.items.len() as usize;
        let new = b.items[i as int];
        &&& r == Ok::<usize, &'static str>(i)
        &&& b == a.added(new.ds.perm.key as usize, new)
        &&& is_fresh_array(new, new.ds.perm.key, nsems, flags)
        &&& if key == 0 {
            is_private_key(a.keys.dom(), new.ds.perm.key as usize)
        } else {
            new.ds.perm.key == key
        }
    }
}

impl SemArr {
    /// The semaphore at `i`.
    pub fn index(&self, i: usize) -> (r: &Sema)
        requires
            i < self.sems@.len(),
        ensures
            *r == self.sems@[i as int],
    {
        &self.sems[i]
    }

    /// Marks every semaphore as gone and tells its waiters.
    pub fn remove(&mut self)
        ensures
            final(self).ds == old(self).ds,
            final(self).sems@.len() == old(self).sems@.len(),
            forall|i: int|
                0 <= i < old(self).sems@.len() ==> {
                    let (a, b) = (old(self).sems@[i], #[trigger] final(self).sems@[i]);
                    &&& b.rm
                    &&& b.cnt == a.cnt
                    &&& b.pid == a.pid
                    &&& a.bus.changed(0, EvFlag::SEM_RM, b.bus)
                },
    {
        let ghost s = self.sems@;
        let mut n: usize = 0;
        while n < self.sems.len()
            invariant
                s == old(self).sems@,
                self.ds == old(self).ds,
                self.sems@.len() == s.len(),
                n <= s.len(),
                forall|i: int|
                    0 <= i < n ==> {
                        let (a, b) = (s[i], #[trigger] self.sems@[i]);
                        &&& b.rm
                        &&& b.cnt == a.cnt
                        &&& b.pid == a.pid
                        &&& a.bus.changed(0, EvFlag::SEM_RM, b.bus)
                    },
                forall|i: int| n <= i < s.len() ==> #[trigger] self.sems@[i] == s[i],
            decreases s.len() - n,
        {
            self.sems[n].remove();
            n += 1;
        }
    }

    /// Resets the time of the last operation.
    pub fn otime_now(&mut self)
        ensures
            *final(self) == (SemArr { ds: SemDs { otime: 0, ..old(self).ds }, ..*old(self) }),
    {
        self.ds.otime = 0;
    }

    /// Resets the time of the last change.
    pub fn ctime_now(&mut self)
        ensures
            *final(self) == (SemArr { ds: SemDs { ctime: 0, ..old(self).ds }, ..*old(self) }),
    {
        self.ds.ctime = 0;
    }

    /// Takes owner, group and the nine permission bits over from another description.
    pub fn set_ds(&mut self, new: &SemDs)
        ensures
            *final(self) == (SemArr {
                ds: SemDs {
                    perm: IpcPerm {
                        uid: new.perm.uid,
                        gid: new.perm.gid,
                        mode: new.perm.mode % 0x200,
                        ..old(self).ds.perm
                    },
                    ..old(self).ds
                },
                ..*old(self)
            }),
    {
        self.ds.perm.uid = new.perm.uid;
        self.ds.perm.gid = new.perm.gid;
        self.ds.perm.mode = new.perm.mode % 0x200;
    }

    fn fresh(key: u32, nsems: usize, flags: usize) -> (r: SemArr)
        ensures
            is_fresh_array(r, key, nsems, flags),
    {
        let mut sems: Vec<Sema> = Vec::new();
        let mut n: usize = 0;
        while n < nsems
            invariant
                n <= nsems,
                sems@.len() == n,
                forall|i: int| 0 <= i < n ==> #[trigger] untouched(sems@[i]),
            decreases nsems - n,
        {
            sems.push(Sema::new(0));
            n += 1;
        }
        SemArr {
            ds: SemDs {
                perm: IpcPerm {
                    key,
                    uid: 0,
                    gid: 0,
                    cuid: 0,
                    cgid: 0,
                    mode: (flags % 0x200) as u32,
                    seq: 0,
                    pad1: 0,
                    pad2: 0,
                },
                otime: 0,
                pad1: 0,
                ctime: 0,
                pad2: 0,
                nsems,
            },
            sems,
        }
    }

    fn private_key(store: &SemStore) -> (r: u32)
        requires
            exists|k: usize| 1 <= k <= u32::MAX && !store@.keys.contains_key(k),
        ensures
            is_private_key(store@.keys.dom(), r as usize),
    {
        let mut k: u32 = 1;
        while store.keys.contains_key(&(k as usize))
            invariant
                1 <= k,
                forall|i: usize| 1 <= i < k ==> store@.keys.contains_key(i),
                exists|k: usize| 1 <= k <= u32::MAX && !store@.keys.contains_key(k),
            decreases u32::MAX - k,
        {
            proof {
                let w = choose|w: usize| 1 <= w <= u32::MAX && !store@.keys.contains_key(w);
                assert(w > k);
            }
            k += 1;
        }
        k
    }

    /// The array of a key, with one reference more to it. Key 0 asks for a new array under
    /// the least key that is not taken; another key finds its array while something refers
    /// to it, and else gets a new one. An array that is found is refused where only
    /// creation was asked for.
    pub fn get_or_create(key: u32, nsems: usize, flags: usize, store: &mut SemStore) -> (r: Result<
        usize,
        &'static str,
    >)
        requires
            old(store)@.wf(),
            key == 0 ==> exists|k: usize|
                1 <= k <= u32::MAX && !old(store)@.keys.contains_key(k),
            key != 0 && old(store)@.live(key as usize)
                ==> old(store)@.refs[old(store)@.keys[key as usize] as int] < usize::MAX,
        ensures
            final(store)@.wf(),
            got_array(key, nsems, flags, old(store)@, r, final(store)@),
    {
        let mut k: u32 = key;
        if key == 0 {
            k = Self::private_key(store);
        } else if let Some(i) = store.lookup(key as usize) {
            if (flags / 0x200) % 2 == 1 && (flags / 0x400) % 2 == 1 {
                return Err("eexist");
            }
            store.retain(i);
            return Ok(i);
        }
        let a = Self::fresh(k, nsems, flags);
        let i: usize = store.put(k as usize, a);
        Ok(i)
    }
}

/// An array that was created is what its key leads to, as long as something refers to it.
pub proof fn law_created_array_is_found(before: Stock<SemArr>, key: usize, a: SemArr)
    requires
        before.wf(),
        before.items.len() <= usize::MAX,
    ensures
        before.added(key, a).live(key),
        before.added(key, a).keys[key] == before.items.len(),
        before.added(key, a).items[before.items.len() as int] == a,
{
}

/// A key under which an array was created leads to that very array, as it is by then, while
/// something refers to it: a second request is refused if and only if it asks for creation
/// and nothing else, and the size that it asks for does not matter. Here `a` and `b` are the
/// store before and after the first request, `c` and `d` before and after the second.
pub proof fn law_live_key_gives_the_same_array(
    key: u32,
    n: usize,
    f1: usize,
    a: Stock<SemArr>,
    r1: Result<usize, &'static str>,
    b: Stock<SemArr>,
    c: Stock<SemArr>,
    m: usize,
    f2: usize,
    r2: Result<usize, &'static str>,
    d: Stock<SemArr>,
)
    requires
        key != 0,
        a.wf(),
        a.items.len() <= usize::MAX,
        !a.live(key as usize),
        got_array(key, n, f1, a, r1, b),
        c.wf(),
        c.keys.contains_key(key as usize),
        c.keys[key as usize] == b.keys[key as usize],
        c.live(key as usize),
        c.items[b.keys[key as usize] as int].sems@.len() == n,
        got_array(key, m, f2, c, r2, d),
    ensures
        b.live(key as usize),
        r1 == Ok::<usize, &'static str>(b.keys[key as usize]),
        b.items[r1->Ok_0 as int].sems@.len() == n,
        r2 == Err::<usize, &'static str>("eexist") <==> exclusive(f2),
        !exclusive(f2) ==> r2 == r1,
        d.items == c.items,
        d.items[r1->Ok_0 as int].sems@.len() == n,
{
}

/// A request for key 0 always makes a new array, of semaphores without units, under the
/// least positive key that is not taken.
pub proof fn law_key_zero_gives_a_new_array(
    m: usize,
    flags: usize,
    a: Stock<SemArr>,
    r: Result<usize, &'static str>,
    b: Stock<SemArr>,
)
    requires
        a.wf(),
        a.items.len() <= usize::MAX,
        got_array(0, m, flags, a, r, b),
    ensures
        r == Ok::<usize, &'static str>(a.items.len() as usize),
        b.items.len() == a.items.len() + 1,
        b.items.take(a.items.len() as int) == a.items,
        b.items.last().sems@.len() == m,
        forall|i: int| 0 <= i < m ==> #[trigger] untouched(b.items.last().sems@[i]),
        is_private_key(a.keys.dom(), b.items.last().ds.perm.key as usize),
        b.live(b.items.last().ds.perm.key as usize),
        b.keys[b.items.last().ds.perm.key as usize] == r->Ok_0,
{
    assert(b.items.take(a.items.len() as int) =~= a.items);
}

// ---- The semaphores of a process ----

/// The semaphore arrays that a process uses, and what is to be undone when it ends.
pub struct SemCtx {
    pub arrays: BTreeMap<usize, usize>,
    pub undos: BTreeMap<usize, BTreeMap<usize, i16>>,
}

impl Default for SemCtx {
    fn default() -> (r: Self)
        ensures
            r.arrays@ == Map::<usize, usize>::empty(),
            r.undos@ == Map::<usize, BTreeMap<usize, i16>>::empty(),
    {
        SemCtx { arrays: BTreeMap::new(), undos: BTreeMap::new() }
    }
}

/// `post` is a semaphore that got `k` units back, as far as they can be counted.
pub open spec fn given_back(s: Sema, k: nat, post: Sema) -> bool {
    if k == 0 || s.cnt == isize::MAX {
        post == s
    } else if s.cnt + k <= isize::MAX {
        s.raised_to(s.cnt + k, post)
    } else {
        s.raised_to(isize::MAX as int, post)
    }
}

proof fn lemma_given_back_once(s0: Sema, k: nat, s1: Sema, s2: Sema)
    requires
        given_back(s0, k, s1),
    ensures
        given_back(s1, 1, s2) ==> given_back(s0, k + 1, s2),
{
    crate::sync::law_set_twice_is_set_once(s0.bus@, EvFlag::SEM_ACQ);
}

impl SemCtx {
    /// What is to be added to a semaphore when the process ends.
    pub open spec fn undo_at(self, id: usize, num: usize) -> int {
        if self.undos@.contains_key(id) && self.undos@[id]@.contains_key(num) {
            self.undos@[id]@[num] as int
        } else {
            0
        }
    }

    /// The process's numbers in `over` through which semaphore `num` of array `a` gets a unit
    /// back.
    pub open spec fn returning(self, over: Set<usize>, a: usize, num: usize) -> Set<usize> {
        over.filter(|id: usize| self.arrays@[id] == a && self.undo_at(id, num) == 1)
    }

    /// How many units semaphore `num` of array `a` gets back when the process ends.
    pub open spec fn comes_back(self, a: usize, num: usize) -> nat {
        self.returning(self.arrays@.dom(), a, num).len()
    }

    /// `b` is what the store holds once the process no longer uses semaphores: each got back
    /// what was taken from it, and each array has as many references less as the process had.
    pub open spec fn finished(self, a: Stock<SemArr>, b: Stock<SemArr>) -> bool {
        &&& b.keys == a.keys
        &&& b.refs == a.let_go_all(self.arrays@).refs
        &&& b.items.len() == a.items.len()
        &&& forall|i: int|
            #![trigger b.items[i]]
            0 <= i < a.items.len() ==> b.items[i].ds == a.items[i].ds && b.items[i].sems@.len()
                == a.items[i].sems@.len()
        &&& forall|i: usize, num: usize|
            #![trigger self.comes_back(i, num)]
            i < a.items.len() && num < a.items[i as int].sems@.len() ==> given_back(
                a.items[i as int].sems@[num as int],
                self.comes_back(i, num),
                b.items[i as int].sems@[num as int],
            )
    }

    /// Gives an array, with the reference that comes with it, the least free number.
    pub fn add(&mut self, arr: usize) -> (r: SemId)
        ensures
            crate::tables::is_least_free(old(self).arrays@.dom(), r),
            final(self).arrays@ == old(self).arrays@.insert(r, arr),
            final(self).undos == old(self).undos,
    {
        let id: usize = first_free(&self.arrays);
        self.arrays.insert(id, arr);
        id
    }

    /// Forgets an array and gives its reference back.
    pub fn remove(&mut self, id: SemId, store: &mut SemStore)
        requires
            old(store)@.wf(),
            old(self).arrays@.contains_key(id) ==> old(store)@.has(old(self).arrays@[id]),
        ensures
            final(store)@.wf(),
            final(self).arrays@ == old(self).arrays@.remove(id),
            final(self).undos == old(self).undos,
            final(store)@ == if old(self).arrays@.contains_key(id) {
                old(store)@.dropped(old(self).arrays@[id])
            } else {
                old(store)@
            },
    {
        match self.arrays.remove(&id) {
            Some(a) => {
                store.release(a);
            },
            None => {
                assert(self.arrays@ =~= old(self).arrays@.remove(id));
            },
        }
    }

    /// The least free number.
    pub fn free_id(&self) -> (r: SemId)
        ensures
            crate::tables::is_least_free(self.arrays@.dom(), r),
    {
        first_free(&self.arrays)
    }

    /// The array under a number, with one more reference to it.
    pub fn get(&self, id: SemId, store: &mut SemStore) -> (r: Option<usize>)
        requires
            old(store)@.wf(),
            self.arrays@.contains_key(id) ==> self.arrays@[id] < old(store)@.items.len()
                && old(store)@.refs[self.arrays@[id] as int] < usize::MAX,
        ensures
            final(store)@.wf(),
            self.arrays@.contains_key(id) ==> r == Some(self.arrays@[id]) && final(store)@ == old(
                store,
            )@.kept(self.arrays@[id]),
            !self.arrays@.contains_key(id) ==> r is None && final(store)@ == old(store)@,
    {
        match self.arrays.get(&id) {
            Some(a) => {
                store.retain(*a);
                Some(*a)
            },
            None => None,
        }
    }

    /// Notes an operation to be undone.
    pub fn add_undo(&mut self, id: SemId, num: SemNum, op: SemOp)
        requires
            i16::MIN <= old(self).undo_at(id, num as usize) - op <= i16::MAX,
        ensures
            final(self).arrays == old(self).arrays,
            final(self).undo_at(id, num as usize) == old(self).undo_at(id, num as usize) - op,
            forall|i: usize, n: usize|
                (i, n) != (id, num as usize) ==> #[trigger] final(self).undo_at(i, n) == old(
                    self,
                ).undo_at(i, n),
    {
        let mut inner: BTreeMap<usize, i16> = match self.undos.remove(&id) {
            Some(m) => m,
            None => BTreeMap::new(),
        };
        let was: i16 = match inner.get(&(num as usize)) {
            Some(v) => *v,
            None => 0,
        };
        assert(was == old(self).undo_at(id, num as usize));
        inner.insert(num as usize, was - op);
        self.undos.insert(id, inner);
    }

    /// What a child gets: the same arrays, each with a reference of its own, and nothing to
    /// undo.
    pub fn inherit(&self, store: &mut SemStore) -> (r: SemCtx)
        requires
            old(store)@.wf(),
            old(store)@.reached_by(self.arrays@),
            old(store)@.room_for(self.arrays@),
        ensures
            final(store)@.wf(),
            final(store)@ == old(store)@.kept_all(self.arrays@),
            r.arrays@ == self.arrays@,
            r.undos@ == Map::<usize, BTreeMap<usize, i16>>::empty(),
    {
        let ids = sorted_keys(&self.arrays);
        let ghost links = self.arrays@;
        let mut arrays: BTreeMap<usize, usize> = BTreeMap::new();
        let mut at: Vec<usize> = Vec::new();
        let mut n: usize = 0;
        proof {
            lemma_before_all(ids@, links.dom());
            assert(arrays@ =~= links.restrict(before(ids@, 0)));
        }
        while n < ids.len()
            invariant
                links == self.arrays@,
                crate::tables::ascending(ids@),
                forall|k: usize| ids@.contains(k) <==> links.contains_key(k),
                n <= ids@.len(),
                arrays@ == links.restrict(before(ids@, n as int)),
                at@.len() == n,
                forall|i: int| 0 <= i < n ==> #[trigger] at@[i] == links[ids@[i]],
            decreases ids@.len() - n,
        {
            let id: usize = ids[n];
            proof {
                assert(ids@.contains(id));
                lemma_before_step(ids@, n as int);
            }
            let a: usize = *self.arrays.get(&id).unwrap();
            arrays.insert(id, a);
            at.push(a);
            assert(arrays@ =~= links.restrict(before(ids@, n + 1)));
            n += 1;
        }
        proof {
            lemma_before_all(ids@, links.dom());
            assert(arrays@ =~= links);
            lemma_link_map(ids@, at@, links);
        }
        store.retain_each(&ids, &at);
        SemCtx { arrays, undos: BTreeMap::new() }
    }

    proof fn lemma_returning_step(self, over: Set<usize>, id: usize, a: usize, num: usize)
        requires
            over.finite(),
            !over.contains(id),
        ensures
            self.returning(over.insert(id), a, num).len() == self.returning(over, a, num).len()
                + if self.arrays@[id] == a && self.undo_at(id, num) == 1 {
                1nat
            } else {
                0nat
            },
    {
        if self.arrays@[id] == a && self.undo_at(id, num) == 1 {
            assert(self.returning(over.insert(id), a, num) =~= self.returning(over, a, num).insert(
                id,
            ));
        } else {
            assert(self.returning(over.insert(id), a, num) =~= self.returning(over, a, num));
        }
    }

    /// `now` is the semaphore with the unit back that is to come back, if that was done.
    spec fn settled(self, was: Sema, id: usize, num: usize, done: bool, now: Sema) -> bool {
        if done && self.undo_at(id, num) == 1 {
            given_back(was, 1, now)
        } else {
            now == was
        }
    }

    /// Gives back what was taken from the array under one number.
    fn give_back(&self, id: usize, a: usize, store: &mut SemStore)
        requires
            old(store)@.wf(),
            a < old(store)@.items.len(),
        ensures
            final(store)@.wf(),
            final(store)@.keys == old(store)@.keys,
            final(store)@.refs == old(store)@.refs,
            final(store)@.items.len() == old(store)@.items.len(),
            forall|x: int|
                0 <= x < old(store)@.items.len() && x != a ==> #[trigger] final(store)@.items[x]
                    == old(store)@.items[x],
            final(store)@.items[a as int].ds == old(store)@.items[a as int].ds,
            final(store)@.items[a as int].sems@.len() == old(store)@.items[a as int].sems@.len(),
            forall|num: usize|
                #![trigger self.undo_at(id, num)]
                num < old(store)@.items[a as int].sems@.len() ==> given_back(
                    old(store)@.items[a as int].sems@[num as int],
                    if self.undo_at(id, num) == 1 {
                        1nat
                    } else {
                        0nat
                    },
                    final(store)@.items[a as int].sems@[num as int],
                ),
    {
        let ghost start = store@;
        let ghost was = store@.items[a as int].sems@;
        match self.undos.get(&id) {
            Some(inner) => {
                let nums = sorted_keys(inner);
                let mut n: usize = 0;
                while n < nums.len()
                    invariant
                        self.undos@.contains_key(id),
                        *inner == self.undos@[id],
                        crate::tables::ascending(nums@),
                        forall|k: usize| nums@.contains(k) <==> inner@.contains_key(k),
                        n <= nums@.len(),
                        start.wf(),
                        store@.wf(),
                        store@.keys == start.keys,
                        store@.refs == start.refs,
                        store@.items.len() == start.items.len(),
                        a < start.items.len(),
                        was == start.items[a as int].sems@,
                        forall|x: int|
                            0 <= x < start.items.len() && x != a ==> #[trigger] store@.items[x]
                                == start.items[x],
                        store@.items[a as int].ds == start.items[a as int].ds,
                        store@.items[a as int].sems@.len() == was.len(),
                        forall|num: usize|
                            num < was.len() ==> #[trigger] self.settled(
                                was[num as int],
                                id,
                                num,
                                before(nums@, n as int).contains(num),
                                store@.items[a as int].sems@[num as int],
                            ),
                    decreases nums@.len() - n,
                {
                    let num: usize = nums[n];
                    proof {
                        assert(nums@.contains(num));
                        lemma_before_step(nums@, n as int);
                    }
                    let ghost entry = store@.items[a as int].sems@;
                    proof {
                        assert(self.undo_at(id, num) == inner@[num]);
                        assert forall|x: usize| x < was.len() implies #[trigger] self.settled(
                            was[x as int],
                            id,
                            x,
                            before(nums@, n as int).contains(x),
                            entry[x as int],
                        ) by {}
                        assert(num < was.len() ==> self.settled(
                            was[num as int],
                            id,
                            num,
                            before(nums@, n as int).contains(num),
                            entry[num as int],
                        ));
                    }
                    if *inner.get(&num).unwrap() == 1 && num < store.items[a].sems.len()
                        && store.items[a].sems[num].cnt < isize::MAX {
                        store.items[a].sems[num].release();
                    }
                    proof {
                        let now = store@.items[a as int].sems@;
                        assert forall|x: usize| x < was.len() implies #[trigger] self.settled(
                            was[x as int],
                            id,
                            x,
                            before(nums@, n + 1).contains(x),
                            now[x as int],
                        ) by {
                            assert(self.settled(
                                was[x as int],
                                id,
                                x,
                                before(nums@, n as int).contains(x),
                                entry[x as int],
                            ));
                            if x != num {
                                assert(now[x as int] == entry[x as int]);
                            }
                        }
                    }
                    n += 1;
                }
                proof {
                    lemma_before_all(nums@, inner@.dom());
                    assert forall|num: usize|
                        #![trigger self.undo_at(id, num)]
                        num < was.len() implies given_back(
                        was[num as int],
                        if self.undo_at(id, num) == 1 {
                            1nat
                        } else {
                            0nat
                        },
                        store@.items[a as int].sems@[num as int],
                    ) by {
                        assert(self.settled(
                            was[num as int],
                            id,
                            num,
                            before(nums@, n as int).contains(num),
                            store@.items[a as int].sems@[num as int],
                        ));
                    }
                }
            },
            None => {},
        }
    }

    /// Ends the process's use of semaphores: what it took once and did not give back goes
    /// back, and its references too. Other amounts to be undone are passed over, and so are
    /// semaphores that are not there.
    pub fn finish(self, store: &mut SemStore)
        requires
            old(store)@.wf(),
            old(store)@.reached_by(self.arrays@),
        ensures
            final(store)@.wf(),
            self.finished(old(store)@, final(store)@),
    {
        let ids = sorted_keys(&self.arrays);
        let ghost links = self.arrays@;
        let ghost start = store@;
        let mut at: Vec<usize> = Vec::new();
        let mut n: usize = 0;
        proof {
            lemma_before_all(ids@, links.dom());
            assert forall|a: usize, num: usize| self.returning(before(ids@, 0), a, num).len() == 0 by {
                assert(self.returning(before(ids@, 0), a, num) =~= Set::empty());
            }
        }
        while n < ids.len()
            invariant
                links == self.arrays@,
                crate::tables::ascending(ids@),
                forall|k: usize| ids@.contains(k) <==> links.contains_key(k),
                n <= ids@.len(),
                at@.len() == n,
                forall|i: int| 0 <= i < n ==> #[trigger] at@[i] == links[ids@[i]],
                store@.wf(),
                store@.keys == start.keys,
                store@.refs == start.refs,
                store@.items.len() == start.items.len(),
                start.reached_by(links),
                start.wf(),
                forall|a: int|
                    #![trigger store@.items[a]]
                    0 <= a < start.items.len() ==> store@.items[a].ds == start.items[a].ds
                        && store@.items[a].sems@.len() == start.items[a].sems@.len(),
                forall|a: usize, num: usize|
                    #![trigger self.returning(before(ids@, n as int), a, num)]
                    a < start.items.len() && num < start.items[a as int].sems@.len()
                        ==> given_back(
                        start.items[a as int].sems@[num as int],
                        self.returning(before(ids@, n as int), a, num).len(),
                        store@.items[a as int].sems@[num as int],
                    ),
            decreases ids@.len() - n,
        {
            let id: usize = ids[n];
            let ghost b = before(ids@, n as int);
            let ghost c = before(ids@, n + 1);
            proof {
                assert(ids@.contains(id));
                lemma_before_step(ids@, n as int);
            }
            let a: usize = *self.arrays.get(&id).unwrap();
            at.push(a);
            let ghost entry = store@;
            self.give_back(id, a, store);
            proof {
                assert forall|x: usize, num: usize|
                    #![trigger self.returning(c, x, num)]
                    x < start.items.len() && num < start.items[x as int].sems@.len() implies given_back(
                    start.items[x as int].sems@[num as int],
                    self.returning(c, x, num).len(),
                    store@.items[x as int].sems@[num as int],
                ) by {
                    let s0 = start.items[x as int].sems@[num as int];
                    let s1 = entry.items[x as int].sems@[num as int];
                    let s2 = store@.items[x as int].sems@[num as int];
                    assert(given_back(s0, self.returning(b, x, num).len(), s1));
                    self.lemma_returning_step(b, id, x, num);
                    lemma_given_back_once(s0, self.returning(b, x, num).len(), s1, s2);
                }
            }
            n += 1;
        }
        proof {
            lemma_before_all(ids@, links.dom());
            lemma_link_map(ids@, at@, links);
            assert forall|a: usize, num: usize|
                #![trigger self.comes_back(a, num)]
                a < start.items.len() && num < start.items[a as int].sems@.len() implies given_back(
                start.items[a as int].sems@[num as int],
                self.comes_back(a, num),
                store@.items[a as int].sems@[num as int],
            ) by {
                assert(self.returning(before(ids@, n as int), a, num).len() == self.comes_back(
                    a,
                    num,
                ));
            }
        }
        store.release_each(&ids, &at);
    }
}

/// What a process took once from a semaphore and did not give back is there again when the
/// process has ended.
pub proof fn law_undo_restores_the_count(before: Sema, taken: Sema, after: Sema)
    requires
        before.taken(taken),
        given_back(taken, 1, after),
    ensures
        after.cnt == before.cnt,
{
}

// ---- Shared memory ----

/// The segments of the system, each a sequence of pages.
pub type ShmStore = IpcStore<Vec<usize>>;

/// A segment in a process: where it is mapped, and which it is.
#[derive(Clone, Copy)]
pub struct ShmTag {
    pub addr: usize,
    pub pages: usize,
}

impl ShmTag {
    /// Sets the address of the mapping.
    pub fn set_addr(&mut self, a: usize)
        ensures
            *final(self) == (ShmTag { addr: a, ..*old(self) }),
    {
        self.addr = a;
    }
}

/// The segment of a key, with one reference more to it: the one that is there while
/// something refers to it, and else a new one of `npages` zeros.
pub fn shm_get_or_create(key: usize, npages: usize, store: &mut ShmStore) -> (r: usize)
    requires
        old(store)@.wf(),
        old(store)@.live(key) ==> old(store)@.refs[old(store)@.keys[key] as int] < usize::MAX,
    ensures
        final(store)@.wf(),
        old(store)@.live(key) ==> r == old(store)@.keys[key] && final(store)@ == old(store)@.kept(
            r,
        ),
        !old(store)@.live(key) ==> {
            let seg = final(store)@.items[r as int];
            &&& r == old(store)@.items.len()
            &&& final(store)@ == old(store)@.added(key, seg)
            &&& seg@ == Seq::new(npages as nat, |i: int| 0usize)
        },
{
    if let Some(i) = store.lookup(key) {
        store.retain(i);
        return i;
    }
    let seg: Vec<usize> = vec![0usize;npages];
    assert(seg@ =~= Seq::new(npages as nat, |i: int| 0usize));
    store.put(key, seg)
}

/// The shared memory segments of a process.
pub struct ShmCtx {
    pub ids: BTreeMap<usize, ShmTag>,
}

impl Default for ShmCtx {
    fn default() -> (r: Self)
        ensures
            r.ids@ == Map::<usize, ShmTag>::empty(),
    {
        ShmCtx { ids: BTreeMap::new() }
    }
}

/// The segment that each number of a process leads to.
pub open spec fn segments(ids: Map<usize, ShmTag>) -> Map<usize, usize> {
    ids.map_values(|t: ShmTag| t.pages)
}

impl ShmCtx {
    /// Gives a segment, with the reference that comes with it, the least free number; it is
    /// not mapped yet.
    pub fn add(&mut self, g: usize) -> (r: ShmId)
        ensures
            crate::tables::is_least_free(old(self).ids@.dom(), r),
            final(self).ids@ == old(self).ids@.insert(r, (ShmTag { addr: 0, pages: g })),
    {
        let id: usize = first_free(&self.ids);
        self.ids.insert(id, ShmTag { addr: 0, pages: g });
        id
    }

    /// The segment under a number, with one more reference to it.
    pub fn get(&self, id: ShmId, store: &mut ShmStore) -> (r: Option<ShmTag>)
        requires
            old(store)@.wf(),
            self.ids@.contains_key(id) ==> self.ids@[id].pages < old(store)@.items.len()
                && old(store)@.refs[self.ids@[id].pages as int] < usize::MAX,
        ensures
            final(store)@.wf(),
            self.ids@.contains_key(id) ==> r == Some(self.ids@[id]) && final(store)@ == old(
                store,
            )@.kept(self.ids@[id].pages),
            !self.ids@.contains_key(id) ==> r is None && final(store)@ == old(store)@,
    {
        match self.ids.get(&id) {
            Some(t) => {
                store.retain(t.pages);
                Some(*t)
            },
            None => None,
        }
    }

    /// Puts a segment, with its reference, under a number; what was there gives its reference
    /// back.
    pub fn set(&mut self, id: ShmId, tag: ShmTag, store: &mut ShmStore)
        requires
            old(store)@.wf(),
            old(self).ids@.contains_key(id) ==> old(store)@.has(old(self).ids@[id].pages),
        ensures
            final(store)@.wf(),
            final(self).ids@ == old(self).ids@.insert(id, tag),
            final(store)@ == if old(self).ids@.contains_key(id) {
                old(store)@.dropped(old(self).ids@[id].pages)
            } else {
                old(store)@
            },
    {
        if let Some(t) = self.ids.remove(&id) {
            store.release(t.pages);
        }
        self.ids.insert(id, tag);
        assert(self.ids@ =~= old(self).ids@.insert(id, tag));
    }

    /// The least number whose segment is mapped at an address.
    pub fn get_id_by_addr(&self, addr: usize) -> (r: Option<ShmId>)
        ensures
            match r {
                Some(id) => self.ids@.contains_key(id) && self.ids@[id].addr == addr
                    && forall|k: usize| #[trigger]
                    self.ids@.contains_key(k) && k < id ==> self.ids@[k].addr != addr,
                None => forall|k: usize| #[trigger]
                    self.ids@.contains_key(k) ==> self.ids@[k].addr != addr,
            },
    {
        let ids = sorted_keys(&self.ids);
        let mut n: usize = 0;
        while n < ids.len()
            invariant
                crate::tables::ascending(ids@),
                forall|k: usize| ids@.contains(k) <==> self.ids@.contains_key(k),
                n <= ids@.len(),
                forall|i: int| 0 <= i < n ==> self.ids@[#[trigger] ids@[i]].addr != addr,
            decreases ids@.len() - n,
        {
            let id: usize = ids[n];
            assert(ids@.contains(id));
            if self.ids.get(&id).unwrap().addr == addr {
                proof {
                    assert forall|k: usize| #[trigger]
                        self.ids@.contains_key(k) && k < id implies self.ids@[k].addr != addr by {
                        assert(ids@.contains(k));
                        let i = choose|i: int| 0 <= i < ids@.len() && ids@[i] == k;
                        assert(i < n);
                    }
                }
                return Some(id);
            }
            n += 1;
        }
        proof {
            assert forall|k: usize| #[trigger] self.ids@.contains_key(k) implies self.ids@[k].addr
                != addr by {
                assert(ids@.contains(k));
                let i = choose|i: int| 0 <= i < ids@.len() && ids@[i] == k;
                assert(self.ids@[ids@[i]].addr != addr);
            }
        }
        None
    }

    /// Forgets a segment and gives its reference back.
    pub fn pop(&mut self, id: ShmId, store: &mut ShmStore)
        requires
            old(store)@.wf(),
            old(self).ids@.contains_key(id) ==> old(store)@.has(old(self).ids@[id].pages),
        ensures
            final(store)@.wf(),
            final(self).ids@ == old(self).ids@.remove(id),
            final(store)@ == if old(self).ids@.contains_key(id) {
                old(store)@.dropped(old(self).ids@[id].pages)
            } else {
                old(store)@
            },
    {
        match self.ids.remove(&id) {
            Some(t) => {
                store.release(t.pages);
            },
            None => {
                assert(self.ids@ =~= old(self).ids@.remove(id));
            },
        }
    }

    /// What a child gets: the same segments at the same places, each with a reference of its
    /// own.
    pub fn inherit(&self, store: &mut ShmStore) -> (r: ShmCtx)
        requires
            old(store)@.wf(),
            old(store)@.reached_by(segments(self.ids@)),
            old(store)@.room_for(segments(self.ids@)),
        ensures
            final(store)@.wf(),
            final(store)@ == old(store)@.kept_all(segments(self.ids@)),
            r.ids@ == self.ids@,
    {
        let ids = sorted_keys(&self.ids);
        let ghost tags = self.ids@;
        let mut out: BTreeMap<usize, ShmTag> = BTreeMap::new();
        let mut at: Vec<usize> = Vec::new();
        let mut n: usize = 0;
        proof {
            lemma_before_all(ids@, tags.dom());
            assert(out@ =~= tags.restrict(before(ids@, 0)));
        }
        while n < ids.len()
            invariant
                tags == self.ids@,
                crate::tables::ascending(ids@),
                forall|k: usize| ids@.contains(k) <==> tags.contains_key(k),
                n <= ids@.len(),
                out@ == tags.restrict(before(ids@, n as int)),
                at@.len() == n,
                forall|i: int| 0 <= i < n ==> #[trigger] at@[i] == tags[ids@[i]].pages,
            decreases ids@.len() - n,
        {
            let id: usize = ids[n];
            proof {
                assert(ids@.contains(id));
                lemma_before_step(ids@, n as int);
            }
            let t: ShmTag = *self.ids.get(&id).unwrap();
            out.insert(id, t);
            at.push(t.pages);
            assert(out@ =~= tags.restrict(before(ids@, n + 1)));
            n += 1;
        }
        proof {
            lemma_before_all(ids@, tags.dom());
            assert(out@ =~= tags);
            assert(segments(tags).dom() =~= tags.dom());
            assert forall|i: int| 0 <= i < ids@.len() implies #[trigger] at@[i] == segments(
                tags,
            )[ids@[i]] by {
                assert(ids@.contains(ids@[i]));
            }
            lemma_link_map(ids@, at@, segments(tags));
        }
        store.retain_each(&ids, &at);
        ShmCtx { ids: out }
    }

    /// Ends the process's use of shared memory: its references go back.
    pub fn finish(self, store: &mut ShmStore)
        requires
            old(store)@.wf(),
            old(store)@.reached_by(segments(self.ids@)),
        ensures
            final(store)@.wf(),
            final(store)@ == old(store)@.let_go_all(segments(self.ids@)),
    {
        let ids = sorted_keys(&self.ids);
        let ghost tags = self.ids@;
        let mut at: Vec<usize> = Vec::new();
        let mut n: usize = 0;
        while n < ids.len()
            invariant
                tags == self.ids@,
                forall|k: usize| ids@.contains(k) <==> tags.contains_key(k),
                n <= ids@.len(),
                at@.len() == n,
                forall|i: int| 0 <= i < n ==> #[trigger] at@[i] == tags[ids@[i]].pages,
            decreases ids@.len() - n,
        {
            let id: usize = ids[n];
            assert(ids@.contains(id));
            at.push(self.ids.get(&id).unwrap().pages);
            n += 1;
        }
        proof {
            assert(segments(tags).dom() =~= tags.dom());
            assert forall|i: int| 0 <= i < ids@.len() implies #[trigger] at@[i] == segments(
                tags,
            )[ids@[i]] by {
                assert(ids@.contains(ids@[i]));
            }
            lemma_link_map(ids@, at@, segments(tags));
        }
        store.release_each(&ids, &at);
    }
}

/// Giving a reference back undoes taking it, and only that one is counted; nothing else of the
/// store changes.
pub proof fn law_release_undoes_retain<T>(a: Stock<T>, i: usize, j: int)
    requires
        a.wf(),
        i < a.refs.len(),
        a.refs[i as int] < usize::MAX,
        0 <= j < a.refs.len(),
    ensures
        a.kept(i).dropped(i) == a,
        a.kept(i).refs[i as int] == a.refs[i as int] + 1,
        j != i ==> a.kept(i).refs[j] == a.refs[j],
        a.kept(i).items == a.items && a.kept(i).keys == a.keys,
        a.kept(i).has(i),
        a.has(i) ==> a.dropped(i).refs[i as int] == a.refs[i as int] - 1 && a.dropped(i).items
            == a.items && a.dropped(i).keys == a.keys,
{
    assert(a.kept(i).dropped(i).refs =~= a.refs);
}

/// Giving back all references of a task undoes taking them for it; each is counted as often as
/// the task has it.
pub proof fn law_letting_go_undoes_keeping<T>(a: Stock<T>, links: Map<usize, usize>, i: usize)
    requires
        a.wf(),
        a.room_for(links),
        a.refs.len() <= usize::MAX,
        i < a.refs.len(),
    ensures
        a.kept_all(links).let_go_all(links) == a,
        a.kept_all(links).refs[i as int] == a.refs[i as int] + uses(links, i),
        a.refs[i as int] >= uses(links, i) ==> a.let_go_all(links).refs[i as int]
            == a.refs[i as int] - uses(links, i),
        a.refs[i as int] < uses(links, i) ==> a.let_go_all(links).refs[i as int] == 0,
        a.kept_all(links).items == a.items && a.kept_all(links).keys == a.keys,
        a.let_go_all(links).items == a.items && a.let_go_all(links).keys == a.keys,
{
    let b = a.kept_all(links);
    assert forall|x: int| 0 <= x < a.refs.len() implies #[trigger] b.let_go_all(links).refs[x]
        == a.refs[x] by {
        let y = x as usize;
        assert(a.refs[y as int] + uses(links, y) <= usize::MAX);
    }
    assert(b.let_go_all(links).refs =~= a.refs);
    assert(a.refs[i as int] + uses(links, i) <= usize::MAX);
}

/// A link more counts one more for what it leads to, and nothing for anything else.
pub proof fn law_each_link_counts_once(links: Map<usize, usize>, k: usize, a: usize, other: usize)
    requires
        links.dom().finite(),
        !links.contains_key(k),
    ensures
        uses(links.insert(k, a), a) == uses(links, a) + 1,
        other != a ==> uses(links.insert(k, a), other) == uses(links, other),
        uses(Map::<usize, usize>::empty(), a) == 0,
{
    let post = links.insert(k, a);
    let was = links.dom().filter(leads_to(links, a));
    let now = post.dom().filter(leads_to(post, a));
    assert(now =~= was.insert(k));
    assert(!was.contains(k));
    let (x, y) = (
        links.dom().filter(leads_to(links, other)),
        post.dom().filter(leads_to(post, other)),
    );
    if other != a {
        assert(x =~= y);
    }
    let none = Map::<usize, usize>::empty();
    assert(none.dom().filter(leads_to(none, a)) =~= Set::empty());
}

/// A key is live while what it leads to has a reference left; what is added under a key is live
/// there, and leaves the others as they are.
pub proof fn law_added_item_keeps_the_others<T>(a: Stock<T>, key: usize, item: T, other: usize)
    requires
        a.wf(),
        a.items.len() < usize::MAX,
        other != key,
    ensures
        a.added(key, item).live(key),
        a.added(key, item).refs.last() == 1,
        a.added(key, item).items.last() == item,
        a.added(key, item).live(other) == a.live(other),
        a.live(other) ==> a.added(key, item).keys[other] == a.keys[other]
            && a.added(key, item).items[a.keys[other] as int] == a.items[a.keys[other] as int],
        a.live(other) ==> a.keys.contains_key(other) && a.refs[a.keys[other] as int] > 0,
{
}

/// Only both flags together, that to create and that to be the first, are exclusive; the nine
/// lowest bits are the mode.
pub proof fn law_exclusive_takes_both_flags(
    key: u32,
    n: usize,
    flags: usize,
    k: int,
    excl: int,
    create: int,
    mode: int,
)
    requires
        0 <= k,
        0 <= excl <= 1,
        0 <= create <= 1,
        0 <= mode < 512,
        flags == k * 2048 + excl * 1024 + create * 512 + mode,
    ensures
        exclusive(flags) <==> excl == 1 && create == 1,
        fresh_ds(key, n, flags).perm.mode == mode,
        fresh_ds(key, n, flags).perm.key == key,
        fresh_ds(key, n, flags).nsems == n,
{
    let f = flags as int;
    let high = k * 2 + excl;
    assert(f == 1024 * high + (create * 512 + mode));
    assert(0 <= create * 512 + mode < 1024);
    assert(f / 1024 == high);
    let low = high * 2 + create;
    assert(f == 512 * low + mode);
    assert(f / 512 == low && f % 512 == mode);
    assert(high % 2 == excl);
    assert(low % 2 == create);
    assert(flags / 0x200 == low && flags / 0x400 == high);
}

/// A private key is the least positive one that is free.
pub proof fn law_private_key_is_the_least(taken: Set<usize>, k: usize, other: usize)
    requires
        is_private_key(taken, k),
        1 <= other,
        !taken.contains(other),
    ensures
        1 <= k <= other,
        !taken.contains(k),
{
}

/// What goes back to a semaphore raises its count by so much, and no further than it can count.
pub proof fn law_given_back_units_are_counted(s: Sema, k: nat, post: Sema)
    requires
        given_back(s, k, post),
    ensures
        s.cnt + k <= isize::MAX ==> post.cnt == s.cnt + k,
        s.cnt + k > isize::MAX ==> post.cnt == isize::MAX,
        post.pid == s.pid && post.rm == s.rm,
        k == 0 ==> post == s,
{
}

/// A task that has nothing to undo changes no semaphore when it ends.
pub proof fn law_nothing_to_undo_changes_nothing(
    c: SemCtx,
    a: Stock<SemArr>,
    b: Stock<SemArr>,
    i: usize,
    num: usize,
)
    requires
        c.finished(a, b),
        c.arrays@.dom().finite(),
        i < a.items.len(),
        num < a.items[i as int].sems@.len(),
        forall|id: usize| #[trigger]
            c.arrays@.contains_key(id) && c.arrays@[id] == i ==> c.undo_at(id, num) != 1,
    ensures
        b.items[i as int].sems@[num as int] == a.items[i as int].sems@[num as int],
        b.keys == a.keys,
{
    let none = c.returning(c.arrays@.dom(), i, num);
    assert forall|id: usize| !none.contains(id) by {
        if none.contains(id) {
            assert(c.arrays@.contains_key(id));
        }
    }
    assert(none =~= Set::empty());
    assert(c.comes_back(i, num) == 0);
}

/// A new array has as many semaphores as were asked for, none of which has a unit, an owner
/// or a mark, and it goes by its key.
pub proof fn law_new_semaphores_are_empty(a: SemArr, key: u32, nsems: usize, flags: usize, i: int)
    requires
        is_fresh_array(a, key, nsems, flags),
        0 <= i < nsems,
    ensures
        a.sems@.len() == nsems,
        a.sems@[i].cnt == 0,
        a.sems@[i].pid == 0,
        !a.sems@[i].rm,
        a.sems@[i].bus@ == crate::sync::Bus::empty(),
        a.ds.perm.key == key,
        a.ds.nsems == nsems,
{
    assert(untouched(a.sems@[i]));
}

/// What is to be undone is what was noted for that semaphore under that number; nothing was
/// noted, nothing is to be undone.
pub proof fn law_undo_is_what_was_noted(c: SemCtx, id: usize, num: usize)
    ensures
        !c.undos@.contains_key(id) ==> c.undo_at(id, num) == 0,
        c.undos@.contains_key(id) && !c.undos@[id]@.contains_key(num) ==> c.undo_at(id, num) == 0,
        c.undos@.contains_key(id) && c.undos@[id]@.contains_key(num) ==> c.undo_at(id, num)
            == c.undos@[id]@[num],
{
}

/// Taking off never goes below nothing.
pub proof fn law_counts_stop_at_nothing(n: usize, k: nat)
    ensures
        k <= n ==> less(n, k) == n - k,
        k >= n ==> less(n, k) == 0,
{
}

} // verus!
