//! A cache of disk blocks in chains, one lock to each chain.
use crate::sync::{KernLock, Spin};
use vstd::prelude::*;

verus! {

/// A cached block.
pub struct CacheSlot {
    pub id: usize,
    pub payload: Vec<u8>,
    pub modified: bool,
}

/// The cached blocks of a chain, with the lock that guards them.
pub struct CacheChain {
    pub lk: Spin,
    pub items: Vec<CacheSlot>,
}

impl CacheChain {
    /// An empty chain.
    pub fn new() -> (r: Self)
        ensures
            !r.lk.v,
            r.items@.len() == 0,
    {
        CacheChain { lk: Spin::new(), items: Vec::new() }
    }
}

/// Blocks by chain: a block stands in the chain of its number.
pub struct BlockCache {
    pub chains: Vec<CacheChain>,
    pub width: usize,
    pub ops: usize,
}

/// The number of bytes in a block.
pub const BLOCK_LEN: usize = 512;

/// The byte `i` of a block that is read from disk at the tick.
pub open spec fn block_byte(k: usize, tick: usize, i: usize) -> u8 {
    ((k.wrapping_mul(0x9E37_79B9) ^ tick).wrapping_add(i) & 0xFF) as u8
}

/// The bytes of a block that is read from disk at the tick.
pub open spec fn block_bytes(k: usize, tick: usize) -> Seq<u8> {
    Seq::new(BLOCK_LEN as nat, |i: int| block_byte(k, tick, i as usize))
}

/// The sum of what `f` says of each chain.
pub open spec fn sum_over(chains: Seq<CacheChain>, f: spec_fn(Seq<CacheSlot>) -> nat) -> nat
    decreases chains.len(),
{
    if chains.len() == 0 {
        0
    } else {
        sum_over(chains.drop_last(), f) + f(chains.last().items@)
    }
}

/// How many blocks stand in a chain.
pub open spec fn slot_count() -> spec_fn(Seq<CacheSlot>) -> nat {
    |s: Seq<CacheSlot>| s.len()
}

/// The test for modified blocks.
pub open spec fn is_modified() -> spec_fn(CacheSlot) -> bool {
    |s: CacheSlot| s.modified
}

/// How many modified blocks stand in a chain.
pub open spec fn modified_count() -> spec_fn(Seq<CacheSlot>) -> nat {
    |s: Seq<CacheSlot>| s.filter(is_modified()).len()
}

/// The test for other blocks than `k`.
pub open spec fn other_block(k: usize) -> spec_fn(CacheSlot) -> bool {
    |s: CacheSlot| s.id != k
}

/// The test for blocks that a sweep at the tick `now` keeps: those that are not modified,
/// and those that are younger than `max_age`.
pub open spec fn stays(now: usize, max_age: usize) -> spec_fn(CacheSlot) -> bool {
    |s: CacheSlot| !s.modified || now.wrapping_sub(s.id.wrapping_mul(3)) < max_age
}

/// The first of `items` that holds the block, or how many there are.
pub open spec fn slot_pos(items: Seq<CacheSlot>, k: usize) -> int
    decreases items.len(),
{
    if items.len() == 0 || items[0].id == k {
        0
    } else {
        1 + slot_pos(items.skip(1), k)
    }
}

proof fn lemma_slot_pos(items: Seq<CacheSlot>, k: usize)
    ensures
        0 <= slot_pos(items, k) <= items.len(),
        slot_pos(items, k) < items.len() ==> items[slot_pos(items, k)].id == k,
        forall|i: int| 0 <= i < slot_pos(items, k) ==> (#[trigger] items[i]).id != k,
    decreases items.len(),
{
    if items.len() > 0 && items[0].id != k {
        lemma_slot_pos(items.skip(1), k);
        assert forall|i: int| 0 <= i < slot_pos(items, k) implies (#[trigger] items[i]).id
            != k by {
            if i > 0 {
                assert(items.skip(1)[i - 1] == items[i]);
            }
        }
    }
}

proof fn lemma_sum_take(chains: Seq<CacheChain>, f: spec_fn(Seq<CacheSlot>) -> nat, i: int)
    requires
        0 <= i < chains.len(),
    ensures
        sum_over(chains.take(i + 1), f) == sum_over(chains.take(i), f) + f(chains[i].items@),
        sum_over(chains.take(i + 1), f) <= sum_over(chains, f),
    decreases chains.len() - i,
{
    assert(chains.take(i + 1).drop_last() =~= chains.take(i));
    if i + 1 < chains.len() {
        lemma_sum_take(chains, f, i + 1);
    } else {
        assert(chains.take(i + 1) =~= chains);
    }
}

impl BlockCache {
    /// There are as many chains as the width says, and no lock is taken.
    pub open spec fn wf(self) -> bool {
        &&& self.chains@.len() == self.width
        &&& forall|i: int| 0 <= i < self.chains@.len() ==> !(#[trigger] self.chains@[i]).lk.v
    }

    /// The chain of a block.
    pub open spec fn chain_of(self, k: usize) -> int {
        k as int % self.width as int
    }

    /// The blocks of the chain of `k`.
    pub open spec fn home(self, k: usize) -> Seq<CacheSlot> {
        self.chains@[self.chain_of(k)].items@
    }

    /// The block is cached.
    pub open spec fn holds(self, k: usize) -> bool {
        slot_pos(self.home(k), k) < self.home(k).len()
    }

    /// `post` differs in the blocks of one chain at most, which are `items`.
    pub open spec fn with_chain(self, c: int, items: Seq<CacheSlot>, post: BlockCache) -> bool {
        &&& post.width == self.width
        &&& post.ops == self.ops
        &&& post.chains@.len() == self.chains@.len()
        &&& forall|i: int|
            0 <= i < self.chains@.len() ==> (#[trigger] post.chains@[i]).items@ == (if i == c {
                items
            } else {
                self.chains@[i].items@
            })
    }

    /// A cache of `w` empty chains.
    pub fn new(w: usize) -> (r: Self)
        ensures
            r.wf(),
            r.width == w,
            r.ops == 0,
            forall|i: int| 0 <= i < w ==> (#[trigger] r.chains@[i]).items@.len() == 0,
    {
        let mut c: Vec<CacheChain> = Vec::new();
        let mut i: usize = 0;
        while i < w
            invariant
                i <= w,
                c@.len() == i,
                forall|j: int| 0 <= j < i ==> (#[trigger] c@[j]).items@.len() == 0,
                forall|j: int| 0 <= j < i ==> !(#[trigger] c@[j]).lk.v,
            decreases w - i,
        {
            c.push(CacheChain::new());
            i = i + 1;
        }
        BlockCache { chains: c, width: w, ops: 0 }
    }

    /// The chain of a block.
    pub fn idx(&self, k: usize) -> (r: usize)
        requires
            self.width > 0,
        ensures
            r == self.chain_of(k),
    {
        k % self.width
    }

    /// The bytes of a block if it is cached.
    pub fn cached(&self, k: usize) -> (r: Option<Vec<u8>>)
        requires
            self.wf(),
            self.width > 0,
        ensures
            r is Some <==> self.holds(k),
            r is Some ==> r->0@ == self.home(k)[slot_pos(self.home(k), k)].payload@,
    {
        let ci: usize = self.idx(k);
        let ghost home = self.home(k);
        let mut i: usize = 0;
        proof {
            lemma_slot_pos(home, k);
            assert(home.skip(0) =~= home);
        }
        while i < self.chains[ci].items.len()
            invariant
                self.wf(),
                ci == self.chain_of(k),
                ci < self.chains@.len(),
                home == self.home(k),
                i <= home.len(),
                slot_pos(home, k) == i + slot_pos(home.skip(i as int), k),
            decreases home.len() - i,
        {
            proof {
                assert(home.skip(i as int).skip(1) =~= home.skip(i + 1));
            }
            if self.chains[ci].items[i].id == k {
                let bytes = self.chains[ci].items[i].payload.clone();
                proof {
                    assert(bytes@ =~= home[i as int].payload@);
                }
                return Some(bytes);
            }
            i = i + 1;
        }
        None
    }

    /// The bytes of a block: those cached, or, the first time, those read from disk at
    /// the tick, which are then cached. A caller that models the time a disk takes
    /// waits before the call where `cached` has nothing.
    pub fn fetch(&mut self, k: usize, tick: usize) -> (r: Option<Vec<u8>>)
        requires
            old(self).wf(),
            old(self).width > 0,
        ensures
            final(self).wf(),
            r is Some,
            if old(self).holds(k) {
                &&& r->0@ == old(self).home(k)[slot_pos(old(self).home(k), k)].payload@
                &&& *final(self) == *old(self)
            } else {
                &&& r->0@ == block_bytes(k, tick)
                &&& final(self).width == old(self).width
                &&& final(self).ops == old(self).ops
                &&& final(self).chains@.len() == old(self).chains@.len()
                &&& forall|i: int|
                    0 <= i < old(self).chains@.len() && i != old(self).chain_of(k)
                        ==> #[trigger] final(self).chains@[i] == old(self).chains@[i]
                &&& final(self).home(k).len() == old(self).home(k).len() + 1
                &&& final(self).home(k).drop_last() == old(self).home(k)
                &&& final(self).home(k).last().id == k
                &&& final(self).home(k).last().payload@ == block_bytes(k, tick)
                &&& !final(self).home(k).last().modified
                &&& final(self).holds(k)
            },
    {
        let ci: usize = self.idx(k);
        let hit = self.cached(k);
        if hit.is_some() {
            return hit;
        }
        let mut payload: Vec<u8> = Vec::new();
        let seed: usize = k.wrapping_mul(0x9E37_79B9) ^ tick;
        let mut i: usize = 0;
        while i < BLOCK_LEN
            invariant
                i <= BLOCK_LEN,
                seed == k.wrapping_mul(0x9E37_79B9) ^ tick,
                payload@.len() == i,
                forall|j: int| 0 <= j < i ==> payload@[j] == block_byte(k, tick, j as usize),
            decreases BLOCK_LEN - i,
        {
            payload.push((seed.wrapping_add(i) & 0xFF) as u8);
            i = i + 1;
        }
        let result = payload.clone();
        proof {
            assert(payload@ =~= block_bytes(k, tick));
            assert(result@ =~= payload@);
        }
        self.chains[ci].items.push(CacheSlot { id: k, payload, modified: false });
        proof {
            let (a, b) = (old(self).home(k), self.home(k));
            assert(b.drop_last() =~= a);
            lemma_slot_pos(a, k);
            lemma_slot_pos(b, k);
            if slot_pos(b, k) == b.len() {
                assert(b[b.len() - 1].id != k);
            }
        }
        Some(result)
    }

    /// Writes back every modified block under the kernel lock, which `id` enters and
    /// leaves.
    pub fn sync_all(&mut self, gkl: &mut KernLock, id: usize)
        requires
            old(self).wf(),
            old(gkl).can_enter(id),
        ensures
            final(self).wf(),
            *final(gkl) == old(gkl).entered(id).left(),
            final(self).width == old(self).width,
            final(self).ops == old(self).ops,
            forall|c: int|
                0 <= c < old(self).chains@.len() ==> {
                    let (a, b) = (
                        old(self).chains@[c].items@,
                        (#[trigger] final(self).chains@[c]).items@,
                    );
                    &&& a.len() == b.len()
                    &&& forall|i: int|
                        0 <= i < a.len() ==> #[trigger] b[i] == (CacheSlot {
                            modified: false,
                            ..a[i]
                        })
                },
    {
        gkl.enter(id);
        let n: usize = self.chains.len();
        let mut c: usize = 0;
        while c < n
            invariant
                c <= n,
                n == self.chains@.len(),
                n == old(self).chains@.len(),
                self.wf(),
                self.width == old(self).width,
                self.ops == old(self).ops,
                forall|d: int| c <= d < n ==> self.chains@[d] == #[trigger] old(self).chains@[d],
                forall|d: int|
                    0 <= d < c ==> {
                        let (a, b) = (
                            old(self).chains@[d].items@,
                            (#[trigger] self.chains@[d]).items@,
                        );
                        &&& a.len() == b.len()
                        &&& forall|i: int|
                            0 <= i < a.len() ==> #[trigger] b[i] == (CacheSlot {
                                modified: false,
                                ..a[i]
                            })
                    },
            decreases n - c,
        {
            let ghost before = self.chains@;
            let ghost a = self.chains@[c as int].items@;
            let m: usize = self.chains[c].items.len();
            let mut i: usize = 0;
            while i < m
                invariant
                    c < n,
                    n == self.chains@.len(),
                    n == before.len(),
                    m == a.len(),
                    i <= m,
                    self.width == old(self).width,
                    self.ops == old(self).ops,
                    forall|d: int|
                        0 <= d < n && d != c ==> #[trigger] self.chains@[d] == before[d],
                    self.chains@[c as int].lk == before[c as int].lk,
                    self.chains@[c as int].items@.len() == m,
                    forall|j: int|
                        0 <= j < m ==> #[trigger] self.chains@[c as int].items@[j] == (if j < i {
                            CacheSlot { modified: false, ..a[j] }
                        } else {
                            a[j]
                        }),
                decreases m - i,
            {
                self.chains[c].items[i].modified = false;
                i = i + 1;
            }
            c = c + 1;
        }
        gkl.leave();
    }

    /// Forgets a block.
    pub fn invalidate(&mut self, k: usize)
        requires
            old(self).wf(),
            old(self).width > 0,
        ensures
            final(self).wf(),
            old(self).with_chain(
                old(self).chain_of(k),
                old(self).home(k).filter(other_block(k)),
                *final(self),
            ),
    {
        let ci: usize = self.idx(k);
        let ghost all = self.home(k);
        let ghost keep = other_block(k);
        let ghost mut seen: int = 0;
        let mut i: usize = 0;
        proof {
            assert(all.take(0).filter(keep) =~= Seq::empty()) by {
                reveal(Seq::filter);
            }
            assert(all =~= all.take(0).filter(keep) + all.skip(0));
        }
        while i < self.chains[ci].items.len()
            invariant
                ci < self.chains@.len(),
                self.chains@.len() == old(self).chains@.len(),
                self.width == old(self).width,
                self.ops == old(self).ops,
                forall|d: int|
                    0 <= d < self.chains@.len() && d != ci ==> #[trigger] self.chains@[d] == old(
                        self).chains@[d],
                self.chains@[ci as int].lk == old(self).chains@[ci as int].lk,
                keep == other_block(k),
                0 <= seen <= all.len(),
                i == all.take(seen).filter(keep).len(),
                self.chains@[ci as int].items@ == all.take(seen).filter(keep) + all.skip(seen),
            decreases all.len() - seen,
        {
            proof {
                crate::tables::lemma_filter_take(all, seen, keep);
                crate::tables::lemma_shift(all.take(seen).filter(keep), all, seen);
            }
            if self.chains[ci].items[i].id == k {
                let _ = self.chains[ci].items.remove(i);
            } else {
                i = i + 1;
            }
            proof {
                seen = seen + 1;
            }
        }
        proof {
            assert(all.take(seen) =~= all);
            assert(self.chains@[ci as int].items@ =~= all.filter(keep));
        }
    }

    /// The number of cached blocks.
    pub fn total_entries(&self) -> (r: usize)
        requires
            self.wf(),
            sum_over(self.chains@, slot_count()) <= usize::MAX,
        ensures
            r == sum_over(self.chains@, slot_count()),
    {
        let mut total: usize = 0;
        let mut i: usize = 0;
        while i < self.chains.len()
            invariant
                i <= self.chains@.len(),
                sum_over(self.chains@, slot_count()) <= usize::MAX,
                total == sum_over(self.chains@.take(i as int), slot_count()),
            decreases self.chains@.len() - i,
        {
            proof {
                lemma_sum_take(self.chains@, slot_count(), i as int);
            }
            total = total + self.chains[i].items.len();
            i = i + 1;
        }
        proof {
            assert(self.chains@.take(i as int) =~= self.chains@);
        }
        total
    }

    /// The number of modified blocks.
    pub fn dirty_count(&self) -> (r: usize)
        requires
            self.wf(),
            sum_over(self.chains@, modified_count()) <= usize::MAX,
        ensures
            r == sum_over(self.chains@, modified_count()),
    {
        let mut count: usize = 0;
        let mut i: usize = 0;
        while i < self.chains.len()
            invariant
                i <= self.chains@.len(),
                sum_over(self.chains@, modified_count()) <= usize::MAX,
                count == sum_over(self.chains@.take(i as int), modified_count()),
            decreases self.chains@.len() - i,
        {
            let ghost all = self.chains@[i as int].items@;
            let ghost base = count;
            proof {
                lemma_sum_take(self.chains@, modified_count(), i as int);
                assert(all.take(0).filter(is_modified()) =~= Seq::empty()) by {
                    reveal(Seq::filter);
                }
            }
            let mut j: usize = 0;
            while j < self.chains[i].items.len()
                invariant
                    i < self.chains@.len(),
                    all == self.chains@[i as int].items@,
                    j <= all.len(),
                    count == base + all.take(j as int).filter(is_modified()).len(),
                    base + all.filter(is_modified()).len() <= usize::MAX,
                decreases all.len() - j,
            {
                proof {
                    crate::tables::lemma_filter_take(all, j as int, is_modified());
                    lemma_filter_prefix_len(all, j + 1, is_modified());
                }
                if self.chains[i].items[j].modified {
                    count = count + 1;
                }
                j = j + 1;
            }
            proof {
                assert(all.take(j as int) =~= all);
            }
            i = i + 1;
        }
        proof {
            assert(self.chains@.take(i as int) =~= self.chains@);
        }
        count
    }

    /// Gives up the modified blocks that are `max_age` old or older at the tick `now`,
    /// and says how many they were.
    pub fn evict_cold(&mut self, max_age: usize, now: usize) -> (r: usize)
        requires
            old(self).wf(),
            sum_over(old(self).chains@, slot_count()) <= usize::MAX,
        ensures
            final(self).wf(),
            final(self).width == old(self).width,
            final(self).ops == old(self).ops,
            forall|c: int|
                0 <= c < old(self).chains@.len() ==> (#[trigger] final(self).chains@[c]).items@
                    == old(self).chains@[c].items@.filter(stays(now, max_age)),
            r == sum_over(old(self).chains@, slot_count()) - sum_over(
                final(self).chains@,
                slot_count(),
            ),
    {
        let n: usize = self.chains.len();
        let ghost first = self.chains@;
        let ghost keep = stays(now, max_age);
        let mut evicted: usize = 0;
        let mut c: usize = 0;
        while c < n
            invariant
                c <= n,
                n == self.chains@.len(),
                n == first.len(),
                self.width == old(self).width,
                self.ops == old(self).ops,
                self.wf(),
                keep == stays(now, max_age),
                sum_over(first, slot_count()) <= usize::MAX,
                forall|d: int| c <= d < n ==> #[trigger] self.chains@[d] == first[d],
                forall|d: int|
                    0 <= d < c ==> (#[trigger] self.chains@[d]).items@ == first[d].items@.filter(
                        keep,
                    ),
                evicted == sum_over(first.take(c as int), slot_count()) - sum_over(
                    self.chains@.take(c as int),
                    slot_count(),
                ),
            decreases n - c,
        {
            let ghost before = self.chains@;
            let ghost all = self.chains@[c as int].items@;
            let ghost mut seen: int = 0;
            let had: usize = self.chains[c].items.len();
            let mut i: usize = 0;
            proof {
                assert(all.take(0).filter(keep) =~= Seq::empty()) by {
                    reveal(Seq::filter);
                }
                assert(all =~= all.take(0).filter(keep) + all.skip(0));
            }
            while i < self.chains[c].items.len()
                invariant
                    c < self.chains@.len(),
                    self.chains@.len() == before.len(),
                    self.width == old(self).width,
                    self.ops == old(self).ops,
                    forall|d: int|
                        0 <= d < self.chains@.len() && d != c ==> #[trigger] self.chains@[d]
                            == before[d],
                    self.chains@[c as int].lk == before[c as int].lk,
                    keep == stays(now, max_age),
                    0 <= seen <= all.len(),
                    i == all.take(seen).filter(keep).len(),
                    self.chains@[c as int].items@ == all.take(seen).filter(keep) + all.skip(seen),
                decreases all.len() - seen,
            {
                proof {
                    crate::tables::lemma_filter_take(all, seen, keep);
                    crate::tables::lemma_shift(all.take(seen).filter(keep), all, seen);
                }
                let id: usize = self.chains[c].items[i].id;
                let age: usize = now.wrapping_sub(id.wrapping_mul(3));
                if !self.chains[c].items[i].modified || age < max_age {
                    i = i + 1;
                } else {
                    let _ = self.chains[c].items.remove(i);
                }
                proof {
                    seen = seen + 1;
                }
            }
            proof {
                assert(all.take(seen) =~= all);
                assert(self.chains@[c as int].items@ =~= all.filter(keep));
                all.lemma_filter_len(keep);
                lemma_sum_take(first, slot_count(), c as int);
                lemma_sum_take(self.chains@, slot_count(), c as int);
                lemma_sum_same(before.take(c as int), self.chains@.take(c as int), slot_count());
                assert(first[c as int].items@ == all);
            }
            let left: usize = self.chains[c].items.len();
            evicted = evicted + (had - left);
            c = c + 1;
        }
        proof {
            assert(first.take(n as int) =~= first);
            assert(self.chains@.take(n as int) =~= self.chains@);
        }
        evicted
    }
}

/// Chains that hold the same have the same sums.
proof fn lemma_sum_same(
    a: Seq<CacheChain>,
    b: Seq<CacheChain>,
    f: spec_fn(Seq<CacheSlot>) -> nat,
)
    requires
        a.len() == b.len(),
        forall|i: int| 0 <= i < a.len() ==> (#[trigger] a[i]).items@ == b[i].items@,
    ensures
        sum_over(a, f) == sum_over(b, f),
    decreases a.len(),
{
    if a.len() > 0 {
        lemma_sum_same(a.drop_last(), b.drop_last(), f);
        assert(a.last().items@ == b.last().items@);
    }
}

/// No more of a prefix passes a test than of the whole.
proof fn lemma_filter_prefix_len(s: Seq<CacheSlot>, i: int, p: spec_fn(CacheSlot) -> bool)
    requires
        0 <= i <= s.len(),
    ensures
        s.take(i).filter(p).len() <= s.filter(p).len(),
    decreases s.len() - i,
{
    if i == s.len() {
        assert(s.take(i) =~= s);
    } else {
        lemma_filter_prefix_len(s, i + 1, p);
        crate::tables::lemma_filter_take(s, i, p);
    }
}

/// A block that was fetched is given again, whatever the tick, until it is forgotten;
/// then it is cached no more.
pub proof fn law_invalidate_forgets(a: BlockCache, b: BlockCache, k: usize)
    requires
        a.wf(),
        a.width > 0,
        a.with_chain(a.chain_of(k), a.home(k).filter(other_block(k)), b),
    ensures
        !b.holds(k),
        forall|j: usize| j != k && #[trigger] a.holds(j) ==> b.holds(j),
{
    lemma_slot_pos(b.home(k), k);
    if b.holds(k) {
        let i = slot_pos(b.home(k), k);
        crate::tables::lemma_filter_holds(a.home(k), other_block(k), b.home(k)[i]);
        assert(b.home(k).contains(b.home(k)[i]));
    }
    assert forall|j: usize| j != k && #[trigger] a.holds(j) implies b.holds(j) by {
        lemma_slot_pos(a.home(j), j);
        lemma_slot_pos(b.home(j), j);
        let s = a.home(j)[slot_pos(a.home(j), j)];
        assert(a.home(j).contains(s));
        assert(0 <= a.chain_of(j) < a.chains@.len()) by {
            assert(0 <= (j as int % a.width as int) < a.width as int) by (nonlinear_arith)
                requires
                    a.width > 0,
            ;
        }
        assert(b.chains@[a.chain_of(j)].items@ == b.home(j));
        if a.chain_of(j) == a.chain_of(k) {
            crate::tables::lemma_filter_holds(a.home(k), other_block(k), s);
        }
        assert(b.home(j).contains(s));
        let i = choose|i: int| 0 <= i < b.home(j).len() && b.home(j)[i] == s;
        assert(b.home(j)[i].id == j);
    }
}

impl BlockCache {
    /// The blocks of the chain of `k` once `k` is marked as modified.
    pub open spec fn marked(self, k: usize) -> Seq<CacheSlot> {
        let (home, p) = (self.home(k), slot_pos(self.home(k), k));
        if p < home.len() {
            home.update(p, CacheSlot { modified: true, ..home[p] })
        } else {
            home
        }
    }

    /// Whether a block is cached.
    pub fn contains(&self, k: usize) -> (r: bool)
        requires
            self.wf(),
            self.width > 0,
        ensures
            r == self.holds(k),
    {
        self.position(k) < self.chains[self.idx(k)].items.len()
    }

    fn position(&self, k: usize) -> (r: usize)
        requires
            self.wf(),
            self.width > 0,
        ensures
            r == slot_pos(self.home(k), k),
            r <= self.home(k).len(),
    {
        let ci: usize = self.idx(k);
        let ghost home = self.home(k);
        let mut i: usize = 0;
        while i < self.chains[ci].items.len() && self.chains[ci].items[i].id != k
            invariant
                ci < self.chains@.len(),
                home == self.chains@[ci as int].items@,
                i <= home.len(),
                forall|j: int| 0 <= j < i ==> (#[trigger] home[j]).id != k,
            decreases home.len() - i,
        {
            i += 1;
        }
        proof {
            lemma_slot_pos(home, k);
            let p = slot_pos(home, k);
            if i < home.len() {
                assert(home[i as int].id == k);
            }
            if p < i {
                assert(home[p].id != k);
            }
        }
        i
    }

    /// Marks a block as modified, if it is cached.
    pub fn mark(&mut self, k: usize)
        requires
            old(self).wf(),
            old(self).width > 0,
        ensures
            final(self).wf(),
            old(self).with_chain(old(self).chain_of(k), old(self).marked(k), *final(self)),
    {
        let ci: usize = self.idx(k);
        let p: usize = self.position(k);
        if p < self.chains[ci].items.len() {
            self.chains[ci].items[p].modified = true;
            assert(self.chains@[ci as int].items@ =~= old(self).marked(k));
        }
    }

    /// Drops a block, and says whether it was cached.
    pub fn discard(&mut self, k: usize) -> (r: bool)
        requires
            old(self).wf(),
            old(self).width > 0,
        ensures
            final(self).wf(),
            r == old(self).holds(k),
            old(self).with_chain(
                old(self).chain_of(k),
                old(self).home(k).filter(other_block(k)),
                *final(self),
            ),
    {
        let was = self.contains(k);
        self.invalidate(k);
        was
    }

    /// Counts an operation.
    pub fn count_op(&mut self)
        requires
            old(self).wf(),
        ensures
            final(self).wf(),
            *final(self) == (BlockCache { ops: old(self).ops.wrapping_add(1), ..*old(self) }),
    {
        self.ops = self.ops.wrapping_add(1);
    }
}

/// A block lies in the chain that its number leaves when it is divided by the width: blocks
/// next to one another lie in different chains, and those a width apart in the same one.
pub proof fn law_blocks_are_spread_over_the_chains(c: BlockCache, k: usize, j: usize)
    requires
        c.width > 0,
    ensures
        0 <= c.chain_of(k) < c.width,
        j == k + 1 && c.width > 1 ==> c.chain_of(j) != c.chain_of(k),
        j == k + c.width ==> c.chain_of(j) == c.chain_of(k),
        k < c.width ==> c.chain_of(k) == k,
{
    let w = c.width as int;
    vstd::arithmetic::div_mod::lemma_mod_bound(k as int, w);
    if j == k + c.width {
        vstd::arithmetic::div_mod::lemma_mod_add_multiples_vanish(k as int, w);
    }
    if k < c.width {
        vstd::arithmetic::div_mod::lemma_small_mod(k as nat, w as nat);
    }
    if j == k + 1 && w > 1 {
        vstd::arithmetic::div_mod::lemma_add_mod_noop(k as int, 1, w);
        vstd::arithmetic::div_mod::lemma_small_mod(1, w as nat);
        let m = k as int % w;
        if m + 1 < w {
            vstd::arithmetic::div_mod::lemma_small_mod((m + 1) as nat, w as nat);
        } else {
            vstd::arithmetic::div_mod::lemma_mod_self_0(w);
        }
    }
}

/// A cached block is the first one of its chain that has the number.
pub proof fn law_cached_block_has_the_number(c: BlockCache, k: usize)
    ensures
        c.holds(k) <==> exists|i: int| 0 <= i < c.home(k).len() && (#[trigger] c.home(k)[i]).id == k,
        c.holds(k) ==> c.home(k)[slot_pos(c.home(k), k)].id == k,
        forall|i: int| 0 <= i < slot_pos(c.home(k), k) ==> (#[trigger] c.home(k)[i]).id != k,
{
    lemma_slot_pos(c.home(k), k);
}

/// Marking a block marks that one slot and keeps its bytes and every other slot.
pub proof fn law_mark_marks_one(c: BlockCache, k: usize)
    ensures
        c.marked(k).len() == c.home(k).len(),
        !c.holds(k) ==> c.marked(k) == c.home(k),
        c.holds(k) ==> {
            let p = slot_pos(c.home(k), k);
            &&& c.marked(k)[p].modified
            &&& c.marked(k)[p].id == k
            &&& c.marked(k)[p].payload == c.home(k)[p].payload
            &&& forall|i: int|
                0 <= i < c.home(k).len() && i != p ==> #[trigger] c.marked(k)[i] == c.home(k)[i]
        },
{
    lemma_slot_pos(c.home(k), k);
}

/// A block that was not modified is never evicted for its age. A modified one stays while
/// its age, counted from three ticks for each block before it, is below the limit.
pub proof fn law_only_modified_blocks_grow_old(s: CacheSlot, now: usize, max_age: usize)
    ensures
        !s.modified ==> stays(now, max_age)(s),
        s.modified && 3 * s.id <= now ==> (stays(now, max_age)(s) <==> now - 3 * s.id < max_age),
        s.modified && max_age == 0 ==> !stays(now, max_age)(s),
{
    if 3 * s.id <= now {
        lemma_product_that_fits(s.id, 3);
    }
}

/// The number of slots, and that of the modified ones, grow by what a chain holds.
pub proof fn law_counts_add_up(chains: Seq<CacheChain>, c: CacheChain, slots: Seq<CacheSlot>, s: CacheSlot)
    ensures
        sum_over(Seq::empty(), slot_count()) == 0,
        sum_over(chains.push(c), slot_count()) == sum_over(chains, slot_count()) + c.items@.len(),
        sum_over(Seq::empty(), modified_count()) == 0,
        sum_over(chains.push(c), modified_count()) == sum_over(chains, modified_count())
            + modified_count()(c.items@),
        modified_count()(Seq::empty()) == 0,
        modified_count()(slots.push(s)) == modified_count()(slots) + (if s.modified {
            1int
        } else {
            0
        }),
{
    assert(chains.push(c).drop_last() =~= chains);
    reveal(Seq::filter);
    assert(slots.push(s).drop_last() =~= slots);
}

/// A block has 512 bytes, each one more than the one before it, and starts from its number
/// and the tick.
pub proof fn law_block_counts_up(k: usize, tick: usize, i: usize)
    requires
        (k.wrapping_mul(0x9E37_79B9) ^ tick) + i + 1 <= usize::MAX,
    ensures
        block_bytes(k, tick).len() == 512,
        i < 512 ==> block_bytes(k, tick)[i as int] == block_byte(k, tick, i),
        block_byte(k, tick, (i + 1) as usize) == (block_byte(k, tick, i) + 1) % 256,
        block_byte(0, tick, 0) == tick % 256,
        block_byte(1, 0, 0) == 0xB9,
{
    let a = (k.wrapping_mul(0x9E37_79B9) ^ tick).wrapping_add(i);
    let b = (k.wrapping_mul(0x9E37_79B9) ^ tick).wrapping_add((i + 1) as usize);
    assert(b == a + 1);
    lemma_low_byte(a);
    lemma_low_byte(b);
    lemma_low_byte(tick);
    lemma_low_byte(0x9E37_79B9);
    assert(0usize ^ tick == tick) by (bit_vector);
    assert(0x9E37_79B9usize ^ 0usize == 0x9E37_79B9usize) by (bit_vector);
    lemma_product_that_fits(0, 0x9E37_79B9);
    lemma_product_that_fits(1, 0x9E37_79B9);
}

/// A product that fits does not wrap.
proof fn lemma_product_that_fits(x: usize, y: usize)
    requires
        x * y <= usize::MAX,
    ensures
        x.wrapping_mul(y) == x * y,
{
    assert(x * y >= 0) by (nonlinear_arith);
    assert(x as nat * y as nat == x * y);
    vstd::arithmetic::div_mod::lemma_small_mod(x as nat * y as nat, (usize::MAX + 1) as nat);
}

/// The low byte of a number is its remainder.
proof fn lemma_low_byte(x: usize)
    ensures
        (x & 0xFF) as u8 == x % 256,
{
    assert((x & 0xFF) as u8 == x % 256) by (bit_vector);
}

} // verus!
