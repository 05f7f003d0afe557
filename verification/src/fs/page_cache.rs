//! A cache of pages that gives up the one not used for longest.
use crate::tables::{hash_keys, take_out};
use std::collections::{HashMap, VecDeque};
use vstd::prelude::*;

verus! {

broadcast use vstd::std_specs::hash::group_hash_axioms;

/// A cached page. One that is pinned is not given up.
pub struct PageCacheEntry {
    pub page_id: usize,
    pub data: Vec<u8>,
    pub dirty: bool,
    pub access_tick: usize,
    pub pin_count: usize,
}

/// Pages by number, with the order in which they were used, the latest last.
pub struct PageCache {
    pub entries: HashMap<usize, PageCacheEntry>,
    pub capacity: usize,
    pub hits: usize,
    pub misses: usize,
    pub evictions: usize,
    pub lru_order: VecDeque<usize>,
}

/// The first page of `order` that is cached and not pinned.
pub open spec fn victim_in(order: Seq<usize>, entries: Map<usize, PageCacheEntry>) -> Option<usize>
    decreases order.len(),
{
    if order.len() == 0 {
        None
    } else if entries.contains_key(order[0]) && entries[order[0]].pin_count == 0 {
        Some(order[0])
    } else {
        victim_in(order.skip(1), entries)
    }
}

/// The entry without its dirty mark.
pub open spec fn cleaned(e: PageCacheEntry) -> PageCacheEntry {
    PageCacheEntry { dirty: false, ..e }
}

impl PageCache {
    /// The cached pages are those that stand in the order.
    pub open spec fn listed(self) -> bool {
        forall|id: usize| #[trigger]
            self.entries@.contains_key(id) <==> self.lru_order@.contains(id)
    }

    /// The caches differ in their entries at most.
    pub open spec fn same_but_entries(self, post: PageCache) -> bool {
        &&& post.capacity == self.capacity
        &&& post.hits == self.hits
        &&& post.misses == self.misses
        &&& post.evictions == self.evictions
        &&& post.lru_order == self.lru_order
    }

    /// The entries after giving up the victim, if there is one.
    pub open spec fn entries_after_evict(self) -> Map<usize, PageCacheEntry> {
        match victim_in(self.lru_order@, self.entries@) {
            Some(id) => self.entries@.remove(id),
            None => self.entries@,
        }
    }

    /// The order after giving up the victim, if there is one.
    pub open spec fn order_after_evict(self) -> Seq<usize> {
        match victim_in(self.lru_order@, self.entries@) {
            Some(id) => crate::tables::without(self.lru_order@, id),
            None => self.lru_order@,
        }
    }

    /// The count of pages given up after giving up the victim, if there is one.
    pub open spec fn evictions_after_evict(self) -> usize {
        if victim_in(self.lru_order@, self.entries@) is Some {
            self.evictions.wrapping_add(1)
        } else {
            self.evictions
        }
    }

    /// The dirty pages with a number from `start` up to but not including `end`, or all
    /// of them without an `end`.
    pub open spec fn dirty_in(self, start: usize, end: Option<usize>) -> Set<usize> {
        self.entries@.dom().filter(
            |id: usize| self.entries@[id].dirty && start <= id && (end is Some ==> id < end->0),
        )
    }

    /// An empty cache for `capacity` pages.
    pub fn new(capacity: usize) -> (r: Self)
        ensures
            r.entries@ == Map::<usize, PageCacheEntry>::empty(),
            r.capacity == capacity,
            r.hits == 0,
            r.misses == 0,
            r.evictions == 0,
            r.lru_order@.len() == 0,
            r.listed(),
    {
        PageCache {
            entries: HashMap::new(),
            capacity,
            hits: 0,
            misses: 0,
            evictions: 0,
            lru_order: VecDeque::new(),
        }
    }

    /// The bytes of the page, which becomes the one used last; a miss is counted.
    pub fn lookup(&mut self, page_id: usize, now: usize) -> (r: Option<&[u8]>)
        ensures
            old(self).listed() ==> final(self).listed(),
            final(self).capacity == old(self).capacity,
            final(self).evictions == old(self).evictions,
            if old(self).entries@.contains_key(page_id) {
                &&& r is Some
                &&& r->0@ == old(self).entries@[page_id].data@
                &&& final(self).hits == old(self).hits.wrapping_add(1)
                &&& final(self).misses == old(self).misses
                &&& final(self).lru_order@ == crate::tables::without(old(self).lru_order@, page_id).push(page_id)
                &&& final(self).entries@ == old(self).entries@.insert(
                    page_id,
                    PageCacheEntry { access_tick: now, ..old(self).entries@[page_id] },
                )
            } else {
                &&& r is None
                &&& final(self).hits == old(self).hits
                &&& final(self).misses == old(self).misses.wrapping_add(1)
                &&& final(self).lru_order@ == old(self).lru_order@
                &&& final(self).entries@ == old(self).entries@
            },
    {
        match self.entries.remove(&page_id) {
            None => {
                self.misses = self.misses.wrapping_add(1);
                None
            },
            Some(mut e) => {
                self.hits = self.hits.wrapping_add(1);
                take_out(&mut self.lru_order, page_id);
                self.lru_order.push_back(page_id);
                e.access_tick = now;
                let _ = self.entries.insert(page_id, e);
                proof {
                    assert(self.entries@ =~= old(self).entries@.insert(
                        page_id,
                        PageCacheEntry { access_tick: now, ..old(self).entries@[page_id] },
                    ));
                    if old(self).listed() {
                        lemma_use_keeps_list(old(self).lru_order@, page_id);
                    }
                }
                match self.entries.get(&page_id) {
                    Some(e) => Some(e.data.as_slice()),
                    None => None,
                }
            },
        }
    }

    /// Caches a page as the one used last; a full cache gives up another one first.
    pub fn insert(&mut self, page_id: usize, data: Vec<u8>, now: usize)
        ensures
            old(self).listed() ==> final(self).listed(),
            final(self).capacity == old(self).capacity,
            final(self).hits == old(self).hits,
            final(self).misses == old(self).misses,
            ({
                let full = old(self).entries@.len() >= old(self).capacity;
                let entry = PageCacheEntry {
                    page_id,
                    data,
                    dirty: false,
                    access_tick: now,
                    pin_count: 0,
                };
                &&& final(self).entries@ == (if full {
                    old(self).entries_after_evict()
                } else {
                    old(self).entries@
                }).insert(page_id, entry)
                &&& final(self).lru_order@ == (if full {
                    old(self).order_after_evict()
                } else {
                    old(self).lru_order@
                }).push(page_id)
                &&& final(self).evictions == (if full {
                    old(self).evictions_after_evict()
                } else {
                    old(self).evictions
                })
            }),
    {
        if self.entries.len() >= self.capacity {
            let _ = self.evict_lru();
        }
        let ghost mid = *self;
        let entry = PageCacheEntry { page_id, data, dirty: false, access_tick: now, pin_count: 0 };
        let _ = self.entries.insert(page_id, entry);
        self.lru_order.push_back(page_id);
        proof {
            if old(self).listed() {
                let a = mid.lru_order@;
                assert forall|id: usize| #[trigger] self.entries@.contains_key(id)
                    <==> self.lru_order@.contains(id) by {
                    crate::tables::lemma_push_contains(a, page_id, id);
                    assert(mid.entries@.contains_key(id) <==> a.contains(id));
                }
            }
        }
    }

    /// Gives up the page not used for longest among those that are not pinned, and says
    /// whether there was one.
    pub fn evict_lru(&mut self) -> (r: bool)
        ensures
            old(self).listed() ==> final(self).listed(),
            r == (victim_in(old(self).lru_order@, old(self).entries@) is Some),
            final(self).entries@ == old(self).entries_after_evict(),
            final(self).lru_order@ == old(self).order_after_evict(),
            final(self).evictions == old(self).evictions_after_evict(),
            final(self).capacity == old(self).capacity,
            final(self).hits == old(self).hits,
            final(self).misses == old(self).misses,
    {
        let ghost order = self.lru_order@;
        let mut i: usize = 0;
        proof {
            assert(order.skip(0) =~= order);
        }
        while i < self.lru_order.len()
            invariant
                i <= order.len(),
                *self == *old(self),
                order == self.lru_order@,
                victim_in(order, self.entries@) == victim_in(order.skip(i as int), self.entries@),
            decreases order.len() - i,
        {
            let id: usize = self.lru_order[i];
            proof {
                assert(order.skip(i as int).skip(1) =~= order.skip(i + 1));
                assert(order.skip(i as int)[0] == id);
            }
            let free = match self.entries.get(&id) {
                Some(e) => e.pin_count == 0,
                None => false,
            };
            if free {
                let _ = self.entries.remove(&id);
                take_out(&mut self.lru_order, id);
                self.evictions = self.evictions.wrapping_add(1);
                proof {
                    if old(self).listed() {
                        crate::tables::lemma_without(order, id);
                    }
                }
                return true;
            }
            i = i + 1;
        }
        false
    }

    /// Marks a cached page as dirty.
    pub fn mark_dirty(&mut self, page_id: usize)
        ensures
            old(self).same_but_entries(*final(self)),
            final(self).entries@ == (if old(self).entries@.contains_key(page_id) {
                old(self).entries@.insert(
                    page_id,
                    PageCacheEntry { dirty: true, ..old(self).entries@[page_id] },
                )
            } else {
                old(self).entries@
            }),
            old(self).listed() ==> final(self).listed(),
    {
        if let Some(mut e) = self.entries.remove(&page_id) {
            e.dirty = true;
            let _ = self.entries.insert(page_id, e);
            proof {
                assert(self.entries@ =~= old(self).entries@.insert(
                    page_id,
                    PageCacheEntry { dirty: true, ..old(self).entries@[page_id] },
                ));
            }
        }
    }

    /// Cleans the dirty pages of a range, and says how many they were.
    fn clean(&mut self, start: usize, end: Option<usize>) -> (r: usize)
        ensures
            r == old(self).dirty_in(start, end).len(),
            old(self).same_but_entries(*final(self)),
            final(self).entries@.dom() == old(self).entries@.dom(),
            forall|id: usize| #[trigger]
                old(self).entries@.contains_key(id) ==> final(self).entries@[id] == (if old(
                    self).dirty_in(start, end).contains(id) {
                    cleaned(old(self).entries@[id])
                } else {
                    old(self).entries@[id]
                }),
            old(self).listed() ==> final(self).listed(),
    {
        let ids = hash_keys(&self.entries);
        let ghost dirty = self.dirty_in(start, end);
        let ghost mut done = Set::<usize>::empty();
        let mut count: usize = 0;
        let mut i: usize = 0;
        while i < ids.len()
            invariant
                i <= ids@.len(),
                count <= i,
                ids@.no_duplicates(),
                forall|k: usize| ids@.contains(k) <==> old(self).entries@.contains_key(k),
                dirty == old(self).dirty_in(start, end),
                old(self).same_but_entries(*self),
                self.entries@.dom() == old(self).entries@.dom(),
                done.finite(),
                done.len() == count,
                forall|k: usize| done.contains(k) <==> (dirty.contains(k) && ids@.take(
                    i as int,
                ).contains(k)),
                forall|id: usize| #[trigger]
                    old(self).entries@.contains_key(id) ==> self.entries@[id] == (if done.contains(
                        id,
                    ) {
                        cleaned(old(self).entries@[id])
                    } else {
                        old(self).entries@[id]
                    }),
            decreases ids@.len() - i,
        {
            let id: usize = ids[i];
            let ghost before = *self;
            let ghost was = done;
            proof {
                assert(ids@.contains(id));
                assert(ids@.take(i + 1) =~= ids@.take(i as int).push(id));
                assert(!ids@.take(i as int).contains(id));
                assert forall|k: usize| ids@.take(i + 1).contains(k) <==> (ids@.take(
                    i as int,
                ).contains(k) || k == id) by {
                    crate::tables::lemma_push_contains(ids@.take(i as int), id, k);
                }
            }
            let in_range = start <= id && match end {
                Some(e) => id < e,
                None => true,
            };
            if in_range {
                if let Some(mut e) = self.entries.remove(&id) {
                    if e.dirty {
                        e.dirty = false;
                        count = count + 1;
                        proof {
                            done = done.insert(id);
                        }
                    }
                    let _ = self.entries.insert(id, e);
                    proof {
                        assert(self.entries@.dom() =~= old(self).entries@.dom());
                        assert forall|k: usize| #[trigger]
                            old(self).entries@.contains_key(k) && k != id implies self.entries@[k]
                            == before.entries@[k] by {}
                    }
                }
            }
            i = i + 1;
        }
        proof {
            assert(ids@.take(i as int) =~= ids@);
            assert(done =~= dirty);
        }
        count
    }

    /// Writes back every dirty page, and says how many they were.
    pub fn writeback_all(&mut self) -> (r: usize)
        ensures
            r == old(self).dirty_in(0, None).len(),
            old(self).same_but_entries(*final(self)),
            final(self).entries@.dom() == old(self).entries@.dom(),
            forall|id: usize| #[trigger]
                old(self).entries@.contains_key(id) ==> final(self).entries@[id] == cleaned(
                    old(self).entries@[id],
                ),
            old(self).listed() ==> final(self).listed(),
    {
        let n: usize = self.clean(0, None);
        proof {
            assert forall|id: usize| #[trigger]
                old(self).entries@.contains_key(id) implies self.entries@[id] == cleaned(
                old(self).entries@[id],
            ) by {
                if !old(self).dirty_in(0, None).contains(id) {
                    assert(!old(self).entries@[id].dirty);
                }
            }
        }
        n
    }

    /// How many lookups hit and missed, and how many pages were given up.
    pub fn stats(&self) -> (r: (usize, usize, usize))
        ensures
            r == (self.hits, self.misses, self.evictions),
    {
        (self.hits, self.misses, self.evictions)
    }

    /// Pins a cached page once more, and says whether it is cached.
    pub fn pin(&mut self, page_id: usize) -> (r: bool)
        requires
            old(self).entries@.contains_key(page_id) ==> old(self).entries@[page_id].pin_count
                < usize::MAX,
        ensures
            r == old(self).entries@.contains_key(page_id),
            old(self).same_but_entries(*final(self)),
            final(self).entries@ == (if r {
                old(self).entries@.insert(
                    page_id,
                    PageCacheEntry {
                        pin_count: (old(self).entries@[page_id].pin_count + 1) as usize,
                        ..old(self).entries@[page_id]
                    },
                )
            } else {
                old(self).entries@
            }),
            old(self).listed() ==> final(self).listed(),
    {
        match self.entries.remove(&page_id) {
            None => false,
            Some(mut e) => {
                e.pin_count = e.pin_count + 1;
                let _ = self.entries.insert(page_id, e);
                proof {
                    let was = old(self).entries@[page_id];
                    assert(self.entries@ =~= old(self).entries@.insert(
                        page_id,
                        PageCacheEntry { pin_count: (was.pin_count + 1) as usize, ..was },
                    ));
                }
                true
            },
        }
    }

    /// Takes one pin off a cached page, and says whether it is cached.
    pub fn unpin(&mut self, page_id: usize) -> (r: bool)
        ensures
            r == old(self).entries@.contains_key(page_id),
            old(self).same_but_entries(*final(self)),
            final(self).entries@ == (if r {
                old(self).entries@.insert(
                    page_id,
                    PageCacheEntry {
                        pin_count: (if old(self).entries@[page_id].pin_count > 0 {
                            (old(self).entries@[page_id].pin_count - 1) as usize
                        } else {
                            0
                        }),
                        ..old(self).entries@[page_id]
                    },
                )
            } else {
                old(self).entries@
            }),
            old(self).listed() ==> final(self).listed(),
    {
        match self.entries.remove(&page_id) {
            None => false,
            Some(mut e) => {
                if e.pin_count > 0 {
                    e.pin_count = e.pin_count - 1;
                }
                let _ = self.entries.insert(page_id, e);
                proof {
                    let was = old(self).entries@[page_id];
                    assert(self.entries@ =~= old(self).entries@.insert(
                        page_id,
                        PageCacheEntry {
                            pin_count: (if was.pin_count > 0 {
                                (was.pin_count - 1) as usize
                            } else {
                                0
                            }),
                            ..was
                        },
                    ));
                }
                true
            },
        }
    }

    /// Forgets a page, and says whether it was cached.
    pub fn invalidate(&mut self, page_id: usize) -> (r: bool)
        ensures
            r == old(self).entries@.contains_key(page_id),
            final(self).entries@ == old(self).entries@.remove(page_id),
            final(self).lru_order@ == (if r {
                crate::tables::without(old(self).lru_order@, page_id)
            } else {
                old(self).lru_order@
            }),
            final(self).capacity == old(self).capacity,
            final(self).hits == old(self).hits,
            final(self).misses == old(self).misses,
            final(self).evictions == old(self).evictions,
            old(self).listed() ==> final(self).listed(),
    {
        match self.entries.remove(&page_id) {
            None => {
                proof {
                    assert(self.entries@ =~= old(self).entries@.remove(page_id));
                }
                false
            },
            Some(_) => {
                take_out(&mut self.lru_order, page_id);
                proof {
                    if old(self).listed() {
                        crate::tables::lemma_without(old(self).lru_order@, page_id);
                    }
                }
                true
            },
        }
    }

    /// Writes back the dirty pages with a number from `start` up to but not including
    /// `end`, and says how many they were.
    pub fn flush_range(&mut self, start: usize, end: usize) -> (r: usize)
        ensures
            r == old(self).dirty_in(start, Some(end)).len(),
            old(self).same_but_entries(*final(self)),
            final(self).entries@.dom() == old(self).entries@.dom(),
            forall|id: usize| #[trigger]
                old(self).entries@.contains_key(id) ==> final(self).entries@[id] == (if start
                    <= id < end {
                    cleaned(old(self).entries@[id])
                } else {
                    old(self).entries@[id]
                }),
            old(self).listed() ==> final(self).listed(),
    {
        let n: usize = self.clean(start, Some(end));
        proof {
            assert forall|id: usize| #[trigger]
                old(self).entries@.contains_key(id) implies self.entries@[id] == (if start <= id
                < end {
                cleaned(old(self).entries@[id])
            } else {
                old(self).entries@[id]
            }) by {
                if start <= id < end && !old(self).dirty_in(start, Some(end)).contains(id) {
                    assert(!old(self).entries@[id].dirty);
                }
            }
        }
        n
    }
}

/// Moving a page to the end of the order keeps what the order holds.
proof fn lemma_use_keeps_list(order: Seq<usize>, id: usize)
    ensures
        forall|x: usize| #[trigger]
            crate::tables::without(order, id).push(id).contains(x) <==> order.contains(x) || x == id,
{
    crate::tables::lemma_without(order, id);
    assert forall|x: usize| #[trigger]
        crate::tables::without(order, id).push(id).contains(x) <==> order.contains(x) || x == id by {
        crate::tables::lemma_push_contains(crate::tables::without(order, id), id, x);
        assert(crate::tables::without(order, id).contains(x) <==> order.contains(x) && x != id);
    }
}

/// The victim is cached and not pinned, and every page that stands before it in the
/// order is pinned or no longer cached.
pub proof fn law_victim_is_least_recent_unpinned(
    order: Seq<usize>,
    entries: Map<usize, PageCacheEntry>,
)
    ensures
        match victim_in(order, entries) {
            Some(id) => entries.contains_key(id) && entries[id].pin_count == 0 && exists|i: int|
                0 <= i < order.len() && order[i] == id && forall|j: int|
                    0 <= j < i ==> entries.contains_key(#[trigger] order[j])
                        ==> entries[order[j]].pin_count > 0,
            None => forall|j: int|
                0 <= j < order.len() ==> entries.contains_key(#[trigger] order[j])
                    ==> entries[order[j]].pin_count > 0,
        },
    decreases order.len(),
{
    if order.len() > 0 && !(entries.contains_key(order[0]) && entries[order[0]].pin_count == 0) {
        let rest = order.skip(1);
        law_victim_is_least_recent_unpinned(rest, entries);
        match victim_in(rest, entries) {
            Some(id) => {
                let i = choose|i: int|
                    0 <= i < rest.len() && rest[i] == id && forall|j: int|
                        0 <= j < i ==> entries.contains_key(#[trigger] rest[j])
                            ==> entries[rest[j]].pin_count > 0;
                assert(order[i + 1] == id);
                assert forall|j: int| 0 <= j < i + 1 && entries.contains_key(
                    #[trigger] order[j],
                ) implies entries[order[j]].pin_count > 0 by {
                    if j > 0 {
                        assert(rest[j - 1] == order[j]);
                    }
                }
            },
            None => {
                assert forall|j: int| 0 <= j < order.len() && entries.contains_key(
                    #[trigger] order[j],
                ) implies entries[order[j]].pin_count > 0 by {
                    if j > 0 {
                        assert(rest[j - 1] == order[j]);
                    }
                }
            },
        }
    } else if order.len() > 0 {
        assert(order[0] == victim_in(order, entries)->0);
    }
}

/// A page that has just been used is the last to be given up: another page goes before
/// it if any other can go.
pub proof fn law_page_in_use_goes_last(
    order: Seq<usize>,
    entries: Map<usize, PageCacheEntry>,
    id: usize,
    other: usize,
)
    requires
        other != id,
        order.contains(other),
        entries.contains_key(other),
        entries[other].pin_count == 0,
    ensures
        victim_in(crate::tables::without(order, id).push(id), entries) is Some,
        victim_in(crate::tables::without(order, id).push(id), entries) != Some(id),
{
    let w = crate::tables::without(order, id);
    let all = w.push(id);
    crate::tables::lemma_without(order, id);
    assert(w.contains(other));
    let k = choose|k: int| 0 <= k < w.len() && w[k] == other;
    law_victim_is_least_recent_unpinned(all, entries);
    assert(all[k] == other);
    if victim_in(all, entries) == Some(id) {
        let i = choose|i: int|
            0 <= i < all.len() && all[i] == id && forall|j: int|
                0 <= j < i ==> entries.contains_key(#[trigger] all[j])
                    ==> entries[all[j]].pin_count > 0;
        if i < w.len() {
            assert(w[i] == id);
            assert(w.contains(id));
        }
        assert(i == w.len());
        assert(entries.contains_key(all[k]));
    }
}

/// An eviction takes one page that nobody has pinned, in the entries and in the order, and
/// counts it; it leaves the other pages as they are. Where every page is pinned it takes
/// none.
pub proof fn law_eviction_takes_one_page(c: PageCache, id: usize)
    requires
        c.listed(),
        c.evictions < usize::MAX,
        c.entries@.contains_key(id),
        c.entries@[id].pin_count == 0,
    ensures
        c.evictions_after_evict() == c.evictions + 1,
        exists|gone: usize|
            {
                &&& c.entries@.contains_key(gone)
                &&& c.entries@[gone].pin_count == 0
                &&& !c.entries_after_evict().contains_key(gone)
                &&& !(#[trigger] c.order_after_evict().contains(gone))
                &&& forall|other: usize|
                    other != gone && #[trigger] c.entries@.contains_key(other) ==> {
                        &&& c.entries_after_evict().contains_key(other)
                        &&& c.entries_after_evict()[other] == c.entries@[other]
                        &&& c.order_after_evict().contains(other)
                    }
            },
{
    law_victim_is_least_recent_unpinned(c.lru_order@, c.entries@);
    assert(c.lru_order@.contains(id));
    let i = choose|i: int| 0 <= i < c.lru_order@.len() && c.lru_order@[i] == id;
    assert(c.lru_order@[i] == id);
    assert(victim_in(c.lru_order@, c.entries@) is Some);
    let gone = victim_in(c.lru_order@, c.entries@)->0;
    crate::tables::lemma_without(c.lru_order@, gone);
    assert(!c.order_after_evict().contains(gone));
}

/// Pinned pages stay: where all of them are pinned, an eviction changes nothing.
pub proof fn law_pinned_pages_stay(c: PageCache)
    requires
        forall|id: usize| #[trigger]
            c.entries@.contains_key(id) ==> c.entries@[id].pin_count > 0,
    ensures
        c.entries_after_evict() == c.entries@,
        c.order_after_evict() == c.lru_order@,
        c.evictions_after_evict() == c.evictions,
{
    law_victim_is_least_recent_unpinned(c.lru_order@, c.entries@);
}

/// Writing a page back takes its mark away and nothing else, and the pages to be written
/// back are the marked ones whose number lies in the range.
pub proof fn law_write_back_takes_the_mark(c: PageCache, e: PageCacheEntry, id: usize)
    ensures
        !cleaned(e).dirty,
        cleaned(e).page_id == e.page_id,
        cleaned(e).data == e.data,
        cleaned(e).access_tick == e.access_tick,
        cleaned(e).pin_count == e.pin_count,
        forall|start: usize, end: usize| #[trigger]
            c.dirty_in(start, Some(end)).contains(id) ==> start <= id < end
                && c.entries@[id].dirty,
        c.entries@.contains_key(id) && c.entries@[id].dirty ==> {
            &&& c.dirty_in(0, None).contains(id)
            &&& c.dirty_in(id, None).contains(id)
            &&& id < usize::MAX ==> c.dirty_in(id, Some((id + 1) as usize)).contains(id)
            &&& !c.dirty_in(id, Some(id)).contains(id)
        },
        !c.entries@.contains_key(id) ==> !c.dirty_in(0, None).contains(id),
        c.entries@.contains_key(id) && !c.entries@[id].dirty ==> !c.dirty_in(0, None).contains(id),
{
}

/// What marks, pins or cleans pages leaves the counts, the capacity and the order alone.
pub proof fn law_marks_leave_the_order(a: PageCache, b: PageCache)
    requires
        a.same_but_entries(b),
    ensures
        b.capacity == a.capacity,
        b.hits == a.hits,
        b.misses == a.misses,
        b.evictions == a.evictions,
        b.lru_order@ == a.lru_order@,
{
}

} // verus!
