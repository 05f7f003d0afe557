//! Page frames: who holds them, which are free, and pages that are copied on write.
use crate::consts::{MEM_OFF, PAGE_SZ, PHYS_OFF};
use vstd::prelude::*;

verus! {

// ---- Reference counts ----

/// How many mappings share a frame.
pub struct PgFrame {
    pub rc: usize,
}

impl PgFrame {
    /// A frame that nobody maps.
    pub fn new() -> (r: Self)
        ensures
            r.rc == 0,
    {
        PgFrame { rc: 0 }
    }

    /// A frame that `n` mappings share.
    pub fn with_rc(n: usize) -> (r: Self)
        ensures
            r.rc == n,
    {
        PgFrame { rc: n }
    }

    /// Counts one mapping more, and returns how many there were.
    pub fn up(&mut self) -> (r: usize)
        ensures
            r == old(self).rc,
            final(self).rc == old(self).rc.wrapping_add(1),
    {
        let prev: usize = self.rc;
        self.rc = prev.wrapping_add(1);
        prev
    }

    /// Counts one mapping less, and returns how many there were.
    pub fn down(&mut self) -> (r: usize)
        ensures
            r == old(self).rc,
            final(self).rc == old(self).rc.wrapping_sub(1),
    {
        let prev: usize = self.rc;
        self.rc = prev.wrapping_sub(1);
        prev
    }

    /// How many mappings there are.
    pub fn count(&self) -> (r: usize)
        ensures
            r == self.rc,
    {
        self.rc
    }

    /// Sets how many mappings there are.
    pub fn set(&mut self, n: usize)
        ensures
            final(self).rc == n,
    {
        self.rc = n;
    }

    /// Sets the count if it is what is expected, and says whether it was.
    pub fn cas(&mut self, expected: usize, desired: usize) -> (r: bool)
        ensures
            r == (old(self).rc == expected),
            final(self).rc == (if r {
                desired
            } else {
                old(self).rc
            }),
    {
        if self.rc == expected {
            self.rc = desired;
            true
        } else {
            false
        }
    }

    /// Counts one mapping more unless there is none, and says whether it did.
    pub fn inc_if_nonzero(&mut self) -> (r: bool)
        requires
            old(self).rc < usize::MAX,
        ensures
            r == (old(self).rc != 0),
            final(self).rc == (if r {
                old(self).rc + 1
            } else {
                0
            }),
    {
        if self.rc == 0 {
            false
        } else {
            self.rc = self.rc + 1;
            true
        }
    }
}

/// A count taken up and down again is what it was.
pub proof fn law_frame_count_down_undoes_up(rc: usize)
    ensures
        rc.wrapping_add(1).wrapping_sub(1) == rc,
{
}

// ---- Free frames ----

/// The number of free frames.
pub open spec fn free_in(s: Seq<bool>) -> nat
    decreases s.len(),
{
    if s.len() == 0 {
        0
    } else {
        free_in(s.drop_last()) + (if s.last() {
            1nat
        } else {
            0
        })
    }
}

/// Where all frames are free, their number is that of the frames.
proof fn lemma_all_free(s: Seq<bool>)
    requires
        forall|i: int| 0 <= i < s.len() ==> #[trigger] s[i],
    ensures
        free_in(s) == s.len(),
    decreases s.len(),
{
    if s.len() > 0 {
        lemma_all_free(s.drop_last());
    }
}

/// The numbers of the free frames in increasing order.
pub open spec fn free_ids(s: Seq<bool>) -> Seq<usize>
    decreases s.len(),
{
    if s.len() == 0 {
        Seq::empty()
    } else if s.last() {
        free_ids(s.drop_last()).push((s.len() - 1) as usize)
    } else {
        free_ids(s.drop_last())
    }
}

/// The frame `i` is the first free one.
pub open spec fn is_first_free(s: Seq<bool>, from: int, i: int) -> bool {
    &&& from <= i < s.len()
    &&& s[i]
    &&& forall|j: int| from <= j < i ==> !#[trigger] s[j]
}

/// The place `off` further on from `start`, round and round.
pub open spec fn around(n: int, start: int, off: int) -> int {
    (start + off) % n
}

/// The frame `off` further on from `start`, round and round, is the first free one.
pub open spec fn is_next_free(s: Seq<bool>, start: int, off: int) -> bool {
    &&& 0 <= off < s.len()
    &&& s[around(s.len() as int, start, off)]
    &&& forall|o: int| 0 <= o < off ==> !s[#[trigger] around(s.len() as int, start, o)]
}

/// There is a free frame.
pub open spec fn any_free(s: Seq<bool>) -> bool {
    exists|i: int| 0 <= i < s.len() && #[trigger] s[i]
}

/// The first free frame from `start` on, round and round.
pub open spec fn next_free(s: Seq<bool>, start: int) -> int {
    around(s.len() as int, start, choose|off: int| is_next_free(s, start, off))
}

/// The frames `start..start + sz` are all free.
pub open spec fn run_free(s: Seq<bool>, start: int, sz: int) -> bool {
    &&& 0 <= start
    &&& start + sz <= s.len()
    &&& forall|i: int| start <= i < start + sz ==> #[trigger] s[i]
}

/// The lowest place that is a multiple of `a` at which `sz` frames in a row are free.
pub open spec fn is_first_run(s: Seq<bool>, sz: int, a: int, start: int) -> bool {
    &&& start % a == 0
    &&& start < s.len()
    &&& run_free(s, start, sz)
    &&& forall|t: int| 0 <= t < start && #[trigger] (t % a) == 0 ==> !run_free(s, t, sz)
}

/// No place that is a multiple of `a` has `sz` free frames in a row.
pub open spec fn no_run(s: Seq<bool>, sz: int, a: int) -> bool {
    forall|t: int| 0 <= t < s.len() && #[trigger] (t % a) == 0 ==> !run_free(s, t, sz)
}

/// The frames with those of `start..start + sz` taken.
pub open spec fn run_taken(s: Seq<bool>, start: int, sz: int) -> Seq<bool> {
    Seq::new(
        s.len(),
        |i: int|
            if start <= i < start + sz {
                false
            } else {
                s[i]
            },
    )
}

/// The first free frame is unique.
proof fn lemma_next_free_unique(s: Seq<bool>, start: int, off: int)
    requires
        is_next_free(s, start, off),
    ensures
        next_free(s, start) == around(s.len() as int, start, off),
{
    let o = choose|o: int| is_next_free(s, start, o);
    assert(is_next_free(s, start, o));
    if o < off {
        assert(!s[around(s.len() as int, start, o)]);
    }
    if off < o {
        assert(!s[around(s.len() as int, start, off)]);
    }
}

/// Going all the way round meets every frame.
proof fn lemma_around_covers(n: int, start: int, i: int)
    requires
        0 <= i < n,
        0 <= start < n,
    ensures
        exists|off: int| 0 <= off < n && #[trigger] around(n, start, off) == i,
{
    let off = if i >= start {
        i - start
    } else {
        i - start + n
    };
    vstd::arithmetic::div_mod::lemma_small_mod(i as nat, n as nat);
    vstd::arithmetic::div_mod::lemma_mod_add_multiples_vanish(i, n);
    assert(start + off == i || start + off == n + i);
    assert(around(n, start, off) == i);
}

/// Takes the first free frame from `start` on, round and round.
fn take_around(s: &mut Vec<bool>, start: usize) -> (r: Option<usize>)
    requires
        old(s)@.len() > 0 ==> start < old(s)@.len(),
    ensures
        match r {
            Some(i) => any_free(old(s)@) && i < old(s)@.len() && i == next_free(
                old(s)@,
                start as int,
            ) && old(s)@[i as int] && final(s)@ == old(s)@.update(i as int, false),
            None => !any_free(old(s)@) && final(s)@ == old(s)@,
        },
{
    let n: usize = s.len();
    let mut off: usize = 0;
    while off < n
        invariant
            *s == *old(s),
            n == s@.len(),
            n > 0 ==> start < n,
            off <= n,
            forall|o: int| 0 <= o < off ==> !s@[#[trigger] around(n as int, start as int, o)],
        decreases n - off,
    {
        let i: usize = if start < n - off {
            start + off
        } else {
            start - (n - off)
        };
        proof {
            if start < n - off {
                vstd::arithmetic::div_mod::lemma_small_mod(i as nat, n as nat);
            } else {
                vstd::arithmetic::div_mod::lemma_mod_add_multiples_vanish(i as int, n as int);
                assert(i + n == start + off);
                vstd::arithmetic::div_mod::lemma_small_mod(i as nat, n as nat);
            }
            assert(around(n as int, start as int, off as int) == i);
        }
        if s[i] {
            proof {
                assert(is_next_free(s@, start as int, off as int));
                lemma_next_free_unique(s@, start as int, off as int);
                assert(s@[i as int]);
            }
            s.set(i, false);
            return Some(i);
        }
        off = off + 1;
    }
    proof {
        assert forall|i: int| 0 <= i < s@.len() implies !#[trigger] s@[i] by {
            lemma_around_covers(n as int, start as int, i);
            let o = choose|o: int| 0 <= o < n && #[trigger] around(n as int, start as int, o) == i;
            assert(!s@[around(n as int, start as int, o)]);
        }
    }
    None
}

/// Takes the lowest run of `sz` free frames that starts at a multiple of `a`.
fn take_run(s: &mut Vec<bool>, sz: usize, a: usize) -> (r: Option<usize>)
    requires
        a > 0,
    ensures
        match r {
            Some(start) => is_first_run(old(s)@, sz as int, a as int, start as int) && final(s)@
                == run_taken(old(s)@, start as int, sz as int),
            None => no_run(old(s)@, sz as int, a as int) && final(s)@ == old(s)@,
        },
{
    let n: usize = s.len();
    let ghost all = s@;
    let mut start: usize = 0;
    proof {
        assert(0int % (a as int) == 0) by (nonlinear_arith)
            requires
                a > 0,
        ;
    }
    while start < n
        invariant
            *s == *old(s),
            all == s@,
            n == all.len(),
            a > 0,
            start as int % a as int == 0,
            forall|t: int|
                0 <= t < start && #[trigger] (t % a as int) == 0 ==> !run_free(all, t, sz as int),
        decreases n - start,
    {
        if sz > n - start {
            proof {
                assert forall|t: int| 0 <= t < all.len() && #[trigger] (t % a as int)
                    == 0 implies !run_free(all, t, sz as int) by {}
            }
            return None;
        }
        let mut k: usize = 0;
        while k < sz && s[start + k]
            invariant
                all == s@,
                n == all.len(),
                k <= sz,
                start + sz <= n,
                forall|i: int| start <= i < start + k ==> #[trigger] all[i],
            decreases sz - k,
        {
            k = k + 1;
        }
        if k == sz {
            proof {
                assert(is_first_run(all, sz as int, a as int, start as int));
            }
            let mut j: usize = 0;
            while j < sz
                invariant
                    j <= sz,
                    start + sz <= n,
                    n == s@.len(),
                    s@ == run_taken(all, start as int, j as int),
                    n == all.len(),
                decreases sz - j,
            {
                s.set(start + j, false);
                proof {
                    assert(s@ =~= run_taken(all, start as int, j + 1));
                }
                j = j + 1;
            }
            return Some(start);
        }
        proof {
            assert(!run_free(all, start as int, sz as int)) by {
                assert(!all[start + k]);
            }
            assert forall|t: int| 0 <= t < start + a && #[trigger] (t % a as int)
                == 0 implies !run_free(all, t, sz as int) by {
                if t > start {
                    lemma_no_multiple_between(start as int, t, a as int);
                }
            }
            vstd::arithmetic::div_mod::lemma_mod_add_multiples_vanish(start as int, a as int);
        }
        if a >= n - start {
            proof {
                assert forall|t: int| 0 <= t < all.len() && #[trigger] (t % a as int)
                    == 0 implies !run_free(all, t, sz as int) by {}
            }
            return None;
        }
        start = start + a;
    }
    None
}

/// Between a multiple and the next one there is none.
proof fn lemma_no_multiple_between(s: int, t: int, a: int)
    requires
        a > 0,
        s % a == 0,
        t % a == 0,
        s < t,
    ensures
        t >= s + a,
{
    vstd::arithmetic::div_mod::lemma_fundamental_div_mod(s, a);
    vstd::arithmetic::div_mod::lemma_fundamental_div_mod(t, a);
    let (p, q) = (s / a, t / a);
    assert(t >= s + a) by (nonlinear_arith)
        requires
            s == a * p,
            t == a * q,
            s < t,
            a > 0,
    ;
}

/// The frames of a machine; `slots` tells which are free.
pub struct FramePool {
    pub slots: Vec<bool>,
    pub cap: usize,
}

impl FramePool {
    /// `n` free frames.
    pub fn new(n: usize) -> (r: Self)
        ensures
            r.slots@ == Seq::new(n as nat, |i: int| true),
            free_in(r.slots@) == n,
            r.cap == n,
    {
        let slots: Vec<bool> = vec![true;n];
        proof {
            assert(slots@ =~= Seq::new(n as nat, |i: int| true));
            lemma_all_free(slots@);
        }
        FramePool { slots, cap: n }
    }

    /// Takes the first free frame, whoever asks.
    pub fn get(&mut self, _id: usize) -> (r: Option<usize>)
        ensures
            final(self).cap == old(self).cap,
            match r {
                Some(i) => is_first_free(old(self).slots@, 0, i as int) && final(self).slots@
                    == old(self).slots@.update(i as int, false),
                None => !any_free(old(self).slots@) && final(self).slots@ == old(self).slots@,
            },
    {
        self.get_inner()
    }

    /// Takes the first free frame.
    pub fn get_inner(&mut self) -> (r: Option<usize>)
        ensures
            final(self).cap == old(self).cap,
            match r {
                Some(i) => is_first_free(old(self).slots@, 0, i as int) && final(self).slots@
                    == old(self).slots@.update(i as int, false),
                None => !any_free(old(self).slots@) && final(self).slots@ == old(self).slots@,
            },
    {
        let mut i: usize = 0;
        while i < self.slots.len()
            invariant
                *self == *old(self),
                i <= self.slots@.len(),
                forall|j: int| 0 <= j < i ==> !#[trigger] self.slots@[j],
            decreases self.slots@.len() - i,
        {
            if self.slots[i] {
                self.slots.set(i, false);
                return Some(i);
            }
            i = i + 1;
        }
        None
    }

    /// Takes the lowest run of `sz` free frames that starts at a multiple of two to the
    /// power `align_log2`.
    pub fn get_contig(&mut self, sz: usize, align_log2: usize) -> (r: Option<usize>)
        requires
            align_log2 < usize::BITS,
        ensures
            final(self).cap == old(self).cap,
            ({
                let a = 1usize << align_log2;
                match r {
                    Some(start) => is_first_run(
                        old(self).slots@,
                        sz as int,
                        a as int,
                        start as int,
                    ) && final(self).slots@ == run_taken(
                        old(self).slots@,
                        start as int,
                        sz as int,
                    ),
                    None => no_run(old(self).slots@, sz as int, a as int) && final(self).slots@
                        == old(self).slots@,
                }
            }),
    {
        let a: usize = 1usize << align_log2;
        proof {
            assert(1usize << align_log2 > 0) by (bit_vector)
                requires
                    align_log2 < usize::BITS,
            ;
        }
        take_run(&mut self.slots, sz, a)
    }

    /// Gives a frame back; a number that there is not is ignored.
    pub fn put(&mut self, idx: usize)
        ensures
            final(self).cap == old(self).cap,
            final(self).slots@ == (if idx < old(self).slots@.len() {
                old(self).slots@.update(idx as int, true)
            } else {
                old(self).slots@
            }),
    {
        if idx < self.slots.len() {
            self.slots.set(idx, true);
        }
    }

    /// Whether the frame is free.
    pub fn avail(&self, idx: usize) -> (r: bool)
        ensures
            r == (idx < self.slots@.len() && self.slots@[idx as int]),
    {
        idx < self.slots.len() && self.slots[idx]
    }

    /// The number of free frames.
    pub fn free_count(&self) -> (r: usize)
        ensures
            r == free_in(self.slots@),
    {
        count_free(&self.slots)
    }

    /// Takes the first free frame of a zone, if the zone has frames to spare.
    pub fn get_zone_aware(&mut self, zone: &mut ZoneInfo) -> (r: Option<usize>)
        requires
            old(zone).free_count > old(zone).low_watermark ==> old(zone).base_pfn + old(
                zone).page_count <= usize::MAX,
        ensures
            final(self).cap == old(self).cap,
            ({
                let z = *old(zone);
                let s = old(self).slots@;
                match r {
                    Some(i) => z.free_count > z.low_watermark && is_first_free(
                        s,
                        z.base_pfn as int,
                        i as int,
                    ) && i < z.base_pfn + z.page_count && final(self).slots@ == s.update(
                        i as int,
                        false,
                    ) && *final(zone) == (ZoneInfo {
                        free_count: (z.free_count - 1) as usize,
                        ..z
                    }),
                    None => (z.free_count > z.low_watermark ==> forall|j: int|
                        z.base_pfn <= j < z.base_pfn + z.page_count && j < s.len()
                            ==> !#[trigger] s[j]) && final(self).slots@ == s && *final(zone) == z,
                }
            }),
    {
        if !zone.zone_can_alloc() {
            return None;
        }
        let limit: usize = zone.base_pfn + zone.page_count;
        let n: usize = self.slots.len();
        let stop: usize = if limit < n {
            limit
        } else {
            n
        };
        let mut i: usize = zone.base_pfn;
        while i < stop
            invariant
                *self == *old(self),
                *zone == *old(zone),
                zone.free_count > zone.low_watermark,
                limit == zone.base_pfn + zone.page_count,
                n == self.slots@.len(),
                stop <= n,
                stop <= limit,
                stop == limit || stop == n,
                zone.base_pfn <= i,
                forall|j: int| zone.base_pfn <= j < i && j < stop ==> !#[trigger] self.slots@[j],
            decreases stop - i,
        {
            if self.slots[i] {
                self.slots.set(i, false);
                zone.free_count = zone.free_count - 1;
                return Some(i);
            }
            i = i + 1;
        }
        None
    }

    /// Gives a frame back to a zone; a number that there is not is ignored.
    pub fn put_zone_aware(&mut self, idx: usize, zone: &mut ZoneInfo)
        ensures
            final(self).cap == old(self).cap,
            if idx < old(self).slots@.len() {
                &&& final(self).slots@ == old(self).slots@.update(idx as int, true)
                &&& *final(zone) == (ZoneInfo {
                    free_count: old(zone).free_count.wrapping_add(1),
                    ..*old(zone)
                })
            } else {
                final(self).slots@ == old(self).slots@ && *final(zone) == *old(zone)
            },
    {
        if idx < self.slots.len() {
            self.slots.set(idx, true);
            zone.free_count = zone.free_count.wrapping_add(1);
        }
    }

    /// Takes the first `count` free frames, or as many as there are.
    pub fn batch_alloc(&mut self, count: usize) -> (r: Vec<usize>)
        ensures
            final(self).cap == old(self).cap,
            ({
                let ids = free_ids(old(self).slots@);
                &&& r@ == (if count < ids.len() {
                    ids.take(count as int)
                } else {
                    ids
                })
                &&& final(self).slots@.len() == old(self).slots@.len()
                &&& forall|i: int|
                    0 <= i < old(self).slots@.len() ==> #[trigger] final(self).slots@[i] == (old(
                        self).slots@[i] && !r@.contains(i as usize))
            }),
    {
        let ghost all = self.slots@;
        let mut r: Vec<usize> = Vec::new();
        let n: usize = self.slots.len();
        let mut i: usize = 0;
        proof {
            assert(all.take(0) =~= Seq::empty());
        }
        while i < n && r.len() < count
            invariant
                i <= n,
                n == all.len(),
                n == self.slots@.len(),
                self.cap == old(self).cap,
                r@.len() <= count,
                r@ == free_ids(all.take(i as int)),
                forall|k: int|
                    0 <= k < n ==> #[trigger] self.slots@[k] == (all[k] && !r@.contains(
                        k as usize,
                    )),
            decreases n - i,
        {
            proof {
                assert(all.take(i + 1).drop_last() =~= all.take(i as int));
                lemma_free_ids(all.take(i as int));
            }
            if self.slots[i] {
                let ghost before = r@;
                self.slots.set(i, false);
                r.push(i);
                proof {
                    assert forall|k: int| 0 <= k < n implies #[trigger] self.slots@[k] == (all[k]
                        && !r@.contains(k as usize)) by {
                        crate::tables::lemma_push_contains(before, i, k as usize);
                    }
                }
            } else {
                proof {
                    if all[i as int] {
                        assert(r@.contains(i));
                        let p = choose|p: int| 0 <= p < r@.len() && r@[p] == i;
                        assert(r@[p] < i);
                    }
                }
            }
            i = i + 1;
        }
        proof {
            if i == n {
                assert(all.take(i as int) =~= all);
                lemma_free_ids_prefix(all, n as int);
            } else {
                lemma_free_ids_prefix(all, i as int);
            }
        }
        r
    }
}

/// The list of free frames names frames that are there, as many as are free.
pub proof fn lemma_free_ids(s: Seq<bool>)
    requires
        s.len() <= usize::MAX,
    ensures
        free_ids(s).len() == free_in(s),
        free_in(s) <= s.len(),
        crate::tables::ascending(free_ids(s)),
        forall|i: int| 0 <= i < free_ids(s).len() ==> (#[trigger] free_ids(s)[i]) < s.len(),
    decreases s.len(),
{
    if s.len() > 0 {
        lemma_free_ids(s.drop_last());
    }
}

/// The free frames of a prefix come first among the free frames.
proof fn lemma_free_ids_prefix(s: Seq<bool>, i: int)
    requires
        0 <= i <= s.len(),
    ensures
        free_ids(s.take(i)).len() <= free_ids(s).len(),
        free_ids(s.take(i)) == free_ids(s).take(free_ids(s.take(i)).len() as int),
    decreases s.len() - i,
{
    if i == s.len() {
        assert(s.take(i) =~= s);
        assert(free_ids(s).take(free_ids(s).len() as int) =~= free_ids(s));
    } else {
        lemma_free_ids_prefix(s, i + 1);
        assert(s.take(i + 1).drop_last() =~= s.take(i));
        let (a, b) = (free_ids(s.take(i)), free_ids(s.take(i + 1)));
        assert(a =~= free_ids(s).take(a.len() as int)) by {
            assert forall|k: int| 0 <= k < a.len() implies a[k] == free_ids(s)[k] by {
                assert(b[k] == a[k]);
                assert(free_ids(s).take(b.len() as int)[k] == b[k]);
            }
        }
    }
}

/// The number of free frames.
fn count_free(s: &Vec<bool>) -> (r: usize)
    ensures
        r == free_in(s@),
{
    let mut n: usize = 0;
    let mut i: usize = 0;
    proof {
        assert(s@.take(0) =~= Seq::empty());
    }
    while i < s.len()
        invariant
            i <= s@.len(),
            n <= i,
            n == free_in(s@.take(i as int)),
        decreases s@.len() - i,
    {
        proof {
            assert(s@.take(i + 1).drop_last() =~= s@.take(i as int));
        }
        if s[i] {
            n = n + 1;
        }
        i = i + 1;
    }
    proof {
        assert(s@.take(i as int) =~= s@);
    }
    n
}

/// A part of the frames with marks for how many of them should stay free.
pub struct ZoneInfo {
    pub zone_id: usize,
    pub base_pfn: usize,
    pub page_count: usize,
    pub free_count: usize,
    pub low_watermark: usize,
    pub high_watermark: usize,
    pub managed: bool,
}

impl ZoneInfo {
    /// A zone of `count` free frames from `base` on.
    pub fn new(id: usize, base: usize, count: usize, low: usize, high: usize) -> (r: Self)
        ensures
            r == (ZoneInfo {
                zone_id: id,
                base_pfn: base,
                page_count: count,
                free_count: count,
                low_watermark: low,
                high_watermark: high,
                managed: true,
            }),
    {
        ZoneInfo {
            zone_id: id,
            base_pfn: base,
            page_count: count,
            free_count: count,
            low_watermark: low,
            high_watermark: high,
            managed: true,
        }
    }

    /// Whether the zone has frames to spare.
    pub fn zone_can_alloc(&self) -> (r: bool)
        ensures
            r == (self.free_count > self.low_watermark),
    {
        self.free_count > self.low_watermark
    }

    /// How short of frames the zone is, from 0 at the high mark to 100 at the low one.
    pub fn zone_pressure(&self) -> (r: usize)
        requires
            self.low_watermark < self.free_count < self.high_watermark ==> (self.high_watermark
                - self.free_count) * 100 <= usize::MAX,
        ensures
            r == (if self.free_count >= self.high_watermark {
                0
            } else if self.free_count <= self.low_watermark {
                100
            } else {
                (self.high_watermark - self.free_count) * 100 / (self.high_watermark
                    - self.low_watermark)
            }),
            r <= 100,
    {
        let free: usize = self.free_count;
        if free >= self.high_watermark {
            return 0;
        }
        if free <= self.low_watermark {
            return 100;
        }
        let range: usize = self.high_watermark - self.low_watermark;
        let deficit: usize = self.high_watermark - free;
        proof {
            assert(deficit * 100 / range as int <= 100) by (nonlinear_arith)
                requires
                    0 <= deficit < range,
            ;
        }
        (deficit * 100) / range
    }

    /// How many frames are missing to the high mark.
    pub fn reclaim_target(&self) -> (r: usize)
        ensures
            r == (if self.free_count >= self.high_watermark {
                0
            } else {
                self.high_watermark - self.free_count
            }),
    {
        if self.free_count >= self.high_watermark {
            return 0;
        }
        self.high_watermark - self.free_count
    }

    /// Whether the frame belongs to the zone.
    pub fn contains_pfn(&self, pfn: usize) -> (r: bool)
        requires
            pfn >= self.base_pfn ==> self.base_pfn + self.page_count <= usize::MAX,
        ensures
            r == (self.base_pfn <= pfn < self.base_pfn + self.page_count),
    {
        pfn >= self.base_pfn && pfn < self.base_pfn + self.page_count
    }
}

/// The address of a frame.
pub open spec fn frame_addr(i: int) -> int {
    i * PAGE_SZ + MEM_OFF
}

/// Takes the first free frame from the place that the tick `clk` points to, round and
/// round, and returns its address; there is none when the address cannot be counted.
pub fn frame_alloc(pool: &mut FramePool, clk: usize) -> (r: Option<usize>)
    ensures
        final(pool).cap == old(pool).cap,
        ({
            let s = old(pool).slots@;
            if any_free(s) {
                let i = next_free(s, clk as int % s.len() as int);
                &&& 0 <= i < s.len()
                &&& s[i]
                &&& final(pool).slots@ == s.update(i, false)
                &&& r == (if frame_addr(i) <= usize::MAX {
                    Some(frame_addr(i) as usize)
                } else {
                    None
                })
            } else {
                r is None && final(pool).slots@ == s
            }
        }),
{
    let n: usize = pool.slots.len();
    let start: usize = if n > 0 {
        clk % n
    } else {
        0
    };
    match take_around(&mut pool.slots, start) {
        None => None,
        Some(i) => match i.checked_mul(PAGE_SZ) {
            None => None,
            Some(v) => v.checked_add(MEM_OFF),
        },
    }
}

/// The frames once the one at an address, if there is one, is free.
pub open spec fn freed_at(s: Seq<bool>, addr: usize) -> Seq<bool> {
    let i = (addr - MEM_OFF) / PAGE_SZ as int;
    if addr >= MEM_OFF && (addr - MEM_OFF) % PAGE_SZ as int == 0 && i < s.len() {
        s.update(i, true)
    } else {
        s
    }
}

/// Gives the frame at an address back; an address of no frame is ignored.
pub fn frame_dealloc(pool: &mut FramePool, target: usize)
    ensures
        final(pool).cap == old(pool).cap,
        final(pool).slots@ == freed_at(old(pool).slots@, target),
{
    if target < MEM_OFF {
        return ;
    }
    let idx: usize = (target - MEM_OFF) / PAGE_SZ;
    if (target - MEM_OFF) % PAGE_SZ != 0 {
        return ;
    }
    if idx < pool.slots.len() {
        pool.slots.set(idx, true);
    }
}

/// Takes the lowest run of `sz` free frames that starts at a multiple of two to the power
/// `align`, and returns its address. There is no run of no frames.
pub fn frame_alloc_contig(pool: &mut FramePool, sz: usize, align: usize) -> (r: Option<usize>)
    requires
        align < usize::BITS,
        frame_addr(old(pool).slots@.len() as int) <= usize::MAX,
    ensures
        final(pool).cap == old(pool).cap,
        ({
            let s = old(pool).slots@;
            let a = 1usize << align;
            match r {
                Some(addr) => sz > 0 && exists|start: int| #[trigger]
                    is_first_run(s, sz as int, a as int, start) && addr == frame_addr(start)
                        && final(pool).slots@ == run_taken(s, start, sz as int),
                None => (sz == 0 || no_run(s, sz as int, a as int)) && final(pool).slots@ == s,
            }
        }),
{
    if sz == 0 {
        return None;
    }
    let a: usize = 1usize << align;
    proof {
        assert(1usize << align > 0) by (bit_vector)
            requires
                align < usize::BITS,
        ;
    }
    match take_run(&mut pool.slots, sz, a) {
        None => None,
        Some(start) => {
            proof {
                let ghost s = old(pool).slots@;
                assert(is_first_run(s, sz as int, a as int, start as int));
            }
            Some(start * PAGE_SZ + MEM_OFF)
        },
    }
}

/// Giving back the frame that was just taken leaves the pool as it was.
pub proof fn law_dealloc_undoes_alloc(s: Seq<bool>, i: int)
    requires
        0 <= i < s.len(),
        s[i],
    ensures
        (frame_addr(i) - MEM_OFF) % PAGE_SZ as int == 0,
        (frame_addr(i) - MEM_OFF) / PAGE_SZ as int == i,
        s.update(i, false).update(i, true) == s,
{
    assert(s.update(i, false).update(i, true) =~= s);
}

/// A frame that is taken is not taken again before it is given back.
pub proof fn law_frame_is_taken_once(s: Seq<bool>, i: int, start: int)
    requires
        0 <= i < s.len(),
        any_free(s.update(i, false)),
        0 <= start < s.len(),
    ensures
        next_free(s.update(i, false), start) != i,
{
    let t = s.update(i, false);
    let n = t.len() as int;
    let k = choose|k: int| 0 <= k < t.len() && #[trigger] t[k];
    lemma_around_covers(n, start, k);
    let off = choose|off: int| 0 <= off < n && #[trigger] around(n, start, off) == k;
    lemma_some_next_free(t, start, off);
    let o = choose|o: int| is_next_free(t, start, o);
    lemma_next_free_unique(t, start, o);
}

/// Where there is a free frame there is a first one.
proof fn lemma_some_next_free(s: Seq<bool>, start: int, off: int)
    requires
        0 <= off < s.len(),
        s[around(s.len() as int, start, off)],
    ensures
        exists|o: int| is_next_free(s, start, o),
    decreases off,
{
    if forall|o: int| 0 <= o < off ==> !s[#[trigger] around(s.len() as int, start, o)] {
        assert(is_next_free(s, start, off));
    } else {
        let o = choose|o: int|
            0 <= o < off && s[#[trigger] around(s.len() as int, start, o)];
        lemma_some_next_free(s, start, o);
    }
}

/// Taking one free frame leaves one free frame less.
pub proof fn law_taking_lowers_free_count(s: Seq<bool>, i: int)
    requires
        0 <= i < s.len(),
        s[i],
    ensures
        free_in(s.update(i, false)) == free_in(s) - 1,
    decreases s.len(),
{
    let t = s.update(i, false);
    if i == s.len() - 1 {
        assert(t.drop_last() =~= s.drop_last());
    } else {
        law_taking_lowers_free_count(s.drop_last(), i);
        assert(t.drop_last() =~= s.drop_last().update(i, false));
    }
}

/// The number of free frames. The frames stay where they are.
pub fn defragment_frame_pool(slots: &mut Vec<bool>) -> (r: usize)
    ensures
        r == free_in(old(slots)@),
        *final(slots) == *old(slots),
{
    count_free(slots)
}

// ---- Copy on write ----

/// A page that is shared until it is written.
pub struct SharedPage {
    pub frame: usize,
    pub w: bool,
    pub pending: bool,
}

impl SharedPage {
    /// A page that shares the frame.
    pub fn new(f: usize) -> (r: Self)
        ensures
            r == (SharedPage { frame: f, w: false, pending: true }),
    {
        SharedPage { frame: f, w: false, pending: true }
    }

    /// A write to the page: the first one takes a frame of its own, from the place of the
    /// shared frame on, round and round, and gives up the share of the other.
    pub fn fault(&mut self, pool: &mut FramePool, src: &mut PgFrame) -> (r: Result<
        usize,
        &'static str,
    >)
        ensures
            final(pool).cap == old(pool).cap,
            ({
                let s = old(pool).slots@;
                let i = next_free(s, old(self).frame as int % s.len() as int);
                if !old(self).pending {
                    &&& r == Ok::<usize, &'static str>(old(self).frame)
                    &&& *final(self) == *old(self)
                    &&& final(pool).slots@ == s
                    &&& *final(src) == *old(src)
                } else if any_free(s) {
                    &&& 0 <= i < s.len()
                    &&& s[i]
                    &&& r == Ok::<usize, &'static str>(i as usize)
                    &&& *final(self) == (SharedPage { frame: i as usize, w: true, pending: false })
                    &&& final(pool).slots@ == s.update(i, false)
                    &&& final(src).rc == old(src).rc.wrapping_sub(1)
                } else {
                    &&& r == Err::<usize, &'static str>("oom")
                    &&& *final(self) == *old(self)
                    &&& final(pool).slots@ == s
                    &&& *final(src) == *old(src)
                }
            }),
    {
        if !self.pending {
            return Ok(self.frame);
        }
        let n: usize = pool.slots.len();
        let start: usize = if n > 0 {
            self.frame % n
        } else {
            0
        };
        match take_around(&mut pool.slots, start) {
            None => Err("oom"),
            Some(nf) => {
                self.frame = nf;
                let _ = src.down();
                self.w = true;
                self.pending = false;
                Ok(nf)
            },
        }
    }

    /// Whether the page has a frame of its own.
    pub fn is_cow_resolved(&self) -> (r: bool)
        ensures
            r == (!self.pending && self.w),
    {
        !self.pending && self.w
    }

    /// The frame of the page.
    pub fn frame_id(&self) -> (r: usize)
        ensures
            r == self.frame,
    {
        self.frame
    }
}

// ---- Growing the heap ----

/// Where the search for the next frame of the heap starts: behind the last piece.
pub open spec fn grow_start(pieces: Seq<(u64, u64)>) -> int {
    if pieces.len() == 0 {
        0
    } else {
        (pieces.last().0 - PHYS_OFF) / PAGE_SZ as int + pieces.last().1 as int / PAGE_SZ as int
    }
}

/// The virtual address of a frame.
pub open spec fn frame_va(pg: int) -> int {
    PHYS_OFF + pg * PAGE_SZ
}

/// The pieces with one more frame: it is joined to the last piece where they touch.
pub open spec fn joined(pieces: Seq<(u64, u64)>, pg: int) -> Seq<(u64, u64)> {
    let va = frame_va(pg);
    if pieces.len() > 0 && pieces.last().0 + pieces.last().1 == va {
        pieces.drop_last().push((pieces.last().0, (pieces.last().1 + PAGE_SZ) as u64))
    } else if pieces.len() > 0 && va + PAGE_SZ == pieces.last().0 {
        pieces.drop_last().push((va as u64, (pieces.last().1 + PAGE_SZ) as u64))
    } else {
        pieces.push((va as u64, PAGE_SZ as u64))
    }
}

/// The frames and pieces once up to `n` more frames were taken.
pub open spec fn grown(s: Seq<bool>, pieces: Seq<(u64, u64)>, n: nat) -> (
    Seq<bool>,
    Seq<(u64, u64)>,
)
    decreases n,
{
    if n == 0 || !any_free(s) {
        (s, pieces)
    } else {
        let pg = next_free(s, grow_start(pieces) % s.len() as int);
        grown(s.update(pg, false), joined(pieces, pg), (n - 1) as nat)
    }
}

/// The pieces lie on whole frames of the pool.
pub open spec fn pieces_ok(pieces: Seq<(u64, u64)>, n: int) -> bool {
    forall|k: int|
        0 <= k < pieces.len() ==> {
            let p = #[trigger] pieces[k];
            &&& PHYS_OFF <= p.0
            &&& (p.0 - PHYS_OFF) % PAGE_SZ as int == 0
            &&& p.1 as int % PAGE_SZ as int == 0
            &&& p.1 > 0
            &&& p.0 + p.1 <= PHYS_OFF + n * PAGE_SZ
        }
}

/// The number of bytes in all pieces.
pub open spec fn bytes_in(pieces: Seq<(u64, u64)>) -> int
    decreases pieces.len(),
{
    if pieces.len() == 0 {
        0
    } else {
        bytes_in(pieces.drop_last()) + pieces.last().1
    }
}

/// Takes up to `n` frames, each from behind the last one on, round and round, and returns
/// them as pieces of address and length.
pub fn heap_grow(pool: &mut FramePool, n: usize) -> (r: Vec<(u64, u64)>)
    requires
        old(pool).slots@.len() < 0x10_0000,
    ensures
        final(pool).cap == old(pool).cap,
        (final(pool).slots@, r@) == grown(old(pool).slots@, Seq::empty(), n as nat),
        pieces_ok(r@, old(pool).slots@.len() as int),
{
    let mut pieces: Vec<(u64, u64)> = Vec::new();
    let ghost first = pool.slots@;
    let len: usize = pool.slots.len();
    let mut left: usize = n;
    while left > 0
        invariant
            left <= n,
            first == old(pool).slots@,
            len == first.len(),
            len < 0x10_0000,
            pool.slots@.len() == len,
            pool.cap == old(pool).cap,
            pieces_ok(pieces@, len as int),
            grown(first, Seq::empty(), n as nat) == grown(pool.slots@, pieces@, left as nat),
        decreases left,
    {
        let ghost s = pool.slots@;
        let ghost before = pieces@;
        if len == 0 {
            return pieces;
        }
        let k: usize = pieces.len();
        let preferred: usize = if k == 0 {
            0
        } else {
            proof {
                assert(pieces_ok(before, len as int));
                assert(before[k - 1] == before.last());
            }
            let last: (u64, u64) = pieces[k - 1];
            ((last.0 - PHYS_OFF) / PAGE_SZ as u64 + last.1 / PAGE_SZ as u64) as usize
        };
        proof {
            assert(preferred == grow_start(before));
        }
        match take_around(&mut pool.slots, preferred % len) {
            None => {
                return pieces;
            },
            Some(pg) => {
                proof {
                    lemma_joined_ok(before, pg as int, len as int);
                    assert(grown(s, before, left as nat) == grown(
                        s.update(pg as int, false),
                        joined(before, pg as int),
                        (left - 1) as nat,
                    ));
                }
                let va: u64 = PHYS_OFF + pg as u64 * PAGE_SZ as u64;
                if k > 0 {
                    let last: (u64, u64) = pieces[k - 1];
                    proof {
                        assert(before[k - 1] == before.last());
                    }
                    if last.0 + last.1 == va {
                        pieces.set(k - 1, (last.0, last.1 + PAGE_SZ as u64));
                        proof {
                            assert(pieces@ =~= joined(before, pg as int));
                        }
                    } else if va + PAGE_SZ as u64 == last.0 {
                        pieces.set(k - 1, (va, last.1 + PAGE_SZ as u64));
                        proof {
                            assert(pieces@ =~= joined(before, pg as int));
                        }
                    } else {
                        pieces.push((va, PAGE_SZ as u64));
                    }
                } else {
                    pieces.push((va, PAGE_SZ as u64));
                }
            },
        }
        left = left - 1;
    }
    pieces
}

/// One more frame keeps the pieces on whole frames of the pool, and adds its bytes.
proof fn lemma_joined_ok(pieces: Seq<(u64, u64)>, pg: int, n: int)
    requires
        pieces_ok(pieces, n),
        0 <= pg < n < 0x10_0000,
    ensures
        pieces_ok(joined(pieces, pg), n),
        bytes_in(joined(pieces, pg)) == bytes_in(pieces) + PAGE_SZ,
{
    let va = frame_va(pg);
    let post = joined(pieces, pg);
    assert(va + PAGE_SZ <= PHYS_OFF + n * PAGE_SZ);
    if pieces.len() > 0 {
        assert(pieces[pieces.len() - 1] == pieces.last());
        assert(post.drop_last() =~= pieces.drop_last() || post.drop_last() =~= pieces);
    } else {
        assert(post.drop_last() =~= pieces);
    }
    assert forall|k: int| 0 <= k < post.len() implies {
        let p = #[trigger] post[k];
        &&& PHYS_OFF <= p.0
        &&& (p.0 - PHYS_OFF) % PAGE_SZ as int == 0
        &&& p.1 as int % PAGE_SZ as int == 0
        &&& p.1 > 0
        &&& p.0 + p.1 <= PHYS_OFF + n * PAGE_SZ
    } by {
        if k < post.len() - 1 {
            assert(post[k] == pieces[k]);
        }
    }
}

/// From any place on, the next free frame is one that is free.
pub proof fn lemma_next_is_free(s: Seq<bool>, place: int)
    requires
        any_free(s),
    ensures
        ({
            let pg = next_free(s, place % s.len() as int);
            0 <= pg < s.len() && s[pg]
        }),
{
    let start = place % s.len() as int;
    let k = choose|k: int| 0 <= k < s.len() && #[trigger] s[k];
    assert(0 <= start < s.len()) by {
        vstd::arithmetic::div_mod::lemma_mod_bound(place, s.len() as int);
    }
    lemma_around_covers(s.len() as int, start, k);
    let off = choose|off: int|
        0 <= off < s.len() && #[trigger] around(s.len() as int, start, off) == k;
    lemma_some_next_free(s, start, off);
    let o = choose|o: int| is_next_free(s, start, o);
    lemma_next_free_unique(s, start, o);
    assert(0 <= next_free(s, start) < s.len()) by {
        vstd::arithmetic::div_mod::lemma_mod_bound(start + o, s.len() as int);
    }
}

/// The frame lies in the piece.
pub open spec fn piece_holds(p: (u64, u64), f: int) -> bool {
    p.0 <= frame_va(f) < p.0 + p.1
}

/// How many of the pieces the frame lies in.
pub open spec fn times_held(pieces: Seq<(u64, u64)>, f: int) -> nat
    decreases pieces.len(),
{
    if pieces.len() == 0 {
        0
    } else {
        times_held(pieces.drop_last(), f) + (if piece_holds(pieces.last(), f) {
            1nat
        } else {
            0
        })
    }
}

/// One more frame lies in one piece more, and no other does.
proof fn lemma_joined_holds(pieces: Seq<(u64, u64)>, pg: int, n: int, f: int)
    requires
        pieces_ok(pieces, n),
        0 <= pg < n < 0x10_0000,
        0 <= f < n,
    ensures
        times_held(joined(pieces, pg), f) == times_held(pieces, f) + (if f == pg {
            1nat
        } else {
            0
        }),
{
    let post = joined(pieces, pg);
    if pieces.len() > 0 {
        assert(pieces[pieces.len() - 1] == pieces.last());
        assert(post.drop_last() =~= pieces.drop_last() || post.drop_last() =~= pieces);
    } else {
        assert(post.drop_last() =~= pieces);
    }
}

/// A frame lies in each of the pieces that is counted.
proof fn lemma_held_once(pieces: Seq<(u64, u64)>, f: int, i: int)
    requires
        0 <= i < pieces.len(),
        piece_holds(pieces[i], f),
    ensures
        times_held(pieces, f) >= 1,
    decreases pieces.len(),
{
    if i < pieces.len() - 1 {
        lemma_held_once(pieces.drop_last(), f, i);
    }
}

proof fn lemma_held_twice(pieces: Seq<(u64, u64)>, f: int, i: int, j: int)
    requires
        0 <= i < j < pieces.len(),
        piece_holds(pieces[i], f),
        piece_holds(pieces[j], f),
    ensures
        times_held(pieces, f) >= 2,
    decreases pieces.len(),
{
    if j < pieces.len() - 1 {
        lemma_held_twice(pieces.drop_last(), f, i, j);
    } else {
        lemma_held_once(pieces.drop_last(), f, i);
    }
}

proof fn lemma_held_somewhere(pieces: Seq<(u64, u64)>, f: int) -> (i: int)
    requires
        times_held(pieces, f) >= 1,
    ensures
        0 <= i < pieces.len(),
        piece_holds(pieces[i], f),
    decreases pieces.len(),
{
    if piece_holds(pieces.last(), f) {
        pieces.len() - 1
    } else {
        lemma_held_somewhere(pieces.drop_last(), f)
    }
}

/// A frame lies in one piece more exactly if the heap took it.
proof fn lemma_grown_holds(s: Seq<bool>, pieces: Seq<(u64, u64)>, n: nat, f: int)
    requires
        s.len() < 0x10_0000,
        pieces_ok(pieces, s.len() as int),
        0 <= f < s.len(),
    ensures
        ({
            let (t, post) = grown(s, pieces, n);
            &&& t.len() == s.len()
            &&& pieces_ok(post, s.len() as int)
            &&& t[f] ==> s[f]
            &&& times_held(post, f) == times_held(pieces, f) + (if s[f] && !t[f] {
                1nat
            } else {
                0
            })
        }),
    decreases n,
{
    if any_free(s) && n > 0 {
        let pg = next_free(s, grow_start(pieces) % s.len() as int);
        lemma_next_is_free(s, grow_start(pieces));
        lemma_joined_ok(pieces, pg, s.len() as int);
        lemma_joined_holds(pieces, pg, s.len() as int, f);
        lemma_grown_holds(s.update(pg, false), joined(pieces, pg), (n - 1) as nat, f);
    }
}

/// The pieces by which the heap grows do not overlap, and together they are exactly the
/// frames that were taken: those that were free before and are not any more.
pub proof fn law_heap_pieces_are_the_frames_taken(s: Seq<bool>, n: nat)
    requires
        s.len() < 0x10_0000,
    ensures
        ({
            let (t, post) = grown(s, Seq::empty(), n);
            &&& forall|f: int|
                0 <= f < s.len() ==> ((exists|k: int|
                    0 <= k < post.len() && #[trigger] piece_holds(post[k], f)) <==> #[trigger] s[f]
                    && !t[f])
            &&& forall|i: int, j: int|
                0 <= i < j < post.len() ==> (#[trigger] post[i]).0 + post[i].1 <= (
                #[trigger] post[j]).0 || post[j].0 + post[j].1 <= post[i].0
        }),
{
    let none = Seq::<(u64, u64)>::empty();
    let (t, post) = grown(s, none, n);
    assert forall|f: int| 0 <= f < s.len() implies ((exists|k: int|
        0 <= k < post.len() && #[trigger] piece_holds(post[k], f)) <==> #[trigger] s[f] && !t[f]) by {
        lemma_grown_holds(s, none, n, f);
        if s[f] && !t[f] {
            let k = lemma_held_somewhere(post, f);
            assert(piece_holds(post[k], f));
        }
        if exists|k: int| 0 <= k < post.len() && #[trigger] piece_holds(post[k], f) {
            let k = choose|k: int| 0 <= k < post.len() && #[trigger] piece_holds(post[k], f);
            lemma_held_once(post, f, k);
        }
    }
    assert forall|i: int, j: int| 0 <= i < j < post.len() implies (#[trigger] post[i]).0
        + post[i].1 <= (#[trigger] post[j]).0 || post[j].0 + post[j].1 <= post[i].0 by {
        let (p, q) = (post[i], post[j]);
        if s.len() > 0 {
            lemma_grown_holds(s, none, n, 0);
        }
        if p.0 + p.1 > q.0 && q.0 + q.1 > p.0 {
            let x = if p.0 >= q.0 {
                p.0
            } else {
                q.0
            };
            let f = (x - PHYS_OFF) / PAGE_SZ as int;
            assert(frame_va(f) == x);
            lemma_grown_holds(s, none, n, f);
            lemma_held_twice(post, f, i, j);
        }
    }
}

/// The heap grows by as many frames as were asked for, or by all that were free; that
/// many frames are free no more, and the pieces are as long together.
pub proof fn law_heap_grows_by_what_is_taken(s: Seq<bool>, pieces: Seq<(u64, u64)>, n: nat)
    requires
        s.len() < 0x10_0000,
        pieces_ok(pieces, s.len() as int),
    ensures
        ({
            let (t, post) = grown(s, pieces, n);
            let got = if n < free_in(s) {
                n
            } else {
                free_in(s)
            };
            &&& free_in(t) == free_in(s) - got
            &&& bytes_in(post) == bytes_in(pieces) + got * PAGE_SZ
        }),
    decreases n,
{
    if !any_free(s) {
        lemma_none_free(s);
    } else if n > 0 {
        let pg = next_free(s, grow_start(pieces) % s.len() as int);
        lemma_next_is_free(s, grow_start(pieces));
        law_taking_lowers_free_count(s, pg);
        lemma_joined_ok(pieces, pg, s.len() as int);
        law_heap_grows_by_what_is_taken(
            s.update(pg, false),
            joined(pieces, pg),
            (n - 1) as nat,
        );
    }
}

/// Where no frame is free, none is counted.
pub proof fn lemma_none_free(s: Seq<bool>)
    requires
        !any_free(s),
    ensures
        free_in(s) == 0,
    decreases s.len(),
{
    if s.len() > 0 {
        assert(!s[s.len() - 1]);
        assert(!any_free(s.drop_last())) by {
            if any_free(s.drop_last()) {
                let i = choose|i: int| 0 <= i < s.len() - 1 && #[trigger] s.drop_last()[i];
                assert(s[i]);
            }
        }
        lemma_none_free(s.drop_last());
    }
}

/// The first free frame is free, and those before it, from where the search starts, are not.
pub proof fn law_first_free_is_lowest(s: Seq<bool>, from: int, i: int, j: int)
    requires
        is_first_free(s, from, i),
        from <= j < s.len(),
        s[j],
    ensures
        from <= i <= j,
        s[i],
{
}

/// The numbers of the free frames are all there, and nothing else is.
pub proof fn law_free_numbers_are_the_free_frames(s: Seq<bool>, i: usize)
    requires
        s.len() <= usize::MAX,
    ensures
        free_ids(s).contains(i) <==> i < s.len() && s[i as int],
    decreases s.len(),
{
    if s.len() > 0 {
        let t = s.drop_last();
        law_free_numbers_are_the_free_frames(t, i);
        if s.last() {
            crate::tables::lemma_push_contains(free_ids(t), (s.len() - 1) as usize, i);
        }
    }
}

/// The next free frame is the lowest from the start of the search on, or, where none is free
/// there, the lowest of all.
pub proof fn law_next_free_goes_round(s: Seq<bool>, start: int, k: int)
    requires
        0 <= start < s.len(),
        0 <= k < s.len(),
        s[k],
    ensures
        ({
            let i = next_free(s, start);
            &&& 0 <= i < s.len() && s[i]
            &&& start <= k ==> start <= i <= k
            &&& k < start && i < start ==> i <= k
        }),
{
    let n = s.len() as int;
    assert(any_free(s));
    lemma_around_covers(n, start, k);
    let off = choose|off: int| 0 <= off < n && #[trigger] around(n, start, off) == k;
    lemma_some_next_free(s, start, off);
    let o = choose|o: int| is_next_free(s, start, o);
    lemma_next_free_unique(s, start, o);
    assert(o <= off) by {
        if off < o {
            assert(!s[around(n, start, off)]);
        }
    }
    lemma_around_is(n, start, o);
    lemma_around_is(n, start, off);
}

proof fn lemma_around_is(n: int, start: int, off: int)
    requires
        0 <= start < n,
        0 <= off < n,
    ensures
        around(n, start, off) == if start + off < n {
            start + off
        } else {
            start + off - n
        },
{
    if start + off < n {
        vstd::arithmetic::div_mod::lemma_small_mod((start + off) as nat, n as nat);
    } else {
        vstd::arithmetic::div_mod::lemma_mod_sub_multiples_vanish(start + off, n);
        vstd::arithmetic::div_mod::lemma_small_mod((start + off - n) as nat, n as nat);
    }
}

/// A run of frames is aligned, wholly free and the lowest such; taking it takes its frames and
/// no others.
pub proof fn law_run_is_free_and_taken(s: Seq<bool>, sz: int, a: int, start: int, i: int)
    requires
        a > 0,
        sz >= 0,
        is_first_run(s, sz, a, start),
        0 <= i < s.len(),
    ensures
        start % a == 0 && 0 <= start && start + sz <= s.len(),
        start <= i < start + sz ==> s[i] && !run_taken(s, start, sz)[i],
        i < start || start + sz <= i ==> run_taken(s, start, sz)[i] == s[i],
        run_taken(s, start, sz).len() == s.len(),
        i < start && i % a == 0 ==> exists|j: int| i <= j < i + sz && !#[trigger] s[j],
{
    if i < start && i % a == 0 {
        assert(!run_free(s, i, sz));
        if forall|j: int| i <= j < i + sz ==> #[trigger] s[j] {
            assert(run_free(s, i, sz));
        }
    }
}

/// A run of frames lowers the number of free ones by its length.
pub proof fn law_run_lowers_free_count(s: Seq<bool>, start: int, sz: int)
    requires
        0 <= sz,
        run_free(s, start, sz),
    ensures
        free_in(run_taken(s, start, sz)) == free_in(s) - sz,
    decreases sz,
{
    if sz == 0 {
        assert(run_taken(s, start, sz) =~= s);
    } else {
        law_run_lowers_free_count(s, start, sz - 1);
        let t = run_taken(s, start, sz - 1);
        law_taking_lowers_free_count(t, start + sz - 1);
        assert(t.update(start + sz - 1, false) =~= run_taken(s, start, sz));
    }
}

/// Frames follow each other page by page, and giving back an address frees the frame at it;
/// an address inside a page, below all frames or behind them frees nothing.
pub proof fn law_address_frees_its_frame(s: Seq<bool>, i: int, d: int, addr: usize)
    requires
        0 <= i,
        0 <= d < 4096,
        addr == frame_addr(i) + d,
    ensures
        frame_addr(i + 1) == frame_addr(i) + 4096,
        frame_addr(0) == MEM_OFF,
        d == 0 && i < s.len() ==> freed_at(s, addr) == s.update(i, true),
        d != 0 || i >= s.len() ==> freed_at(s, addr) == s,
        forall|low: usize| low < MEM_OFF ==> #[trigger] freed_at(s, low) == s,
{
    assert((i + 1) * PAGE_SZ == i * PAGE_SZ + 4096) by (nonlinear_arith);
    vstd::arithmetic::div_mod::lemma_fundamental_div_mod_converse(
        addr - MEM_OFF,
        PAGE_SZ as int,
        i,
        d,
    );
}

/// A heap that grows takes the frame right behind its last piece while that is free, and the
/// piece grows by it.
pub proof fn law_heap_grows_on(s: Seq<bool>, pieces: Seq<(u64, u64)>, g: int)
    requires
        0 <= g < s.len(),
        s[g],
        pieces.len() > 0,
        pieces_ok(pieces, s.len() as int),
        s.len() < 0x10_0000,
        pieces.last().0 + pieces.last().1 == PHYS_OFF + g * 4096,
    ensures
        grown(s, pieces, 1).0 == s.update(g, false),
        grown(s, pieces, 1).1 == pieces.drop_last().push(
            (pieces.last().0, (pieces.last().1 + 4096) as u64),
        ),
{
    reveal_with_fuel(grown, 2);
    let (x, y) = (pieces.last().0 - PHYS_OFF, pieces.last().1 as int);
    assert(pieces_ok(pieces, s.len() as int));
    assert(pieces[pieces.len() - 1] == pieces.last());
    assert(x % 4096 == 0 && y % 4096 == 0);
    assert(x / 4096 + y / 4096 == g);
    assert(grow_start(pieces) == g);
    vstd::arithmetic::div_mod::lemma_small_mod(g as nat, s.len());
    law_next_free_goes_round(s, g, g);
}

/// A frame that lies right behind the last piece makes it longer, one that lies right before
/// it makes it start earlier, and any other is a piece of its own.
pub proof fn law_frames_that_touch_are_joined(pieces: Seq<(u64, u64)>, pg: int)
    requires
        0 <= pg < 0x10_0000,
        pieces.len() > 0,
        pieces.last().0 + pieces.last().1 <= PHYS_OFF + 0x10_0000 * 4096,
    ensures
        joined(Seq::empty(), pg) == seq![((PHYS_OFF + pg * 4096) as u64, 4096u64)],
        ({
            let va = PHYS_OFF + pg * 4096;
            let (start, len) = pieces.last();
            let post = joined(pieces, pg);
            &&& start + len == va ==> post.len() == pieces.len() && post.last() == (
                start,
                (len + 4096) as u64,
            )
            &&& start + len != va && va + 4096 == start ==> post.len() == pieces.len()
                && post.last() == (va as u64, (len + 4096) as u64)
            &&& start + len != va && va + 4096 != start ==> post == pieces.push(
                (va as u64, 4096u64),
            )
            &&& forall|k: int| 0 <= k < pieces.len() - 1 ==> #[trigger] post[k] == pieces[k]
        }),
{
    assert(joined(Seq::empty(), pg) =~= seq![((PHYS_OFF + pg * 4096) as u64, 4096u64)]);
}

/// The first free frame is found wherever it lies, at the place where the search starts too.
pub proof fn law_first_free_is_found(s: Seq<bool>, from: int, i: int)
    requires
        from <= i < s.len(),
        s[i],
        forall|j: int| from <= j < i ==> !#[trigger] s[j],
    ensures
        is_first_free(s, from, i),
{
}

} // verus!
