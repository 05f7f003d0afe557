//! Regions of virtual memory, and the map of a process.
use crate::consts::{KERN_BASE, PAGE_SZ, VM_EXEC, VM_GROWSDOWN, VM_SHARED, VM_WRITE};
use vstd::prelude::*;

verus! {

/// A region of virtual memory: the addresses from `base` up to but not including
/// `base + len`.
#[derive(Clone, Copy, PartialEq, Eq, Structural, Debug)]
pub struct VmRegion {
    pub base: usize,
    pub len: usize,
    pub flags: u32,
    pub offset: usize,
    pub tag: u16,
    pub ref_count: usize,
}

/// The ranges meet: each starts before the other ends.
pub open spec fn ranges_meet(a: int, a_end: int, b: int, b_end: int) -> bool {
    a < b_end && b < a_end
}

impl VmRegion {
    /// The end of the region can be counted.
    pub open spec fn wf(self) -> bool {
        self.base + self.len <= usize::MAX
    }

    /// Where the region ends.
    pub open spec fn stop(self) -> int {
        self.base + self.len
    }

    /// The address lies in the region.
    pub open spec fn has(self, addr: int) -> bool {
        self.base <= addr < self.base + self.len
    }

    /// A region of its own with the flags.
    pub fn new(base: usize, len: usize, flags: u32) -> (r: Self)
        ensures
            r == (VmRegion { base, len, flags, offset: 0, tag: 0, ref_count: 1 }),
    {
        VmRegion { base, len, flags, offset: 0, tag: 0, ref_count: 1 }
    }

    /// A region of a file that starts at the offset.
    pub fn with_offset(base: usize, len: usize, flags: u32, offset: usize) -> (r: Self)
        ensures
            r == (VmRegion { base, len, flags, offset, tag: 0, ref_count: 1 }),
    {
        VmRegion { base, len, flags, offset, tag: 0, ref_count: 1 }
    }

    /// Where the region ends.
    pub fn end(&self) -> (r: usize)
        requires
            self.wf(),
        ensures
            r == self.stop(),
    {
        self.base + self.len
    }

    /// Whether the address lies in the region.
    pub fn contains(&self, addr: usize) -> (r: bool)
        requires
            addr >= self.base ==> self.wf(),
        ensures
            r == self.has(addr as int),
    {
        addr >= self.base && addr < self.base + self.len
    }

    /// Whether the regions meet: neither ends before the other starts. An end that
    /// cannot be counted starts over at 0.
    pub fn overlaps(&self, other: &VmRegion) -> (r: bool)
        ensures
            r == !(self.base.wrapping_add(self.len) <= other.base || other.base.wrapping_add(
                other.len,
            ) <= self.base),
            self.wf() && other.wf() ==> r == ranges_meet(
                self.base as int,
                self.stop(),
                other.base as int,
                other.stop(),
            ),
    {
        let a_end: usize = self.base.wrapping_add(self.len);
        let b_end: usize = other.base.wrapping_add(other.len);
        !(a_end <= other.base || b_end <= self.base)
    }

    /// The part below an address inside.
    pub open spec fn below(self, addr: usize) -> VmRegion {
        VmRegion {
            len: (addr - self.base) as usize,
            flags: if self.flags & VM_GROWSDOWN != 0 {
                self.flags & !VM_GROWSDOWN
            } else {
                self.flags
            },
            ..self
        }
    }

    /// The part from an address inside on.
    pub open spec fn from(self, addr: usize) -> VmRegion {
        VmRegion {
            base: addr,
            len: (self.stop() - addr) as usize,
            offset: self.offset.wrapping_add((addr - self.base) as usize),
            ..self
        }
    }

    /// The two parts below and from an address inside; there are none for an address at
    /// an end or outside. The part below does not grow down any more.
    pub fn split_at(&self, addr: usize) -> (r: Option<(VmRegion, VmRegion)>)
        requires
            self.wf(),
        ensures
            r == (if self.base < addr < self.stop() {
                Some((self.below(addr), self.from(addr)))
            } else {
                None
            }),
    {
        let e: usize = self.base + self.len;
        if addr <= self.base || addr >= e {
            return None;
        }
        let ll: usize = addr - self.base;
        let lf: u32 = if self.flags & VM_GROWSDOWN != 0 {
            self.flags & !VM_GROWSDOWN
        } else {
            self.flags
        };
        let l = VmRegion {
            base: self.base,
            len: ll,
            flags: lf,
            offset: self.offset,
            tag: self.tag,
            ref_count: self.ref_count,
        };
        let r = VmRegion {
            base: addr,
            len: self.len - ll,
            flags: self.flags,
            offset: self.offset.wrapping_add(ll),
            tag: self.tag,
            ref_count: self.ref_count,
        };
        Some((l, r))
    }

    /// The other region follows on this one and is of the same kind.
    pub open spec fn joins(self, other: VmRegion) -> bool {
        self.stop() == other.base && self.flags == other.flags && self.tag == other.tag
    }

    /// The region that this one and another of the same kind that follows on it make.
    pub fn merge_with(&self, other: &VmRegion) -> (r: Option<VmRegion>)
        requires
            self.wf(),
            self.joins(*other) ==> self.len + other.len <= usize::MAX,
        ensures
            r == (if self.joins(*other) {
                Some(
                    VmRegion {
                        len: (self.len + other.len) as usize,
                        ref_count: if self.ref_count >= other.ref_count {
                            self.ref_count
                        } else {
                            other.ref_count
                        },
                        ..*self
                    },
                )
            } else {
                None
            }),
    {
        let se: usize = self.base + self.len;
        if se != other.base || self.flags != other.flags || self.tag != other.tag {
            return None;
        }
        let rc: usize = if self.ref_count >= other.ref_count {
            self.ref_count
        } else {
            other.ref_count
        };
        Some(
            VmRegion {
                base: self.base,
                len: self.len + other.len,
                flags: self.flags,
                offset: self.offset,
                tag: self.tag,
                ref_count: rc,
            },
        )
    }

    /// Counts one reference more, and returns how many there were.
    pub fn ref_up(&mut self) -> (r: usize)
        ensures
            r == old(self).ref_count,
            *final(self) == (VmRegion {
                ref_count: old(self).ref_count.wrapping_add(1),
                ..*old(self)
            }),
    {
        let n: usize = self.ref_count;
        self.ref_count = n.wrapping_add(1);
        n
    }

    /// Counts one reference less, and returns how many there were.
    pub fn ref_down(&mut self) -> (r: usize)
        ensures
            r == old(self).ref_count,
            *final(self) == (VmRegion {
                ref_count: old(self).ref_count.wrapping_sub(1),
                ..*old(self)
            }),
    {
        let n: usize = self.ref_count;
        self.ref_count = n.wrapping_sub(1);
        n
    }

    /// How many references there are.
    pub fn ref_get(&self) -> (r: usize)
        ensures
            r == self.ref_count,
    {
        self.ref_count
    }
}

/// Whether two regions meet does not depend on which is asked.
pub proof fn law_overlap_is_symmetric(a: VmRegion, b: VmRegion)
    requires
        a.wf(),
        b.wf(),
    ensures
        ranges_meet(a.base as int, a.stop(), b.base as int, b.stop()) == ranges_meet(
            b.base as int,
            b.stop(),
            a.base as int,
            a.stop(),
        ),
        (exists|x: int| a.has(x) && b.has(x)) ==> ranges_meet(
            a.base as int,
            a.stop(),
            b.base as int,
            b.stop(),
        ),
        a.len > 0 && b.len > 0 && ranges_meet(a.base as int, a.stop(), b.base as int, b.stop())
            ==> exists|x: int| a.has(x) && b.has(x),
{
    if a.len > 0 && b.len > 0 && ranges_meet(a.base as int, a.stop(), b.base as int, b.stop()) {
        let x = if a.base >= b.base {
            a.base as int
        } else {
            b.base as int
        };
        assert(a.has(x) && b.has(x));
    }
}

/// A region that was split is put together again by merging, but for one that grows
/// down, whose lower part no longer does.
pub proof fn law_merge_undoes_split(r: VmRegion, addr: usize)
    requires
        r.wf(),
        r.base < addr < r.stop(),
        r.flags & VM_GROWSDOWN == 0,
    ensures
        r.below(addr).joins(r.from(addr)),
        r == (VmRegion {
            len: (r.below(addr).len + r.from(addr).len) as usize,
            ..r.below(addr)
        }),
        forall|x: int| r.has(x) <==> r.below(addr).has(x) || r.from(addr).has(x),
{
}

/// The memory map of a process: its regions by address, the end of its heap, and where
/// free addresses are looked for.
pub struct VmMap {
    pub regions: Vec<VmRegion>,
    pub brk: usize,
    pub mmap_base: usize,
}

/// The regions can be counted, stand in the order of their addresses, and no two meet.
pub open spec fn regions_ok(s: Seq<VmRegion>) -> bool {
    &&& forall|i: int| 0 <= i < s.len() ==> (#[trigger] s[i]).wf()
    &&& forall|i: int, j: int|
        0 <= i < j < s.len() ==> (#[trigger] s[i]).base <= (#[trigger] s[j]).base && !ranges_meet(
            s[i].base as int,
            s[i].stop(),
            s[j].base as int,
            s[j].stop(),
        )
}

/// Some region meets the range.
pub open spec fn any_meets(s: Seq<VmRegion>, a: int, a_end: int) -> bool {
    exists|i: int|
        0 <= i < s.len() && ranges_meet(a, a_end, (#[trigger] s[i]).base as int, s[i].stop())
}

/// The test for regions that stay when a range goes: those that neither lie in it nor
/// meet it.
pub open spec fn outside(base: usize, end: usize) -> spec_fn(VmRegion) -> bool {
    |r: VmRegion|
        !((r.base >= base && r.stop() <= end) || (r.base < end && r.stop() > base))
}

/// The sum of the lengths, which starts over at 0 behind the largest number.
pub open spec fn mapped_in(s: Seq<VmRegion>) -> usize
    decreases s.len(),
{
    if s.len() == 0 {
        0
    } else {
        mapped_in(s.drop_last()).wrapping_add(s.last().len)
    }
}

/// `post` is `pre` with the region put in behind those that start no later.
pub open spec fn region_placed(
    pre: Seq<VmRegion>,
    k: int,
    region: VmRegion,
    post: Seq<VmRegion>,
) -> bool {
    &&& 0 <= k <= pre.len()
    &&& post == pre.insert(k, region)
    &&& forall|j: int| 0 <= j < k ==> (#[trigger] pre[j]).base <= region.base
    &&& forall|j: int| k <= j < pre.len() ==> (#[trigger] pre[j]).base > region.base
}

impl VmMap {
    /// The range that starts at `a` is free: it is aligned, lies between the base of the
    /// search and the kernel, and meets no region.
    pub open spec fn fits(self, a: int, len: int, al: int) -> bool {
        &&& self.mmap_base <= a
        &&& a % al == 0
        &&& a + len <= KERN_BASE
        &&& a + len <= usize::MAX
        &&& !any_meets(self.regions@, a, a + len)
    }

    /// An empty map.
    pub fn new() -> (r: Self)
        ensures
            r.regions@.len() == 0,
            r.brk == 0x0040_0000,
            r.mmap_base == 0x7000_0000,
            regions_ok(r.regions@),
    {
        VmMap { regions: Vec::new(), brk: 0x0040_0000, mmap_base: 0x7000_0000 }
    }

    /// Adds a region that meets no other.
    pub fn insert(&mut self, region: VmRegion) -> (r: Result<(), &'static str>)
        requires
            regions_ok(old(self).regions@),
            region.wf(),
        ensures
            regions_ok(final(self).regions@),
            final(self).brk == old(self).brk,
            final(self).mmap_base == old(self).mmap_base,
            r == (if any_meets(old(self).regions@, region.base as int, region.stop()) {
                Err::<(), &'static str>("overlap")
            } else {
                Ok(())
            }),
            r is Err ==> final(self).regions@ == old(self).regions@,
            r is Ok ==> exists|k: int| #[trigger]
                region_placed(old(self).regions@, k, region, final(self).regions@),
    {
        let ghost s = self.regions@;
        let rb: usize = region.base;
        let re: usize = rb + region.len;
        let mut idx: usize = 0;
        while idx < self.regions.len() && self.regions[idx].base <= rb
            invariant
                *self == *old(self),
                s == self.regions@,
                regions_ok(s),
                rb == region.base,
                re == region.stop(),
                idx <= s.len(),
                forall|j: int| 0 <= j < idx ==> (#[trigger] s[j]).base <= rb,
                forall|j: int|
                    0 <= j < idx ==> !ranges_meet(
                        rb as int,
                        re as int,
                        (#[trigger] s[j]).base as int,
                        s[j].stop(),
                    ),
            decreases s.len() - idx,
        {
            proof {
                assert(s[idx as int].wf());
            }
            let eb: usize = self.regions[idx].base;
            let ee: usize = eb + self.regions[idx].len;
            if rb < ee && eb < re {
                proof {
                    assert(ranges_meet(
                        rb as int,
                        re as int,
                        s[idx as int].base as int,
                        s[idx as int].stop(),
                    ));
                }
                return Err("overlap");
            }
            idx = idx + 1;
        }
        if idx < self.regions.len() {
            proof {
                assert(s[idx as int].wf());
            }
            let eb: usize = self.regions[idx].base;
            let ee: usize = eb + self.regions[idx].len;
            if rb < ee && eb < re {
                proof {
                    assert(ranges_meet(
                        rb as int,
                        re as int,
                        s[idx as int].base as int,
                        s[idx as int].stop(),
                    ));
                }
                return Err("overlap");
            }
        }
        proof {
            assert forall|j: int| idx <= j < s.len() implies (#[trigger] s[j]).base > rb && !ranges_meet(
                rb as int,
                re as int,
                s[j].base as int,
                s[j].stop(),
            ) by {
                assert(s[idx as int].base <= s[j].base);
                assert(s[idx as int].wf() && s[j].wf());
            }
            assert(!any_meets(s, rb as int, re as int));
        }
        self.regions.insert(idx, region);
        proof {
            let post = self.regions@;
            assert(region_placed(s, idx as int, region, post));
            assert forall|i: int| 0 <= i < post.len() implies (#[trigger] post[i]).wf() by {
                if i > idx {
                    assert(post[i] == s[i - 1]);
                } else if i < idx {
                    assert(post[i] == s[i]);
                }
            }
            assert forall|i: int, j: int| 0 <= i < j < post.len() implies (
            #[trigger] post[i]).base <= (#[trigger] post[j]).base && !ranges_meet(
                post[i].base as int,
                post[i].stop(),
                post[j].base as int,
                post[j].stop(),
            ) by {
                let a = if i < idx {
                    i
                } else {
                    i - 1
                };
                let b = if j < idx {
                    j
                } else {
                    j - 1
                };
                if i != idx {
                    assert(post[i] == s[a]);
                }
                if j != idx {
                    assert(post[j] == s[b]);
                }
                if i != idx && j != idx {
                    assert(s[a].base <= s[b].base);
                }
            }
        }
        Ok(())
    }

    /// The region that holds the address.
    pub fn find(&self, addr: usize) -> (r: Option<&VmRegion>)
        requires
            regions_ok(self.regions@),
        ensures
            match r {
                Some(x) => self.regions@.contains(*x) && x.has(addr as int),
                None => forall|i: int|
                    0 <= i < self.regions@.len() ==> !(#[trigger] self.regions@[i]).has(
                        addr as int,
                    ),
            },
    {
        let ghost s = self.regions@;
        let mut lo: usize = 0;
        let mut hi: usize = self.regions.len();
        while lo < hi
            invariant
                s == self.regions@,
                regions_ok(s),
                lo <= hi <= s.len(),
                forall|i: int| 0 <= i < lo ==> (#[trigger] s[i]).base <= addr,
                forall|i: int| hi <= i < s.len() ==> (#[trigger] s[i]).base > addr,
            decreases hi - lo,
        {
            let mid: usize = lo + (hi - lo) / 2;
            if addr < self.regions[mid].base {
                proof {
                    assert forall|i: int| mid <= i < s.len() implies (#[trigger] s[i]).base > addr by {
                        if i > mid {
                            assert(s[mid as int].base <= s[i].base);
                        }
                    }
                }
                hi = mid;
            } else {
                proof {
                    assert forall|i: int| 0 <= i <= mid implies (#[trigger] s[i]).base <= addr by {
                        if i < mid {
                            assert(s[i].base <= s[mid as int].base);
                        }
                    }
                }
                lo = mid + 1;
            }
        }
        // Regions without addresses may stand between the one that is looked for and `lo`.
        let mut i: usize = lo;
        while i > 0 && self.regions[i - 1].len == 0
            invariant
                s == self.regions@,
                i <= lo <= s.len(),
                forall|j: int| i <= j < lo ==> (#[trigger] s[j]).len == 0,
            decreases i,
        {
            i = i - 1;
        }
        proof {
            assert forall|j: int| i <= j < s.len() implies !(#[trigger] s[j]).has(addr as int) by {}
        }
        if i == 0 {
            return None;
        }
        proof {
            assert(s[i - 1].wf());
            assert forall|j: int| 0 <= j < i - 1 implies !(#[trigger] s[j]).has(addr as int) by {
                let k = i - 1;
                assert(s[j].base <= s[k].base && s[k].base <= addr);
                assert(!ranges_meet(
                    s[j].base as int,
                    s[j].stop(),
                    s[k].base as int,
                    s[k].stop(),
                ));
            }
        }
        let x = &self.regions[i - 1];
        if addr < x.base + x.len {
            Some(x)
        } else {
            None
        }
    }

    /// Takes away the regions that lie in a range or meet it, and says how many they
    /// were. An end of the range that cannot be counted starts over at 0.
    pub fn remove_range(&mut self, base: usize, len: usize) -> (r: usize)
        requires
            regions_ok(old(self).regions@),
        ensures
            regions_ok(final(self).regions@),
            final(self).brk == old(self).brk,
            final(self).mmap_base == old(self).mmap_base,
            final(self).regions@ == old(self).regions@.filter(
                outside(base, base.wrapping_add(len)),
            ),
            r == old(self).regions@.len() - final(self).regions@.len(),
    {
        let end: usize = base.wrapping_add(len);
        let ghost all = self.regions@;
        let ghost keep = outside(base, end);
        let mut kept: Vec<VmRegion> = Vec::new();
        let mut gone: usize = 0;
        let mut i: usize = 0;
        proof {
            assert(all.take(0).filter(keep) =~= Seq::empty()) by {
                reveal(Seq::filter);
            }
        }
        while i < self.regions.len()
            invariant
                *self == *old(self),
                all == self.regions@,
                regions_ok(all),
                i <= all.len(),
                keep == outside(base, end),
                kept@ == all.take(i as int).filter(keep),
                gone == i - kept@.len(),
            decreases all.len() - i,
        {
            proof {
                assert(all[i as int].wf());
                crate::tables::lemma_filter_take(all, i as int, keep);
            }
            let x = self.regions[i];
            let re: usize = x.base + x.len;
            if (x.base >= base && re <= end) || (x.base < end && re > base) {
                gone = gone + 1;
            } else {
                kept.push(x);
            }
            i = i + 1;
        }
        proof {
            assert(all.take(i as int) =~= all);
            lemma_filter_regions(all, keep);
        }
        self.regions = kept;
        gone
    }

    /// The alignment that a search is made with.
    pub open spec fn search_align(align: usize) -> usize {
        if align > 1 {
            align
        } else {
            PAGE_SZ
        }
    }

    /// The lowest free range of the length at a multiple of the alignment, or of a page
    /// without one. A range without a length is found at the base of the search.
    pub fn find_free(&self, len: usize, align: usize) -> (r: Option<usize>)
        requires
            forall|i: int| 0 <= i < self.regions@.len() ==> (#[trigger] self.regions@[i]).wf(),
        ensures
            len == 0 ==> r == Some(self.mmap_base),
            len > 0 ==> match r {
                Some(a) => self.fits(a as int, len as int, VmMap::search_align(align) as int)
                    && forall|b: int| #[trigger]
                    self.fits(b, len as int, VmMap::search_align(align) as int) ==> a <= b,
                None => forall|b: int|
                    !#[trigger] self.fits(b, len as int, VmMap::search_align(align) as int),
            },
    {
        if len == 0 {
            return Some(self.mmap_base);
        }
        let al: usize = if align > 1 {
            align
        } else {
            PAGE_SZ
        };
        let mut cand: usize = match align_up(self.mmap_base, al) {
            Some(c) => c,
            None => {
                return None;
            },
        };
        loop
            invariant
                forall|i: int| 0 <= i < self.regions@.len() ==> (#[trigger] self.regions@[i]).wf(),
                len > 0,
                al > 0,
                al == VmMap::search_align(align),
                self.mmap_base <= cand,
                cand as int % al as int == 0,
                forall|b: int| #[trigger] self.fits(b, len as int, al as int) ==> cand <= b,
            decreases usize::MAX - cand,
        {
            let ce: usize = match cand.checked_add(len) {
                Some(e) => e,
                None => {
                    return None;
                },
            };
            if ce as u64 > KERN_BASE {
                return None;
            }
            match self.first_meeting(cand, ce) {
                None => {
                    return Some(cand);
                },
                Some(i) => {
                    let x = self.regions[i];
                    let stop: usize = x.base + x.len;
                    proof {
                        assert forall|b: int| #[trigger]
                            self.fits(b, len as int, al as int) implies stop <= b by {
                            if b < stop {
                                assert(ranges_meet(
                                    b,
                                    b + len,
                                    self.regions@[i as int].base as int,
                                    self.regions@[i as int].stop(),
                                ));
                                assert(any_meets(self.regions@, b, b + len));
                            }
                        }
                    }
                    match align_up(stop, al) {
                        None => {
                            proof {
                                assert forall|b: int|
                                    !#[trigger] self.fits(b, len as int, al as int) by {
                                    if self.fits(b, len as int, al as int) {
                                        assert(b >= stop && b % al as int == 0 && b <= usize::MAX);
                                    }
                                }
                            }
                            return None;
                        },
                        Some(c) => {
                            proof {
                                assert forall|b: int| #[trigger]
                                    self.fits(b, len as int, al as int) implies c <= b by {
                                    assert(b >= stop && b % al as int == 0);
                                }
                            }
                            cand = c;
                        },
                    }
                },
            }
        }
    }

    /// The first region that meets the range.
    fn first_meeting(&self, a: usize, a_end: usize) -> (r: Option<usize>)
        requires
            forall|i: int| 0 <= i < self.regions@.len() ==> (#[trigger] self.regions@[i]).wf(),
        ensures
            match r {
                Some(i) => i < self.regions@.len() && ranges_meet(
                    a as int,
                    a_end as int,
                    self.regions@[i as int].base as int,
                    self.regions@[i as int].stop(),
                ),
                None => !any_meets(self.regions@, a as int, a_end as int),
            },
    {
        let mut i: usize = 0;
        while i < self.regions.len()
            invariant
                forall|i: int| 0 <= i < self.regions@.len() ==> (#[trigger] self.regions@[i]).wf(),
                i <= self.regions@.len(),
                forall|j: int|
                    0 <= j < i ==> !ranges_meet(
                        a as int,
                        a_end as int,
                        (#[trigger] self.regions@[j]).base as int,
                        self.regions@[j].stop(),
                    ),
            decreases self.regions@.len() - i,
        {
            proof {
                assert(self.regions@[i as int].wf());
            }
            let x = self.regions[i];
            if x.base < a_end && a < x.base + x.len {
                return Some(i);
            }
            i = i + 1;
        }
        None
    }

    /// The sum of the lengths of the regions.
    pub fn total_mapped(&self) -> (r: usize)
        ensures
            r == mapped_in(self.regions@),
    {
        let mut s: usize = 0;
        let mut i: usize = 0;
        proof {
            assert(self.regions@.take(0) =~= Seq::empty());
        }
        while i < self.regions.len()
            invariant
                i <= self.regions@.len(),
                s == mapped_in(self.regions@.take(i as int)),
            decreases self.regions@.len() - i,
        {
            proof {
                assert(self.regions@.take(i + 1).drop_last() =~= self.regions@.take(i as int));
            }
            s = s.wrapping_add(self.regions[i].len);
            i = i + 1;
        }
        proof {
            assert(self.regions@.take(i as int) =~= self.regions@);
        }
        s
    }

    /// A copy of the regions.
    pub fn clone_regions(&self) -> (r: Vec<VmRegion>)
        ensures
            r@ == self.regions@,
    {
        let mut out: Vec<VmRegion> = Vec::new();
        let mut i: usize = 0;
        while i < self.regions.len()
            invariant
                i <= self.regions@.len(),
                out@ == self.regions@.take(i as int),
            decreases self.regions@.len() - i,
        {
            out.push(self.regions[i]);
            proof {
                assert(self.regions@.take(i + 1) =~= self.regions@.take(i as int).push(
                    self.regions@[i as int],
                ));
            }
            i = i + 1;
        }
        proof {
            assert(self.regions@.take(i as int) =~= self.regions@);
        }
        out
    }

    /// How many addresses lie between a region and the next one, or the kernel behind the
    /// last one; none for a region that there is not.
    pub fn gap_after(&self, idx: usize) -> (r: u64)
        requires
            idx < self.regions@.len() ==> self.regions@[idx as int].wf(),
        ensures
            r == (if idx >= self.regions@.len() {
                0
            } else {
                let next = if idx + 1 < self.regions@.len() {
                    self.regions@[idx + 1].base as int
                } else {
                    KERN_BASE as int
                };
                if next >= self.regions@[idx as int].stop() {
                    next - self.regions@[idx as int].stop()
                } else {
                    0
                }
            }),
    {
        if idx >= self.regions.len() {
            return 0;
        }
        let re: u64 = (self.regions[idx].base + self.regions[idx].len) as u64;
        let next: u64 = if idx < self.regions.len() - 1 {
            self.regions[idx + 1].base as u64
        } else {
            KERN_BASE
        };
        next.saturating_sub(re)
    }
}

/// The least multiple of `al` that is not below `x`, if it can be counted.
fn align_up(x: usize, al: usize) -> (r: Option<usize>)
    requires
        al > 0,
    ensures
        match r {
            Some(c) => x <= c && c as int % al as int == 0 && forall|m: int|
                x <= m && #[trigger] (m % al as int) == 0 ==> c <= m,
            None => forall|m: int| x <= m && #[trigger] (m % al as int) == 0 ==> m > usize::MAX,
        },
{
    proof {
        crate::memory::addr::lemma_round_up(x as int, al as int);
        lemma_round_up_by_remainder(x as int, al as int);
    }
    let rem: usize = x % al;
    if rem == 0 {
        Some(x)
    } else {
        x.checked_add(al - rem)
    }
}

/// Rounding up adds what is missing to the next multiple.
proof fn lemma_round_up_by_remainder(x: int, al: int)
    requires
        al > 0,
        x >= 0,
    ensures
        crate::memory::addr::round_up(x, al) == (if x % al == 0 {
            x
        } else {
            x + (al - x % al)
        }),
{
    crate::memory::addr::lemma_round_up(x, al);
    let up = crate::memory::addr::round_up(x, al);
    vstd::arithmetic::div_mod::lemma_fundamental_div_mod(x, al);
    let q = x / al;
    if x % al == 0 {
        assert(up <= x);
    } else {
        let m = x + (al - x % al);
        assert(m == al * (q + 1)) by (nonlinear_arith)
            requires
                x == al * q + x % al,
                m == x + (al - x % al),
        ;
        assert(m == (q + 1) * al) by (nonlinear_arith)
            requires
                m == al * (q + 1),
        ;
        vstd::arithmetic::div_mod::lemma_mod_multiples_basic(q + 1, al);
        assert(up <= m);
        vstd::arithmetic::div_mod::lemma_fundamental_div_mod(up, al);
        let p = up / al;
        assert(p >= q + 1) by (nonlinear_arith)
            requires
                up == al * p,
                up >= x,
                x == al * q + x % al,
                x % al > 0,
                al > 0,
        ;
        assert(al * p >= al * (q + 1)) by (nonlinear_arith)
            requires
                p >= q + 1,
                al > 0,
        ;
    }
}

/// What is left of a sound map is sound.
proof fn lemma_filter_regions(s: Seq<VmRegion>, p: spec_fn(VmRegion) -> bool)
    requires
        regions_ok(s),
    ensures
        regions_ok(s.filter(p)),
    decreases s.len(),
{
    reveal(Seq::filter);
    if s.len() > 0 {
        let t = s.drop_last();
        assert(regions_ok(t)) by {
            assert forall|i: int| 0 <= i < t.len() implies (#[trigger] t[i]).wf() by {
                assert(s[i].wf());
            }
            assert forall|i: int, j: int| 0 <= i < j < t.len() implies (
            #[trigger] t[i]).base <= (#[trigger] t[j]).base && !ranges_meet(
                t[i].base as int,
                t[i].stop(),
                t[j].base as int,
                t[j].stop(),
            ) by {
                assert(s[i].base <= s[j].base);
            }
        }
        lemma_filter_regions(t, p);
        if p(s.last()) {
            let f = t.filter(p);
            let g = f.push(s.last());
            assert(s[s.len() - 1].wf());
            assert forall|i: int| 0 <= i < g.len() implies (#[trigger] g[i]).wf() by {
                if i < f.len() {
                    assert(f[i].wf());
                }
            }
            assert forall|i: int, j: int| 0 <= i < j < g.len() implies (
            #[trigger] g[i]).base <= (#[trigger] g[j]).base && !ranges_meet(
                g[i].base as int,
                g[i].stop(),
                g[j].base as int,
                g[j].stop(),
            ) by {
                if j == f.len() {
                    assert(f.contains(f[i]));
                    crate::tables::lemma_filter_holds(t, p, f[i]);
                    let k = choose|k: int| 0 <= k < t.len() && t[k] == f[i];
                    assert(s[k].base <= s[s.len() - 1].base);
                } else {
                    assert(f[i].base <= f[j].base);
                }
            }
        }
    }
}

/// What was added is found at each of its addresses.
pub proof fn law_insert_then_find(pre: Seq<VmRegion>, k: int, region: VmRegion, post: Seq<VmRegion>)
    requires
        region_placed(pre, k, region, post),
    ensures
        post.contains(region),
        forall|x: VmRegion| pre.contains(x) ==> post.contains(x),
        post.len() == pre.len() + 1,
{
    assert(post[k] == region);
    assert forall|x: VmRegion| pre.contains(x) implies post.contains(x) by {
        let i = choose|i: int| 0 <= i < pre.len() && pre[i] == x;
        if i < k {
            assert(post[i] == x);
        } else {
            assert(post[i + 1] == x);
        }
    }
}

/// After a range is taken away, no region meets it any more.
pub proof fn law_remove_range_clears(s: Seq<VmRegion>, base: usize, len: usize)
    requires
        regions_ok(s),
        base + len <= usize::MAX,
        len > 0,
    ensures
        !any_meets(
            s.filter(outside(base, base.wrapping_add(len))),
            base as int,
            (base + len) as int,
        ),
{
    let p = outside(base, base.wrapping_add(len));
    let f = s.filter(p);
    assert forall|i: int| 0 <= i < f.len() implies !ranges_meet(
        base as int,
        (base + len) as int,
        (#[trigger] f[i]).base as int,
        f[i].stop(),
    ) by {
        assert(f.contains(f[i]));
        crate::tables::lemma_filter_holds(s, p, f[i]);
    }
}

/// Taking a range away keeps what it does not touch: a region stays that ends where the
/// range starts or before, or starts where the range ends or behind, and does not lie in it.
/// A region stays only if none of its addresses is in the range, and none comes.
pub proof fn law_remove_range_keeps_the_rest(s: Seq<VmRegion>, base: usize, len: usize)
    requires
        regions_ok(s),
        base + len <= usize::MAX,
    ensures
        ({
            let left = s.filter(outside(base, base.wrapping_add(len)));
            &&& forall|x: VmRegion|
                s.contains(x) && (x.base + x.len <= base || base + len <= x.base) && !(base
                    <= x.base && x.base + x.len <= base + len) ==> left.contains(x)
            &&& forall|x: VmRegion, a: int|
                #![trigger left.contains(x), x.has(a)]
                left.contains(x) && base <= a < base + len ==> !(x.base <= a < x.base + x.len)
            &&& forall|x: VmRegion| left.contains(x) ==> s.contains(x)
            &&& forall|x: VmRegion|
                left.contains(x) ==> x.base < base || base + len < x.base + x.len
        }),
{
    let p = outside(base, base.wrapping_add(len));
    let left = s.filter(p);
    assert forall|x: VmRegion| #[trigger] left.contains(x) <==> s.contains(x) && p(x) by {
        crate::tables::lemma_filter_holds(s, p, x);
    }
}

/// No address lies in two regions of a sound map.
pub proof fn law_address_has_one_region(s: Seq<VmRegion>, i: int, j: int, a: int)
    requires
        regions_ok(s),
        0 <= i < s.len(),
        0 <= j < s.len(),
        s[i].base <= a < s[i].base + s[i].len,
        s[j].base <= a < s[j].base + s[j].len,
    ensures
        i == j,
{
    if i < j {
        assert(s[i].base <= s[j].base);
    } else if j < i {
        assert(s[j].base <= s[i].base);
    }
}

/// A region is refused if one of its addresses is taken, and not if every region that is
/// there ends before it or starts behind it.
pub proof fn law_only_taken_addresses_are_refused(s: Seq<VmRegion>, r: VmRegion)
    ensures
        forall|i: int, a: int|
            #![trigger s[i], r.has(a)]
            0 <= i < s.len() && s[i].base <= a < s[i].base + s[i].len && r.base <= a < r.base
                + r.len ==> any_meets(s, r.base as int, r.stop()),
        (forall|i: int|
            0 <= i < s.len() ==> (#[trigger] s[i]).base + s[i].len <= r.base || r.base + r.len
                <= s[i].base) ==> !any_meets(s, r.base as int, r.stop()),
{
    assert forall|i: int, a: int|
        #![trigger s[i], r.has(a)]
        0 <= i < s.len() && s[i].base <= a < s[i].base + s[i].len && r.base <= a < r.base
            + r.len implies any_meets(s, r.base as int, r.stop()) by {
        assert(ranges_meet(r.base as int, r.stop(), s[i].base as int, s[i].stop()));
    }
}

/// Mapping a region adds its length to what is mapped, wherever it is put.
pub proof fn law_mapping_adds_its_length(s: Seq<VmRegion>, k: int, r: VmRegion)
    requires
        0 <= k <= s.len(),
    ensures
        mapped_in(s.insert(k, r)) == mapped_in(s).wrapping_add(r.len),
        mapped_in(Seq::<VmRegion>::empty()) == 0,
    decreases s.len(),
{
    let t = s.insert(k, r);
    if k == s.len() {
        assert(t.drop_last() =~= s);
    } else {
        law_mapping_adds_its_length(s.drop_last(), k, r);
        assert(t.drop_last() =~= s.drop_last().insert(k, r));
        assert(t.last() == s.last());
    }
}

/// The parts of a region lie end to end and cover it; each goes on in the file where it goes
/// on in memory. Both are of the kind of the whole, but only the upper part grows down.
pub proof fn law_parts_make_the_whole(r: VmRegion, addr: usize)
    requires
        r.wf(),
        r.base < addr < r.base + r.len,
    ensures
        r.below(addr).base == r.base,
        r.below(addr).base + r.below(addr).len == addr,
        r.from(addr).base == addr,
        r.from(addr).base + r.from(addr).len == r.base + r.len,
        r.below(addr).offset == r.offset,
        r.offset + (addr - r.base) <= usize::MAX ==> r.from(addr).offset - r.below(addr).offset
            == addr - r.base,
        r.from(addr).flags == r.flags,
        r.below(addr).flags & VM_GROWSDOWN == 0,
        r.below(addr).flags | VM_GROWSDOWN == r.flags | VM_GROWSDOWN,
        r.below(addr).tag == r.tag && r.from(addr).tag == r.tag,
        r.below(addr).ref_count == r.ref_count && r.from(addr).ref_count == r.ref_count,
{
    let (f, g) = (r.flags, VM_GROWSDOWN);
    assert((f & !g) & g == 0 && (f & !g) | g == f | g) by (bit_vector);
}

/// Regions are joined only where one ends at the start of the other and they are of one
/// kind; what is joined has the addresses of both and no others.
pub proof fn law_joined_regions_touch(a: VmRegion, b: VmRegion, x: int)
    requires
        a.joins(b),
    ensures
        a.base + a.len == b.base,
        a.flags == b.flags,
        a.tag == b.tag,
        a.base <= x < a.base + a.len + b.len <==> (a.base <= x < a.base + a.len || b.base <= x
            < b.base + b.len),
{
}

/// A free range starts at a multiple of the alignment, not below the base of the search, ends
/// below the kernel, and has no address of a region; and every such range is free.
pub proof fn law_free_range_is_free(m: VmMap, a: int, len: int, al: int)
    requires
        len > 0,
    ensures
        m.fits(a, len, al) ==> {
            &&& m.mmap_base <= a
            &&& a % al == 0
            &&& a + len <= KERN_BASE
            &&& forall|i: int, x: int|
                #![trigger m.regions@[i], m.regions@[i].has(x)]
                0 <= i < m.regions@.len() && m.regions@[i].base <= x < m.regions@[i].base
                    + m.regions@[i].len ==> !(a <= x < a + len)
        },
        m.mmap_base <= a && a % al == 0 && a + len <= KERN_BASE && a + len <= usize::MAX && (forall|
            i: int,
        |
            0 <= i < m.regions@.len() ==> (#[trigger] m.regions@[i]).base + m.regions@[i].len <= a
                || a + len <= m.regions@[i].base) ==> m.fits(a, len, al),
{
    if m.fits(a, len, al) {
        assert forall|i: int, x: int|
            #![trigger m.regions@[i], m.regions@[i].has(x)]
            0 <= i < m.regions@.len() && m.regions@[i].base <= x < m.regions@[i].base
                + m.regions@[i].len implies !(a <= x < a + len) by {
            if a <= x < a + len {
                assert(ranges_meet(a, a + len, m.regions@[i].base as int, m.regions@[i].stop()));
            }
        }
    }
}

/// A search goes by the alignment that is asked for; without one, by pages.
pub proof fn law_search_goes_by_pages(align: usize)
    ensures
        VmMap::search_align(align) > 0,
        align > 0 ==> VmMap::search_align(align) as int % align as int == 0,
        align <= 1 ==> VmMap::search_align(align) == 4096,
        align > 1 ==> VmMap::search_align(align) <= align,
{
    if align > 1 {
        assert(align as int % align as int == 0) by (nonlinear_arith)
            requires
                align > 1,
        ;
    }
}

/// A free range that was found can be mapped.
pub proof fn law_free_range_can_be_mapped(m: VmMap, a: usize, len: usize, al: int, flags: u32)
    requires
        m.fits(a as int, len as int, al),
    ensures
        ({
            let r = VmRegion { base: a, len, flags, offset: 0, tag: 0, ref_count: 1 };
            r.wf() && !any_meets(m.regions@, r.base as int, r.stop())
        }),
{
}

// ---- Resident set ----

/// How much a region counts: its pages three times if it can be executed, twice if it
/// can be written, and once else; and twice that unless it is shared.
pub open spec fn region_weight(r: VmRegion) -> int {
    let pages = (r.len + PAGE_SZ - 1) / PAGE_SZ as int;
    let by_access = if r.flags & VM_EXEC != 0 {
        pages * 3
    } else if r.flags & VM_WRITE != 0 {
        pages * 2
    } else {
        pages
    };
    if r.flags & VM_SHARED != 0 {
        by_access
    } else {
        by_access * 2
    }
}

/// How much the regions count together.
pub open spec fn total_weight(s: Seq<VmRegion>) -> int
    decreases s.len(),
{
    if s.len() == 0 {
        0
    } else {
        total_weight(s.drop_last()) + region_weight(s.last())
    }
}

/// What can be executed counts three times as much as what can be read only, what can be
/// written twice as much, and what is private twice as much as what is shared. A shared
/// region that can be read only counts a page for every page that it reaches into.
pub proof fn law_weight_follows_access(a: VmRegion, b: VmRegion)
    requires
        a.len == b.len,
        b.flags & VM_EXEC == 0,
        b.flags & VM_WRITE == 0,
    ensures
        (a.flags & VM_SHARED == 0) == (b.flags & VM_SHARED == 0) ==> {
            &&& a.flags & VM_EXEC != 0 ==> region_weight(a) == 3 * region_weight(b)
            &&& a.flags & VM_EXEC == 0 && a.flags & VM_WRITE != 0 ==> region_weight(a) == 2
                * region_weight(b)
            &&& a.flags & VM_EXEC == 0 && a.flags & VM_WRITE == 0 ==> region_weight(a)
                == region_weight(b)
        },
        b.flags & VM_SHARED != 0 ==> 4096 * (region_weight(b) - 1) < b.len <= 4096
            * region_weight(b),
        b.flags & VM_SHARED == 0 ==> 4096 * (region_weight(b) / 2 - 1) < b.len <= 4096 * (
        region_weight(b) / 2) && region_weight(b) % 2 == 0,
{
}

/// What regions count together does not depend on their order and is what they count apart.
pub proof fn law_weights_add_up(s: Seq<VmRegion>, k: int, r: VmRegion)
    requires
        0 <= k <= s.len(),
    ensures
        total_weight(s.insert(k, r)) == total_weight(s) + region_weight(r),
    decreases s.len(),
{
    let t = s.insert(k, r);
    if k == s.len() {
        assert(t.drop_last() =~= s);
    } else {
        law_weights_add_up(s.drop_last(), k, r);
        assert(t.drop_last() =~= s.drop_last().insert(k, r));
        assert(t.last() == s.last());
    }
}

proof fn lemma_weight_prefix(s: Seq<VmRegion>, i: int)
    requires
        0 <= i <= s.len(),
    ensures
        0 <= total_weight(s.take(i)) <= total_weight(s),
    decreases s.len() - i,
{
    lemma_weight_nonneg(s.take(i));
    if i == s.len() {
        assert(s.take(i) =~= s);
    } else {
        lemma_weight_prefix(s, i + 1);
        assert(s.take(i + 1).drop_last() =~= s.take(i));
    }
}

proof fn lemma_weight_nonneg(s: Seq<VmRegion>)
    ensures
        0 <= total_weight(s),
    decreases s.len(),
{
    if s.len() > 0 {
        lemma_weight_nonneg(s.drop_last());
    }
}

/// How many frames a process should have: a hundred times what its regions count for
/// each frame there is, though half the frames at most.
pub fn compute_rss_watermark(regions: &[VmRegion], pool_cap: usize) -> (r: usize)
    requires
        forall|i: int|
            0 <= i < regions@.len() ==> (#[trigger] regions@[i]).len + PAGE_SZ - 1 <= usize::MAX,
        total_weight(regions@) * 100 <= u64::MAX,
    ensures
        r == (if regions@.len() == 0 || pool_cap == 0 {
            0
        } else {
            let raw = total_weight(regions@) * 100 / pool_cap as int;
            if raw <= pool_cap as int / 2 {
                raw
            } else {
                pool_cap as int / 2
            }
        }),
{
    if regions.len() == 0 || pool_cap == 0 {
        return 0;
    }
    let mut total: u64 = 0;
    let mut i: usize = 0;
    proof {
        assert(regions@.take(0) =~= Seq::empty());
    }
    while i < regions.len()
        invariant
            i <= regions@.len(),
            total == total_weight(regions@.take(i as int)),
            total_weight(regions@) * 100 <= u64::MAX,
            forall|i: int|
                0 <= i < regions@.len() ==> (#[trigger] regions@[i]).len + PAGE_SZ - 1
                    <= usize::MAX,
        decreases regions@.len() - i,
    {
        proof {
            assert(regions@.take(i + 1).drop_last() =~= regions@.take(i as int));
            lemma_weight_prefix(regions@, i + 1);
            lemma_weight_nonneg(regions@.take(i as int));
        }
        let x = regions[i];
        let pages: u64 = ((x.len + (PAGE_SZ - 1)) / PAGE_SZ) as u64;
        let by_access: u64 = if x.flags & VM_EXEC != 0 {
            pages * 3
        } else if x.flags & VM_WRITE != 0 {
            pages * 2
        } else {
            pages
        };
        let factor: u64 = if x.flags & VM_SHARED != 0 {
            1
        } else {
            2
        };
        total = total + by_access * factor;
        i = i + 1;
    }
    proof {
        assert(regions@.take(i as int) =~= regions@);
        lemma_weight_nonneg(regions@);
    }
    let cap: u64 = pool_cap as u64;
    let raw: u64 = (total * 100) / cap;
    let half: u64 = cap / 2;
    if raw <= half {
        raw as usize
    } else {
        half as usize
    }
}

} // verus!
