//! Objects of one size out of one block of memory, and kernel stacks.
use crate::consts::{KSTK_SZ, SLAB_ALIGN};
use std::collections::VecDeque;
use vstd::prelude::*;

verus! {

/// A kernel stack; it holds the address of its lowest byte.
pub struct KStk(pub usize);

impl KStk {
    /// A stack in the `KSTK_SZ` bytes from `base` on.
    pub fn new(base: usize) -> (r: Self)
        ensures
            r == KStk(base),
    {
        KStk(base)
    }

    /// The address behind the highest byte.
    pub fn top(&self) -> (r: usize)
        requires
            self.0 + KSTK_SZ <= usize::MAX,
        ensures
            r == self.0 + KSTK_SZ,
    {
        self.0 + KSTK_SZ
    }
}

/// A block of memory cut into objects of one size. `free_list` holds where those that
/// are free start, the next one to be given out first.
pub struct SlabEntry {
    pub data: Vec<u8>,
    pub obj_size: usize,
    pub capacity: usize,
    pub free_list: VecDeque<usize>,
    pub allocated: usize,
    pub tag: u32,
}

/// The size of an object, rounded up to the alignment.
pub open spec fn slab_size(obj_size: int) -> int {
    ((obj_size + SLAB_ALIGN - 1) / SLAB_ALIGN as int) * SLAB_ALIGN
}

impl SlabEntry {
    /// The memory holds whole objects, and what is free lies in it.
    pub open spec fn wf(self) -> bool {
        &&& self.obj_size > 0 ==> self.data@.len() as int % self.obj_size as int == 0
        &&& forall|i: int|
            0 <= i < self.free_list@.len() ==> (#[trigger] self.free_list@[i]) + self.obj_size
                <= self.data@.len()
    }

    /// The bytes with those of the object at `at` set to zero.
    pub open spec fn zeroed_at(self, at: int) -> Seq<u8> {
        Seq::new(
            self.data@.len(),
            |i: int|
                if at <= i < at + self.obj_size {
                    0u8
                } else {
                    self.data@[i]
                },
        )
    }

    /// Memory for `capacity` objects, all of them free, from the lowest on.
    pub fn new(obj_size: usize, capacity: usize) -> (r: Self)
        requires
            obj_size + SLAB_ALIGN - 1 <= usize::MAX,
            slab_size(obj_size as int) * capacity <= usize::MAX,
        ensures
            r.wf(),
            r.obj_size == slab_size(obj_size as int),
            r.capacity == capacity,
            r.data@ == Seq::new((r.obj_size * capacity) as nat, |i: int| 0u8),
            r.free_list@ == Seq::new(capacity as nat, |i: int| (i * r.obj_size) as usize),
            r.allocated == 0,
            r.tag == 0,
    {
        let size: usize = (obj_size + (SLAB_ALIGN - 1)) / SLAB_ALIGN * SLAB_ALIGN;
        let total: usize = size * capacity;
        let mut fl: VecDeque<usize> = VecDeque::new();
        let mut i: usize = 0;
        let mut at: usize = 0;
        proof {
            assert(0 * size == 0);
        }
        while i < capacity
            invariant
                i <= capacity,
                at == i * size,
                total == size * capacity,
                fl@.len() == i,
                forall|k: int| 0 <= k < i ==> (#[trigger] fl@[k]) == k * size,
                forall|k: int| 0 <= k < i ==> (#[trigger] fl@[k]) + size <= total,
            decreases capacity - i,
        {
            proof {
                assert(i * size + size <= size * capacity && (i + 1) * size == i * size + size)
                    by (nonlinear_arith)
                    requires
                        i < capacity,
                        size >= 0,
                ;
            }
            fl.push_back(at);
            at = at + size;
            i = i + 1;
        }
        let data: Vec<u8> = vec![0u8;total];
        proof {
            assert(data@ =~= Seq::new((size * capacity) as nat, |i: int| 0u8));
            assert(fl@ =~= Seq::new(capacity as nat, |i: int| (i * size) as usize));
            if size > 0 {
                assert(size * capacity == capacity * size) by (nonlinear_arith);
                vstd::arithmetic::div_mod::lemma_mod_multiples_basic(capacity as int, size as int);
            }
        }
        SlabEntry { data, obj_size: size, capacity, free_list: fl, allocated: 0, tag: 0 }
    }

    /// Gives out the next free object with all its bytes zero, whatever was asked for,
    /// and returns where it starts.
    pub fn slab_alloc(&mut self, _zeroed: bool) -> (r: Option<usize>)
        requires
            old(self).wf(),
            old(self).allocated < usize::MAX,
        ensures
            final(self).wf(),
            final(self).obj_size == old(self).obj_size,
            final(self).capacity == old(self).capacity,
            final(self).tag == old(self).tag,
            if old(self).free_list@.len() == 0 {
                &&& r is None
                &&& final(self).data@ == old(self).data@
                &&& final(self).free_list@ == old(self).free_list@
                &&& final(self).allocated == old(self).allocated
            } else {
                &&& r == Some(old(self).free_list@[0])
                &&& final(self).free_list@ == old(self).free_list@.skip(1)
                &&& final(self).data@ == old(self).zeroed_at(old(self).free_list@[0] as int)
                &&& final(self).allocated == old(self).allocated + 1
            },
    {
        let slot: usize = match self.free_list.pop_front() {
            None => {
                return None;
            },
            Some(s) => s,
        };
        let ghost rest = old(self).free_list@.skip(1);
        proof {
            assert(slot == old(self).free_list@[0]);
            assert(self.free_list@ =~= rest);
        }
        let size: usize = self.obj_size;
        let len: usize = self.data.len();
        let mut k: usize = 0;
        while k < size
            invariant
                k <= size,
                slot + size <= len,
                len == self.data@.len(),
                len == old(self).data@.len(),
                size == self.obj_size,
                self.obj_size == old(self).obj_size,
                self.capacity == old(self).capacity,
                self.tag == old(self).tag,
                self.allocated == old(self).allocated,
                self.free_list@ == rest,
                forall|i: int|
                    0 <= i < len ==> #[trigger] self.data@[i] == (if slot <= i < slot + k {
                        0u8
                    } else {
                        old(self).data@[i]
                    }),
            decreases size - k,
        {
            self.data.set(slot + k, 0u8);
            k = k + 1;
        }
        self.allocated = self.allocated + 1;
        proof {
            assert(self.data@ =~= old(self).zeroed_at(slot as int));
            assert forall|i: int| 0 <= i < self.free_list@.len() implies (
            #[trigger] self.free_list@[i]) + self.obj_size <= self.data@.len() by {
                assert(rest[i] == old(self).free_list@[i + 1]);
            }
        }
        Some(slot)
    }

    /// An object starts at the offset.
    pub open spec fn is_object(self, offset: usize) -> bool {
        offset < self.data@.len() && offset as int % self.obj_size as int == 0
    }

    /// Takes an object back, behind those that are free; an offset at which none starts
    /// is ignored.
    pub fn slab_free(&mut self, offset: usize)
        requires
            old(self).wf(),
            old(self).obj_size > 0,
        ensures
            final(self).wf(),
            final(self).data@ == old(self).data@,
            final(self).obj_size == old(self).obj_size,
            final(self).capacity == old(self).capacity,
            final(self).tag == old(self).tag,
            if old(self).is_object(offset) {
                &&& final(self).free_list@ == old(self).free_list@.push(offset)
                &&& final(self).allocated == (if old(self).allocated > 0 {
                    (old(self).allocated - 1) as usize
                } else {
                    0
                })
            } else {
                &&& final(self).free_list@ == old(self).free_list@
                &&& final(self).allocated == old(self).allocated
            },
    {
        if offset < self.data.len() && offset % self.obj_size == 0 {
            proof {
                lemma_whole_object(
                    self.data@.len() as int,
                    offset as int,
                    self.obj_size as int,
                );
            }
            self.free_list.push_back(offset);
            if self.allocated > 0 {
                self.allocated = self.allocated - 1;
            }
        }
    }

    /// How many objects are given out.
    pub fn slab_used(&self) -> (r: usize)
        ensures
            r == self.allocated,
    {
        self.allocated
    }

    /// How many objects are free.
    pub fn slab_avail(&self) -> (r: usize)
        ensures
            r == self.free_list@.len(),
    {
        self.free_list.len()
    }

    /// Gives up the memory if no object is given out, and says how many bytes that were.
    pub fn shrink(&mut self) -> (r: usize)
        requires
            old(self).wf(),
        ensures
            final(self).wf(),
            final(self).obj_size == old(self).obj_size,
            final(self).capacity == old(self).capacity,
            final(self).tag == old(self).tag,
            final(self).allocated == old(self).allocated,
            if old(self).allocated == 0 {
                &&& r == old(self).data@.len()
                &&& final(self).data@.len() == 0
                &&& final(self).free_list@.len() == 0
            } else {
                &&& r == 0
                &&& final(self).data@ == old(self).data@
                &&& final(self).free_list@ == old(self).free_list@
            },
    {
        let before: usize = self.data.len();
        if self.allocated == 0 {
            self.data.clear();
            self.free_list.clear();
            return before;
        }
        0
    }

    /// The bytes of the object at the offset, if the memory reaches that far.
    pub fn obj_at(&self, offset: usize) -> (r: Option<&[u8]>)
        requires
            offset + self.obj_size <= usize::MAX,
        ensures
            match r {
                Some(b) => offset + self.obj_size <= self.data@.len() && b@
                    == self.data@.subrange(offset as int, offset + self.obj_size),
                None => offset + self.obj_size > self.data@.len(),
            },
    {
        let end: usize = offset + self.obj_size;
        if end <= self.data.len() {
            Some(vstd::slice::slice_subrange(self.data.as_slice(), offset, end))
        } else {
            None
        }
    }

    /// The bytes of the object at the offset to be changed, if the memory reaches that
    /// far.
    pub fn obj_at_mut(&mut self, offset: usize) -> (r: Option<&mut [u8]>)
        requires
            offset + old(self).obj_size <= usize::MAX,
        ensures
            match r {
                Some(b) => {
                    &&& offset + old(self).obj_size <= old(self).data@.len()
                    &&& b@ == old(self).data@.subrange(offset as int, offset + old(self).obj_size)
                    &&& final(b)@.len() == b@.len() ==> final(self).data@ == old(self).data@.take(
                        offset as int,
                    ) + final(b)@ + old(self).data@.skip(offset + old(self).obj_size)
                    &&& final(self).obj_size == old(self).obj_size
                    &&& final(self).capacity == old(self).capacity
                    &&& final(self).free_list == old(self).free_list
                    &&& final(self).allocated == old(self).allocated
                    &&& final(self).tag == old(self).tag
                },
                None => offset + old(self).obj_size > old(self).data@.len() && *final(self)
                    == *old(self),
            },
    {
        let end: usize = offset + self.obj_size;
        if end <= self.data.len() {
            let size: usize = self.obj_size;
            let (_, rest) = self.data.as_mut_slice().split_at_mut(offset);
            let (obj, _) = rest.split_at_mut(size);
            Some(obj)
        } else {
            None
        }
    }
}

/// Where an object starts in memory for whole objects, a whole one fits.
proof fn lemma_whole_object(len: int, at: int, size: int)
    requires
        size > 0,
        len % size == 0,
        at % size == 0,
        0 <= at < len,
    ensures
        at + size <= len,
{
    vstd::arithmetic::div_mod::lemma_fundamental_div_mod(len, size);
    vstd::arithmetic::div_mod::lemma_fundamental_div_mod(at, size);
    let (p, q) = (at / size, len / size);
    assert(at + size <= len) by (nonlinear_arith)
        requires
            at == size * p,
            len == size * q,
            at < len,
            size > 0,
    ;
}

/// A new slab gives out objects that do not overlap: two that are free start a whole
/// object apart.
pub proof fn law_slab_objects_are_apart(size: int, i: int, j: int)
    requires
        size > 0,
        0 <= i < j,
    ensures
        i * size + size <= j * size,
{
    assert(i * size + size <= j * size) by (nonlinear_arith)
        requires
            size > 0,
            i + 1 <= j,
    ;
}

/// Objects are given the least multiple of eight bytes that holds them.
pub proof fn law_objects_are_aligned(n: int)
    requires
        n >= 0,
    ensures
        n <= slab_size(n) < n + 8,
        slab_size(n) % 8 == 0,
{
}

/// Clearing an object clears its bytes and no others.
pub proof fn law_clearing_stays_inside(s: SlabEntry, at: int, i: int)
    requires
        0 <= i < s.data@.len(),
    ensures
        s.zeroed_at(at).len() == s.data@.len(),
        at <= i < at + s.obj_size ==> s.zeroed_at(at)[i] == 0,
        i < at || at + s.obj_size <= i ==> s.zeroed_at(at)[i] == s.data@[i],
{
}

/// An object starts at a multiple of the size, inside the slab; a place between two objects
/// is none.
pub proof fn law_only_starts_are_objects(s: SlabEntry, k: int, d: int, offset: usize)
    requires
        s.obj_size > 0,
        0 <= k,
        0 <= d < s.obj_size,
        offset == k * s.obj_size + d,
    ensures
        s.is_object(offset) <==> d == 0 && offset < s.data@.len(),
{
    vstd::arithmetic::div_mod::lemma_fundamental_div_mod_converse(
        offset as int,
        s.obj_size as int,
        k,
        d,
    );
}

} // verus!
