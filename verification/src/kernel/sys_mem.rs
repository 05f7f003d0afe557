//! System calls on memory.

use vstd::prelude::*;

use crate::consts::{KERN_BASE, PAGE_SZ};
use crate::kernel::Kernel;
use crate::memory::frames::{frame_alloc, frame_dealloc, FramePool};
use crate::process::Task;

verus! {

/// Where mappings lie that name no address.
pub const MAP_BASE: u64 = 0x7000_0000;

/// The break that a program starts with.
pub const FIRST_BRK: u64 = 0x0040_0000;

/// A length in whole pages.
pub open spec fn page_up(len: int) -> int {
    (len + PAGE_SZ - 1) / PAGE_SZ as int * PAGE_SZ
}

/// The mapping goes to the address that it names.
pub open spec fn is_fixed(addr: usize, flags: usize) -> bool {
    addr != 0 && crate::kernel::sys_file::bit(flags, 0x10)
}

/// Where a mapping goes: to its address, or to a place that the clock and the descriptor
/// give, at the start of a page.
pub open spec fn map_addr(clk: usize, addr: usize, len: usize, flags: usize, fd: usize) -> int {
    if is_fixed(addr, flags) {
        addr as int
    } else {
        let span = KERN_BASE - MAP_BASE - page_up(len as int);
        let place = MAP_BASE + (clk * 4096 + fd * PAGE_SZ) % span;
        place - place % PAGE_SZ as int
    }
}

/// A mapping that names no address leaves room below the kernel, and its place can be
/// counted.
pub open spec fn map_counts(clk: usize, addr: usize, len: usize, flags: usize, fd: usize) -> bool {
    len > 0 && !is_fixed(addr, flags) ==> {
        &&& page_up(len as int) < KERN_BASE - MAP_BASE
        &&& clk * 4096 + fd * PAGE_SZ <= u64::MAX
    }
}

/// What a mapping comes to.
pub open spec fn mmap_result(
    a: Kernel,
    addr: usize,
    len: usize,
    flags: usize,
    fd: usize,
    offset: usize,
) -> Result<u64, &'static str> {
    let need = page_up(len as int);
    if len == 0 {
        Err("einval")
    } else if crate::memory::frames::free_in(a.pool.slots@) < need / PAGE_SZ as int {
        Err("enomem")
    } else if !crate::kernel::sys_file::bit(flags, 0x20) && offset - offset % PAGE_SZ > need {
        Err("einval")
    } else {
        Ok(map_addr(a.clock.clk, addr, len, flags, fd) as u64)
    }
}

/// What taking a mapping away comes to.
pub open spec fn munmap_result(addr: usize) -> Result<u64, &'static str> {
    if addr % PAGE_SZ != 0 {
        Err("einval")
    } else {
        Ok(0)
    }
}

/// The frames, and the addresses of those that a heap has, after the heap took up to `n` more,
/// each the first free one from the place that the clock points to.
pub open spec fn heap_raised(s: Seq<bool>, heap: Seq<usize>, clk: usize, n: nat) -> (
    Seq<bool>,
    Seq<usize>,
)
    decreases n,
{
    if n == 0 {
        (s, heap)
    } else {
        let (t, h) = heap_raised(s, heap, clk, (n - 1) as nat);
        if crate::memory::frames::any_free(t) {
            let i = crate::memory::frames::next_free(t, clk as int % t.len() as int);
            (
                t.update(i, false),
                if crate::memory::frames::frame_addr(i) <= usize::MAX {
                    h.push(crate::memory::frames::frame_addr(i) as usize)
                } else {
                    h
                },
            )
        } else {
            (t, h)
        }
    }
}

/// The frames, and the addresses of those that a heap has, after the heap gave the last `n` of
/// its frames back, or all that it had.
pub open spec fn heap_lowered(s: Seq<bool>, heap: Seq<usize>, n: nat) -> (Seq<bool>, Seq<usize>)
    decreases n,
{
    if n == 0 || heap.len() == 0 {
        (s, heap)
    } else {
        heap_lowered(
            crate::memory::frames::freed_at(s, heap.last()),
            heap.drop_last(),
            (n - 1) as nat,
        )
    }
}

/// The break of the running task: the first one while it has not been moved.
pub open spec fn current_brk(a: Kernel) -> u64 {
    match a.running(0) {
        Some(t) => if a.tasks.tasks@[t as int].vm_token == 0 {
            FIRST_BRK
        } else {
            a.tasks.tasks@[t as int].vm_token as u64
        },
        None => FIRST_BRK,
    }
}

/// How many whole pages lie from one address up to another.
pub open spec fn pages_between(from: int, to: int) -> nat {
    if to > from {
        ((to - from) / PAGE_SZ as int) as nat
    } else {
        0
    }
}

/// The end of the break's last page can be counted, if it comes to that.
pub open spec fn brk_counts(new_brk: usize) -> bool {
    new_brk < KERN_BASE ==> new_brk + PAGE_SZ - 1 <= usize::MAX
}

/// The outcome of moving the break. Zero asks where it is. A higher one takes frames for its
/// pages, and a lower one gives those of the surplus pages back.
pub open spec fn did_brk(a: Kernel, new_brk: usize, r: Result<u64, &'static str>, b: Kernel) -> bool {
    let to = page_up(new_brk as int);
    if new_brk == 0 {
        r == Ok::<u64, &'static str>(current_brk(a)) && b == a
    } else if new_brk >= KERN_BASE {
        r == Err::<u64, &'static str>("enomem") && b == a
    } else {
        match a.running(0) {
            None => r == Ok::<u64, &'static str>(to as u64) && b == a,
            Some(t) => {
                let (x, y) = (a.tasks.tasks@[t as int], b.tasks.tasks@[t as int]);
                let more = pages_between(x.vm_token as int, to);
                let surplus = pages_between(to, x.vm_token as int);
                if crate::memory::frames::free_in(a.pool.slots@) < more {
                    r == Err::<u64, &'static str>("enomem") && b == a
                } else {
                    &&& r == Ok::<u64, &'static str>(to as u64)
                    &&& crate::kernel::only_task(a.tasks, t, b.tasks)
                    &&& y == (Task { vm_token: to as usize, heap: y.heap, ..x })
                    &&& (b.pool.slots@, y.heap@) == (if to > x.vm_token {
                        heap_raised(a.pool.slots@, x.heap@, a.clock.clk, more)
                    } else {
                        heap_lowered(a.pool.slots@, x.heap@, surplus)
                    })
                    &&& b.pool.cap == a.pool.cap
                    &&& b == (Kernel { tasks: b.tasks, pool: b.pool, ..a })
                }
            },
        }
    }
}

/// A break that is raised and lowered again by as many pages leaves the same frames free and
/// the same ones to the heap.
pub proof fn law_lowering_undoes_raising(s: Seq<bool>, heap: Seq<usize>, clk: usize, n: nat)
    requires
        n <= crate::memory::frames::free_in(s),
        crate::memory::frames::frame_addr(s.len() as int) <= usize::MAX,
    ensures
        ({
            let (t, h) = heap_raised(s, heap, clk, n);
            &&& t.len() == s.len()
            &&& crate::memory::frames::free_in(t) == crate::memory::frames::free_in(s) - n
            &&& h.len() == heap.len() + n
            &&& heap_lowered(t, h, n) == (s, heap)
        }),
    decreases n,
{
    if n > 0 {
        let m = (n - 1) as nat;
        law_lowering_undoes_raising(s, heap, clk, m);
        let (u, g) = heap_raised(s, heap, clk, m);
        let (t, h) = heap_raised(s, heap, clk, n);
        if !crate::memory::frames::any_free(u) {
            crate::memory::frames::lemma_none_free(u);
        }
        crate::memory::frames::lemma_next_is_free(u, clk as int);
        let i = crate::memory::frames::next_free(u, clk as int % u.len() as int);
        crate::memory::frames::law_taking_lowers_free_count(u, i);
        assert(h.drop_last() =~= g);
        assert(crate::memory::frames::freed_at(t, h.last()) =~= u);
    }
}

impl Kernel {
    /// Maps memory.
    pub fn sys_mmap(
        &self,
        addr: usize,
        len: usize,
        flags: usize,
        fd: usize,
        offset: usize,
    ) -> (r: Result<u64, &'static str>)
        requires
            map_counts(self.clock.clk, addr, len, flags, fd),
        ensures
            r == mmap_result(*self, addr, len, flags, fd, offset),
    {
        if len == 0 {
            return Err("einval");
        }
        let page: u128 = PAGE_SZ as u128;
        let need: u128 = (len as u128 + page - 1) / page * page;
        let place: u64 = if addr != 0 && (flags / 0x10) % 2 == 1 {
            addr as u64
        } else {
            let span: u64 = KERN_BASE - MAP_BASE - need as u64;
            let at: u64 = MAP_BASE + (self.clock.clk as u64 * 4096 + fd as u64 * 4096) % span;
            at - at % 4096
        };
        let free: usize = self.pool.free_count();
        if (free as u128) < need / page {
            return Err("enomem");
        }
        if (flags / 0x20) % 2 != 1 && (offset - offset % PAGE_SZ) as u128 > need {
            return Err("einval");
        }
        Ok(place)
    }

    /// Takes a mapping away.
    pub fn sys_munmap(&self, addr: usize, _len: usize) -> (r: Result<u64, &'static str>)
        ensures
            r == munmap_result(addr),
    {
        if addr % PAGE_SZ != 0 {
            return Err("einval");
        }
        Ok(0)
    }

    /// The break of the running task.
    fn brk_now(&self) -> (r: u64)
        requires
            self.wf(),
        ensures
            r == current_brk(*self),
    {
        match self.cur_task(0) {
            Some(t) => {
                assert(self.cpus@[0] is Some);
                let at: usize = self.tasks.tasks[t].vm_token;
                if at == 0 {
                    FIRST_BRK
                } else {
                    at as u64
                }
            },
            None => FIRST_BRK,
        }
    }

    /// Takes frames for a heap.
    fn raise(pool: &mut FramePool, heap: &mut Vec<usize>, clk: usize, n: usize)
        ensures
            (final(pool).slots@, final(heap)@) == heap_raised(
                old(pool).slots@,
                old(heap)@,
                clk,
                n as nat,
            ),
            final(pool).slots@.len() == old(pool).slots@.len(),
            final(pool).cap == old(pool).cap,
    {
        let ghost (s, h) = (pool.slots@, heap@);
        let mut i: usize = 0;
        while i < n
            invariant
                i <= n,
                (pool.slots@, heap@) == heap_raised(s, h, clk, i as nat),
                pool.slots@.len() == s.len(),
                pool.cap == old(pool).cap,
            decreases n - i,
        {
            if let Some(frame) = frame_alloc(pool, clk) {
                heap.push(frame);
            }
            i += 1;
        }
    }

    /// Gives the last frames of a heap back.
    fn lower(pool: &mut FramePool, heap: &mut Vec<usize>, n: usize)
        ensures
            (final(pool).slots@, final(heap)@) == heap_lowered(
                old(pool).slots@,
                old(heap)@,
                n as nat,
            ),
            final(pool).slots@.len() == old(pool).slots@.len(),
            final(pool).cap == old(pool).cap,
    {
        let ghost (s, h) = (pool.slots@, heap@);
        let mut left: usize = n;
        while left > 0 && heap.len() > 0
            invariant
                heap_lowered(pool.slots@, heap@, left as nat) == heap_lowered(s, h, n as nat),
                pool.slots@.len() == s.len(),
                pool.cap == old(pool).cap,
            decreases left,
        {
            let ghost held = heap@;
            if let Some(frame) = heap.pop() {
                frame_dealloc(pool, frame);
            }
            assert(heap@ =~= held.drop_last());
            left -= 1;
        }
    }

    /// Moves the break of the running task.
    pub fn sys_brk(&mut self, new_brk: usize) -> (r: Result<u64, &'static str>)
        requires
            old(self).wf(),
            brk_counts(new_brk),
        ensures
            final(self).wf(),
            did_brk(*old(self), new_brk, r, *final(self)),
    {
        if new_brk == 0 {
            return Ok(self.brk_now());
        }
        if new_brk as u64 >= KERN_BASE {
            return Err("enomem");
        }
        let to: usize = (new_brk + (PAGE_SZ - 1)) / PAGE_SZ * PAGE_SZ;
        let t: usize = match self.cur_task(0) {
            Some(t) => t,
            None => {
                return Ok(to as u64);
            },
        };
        assert(self.cpus@[0] is Some);
        let from: usize = self.tasks.tasks[t].vm_token;
        let ghost x = self.tasks.tasks@[t as int];
        let mut heap: Vec<usize> = Vec::new();
        if to > from {
            let need: usize = (to - from) / PAGE_SZ;
            if self.pool.free_count() < need {
                return Err("enomem");
            }
            std::mem::swap(&mut heap, &mut self.tasks.tasks[t].heap);
            Self::raise(&mut self.pool, &mut heap, self.clock.clk, need);
        } else {
            std::mem::swap(&mut heap, &mut self.tasks.tasks[t].heap);
            Self::lower(&mut self.pool, &mut heap, (from - to) / PAGE_SZ);
        }
        self.tasks.tasks[t].heap = heap;
        self.tasks.tasks[t].vm_token = to;
        proof {
            assert(crate::process::table::links_ok(x, old(self).tasks.tasks@.len()));
            assert(crate::process::table::backed(
                x,
                self.shared.files@,
                self.configfs@,
                self.shared.sems@,
                self.shared.shms@,
            ));
            crate::kernel::lemma_task_changed(*old(self), t, *self);
        }
        Ok(to as u64)
    }
}

/// A length is rounded up to the least number of whole pages that holds it.
pub proof fn law_pages_hold_the_length(len: int)
    requires
        len >= 0,
    ensures
        len <= page_up(len) < len + 4096,
        page_up(len) % 4096 == 0,
{
}

/// A mapping at a fixed address is made there. Any other starts at a page, not below where
/// mappings begin, and ends below the kernel.
pub proof fn law_mapping_lies_in_its_place(a: Kernel, addr: usize, len: usize, flags: usize, fd: usize)
    requires
        len > 0,
        map_counts(a.clock.clk, addr, len, flags, fd),
    ensures
        is_fixed(addr, flags) ==> map_addr(a.clock.clk, addr, len, flags, fd) == addr,
        addr == 0 ==> !is_fixed(addr, flags),
        !is_fixed(addr, flags) ==> {
            let m = map_addr(a.clock.clk, addr, len, flags, fd);
            0x7000_0000 <= m && m % 4096 == 0 && m + len <= KERN_BASE
        },
{
    if !is_fixed(addr, flags) {
        let span = KERN_BASE - MAP_BASE - page_up(len as int);
        let x = a.clock.clk * 4096 + fd * PAGE_SZ;
        assert(x >= 0) by (nonlinear_arith)
            requires
                x == a.clock.clk * 4096 + fd * PAGE_SZ,
        ;
        vstd::arithmetic::div_mod::lemma_mod_bound(x, span);
        let place = MAP_BASE + x % span;
        assert(place - place % 4096 >= 0x7000_0000);
    }
}

/// Nothing is mapped for no length, and nothing for which there are too few free frames; what
/// is mapped without a file is mapped whenever there are enough.
pub proof fn law_mapping_needs_frames(
    a: Kernel,
    addr: usize,
    len: usize,
    flags: usize,
    fd: usize,
    offset: usize,
    n: int,
)
    requires
        n == crate::memory::frames::free_in(a.pool.slots@),
    ensures
        len == 0 ==> mmap_result(a, addr, len, flags, fd, offset) == Err::<u64, &'static str>(
            "einval",
        ),
        len > n * 4096 ==> mmap_result(a, addr, len, flags, fd, offset) == Err::<
            u64,
            &'static str,
        >("enomem"),
        0 < len <= n * 4096 && offset < 4096 ==> mmap_result(a, addr, len, flags, fd, offset)
            == Ok::<u64, &'static str>(map_addr(a.clock.clk, addr, len, flags, fd) as u64),
        0 < len <= n * 4096 && crate::kernel::sys_file::bit(flags, 0x20) ==> mmap_result(
            a,
            addr,
            len,
            flags,
            fd,
            offset,
        ) is Ok,
{
}

/// Only what starts at a page can be unmapped.
pub proof fn law_unmapping_goes_by_pages(page: int, d: int, addr: usize)
    requires
        addr == page * 4096 + d,
        0 <= page,
        0 <= d < 4096,
    ensures
        d == 0 ==> munmap_result(addr) == Ok::<u64, &'static str>(0),
        d != 0 ==> munmap_result(addr) == Err::<u64, &'static str>("einval"),
{
}

/// The break that was set is the break that is given when asked for: the number asked for,
/// rounded up to a page. Asking changes nothing.
pub proof fn law_break_that_was_set_is_given(
    a: Kernel,
    new_brk: usize,
    r: Result<u64, &'static str>,
    b: Kernel,
    asked: Result<u64, &'static str>,
    c: Kernel,
)
    requires
        a.wf(),
        a.running(0) is Some,
        0 < new_brk,
        brk_counts(new_brk),
        did_brk(a, new_brk, r, b),
        did_brk(b, 0, asked, c),
    ensures
        r is Ok ==> r == Ok::<u64, &'static str>(page_up(new_brk as int) as u64) && asked == r,
        r is Ok ==> new_brk <= r->Ok_0 < new_brk + 4096,
        r is Err ==> r == Err::<u64, &'static str>("enomem") && b == a,
        c == b,
        new_brk >= KERN_BASE ==> r is Err,
{
    assert(a.cpus@[0] is Some);
}

/// Raising the break by some pages takes as many frames, and is refused only where there are
/// too few; lowering it gives back as many as the task took for it.
pub proof fn law_break_takes_a_frame_a_page(
    a: Kernel,
    new_brk: usize,
    r: Result<u64, &'static str>,
    b: Kernel,
    t: usize,
    k: nat,
)
    requires
        a.wf(),
        a.running(0) == Some(t),
        0 < new_brk < KERN_BASE,
        brk_counts(new_brk),
        crate::memory::frames::frame_addr(a.pool.slots@.len() as int) <= usize::MAX,
        page_up(new_brk as int) == a.tasks.tasks@[t as int].vm_token + k * 4096,
        k > 0,
        did_brk(a, new_brk, r, b),
    ensures
        r is Ok <==> k <= crate::memory::frames::free_in(a.pool.slots@),
        r is Ok ==> {
            &&& crate::memory::frames::free_in(b.pool.slots@) == crate::memory::frames::free_in(
                a.pool.slots@,
            ) - k
            &&& b.tasks.tasks@[t as int].heap@.len() == a.tasks.tasks@[t as int].heap@.len() + k
            &&& heap_lowered(b.pool.slots@, b.tasks.tasks@[t as int].heap@, k) == (
                a.pool.slots@,
                a.tasks.tasks@[t as int].heap@,
            )
        },
{
    let x = a.tasks.tasks@[t as int];
    let to = page_up(new_brk as int);
    assert(pages_between(x.vm_token as int, to) == k);
    if k <= crate::memory::frames::free_in(a.pool.slots@) {
        law_lowering_undoes_raising(a.pool.slots@, x.heap@, a.clock.clk, k);
    }
}

/// The pages between two breaks are counted upwards only.
pub proof fn law_pages_are_counted_upwards(from: int, k: nat, d: int)
    requires
        0 <= d < 4096,
    ensures
        pages_between(from, from + k * 4096 + d) == k,
        pages_between(from + k * 4096 + d, from) == 0,
{
}

/// A mapping goes to the address that it names if the flag for that is set; else the clock and
/// the descriptor move it up by a page each.
pub proof fn law_clock_and_descriptor_place_a_mapping(
    clk: usize,
    addr: usize,
    len: usize,
    flags: usize,
    fd: usize,
    k: int,
    set: int,
    d: int,
)
    requires
        flags == k * 32 + set * 16 + d,
        0 <= k,
        0 <= set <= 1,
        0 <= d < 16,
    ensures
        is_fixed(addr, flags) <==> addr != 0 && set == 1,
        set == 0 && page_up(len as int) + (clk + fd) * 4096 < 0xFFFF_FFFF_8000_0000 - 0x7000_0000
            ==> map_addr(clk, addr, len, flags, fd) == 0x7000_0000 + (clk + fd) * 4096,
{
    crate::kernel::sys_file::law_bit_is_a_binary_digit(flags, 16, k, d);
    if set == 0 && page_up(len as int) + (clk + fd) * 4096 < KERN_BASE - MAP_BASE {
        let span = KERN_BASE - MAP_BASE - page_up(len as int);
        let x = clk * 4096 + fd * PAGE_SZ;
        assert(x == (clk + fd) * 4096);
        vstd::arithmetic::div_mod::lemma_small_mod(x as nat, span as nat);
        let place = MAP_BASE + x;
        assert(place == 4096 * (0x7_0000 + clk + fd));
        assert(place % 4096 == 0);
    }
}

/// A file is not mapped from an offset that lies a page or more behind what is mapped.
pub proof fn law_mapping_starts_within_reach(
    a: Kernel,
    addr: usize,
    len: usize,
    flags: usize,
    fd: usize,
    offset: usize,
)
    requires
        0 < len <= crate::memory::frames::free_in(a.pool.slots@) * 4096,
        !crate::kernel::sys_file::bit(flags, 0x20),
    ensures
        offset < page_up(len as int) + 4096 ==> mmap_result(a, addr, len, flags, fd, offset)
            == Ok::<u64, &'static str>(map_addr(a.clock.clk, addr, len, flags, fd) as u64),
        offset >= page_up(len as int) + 4096 ==> mmap_result(a, addr, len, flags, fd, offset)
            == Err::<u64, &'static str>("einval"),
{
}

/// The break is the first one until it is moved. It stays below the kernel, and where nobody
/// runs there is nothing to move.
pub proof fn law_break_starts_at_the_first(a: Kernel, new_brk: usize, r: Result<u64, &'static str>, b: Kernel)
    requires
        did_brk(a, new_brk, r, b),
    ensures
        new_brk == 0 ==> b == a,
        new_brk == 0 && a.running(0) is None ==> r == Ok::<u64, &'static str>(0x0040_0000),
        new_brk == 0 && a.running(0) is Some && a.tasks.tasks@[a.running(0)->0 as int].vm_token == 0
            ==> r == Ok::<u64, &'static str>(0x0040_0000),
        new_brk == 0 && a.running(0) is Some && a.tasks.tasks@[a.running(0)->0 as int].vm_token > 0
            ==> r == Ok::<u64, &'static str>(a.tasks.tasks@[a.running(0)->0 as int].vm_token as u64),
        new_brk >= 0xFFFF_FFFF_8000_0000 ==> r == Err::<u64, &'static str>("enomem") && b == a,
        0 < new_brk < 0xFFFF_FFFF_8000_0000 && a.running(0) is None ==> r == Ok::<u64, &'static str>(
            page_up(new_brk as int) as u64,
        ) && b == a,
{
}

/// A heap that gives frames back gives the last ones.
pub proof fn law_heap_gives_its_last_frames(s: Seq<bool>, heap: Seq<usize>, n: nat)
    ensures
        n <= heap.len() ==> heap_lowered(s, heap, n).1 == heap.take(heap.len() - n),
        n >= heap.len() ==> heap_lowered(s, heap, n).1.len() == 0,
        heap_lowered(s, heap, n).0.len() == s.len(),
    decreases n,
{
    if n == 0 {
        assert(heap.take(heap.len() as int) =~= heap);
    } else if heap.len() > 0 {
        let (t, h) = (crate::memory::frames::freed_at(s, heap.last()), heap.drop_last());
        law_heap_gives_its_last_frames(t, h, (n - 1) as nat);
        if n <= heap.len() {
            assert(h.take(h.len() - (n - 1)) =~= heap.take(heap.len() - n));
        }
    }
}

/// A lower break gives back a frame for each whole page between, the last ones of the heap,
/// as many as it has. It is never refused, and nothing else of the task changes.
pub proof fn law_lower_break_gives_frames_back(
    a: Kernel,
    new_brk: usize,
    r: Result<u64, &'static str>,
    b: Kernel,
    t: usize,
    k: nat,
    d: int,
)
    requires
        a.wf(),
        a.running(0) == Some(t),
        0 < new_brk < KERN_BASE,
        brk_counts(new_brk),
        a.tasks.tasks@[t as int].vm_token == page_up(new_brk as int) + k * 4096 + d,
        0 <= d < 4096,
        did_brk(a, new_brk, r, b),
    ensures
        r == Ok::<u64, &'static str>(page_up(new_brk as int) as u64),
        ({
            let (x, y) = (a.tasks.tasks@[t as int], b.tasks.tasks@[t as int]);
            &&& y.vm_token == page_up(new_brk as int)
            &&& k <= x.heap@.len() ==> y.heap@ == x.heap@.take(x.heap@.len() - k)
            &&& k >= x.heap@.len() ==> y.heap@.len() == 0
            &&& y.info == x.info && y.files == x.files && y.sig_queue == x.sig_queue
            &&& b.pool.slots@.len() == a.pool.slots@.len()
        }),
        b.shared == a.shared && b.cpus == a.cpus && b.configfs == a.configfs,
{
    let x = a.tasks.tasks@[t as int];
    let to = page_up(new_brk as int);
    law_pages_hold_the_length(new_brk as int);
    assert(pages_between(x.vm_token as int, to) == 0);
    assert(pages_between(to, x.vm_token as int) == k);
    law_heap_gives_its_last_frames(a.pool.slots@, x.heap@, k);
}

} // verus!
