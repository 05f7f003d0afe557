//! The clock, checks on addresses, and helpers that several parts use.
pub mod elf;
pub mod net;

use std::collections::BTreeMap;

use vstd::prelude::*;

use crate::consts::{KERN_BASE, USEC_TICK};
use crate::fs::files::FileStore;
use crate::fs::flike::FLike;
use crate::fs::mounts::MountEntry;
use crate::tables::sorted_keys;

pub use crate::util::elf::validate_elf_header;
pub use crate::util::net::{
    build_pseudo_header, compute_inet_checksum, parse_ipv4_header, tcp_checksum,
};

verus! {

broadcast use vstd::std_specs::btree::group_btree_axioms;

// ---- The clock ----

/// The ticks of the first processor, and those of all processors together.
pub struct Clock {
    pub clk: usize,
    pub clk_all: usize,
}

impl Clock {
    /// The clock after a tick of a processor.
    pub open spec fn ticked(self, cpu_id: usize) -> Clock {
        Clock {
            clk: if cpu_id == 0 {
                self.clk.wrapping_add(1)
            } else {
                self.clk
            },
            clk_all: self.clk_all.wrapping_add(1),
        }
    }

    /// A clock at zero.
    pub fn new() -> (r: Self)
        ensures
            r == (Clock { clk: 0, clk_all: 0 }),
    {
        Clock { clk: 0, clk_all: 0 }
    }
}

/// The ticks of the first processor.
pub fn wclk(c: &Clock) -> (r: usize)
    ensures
        r == c.clk,
{
    c.clk
}

/// The ticks of all processors.
pub fn cclk(c: &Clock) -> (r: usize)
    ensures
        r == c.clk_all,
{
    c.clk_all
}

/// A tick of a processor.
pub fn dtk(c: &mut Clock, cpu_id: usize)
    ensures
        *final(c) == old(c).ticked(cpu_id),
{
    if cpu_id == 0 {
        c.clk = c.clk.wrapping_add(1);
    }
    c.clk_all = c.clk_all.wrapping_add(1);
}

/// The milliseconds since the start.
pub fn up_ms(c: &Clock) -> (r: usize)
    requires
        c.clk * USEC_TICK <= usize::MAX,
    ensures
        r == c.clk * USEC_TICK / 1000,
{
    wclk(c) * USEC_TICK / 1000
}

/// The timer interrupt of a processor.
pub fn tmr(c: &mut Clock, cpu_id: usize)
    ensures
        *final(c) == old(c).ticked(cpu_id),
{
    dtk(c, cpu_id);
}

/// A character from the serial line: a carriage return counts as a line feed.
pub fn ser(c: u8) -> (r: u8)
    ensures
        r == if c == 13 {
            10u8
        } else {
            c
        },
{
    if c == 13 {
        10
    } else {
        c
    }
}

// ---- Addresses of user space ----

/// The range, whose end is not part of it, lies below the kernel.
pub open spec fn in_user_space(addr: usize, len: usize) -> bool {
    addr + len <= usize::MAX && addr + len <= KERN_BASE
}

/// Whether a range of addresses lies below the kernel.
pub fn check_access(addr: usize, len: usize) -> (r: bool)
    ensures
        r == in_user_space(addr, len),
{
    match addr.checked_add(len) {
        Some(end) => end as u64 <= KERN_BASE,
        None => false,
    }
}

/// Whether a range of addresses may be read or written; an empty one always may.
pub fn check_access_rw(addr: usize, len: usize, _writable: bool) -> (r: bool)
    ensures
        r == (len == 0 || in_user_space(addr, len)),
{
    if len == 0 {
        return true;
    }
    check_access(addr, len)
}

/// The length of an access: that of the type where none is given.
pub open spec fn access_len<T>(len: usize) -> usize {
    if len == 0 {
        vstd::layout::size_of::<T>() as usize
    } else {
        len
    }
}

/// Reads a value from user space: the default of its type, where the range may be read.
pub fn cfu<T: Copy + Default>(addr: usize, len: usize) -> (r: Option<T>)
    ensures
        r is Some <==> in_user_space(addr, access_len::<T>(len)),
        r is Some ==> call_ensures(T::default, (), r->0),
{
    let effective: usize = if len == 0 {
        core::mem::size_of::<T>()
    } else {
        len
    };
    if !check_access(addr, effective) {
        return None;
    }
    Some(T::default())
}

/// Whether a value can be written to user space.
pub fn ctu<T: Copy>(addr: usize, len: usize, _v: &T) -> (r: bool)
    ensures
        r == (access_len::<T>(len) == 0 || in_user_space(addr, access_len::<T>(len))),
{
    let effective: usize = if len == 0 {
        core::mem::size_of::<T>()
    } else {
        len
    };
    check_access_rw(addr, effective, true)
}

/// The result of a read that faulted.
pub fn rdu_fixup() -> (r: usize)
    ensures
        r == 1,
{
    1
}

// ---- Load ----

/// How well a processor is suited for a new task: few tasks, high numbers of priority, not
/// blocked, a warm cache, the near half.
pub open spec fn suitability(
    counts: Seq<usize>,
    priorities: Seq<i32>,
    blocked: Seq<bool>,
    cpu: int,
) -> int {
    let pr = if cpu < priorities.len() {
        priorities[cpu] as int
    } else {
        0
    };
    -(counts[cpu] as int) * 100 + pr * 10 - (if cpu < blocked.len() && blocked[cpu] {
        500int
    } else {
        0
    }) + (if counts[cpu] > 0 {
        50int
    } else {
        0
    }) + (if cpu < counts.len() as int / 2 {
        10int
    } else {
        -10
    })
}

fn suitability_now(counts: &[usize], priorities: &[i32], blocked: &[bool], cpu: usize) -> (r: i128)
    requires
        cpu < counts@.len(),
    ensures
        r == suitability(counts@, priorities@, blocked@, cpu as int),
{
    let pr: i128 = if cpu < priorities.len() {
        priorities[cpu] as i128
    } else {
        0
    };
    let mut score: i128 = -(counts[cpu] as i128) * 100 + pr * 10;
    if cpu < blocked.len() && blocked[cpu] {
        score = score - 500;
    }
    if counts[cpu] > 0 {
        score = score + 50;
    }
    if cpu < counts.len() / 2 {
        score + 10
    } else {
        score - 10
    }
}

/// The first of the processors that are suited best; 0 where there is none.
pub fn compute_load_balance(task_counts: &[usize], priorities: &[i32], io_blocked: &[bool]) -> (r:
    usize)
    ensures
        task_counts@.len() == 0 ==> r == 0,
        task_counts@.len() > 0 ==> {
            &&& r < task_counts@.len()
            &&& forall|k: int|
                0 <= k < task_counts@.len() ==> #[trigger] suitability(
                    task_counts@,
                    priorities@,
                    io_blocked@,
                    k,
                ) <= suitability(task_counts@, priorities@, io_blocked@, r as int)
            &&& forall|k: int|
                0 <= k < r ==> #[trigger] suitability(task_counts@, priorities@, io_blocked@, k)
                    < suitability(task_counts@, priorities@, io_blocked@, r as int)
        },
{
    let ncpu: usize = task_counts.len();
    if ncpu == 0 {
        return 0;
    }
    let mut best: usize = 0;
    let mut best_score: i128 = suitability_now(task_counts, priorities, io_blocked, 0);
    let mut cpu: usize = 1;
    while cpu < ncpu
        invariant
            1 <= cpu <= ncpu,
            ncpu == task_counts@.len(),
            best < cpu,
            best_score == suitability(task_counts@, priorities@, io_blocked@, best as int),
            forall|k: int|
                0 <= k < cpu ==> #[trigger] suitability(
                    task_counts@,
                    priorities@,
                    io_blocked@,
                    k,
                ) <= best_score,
            forall|k: int|
                0 <= k < best ==> #[trigger] suitability(
                    task_counts@,
                    priorities@,
                    io_blocked@,
                    k,
                ) < best_score,
        decreases ncpu - cpu,
    {
        let score: i128 = suitability_now(task_counts, priorities, io_blocked, cpu);
        if score > best_score {
            best = cpu;
            best_score = score;
        }
        cpu += 1;
    }
    best
}

// ---- Descriptor tables ----

/// A descriptor that should not be as it is: a pipe with an error, a file without a path.
pub open spec fn is_faulty(fl: FLike, st: crate::fs::files::Files) -> bool {
    match fl {
        FLike::Pipe(_) => fl.polled(st).2,
        FLike::File(f) => f.path@.len() == 0,
        _ => false,
    }
}

/// The number is not in use, but lower and higher ones are.
pub open spec fn is_gap(files: Map<usize, FLike>, fd: usize) -> bool {
    &&& !files.contains_key(fd)
    &&& exists|lo: usize| #[trigger] files.contains_key(lo) && lo < fd
    &&& exists|hi: usize| #[trigger] files.contains_key(hi) && fd < hi
}

/// The number of a gap, or of a faulty descriptor.
pub open spec fn is_suspect(
    files: Map<usize, FLike>,
    st: crate::fs::files::Files,
    fd: usize,
) -> bool {
    is_gap(files, fd) || (files.contains_key(fd) && is_faulty(files[fd], st))
}

fn find_faulty(fl: &FLike, st: &FileStore) -> (r: bool)
    requires
        fl is Pipe ==> fl->Pipe_0.wf(st@),
    ensures
        r == is_faulty(*fl, st@),
{
    match fl {
        FLike::Pipe(_) => fl.poll(st).2,
        FLike::File(f) => f.path.as_str().is_empty(),
        _ => false,
    }
}

/// The numbers in a descriptor table that are gaps or faulty, in increasing order.
pub fn audit_fd_table(files: &BTreeMap<usize, FLike>, st: &FileStore) -> (r: Vec<usize>)
    requires
        forall|fd: usize| #[trigger]
            files@.contains_key(fd) && files@[fd] is Pipe ==> files@[fd]->Pipe_0.wf(st@),
    ensures
        crate::tables::ascending(r@),
        forall|fd: usize| #[trigger] r@.contains(fd) <==> is_suspect(files@, st@, fd),
{
    let fds = sorted_keys(files);
    let mut leaks: Vec<usize> = Vec::new();
    let mut n: usize = 0;
    while n < fds.len()
        invariant
            crate::tables::ascending(fds@),
            forall|k: usize| fds@.contains(k) <==> files@.contains_key(k),
            forall|fd: usize| #[trigger]
                files@.contains_key(fd) && files@[fd] is Pipe ==> files@[fd]->Pipe_0.wf(st@),
            n <= fds@.len(),
            crate::tables::ascending(leaks@),
            n == 0 ==> leaks@.len() == 0,
            n > 0 ==> forall|fd: usize| #[trigger]
                leaks@.contains(fd) <==> fd <= fds@[n - 1] && is_suspect(files@, st@, fd),
        decreases fds@.len() - n,
    {
        let fd: usize = fds[n];
        assert(fds@.contains(fd));
        if n > 0 {
            let prev: usize = fds[n - 1];
            assert(fds@.contains(prev));
            let mut gap: usize = prev;
            while gap + 1 < fd
                invariant
                    n < fds@.len(),
                    n > 0,
                    prev == fds@[n - 1],
                    fd == fds@[n as int],
                    prev <= gap < fd,
                    crate::tables::ascending(fds@),
                    forall|k: usize| fds@.contains(k) <==> files@.contains_key(k),
                    crate::tables::ascending(leaks@),
                    forall|x: usize| #[trigger]
                        leaks@.contains(x) <==> x <= gap && is_suspect(files@, st@, x),
                decreases fd - gap,
            {
                gap += 1;
                let ghost was = leaks@;
                leaks.push(gap);
                proof {
                    lemma_between_is_gap(files@, fds@, n as int, gap);
                    lemma_push_suspect(was, files@, st@, (gap - 1) as usize, gap);
                }
            }
            proof {
                assert(gap + 1 == fd);
                assert forall|x: usize| #[trigger] leaks@.contains(x) <==> x < fd && is_suspect(
                    files@,
                    st@,
                    x,
                ) by {}
            }
        } else {
            proof {
                assert forall|x: usize| x < fd implies !is_suspect(files@, st@, x) by {
                    if exists|lo: usize| #[trigger] files@.contains_key(lo) && lo <= x {
                        let lo = choose|lo: usize| #[trigger] files@.contains_key(lo) && lo <= x;
                        assert(fds@.contains(lo));
                        let i = choose|i: int| 0 <= i < fds@.len() && fds@[i] == lo;
                        assert(fds@[0] <= fds@[i]);
                    }
                }
            }
        }
        let fl = files.get(&fd).unwrap();
        let ghost was = leaks@;
        if find_faulty(fl, st) {
            leaks.push(fd);
            proof {
                if fd > 0 {
                    lemma_push_suspect(was, files@, st@, (fd - 1) as usize, fd);
                } else {
                    crate::tables::lemma_push_contains(was, fd, fd);
                    assert(was.len() == 0) by {
                        if was.len() > 0 {
                            assert(was.contains(was[0]));
                        }
                    }
                    assert forall|x: usize| #[trigger] leaks@.contains(x) <==> x <= fd
                        && is_suspect(files@, st@, x) by {
                        crate::tables::lemma_push_contains(was, fd, x);
                    }
                }
            }
        }
        n += 1;
    }
    proof {
        assert forall|fd: usize| #[trigger] leaks@.contains(fd) <==> is_suspect(
            files@,
            st@,
            fd,
        ) by {
            if is_suspect(files@, st@, fd) {
                let hi = if files@.contains_key(fd) {
                    fd
                } else {
                    choose|hi: usize| #[trigger] files@.contains_key(hi) && fd < hi
                };
                assert(fds@.contains(hi));
                let i = choose|i: int| 0 <= i < fds@.len() && fds@[i] == hi;
                assert(fds@[i] <= fds@[fds@.len() - 1]);
            }
        }
    }
    leaks
}

proof fn lemma_between_is_gap(files: Map<usize, FLike>, fds: Seq<usize>, n: int, x: usize)
    requires
        crate::tables::ascending(fds),
        forall|k: usize| fds.contains(k) <==> files.contains_key(k),
        0 < n < fds.len(),
        fds[n - 1] < x < fds[n],
    ensures
        is_gap(files, x),
{
    assert(fds.contains(fds[n - 1]) && fds.contains(fds[n]));
    assert(files.contains_key(fds[n - 1]) && files.contains_key(fds[n]));
    if files.contains_key(x) {
        assert(fds.contains(x));
        let i = choose|i: int| 0 <= i < fds.len() && fds[i] == x;
        assert(i < n - 1 || i == n - 1 || i == n || i > n);
    }
}

proof fn lemma_push_suspect(
    was: Seq<usize>,
    files: Map<usize, FLike>,
    st: crate::fs::files::Files,
    below: usize,
    x: usize,
)
    requires
        crate::tables::ascending(was),
        below + 1 == x,
        is_suspect(files, st, x),
        forall|k: usize| #[trigger] was.contains(k) <==> k <= below && is_suspect(files, st, k),
    ensures
        crate::tables::ascending(was.push(x)),
        forall|k: usize| #[trigger]
            was.push(x).contains(k) <==> k <= x && is_suspect(files, st, k),
{
    assert forall|k: usize| #[trigger] was.push(x).contains(k) <==> k <= x && is_suspect(
        files,
        st,
        k,
    ) by {
        crate::tables::lemma_push_contains(was, x, k);
    }
    assert forall|i: int, j: int| 0 <= i < j < was.push(x).len() implies was.push(x)[i]
        < was.push(x)[j] by {
        assert(was.contains(was[i]));
    }
}

// ---- The mount cache ----

/// The hash of the first `n` bytes.
pub open spec fn byte_hash(d: Seq<u8>, n: int) -> u64
    decreases n,
{
    if n <= 0 {
        0xcbf29ce484222325u64
    } else {
        (byte_hash(d, n - 1) ^ (d[n - 1] as u64)).wrapping_mul(0x100000001b3)
    }
}

/// The hash of a mount: that of its prefix, mixed with the length of its target.
pub open spec fn mount_hash(e: MountEntry) -> u64 {
    let p = vstd::utf8::encode_utf8(e.prefix@);
    (byte_hash(p, p.len() as int) ^ (vstd::utf8::encode_utf8(e.target@).len() as u64)).wrapping_mul(
        0x517cc1b727220a95,
    )
}

/// Where each hash of the first `n` mounts leads; of mounts with the same hash, the last
/// counts.
pub open spec fn mount_index(entries: Seq<MountEntry>, n: int) -> Map<u64, usize>
    decreases n,
{
    if n <= 0 {
        Map::empty()
    } else {
        mount_index(entries, n - 1).insert(mount_hash(entries[n - 1]), (n - 1) as usize)
    }
}

fn hash_mount(e: &MountEntry) -> (r: u64)
    ensures
        r == mount_hash(*e),
{
    let p = e.prefix.as_str().as_bytes();
    let mut h: u64 = 0xcbf29ce484222325;
    let mut i: usize = 0;
    while i < p.len()
        invariant
            i <= p@.len(),
            h == byte_hash(p@, i as int),
        decreases p@.len() - i,
    {
        h = h ^ (p[i] as u64);
        h = h.wrapping_mul(0x100000001b3);
        i += 1;
    }
    let t = e.target.as_str().as_bytes();
    h = h ^ (t.len() as u64);
    h.wrapping_mul(0x517cc1b727220a95)
}

/// The index of the mounts by their hashes.
pub fn rehash_mount_cache(entries: &[MountEntry]) -> (r: BTreeMap<u64, usize>)
    ensures
        r@ == mount_index(entries@, entries@.len() as int),
{
    let mut map: BTreeMap<u64, usize> = BTreeMap::new();
    let mut n: usize = 0;
    while n < entries.len()
        invariant
            n <= entries@.len(),
            map@ == mount_index(entries@, n as int),
        decreases entries@.len() - n,
    {
        map.insert(hash_mount(&entries[n]), n);
        n += 1;
    }
    map
}

/// Every mount is found by its hash, or a later one with the same hash is.
pub proof fn law_mount_is_indexed(entries: Seq<MountEntry>, n: int, i: int)
    requires
        0 <= i < n <= entries.len() <= usize::MAX,
    ensures
        ({
            let (m, h) = (mount_index(entries, n), mount_hash(entries[i]));
            m.contains_key(h) && i <= m[h] < n && mount_hash(entries[m[h] as int]) == h
        }),
    decreases n,
{
    if i < n - 1 {
        law_mount_is_indexed(entries, n - 1, i);
    }
}

/// The first processor's ticks move the clock, and every processor's ticks the count of all.
pub proof fn law_first_processor_moves_the_clock(c: Clock, cpu: usize)
    requires
        c.clk < usize::MAX,
        c.clk_all < usize::MAX,
    ensures
        c.ticked(0).clk == c.clk + 1,
        cpu != 0 ==> c.ticked(cpu).clk == c.clk,
        c.ticked(cpu).clk_all == c.clk_all + 1,
{
}

/// A range lies in user space if its last address lies below the kernel; any part of it does
/// then.
pub proof fn law_user_space_ends_at_the_kernel(addr: usize, len: usize, from: usize, n: usize)
    requires
        addr + len <= usize::MAX,
    ensures
        len > 0 ==> (in_user_space(addr, len) <==> addr + (len - 1) < KERN_BASE),
        in_user_space(addr, len) && addr <= from && from + n <= addr + len ==> in_user_space(
            from,
            n,
        ),
        addr >= KERN_BASE && len > 0 ==> !in_user_space(addr, len),
{
}

/// Without a length of its own, what is accessed is as long as its type.
pub proof fn law_length_is_that_of_the_type<T>(len: usize)
    ensures
        len > 0 ==> access_len::<T>(len) == len,
        access_len::<T>(0) == vstd::layout::size_of::<T>() as usize,
{
}

/// A processor suits a new task the better the fewer tasks it has, the higher its priority and
/// unless it is blocked; a task less outweighs everything that is not a priority or a block.
pub proof fn law_idle_processors_suit(
    counts: Seq<usize>,
    prios: Seq<i32>,
    blocked: Seq<bool>,
    a: int,
    b: int,
)
    requires
        0 <= a < counts.len(),
        0 <= b < counts.len(),
        prios.len() == counts.len(),
        blocked.len() == counts.len(),
    ensures
        ({
            let (x, y) = (
                suitability(counts, prios, blocked, a),
                suitability(counts, prios, blocked, b),
            );
            &&& prios[a] == prios[b] && blocked[a] == blocked[b] && counts[a] < counts[b] ==> x > y
            &&& counts[a] == counts[b] && blocked[a] == blocked[b] && prios[a] > prios[b] + 2 ==> x
                > y
            &&& counts[a] == counts[b] && prios[a] == prios[b] && !blocked[a] && blocked[b] ==> x
                > y
            &&& counts[a] == counts[b] && prios[a] == prios[b] && blocked[a] == blocked[b] && a < b
                ==> x >= y
            &&& counts[a] == counts[b] && prios[a] == prios[b] && blocked[a] == blocked[b] && a
                < counts.len() as int / 2 <= b ==> x == y + 20
            &&& counts[a] > 0 && counts[b] > 0 && (a < counts.len() as int / 2) == (b
                < counts.len() as int / 2) ==> x - y == 100 * (counts[b] - counts[a]) + 10 * (
            prios[a] - prios[b]) + 500 * (if blocked[b] {
                1int
            } else {
                0
            } - if blocked[a] {
                1int
            } else {
                0
            })
        }),
{
}

/// A descriptor is suspect if it is missing between two that are open, or open on a pipe that
/// nobody will read from again or on a file without a name.
pub proof fn law_suspects_are_gaps_and_faults(
    files: Map<usize, FLike>,
    st: crate::fs::files::Files,
    fd: usize,
    lo: usize,
    hi: usize,
)
    ensures
        !files.contains_key(fd) && files.contains_key(lo) && files.contains_key(hi) && lo < fd < hi
            ==> is_suspect(files, st, fd),
        !files.contains_key(fd) && (forall|k: usize| #[trigger] files.contains_key(k) ==> k < fd)
            ==> !is_suspect(files, st, fd),
        files.contains_key(fd) && files[fd] is File ==> (is_suspect(files, st, fd)
            <==> files[fd]->File_0.path@.len() == 0),
        files.contains_key(fd) && files[fd] is Config ==> !is_suspect(files, st, fd),
        files.contains_key(fd) && files[fd] is Pipe ==> (is_suspect(files, st, fd)
            <==> files[fd].polled(st).2),
{
}

/// The hash of a mount goes by the bytes of its prefix, one after the other, and by the length
/// of its target alone.
pub proof fn law_hash_goes_by_prefix_and_length(a: MountEntry, b: MountEntry)
    requires
        a.prefix@ == b.prefix@,
        vstd::utf8::encode_utf8(a.target@).len() == vstd::utf8::encode_utf8(b.target@).len(),
    ensures
        mount_hash(a) == mount_hash(b),
{
}

} // verus!
