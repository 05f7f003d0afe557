//! Locks, semaphores, futexes, event buses and wait queues.
//!
//! A waiter is a number that the caller picks for the thread it stands for. An
//! operation that would put a thread to sleep only decides and records that it has to
//! sleep; one that wakes threads hands back their numbers.
use std::collections::VecDeque;
use vstd::prelude::*;

verus! {

// ---- KernLock ----

/// A lock that its holder may enter again.
///
/// `flag` tells whether the lock is taken, `holder` by whom (0 when by nobody known),
/// and `depth` how many times the holder is inside.
pub struct KernLock {
    pub flag: bool,
    pub holder: usize,
    pub depth: usize,
}

impl KernLock {
    /// A free lock has neither holder nor depth; a taken one is entered at least once.
    pub open spec fn wf(self) -> bool {
        &&& !self.flag ==> self.holder == 0 && self.depth == 0
        &&& self.flag ==> self.depth >= 1
    }

    /// `id` gets in without waiting: it is already inside, or nobody is.
    pub open spec fn can_enter(self, id: usize) -> bool {
        self.reenters(id) || !self.flag
    }

    /// `id` is inside already.
    pub open spec fn reenters(self, id: usize) -> bool {
        self.holder == id && id != 0
    }

    /// The lock once `id` has got in.
    pub open spec fn entered(self, id: usize) -> KernLock {
        if self.reenters(id) {
            KernLock { depth: self.depth.wrapping_add(1), ..self }
        } else {
            KernLock { flag: true, holder: id, depth: 1 }
        }
    }

    /// The lock once its holder has left one level.
    pub open spec fn left(self) -> KernLock {
        if self.depth > 1 {
            KernLock { depth: (self.depth - 1) as usize, ..self }
        } else {
            KernLock { flag: false, holder: 0, depth: 0 }
        }
    }

    /// A free lock.
    pub fn new() -> (r: Self)
        ensures
            r == (KernLock { flag: false, holder: 0, depth: 0 }),
            r.wf(),
    {
        KernLock { flag: false, holder: 0, depth: 0 }
    }

    /// Takes the lock for `id`. A thread that cannot get in yet spins on `try_enter`.
    pub fn enter(&mut self, id: usize)
        requires
            old(self).can_enter(id),
        ensures
            *final(self) == old(self).entered(id),
    {
        if self.holder == id && id != 0 {
            self.depth = self.depth.wrapping_add(1);
        } else {
            self.flag = true;
            self.holder = id;
            self.depth = 1;
        }
    }

    /// Leaves one level; the outermost one frees the lock.
    pub fn leave(&mut self)
        ensures
            *final(self) == old(self).left(),
    {
        if self.depth > 1 {
            self.depth = self.depth - 1;
        } else {
            self.holder = 0;
            self.depth = 0;
            self.flag = false;
        }
    }

    /// Whether the lock is taken.
    pub fn held(&self) -> (r: bool)
        ensures
            r == self.flag,
    {
        self.flag
    }

    /// Who holds the lock.
    pub fn owner(&self) -> (r: usize)
        ensures
            r == self.holder,
    {
        self.holder
    }

    /// How many levels deep the holder is.
    pub fn level(&self) -> (r: usize)
        ensures
            r == self.depth,
    {
        self.depth
    }

    /// Takes the lock for `id` if that needs no waiting, and says whether it did.
    pub fn try_enter(&mut self, id: usize) -> (r: bool)
        ensures
            r == old(self).can_enter(id),
            *final(self) == (if r {
                old(self).entered(id)
            } else {
                *old(self)
            }),
    {
        if self.holder == id && id != 0 {
            self.depth = self.depth.wrapping_add(1);
            true
        } else if !self.flag {
            self.flag = true;
            self.holder = id;
            self.depth = 1;
            true
        } else {
            false
        }
    }
}

/// Leaving undoes entering, at every depth that can still be counted.
pub proof fn law_leave_undoes_enter(lock: KernLock, id: usize)
    requires
        lock.wf(),
        lock.can_enter(id),
        lock.depth < usize::MAX,
    ensures
        lock.entered(id).wf(),
        lock.entered(id).left() == lock,
{
}

/// While `id` is inside, nobody else gets in.
pub proof fn law_lock_excludes_others(lock: KernLock, id: usize, other: usize)
    requires
        lock.wf(),
        lock.can_enter(id),
        other != id,
    ensures
        !lock.entered(id).can_enter(other),
{
}

// ---- Spin ----

/// A lock without a holder.
pub struct Spin {
    pub v: bool,
}

impl Spin {
    /// A free lock.
    pub fn new() -> (r: Self)
        ensures
            !r.v,
    {
        Spin { v: false }
    }

    /// Takes a free lock. A thread that finds it taken spins on `try_acquire`.
    pub fn acquire(&mut self)
        requires
            !old(self).v,
        ensures
            final(self).v,
    {
        self.v = true;
    }

    /// Takes the lock if it is free, and says whether it did.
    pub fn try_acquire(&mut self) -> (r: bool)
        ensures
            r == !old(self).v,
            final(self).v,
    {
        let free = !self.v;
        self.v = true;
        free
    }

    /// Frees the lock.
    pub fn release(&mut self)
        ensures
            !final(self).v,
    {
        self.v = false;
    }

    /// Whether the lock is taken.
    pub fn is_held(&self) -> (r: bool)
        ensures
            r == self.v,
    {
        self.v
    }
}

/// Marks a stretch of code that interrupts should not enter.
pub struct FlgGuard(pub usize);

impl FlgGuard {
    /// The mark itself; it holds no saved state.
    pub fn enter() -> (r: Self)
        ensures
            r == FlgGuard(0),
    {
        FlgGuard(0)
    }
}

// ---- Events ----

/// The bits of an event word.
pub struct EvFlag;

impl EvFlag {
    pub const READABLE: u32 = 0x1;
    pub const WRITABLE: u32 = 0x2;
    pub const ERROR: u32 = 0x4;
    pub const CLOSED: u32 = 0x8;
    pub const PROC_QUIT: u32 = 0x400;
    pub const CHILD_QUIT: u32 = 0x800;
    pub const RECV_SIG: u32 = 0x1000;
    pub const SEM_RM: u32 = 0x10_0000;
    pub const SEM_ACQ: u32 = 0x20_0000;
}

/// What is told about a change of an event word.
pub trait EvCallback: Send {
    /// Whether the subscription ends on the event word `ev`.
    spec fn fires(&self, ev: u32) -> bool;

    /// Tells the subscriber about the event word `ev`; true ends the subscription.
    fn call(&self, ev: u32) -> (r: bool)
        ensures
            r == self.fires(ev),
    ;
}

/// A subscription of an event bus.
pub type EvCb = Box<dyn EvCallback>;

/// A subscription that ends once any bit of `mask` is set.
pub struct EvWatch {
    pub mask: u32,
}

impl EvCallback for EvWatch {
    open spec fn fires(&self, ev: u32) -> bool {
        (ev & self.mask) != 0
    }

    fn call(&self, ev: u32) -> (r: bool) {
        (ev & self.mask) != 0
    }
}

/// An event word and the subscriptions that watch it.
pub struct EvBus {
    pub ev: u32,
    pub cbs: Vec<Box<dyn EvCallback>>,
}

/// An event bus seen from outside.
#[verifier::ext_equal]
pub struct Bus {
    pub ev: u32,
    pub cbs: Seq<Box<dyn EvCallback>>,
}

impl Bus {
    /// A bus with no event and no subscription.
    pub open spec fn empty() -> Bus {
        Bus { ev: 0, cbs: Seq::empty() }
    }

    /// The bus after clearing `rst` and setting `s`: a change of the word reaches every
    /// subscription, and those that it ends are gone.
    pub open spec fn change(self, rst: u32, s: u32) -> Bus {
        let ev = (self.ev & !rst) | s;
        Bus {
            ev,
            cbs: if ev != self.ev {
                self.cbs.filter(|c: Box<dyn EvCallback>| !c.fires(ev))
            } else {
                self.cbs
            },
        }
    }
}

impl View for EvBus {
    type V = Bus;

    open spec fn view(&self) -> Bus {
        Bus { ev: self.ev, cbs: self.cbs@ }
    }
}

impl EvBus {
    /// `post` is this bus after clearing `rst` and setting `s`.
    pub open spec fn changed(self, rst: u32, s: u32, post: EvBus) -> bool {
        post@ == self@.change(rst, s)
    }

    /// An empty bus.
    pub fn make() -> (r: Self)
        ensures
            r@ == Bus::empty(),
    {
        EvBus { ev: 0, cbs: Vec::new() }
    }

    /// Sets the bits of `s`.
    pub fn set(&mut self, s: u32)
        ensures
            old(self).changed(0, s, *final(self)),
    {
        self.change(0, s);
    }

    /// Clears the bits of `s`.
    pub fn clear(&mut self, s: u32)
        ensures
            old(self).changed(s, 0, *final(self)),
    {
        self.change(s, 0);
    }

    /// Clears the bits of `rst`, sets those of `s`, and tells the subscriptions if the
    /// word changed.
    pub fn change(&mut self, rst: u32, s: u32)
        ensures
            old(self).changed(rst, s, *final(self)),
    {
        let orig: u32 = self.ev;
        self.ev = (self.ev & !rst) | s;
        if self.ev != orig {
            let ev: u32 = self.ev;
            let ghost all = self.cbs@;
            let ghost keep = |c: Box<dyn EvCallback>| !c.fires(ev);
            let ghost mut seen: int = 0;
            let mut i: usize = 0;
            proof {
                assert(all.take(0).filter(keep) =~= Seq::empty()) by {
                    reveal(Seq::filter);
                }
                assert(all =~= all.take(0).filter(keep) + all.skip(0));
            }
            while i < self.cbs.len()
                invariant
                    self.ev == ev,
                    keep == (|c: Box<dyn EvCallback>| !c.fires(ev)),
                    0 <= seen <= all.len(),
                    i == all.take(seen).filter(keep).len(),
                    self.cbs@ == all.take(seen).filter(keep) + all.skip(seen),
                decreases all.len() - seen,
            {
                proof {
                    crate::tables::lemma_filter_take(all, seen, keep);
                    crate::tables::lemma_shift(all.take(seen).filter(keep), all, seen);
                }
                if self.cbs[i].call(ev) {
                    self.cbs.remove(i);
                } else {
                    i = i + 1;
                }
                proof {
                    seen = seen + 1;
                }
            }
            proof {
                assert(all.take(seen) =~= all);
                assert(self.cbs@ =~= all.filter(keep));
            }
        }
    }

    /// Adds a subscription.
    pub fn sub(&mut self, cb: Box<dyn EvCallback>)
        ensures
            final(self).ev == old(self).ev,
            final(self).cbs@ == old(self).cbs@.push(cb),
    {
        self.cbs.push(cb);
    }

    /// The number of subscriptions.
    pub fn cb_len(&self) -> (r: usize)
        ensures
            r == self.cbs@.len(),
    {
        self.cbs.len()
    }
}

impl Default for EvBus {
    fn default() -> (r: Self)
        ensures
            r@ == Bus::empty(),
    {
        EvBus::make()
    }
}

/// One look of a thread that waits for any bit of `mask`: the whole event word once
/// one of them is set, and `None` while the thread has to look again.
pub fn wait_ev(bus: &EvBus, mask: u32) -> (r: Option<u32>)
    ensures
        r == (if (bus.ev & mask) != 0 {
            Some(bus.ev)
        } else {
            None
        }),
{
    if (bus.ev & mask) != 0 {
        Some(bus.ev)
    } else {
        None
    }
}

/// Setting bits leaves them set and leaves every other bit as it was.
pub proof fn law_set_keeps_other_bits(bus: EvBus, s: u32, post: EvBus)
    requires
        bus.changed(0, s, post),
    ensures
        post.ev & s == s,
        post.ev & !s == bus.ev & !s,
{
    let a = bus.ev;
    assert(((a & !0u32) | s) & s == s && ((a & !0u32) | s) & !s == a & !s) by (bit_vector);
}

/// Setting bits a second time changes nothing.
pub proof fn law_set_twice_is_set_once(bus: Bus, s: u32)
    ensures
        bus.change(0, s).change(0, s) == bus.change(0, s),
{
    let e = bus.ev;
    assert((((e & !0u32) | s) & !0u32) | s == (e & !0u32) | s) by (bit_vector);
}

/// Clearing bits leaves them clear and leaves every other bit as it was.
pub proof fn law_clear_keeps_other_bits(bus: EvBus, s: u32, post: EvBus)
    requires
        bus.changed(s, 0, post),
    ensures
        post.ev & s == 0,
        post.ev & !s == bus.ev & !s,
{
    let a = bus.ev;
    assert(((a & !s) | 0u32) & s == 0 && ((a & !s) | 0u32) & !s == a & !s) by (bit_vector);
}

// ---- Semaphores ----

/// A counting semaphore.
pub struct Sema {
    pub cnt: isize,
    pub pid: usize,
    pub rm: bool,
    pub bus: EvBus,
}

/// The right to one unit of a semaphore, which goes back by `leave`.
pub struct SemaGuard<'a> {
    pub s: &'a mut Sema,
}

impl Sema {
    /// `post` is this semaphore with the count `c`, whose bus tells that a unit can be
    /// had when there is one.
    pub open spec fn raised_to(self, c: int, post: Sema) -> bool {
        &&& post.cnt == c
        &&& post.pid == self.pid
        &&& post.rm == self.rm
        &&& if c >= 1 {
            self.bus.changed(0, EvFlag::SEM_ACQ, post.bus)
        } else {
            post.bus == self.bus
        }
    }

    /// `post` is this semaphore with one unit taken; the last one gone, the bus no
    /// longer tells that a unit can be had.
    pub open spec fn taken(self, post: Sema) -> bool {
        &&& post.cnt == self.cnt - 1
        &&& post.pid == self.pid
        &&& post.rm == self.rm
        &&& if self.cnt == 1 {
            self.bus.changed(EvFlag::SEM_ACQ, 0, post.bus)
        } else {
            post.bus == self.bus
        }
    }

    /// A semaphore with `c` units.
    pub fn new(c: isize) -> (r: Self)
        ensures
            r.cnt == c,
            r.pid == 0,
            !r.rm,
            r.bus@ == Bus::empty(),
    {
        Sema { cnt: c, pid: 0, rm: false, bus: EvBus::make() }
    }

    /// Marks the semaphore as gone and tells the waiters.
    pub fn remove(&mut self)
        ensures
            final(self).rm,
            final(self).cnt == old(self).cnt,
            final(self).pid == old(self).pid,
            old(self).bus.changed(0, EvFlag::SEM_RM, final(self).bus),
    {
        self.rm = true;
        self.bus.set(EvFlag::SEM_RM);
    }

    /// Gives one unit back.
    pub fn release(&mut self)
        requires
            old(self).cnt < isize::MAX,
        ensures
            old(self).raised_to(old(self).cnt + 1, *final(self)),
    {
        self.cnt = self.cnt + 1;
        if self.cnt >= 1 {
            self.bus.set(EvFlag::SEM_ACQ);
        }
    }

    /// Takes one unit if there is one, and says whether it did. A removed semaphore
    /// gives none.
    pub fn try_acquire(&mut self) -> (r: Result<bool, &'static str>)
        ensures
            match r {
                Err(e) => old(self).rm && e == "removed" && *final(self) == *old(self),
                Ok(false) => !old(self).rm && old(self).cnt < 1 && *final(self) == *old(self),
                Ok(true) => !old(self).rm && old(self).cnt >= 1 && old(self).taken(*final(self)),
            },
    {
        if self.rm {
            return Err("removed");
        }
        if self.cnt >= 1 {
            self.cnt = self.cnt - 1;
            if self.cnt < 1 {
                self.bus.clear(EvFlag::SEM_ACQ);
            }
            Ok(true)
        } else {
            Ok(false)
        }
    }

    /// Takes one unit. A thread that finds none spins on `try_acquire`.
    pub fn acquire_spin(&mut self) -> (r: Result<(), &'static str>)
        requires
            old(self).rm || old(self).cnt >= 1,
        ensures
            match r {
                Err(e) => old(self).rm && e == "removed" && *final(self) == *old(self),
                Ok(()) => !old(self).rm && old(self).taken(*final(self)),
            },
    {
        match self.try_acquire() {
            Err(e) => Err(e),
            Ok(_) => Ok(()),
        }
    }

    /// Takes one unit and returns the right to it.
    pub fn access(&mut self) -> (r: Result<SemaGuard<'_>, &'static str>)
        requires
            old(self).rm || old(self).cnt >= 1,
        ensures
            match r {
                Err(e) => old(self).rm && e == "removed" && *final(self) == *old(self),
                Ok(g) => !old(self).rm && old(self).taken(*g.s) && *final(self) == *final(g.s),
            },
    {
        if self.rm {
            return Err("removed");
        }
        let _ = self.try_acquire();
        Ok(SemaGuard { s: self })
    }

    /// The count.
    pub fn get_val(&self) -> (r: isize)
        ensures
            r == self.cnt,
    {
        self.cnt
    }

    /// The number of waiters.
    pub fn get_ncnt(&self) -> (r: usize)
        ensures
            r == self.bus.cbs@.len(),
    {
        self.bus.cb_len()
    }

    /// The process that changed the semaphore last.
    pub fn get_pid(&self) -> (r: usize)
        ensures
            r == self.pid,
    {
        self.pid
    }

    /// Records the process that changed the semaphore last.
    pub fn set_pid(&mut self, p: usize)
        ensures
            *final(self) == (Sema { pid: p, ..*old(self) }),
    {
        self.pid = p;
    }

    /// Sets the count.
    pub fn set_val(&mut self, v: isize)
        ensures
            old(self).raised_to(v as int, *final(self)),
    {
        self.cnt = v;
        if self.cnt >= 1 {
            self.bus.set(EvFlag::SEM_ACQ);
        }
    }
}

impl<'a> SemaGuard<'a> {
    /// Gives the unit back.
    pub fn leave(self)
        requires
            old(self.s).cnt < isize::MAX,
        ensures
            old(self.s).raised_to(old(self.s).cnt + 1, *final(self.s)),
    {
        self.s.release();
    }
}

/// A unit taken and given back leaves the count as it was.
pub proof fn law_release_undoes_acquire(s: Sema, mid: Sema, post: Sema)
    requires
        s.taken(mid),
        mid.raised_to(mid.cnt + 1, post),
    ensures
        post.cnt == s.cnt,
        post.rm == s.rm,
        post.pid == s.pid,
{
}

/// A semaphore that tells that a unit can be had exactly when it has one keeps
/// telling so, whether a unit is taken or given back.
pub proof fn law_acquirable_bit_follows_count(s: Sema, post: Sema)
    requires
        s.cnt >= 1 <==> (s.bus.ev & EvFlag::SEM_ACQ) != 0,
        s.raised_to(s.cnt + 1, post) || (s.cnt >= 1 && s.taken(post)),
    ensures
        post.cnt >= 1 <==> (post.bus.ev & EvFlag::SEM_ACQ) != 0,
{
    let a = s.bus.ev;
    assert(((a & !0u32) | 0x20_0000) & 0x20_0000 != 0) by (bit_vector);
    assert(((a & !0x20_0000u32) | 0) & 0x20_0000 == 0) by (bit_vector);
}

// ---- Futexes ----

/// The number of waiters of `s` that wait on `addr`.
pub open spec fn waiting_at(s: Seq<(usize, usize)>, addr: usize) -> nat
    decreases s.len(),
{
    if s.len() == 0 {
        0
    } else if s.last().0 == addr {
        waiting_at(s.drop_last(), addr) + 1
    } else {
        waiting_at(s.drop_last(), addr)
    }
}

/// The waiters that a wake of the first `n` waiters on `addr` wakes, in their order.
pub open spec fn woken_by(s: Seq<(usize, usize)>, addr: usize, n: nat) -> Seq<usize>
    decreases s.len(),
{
    if s.len() == 0 {
        Seq::empty()
    } else if s.last().0 == addr && waiting_at(s.drop_last(), addr) < n {
        woken_by(s.drop_last(), addr, n).push(s.last().1)
    } else {
        woken_by(s.drop_last(), addr, n)
    }
}

/// What is left of the queue `s` when the first `n` waiters on `src` are woken and the
/// next `m` are moved to `dst`.
pub open spec fn requeued(
    s: Seq<(usize, usize)>,
    src: usize,
    dst: usize,
    n: nat,
    m: nat,
) -> Seq<(usize, usize)>
    decreases s.len(),
{
    if s.len() == 0 {
        Seq::empty()
    } else {
        let rest = requeued(s.drop_last(), src, dst, n, m);
        let before = waiting_at(s.drop_last(), src);
        if s.last().0 != src || before >= n + m {
            rest.push(s.last())
        } else if before < n {
            rest
        } else {
            rest.push((dst, s.last().1))
        }
    }
}

/// Waking the first `n` waiters on `src` and moving the next `m` to `dst`, done on
/// `queue`; returns those woken.
fn requeue_in(
    queue: &mut VecDeque<(usize, usize)>,
    src: usize,
    dst: usize,
    n: usize,
    m: usize,
) -> (woken: Vec<usize>)
    ensures
        woken@ == woken_by(old(queue)@, src, n as nat),
        final(queue)@ == requeued(old(queue)@, src, dst, n as nat, m as nat),
{
    let ghost all = queue@;
    let mut woken: Vec<usize> = Vec::new();
    let mut kept: VecDeque<(usize, usize)> = VecDeque::new();
    let mut moved: usize = 0;
    let mut i: usize = 0;
    while i < queue.len()
        invariant
            0 <= i <= all.len(),
            queue@ == all,
            woken@ == woken_by(all.take(i as int), src, n as nat),
            kept@ == requeued(all.take(i as int), src, dst, n as nat, m as nat),
            woken@.len() <= n,
            moved <= m,
            woken@.len() < n ==> moved == 0 && woken@.len() == waiting_at(all.take(i as int), src),
            woken@.len() == n && moved < m ==> n + moved == waiting_at(all.take(i as int), src),
            woken@.len() == n && moved == m ==> n + m <= waiting_at(all.take(i as int), src),
        decreases all.len() - i,
    {
        let (addr, who) = queue[i];
        proof {
            assert(all.take(i + 1).drop_last() =~= all.take(i as int));
            assert(all.take(i + 1).last() == all[i as int]);
        }
        if addr == src && woken.len() < n {
            woken.push(who);
        } else if addr == src && moved < m {
            kept.push_back((dst, who));
            moved = moved + 1;
        } else {
            kept.push_back((addr, who));
        }
        i = i + 1;
    }
    proof {
        assert(all.take(i as int) =~= all);
    }
    *queue = kept;
    woken
}

/// The number of waiters of `queue` on `addr`.
fn count_at(queue: &VecDeque<(usize, usize)>, addr: usize) -> (r: usize)
    ensures
        r == waiting_at(queue@, addr),
{
    let mut n: usize = 0;
    let mut i: usize = 0;
    while i < queue.len()
        invariant
            0 <= i <= queue@.len(),
            n <= i,
            n == waiting_at(queue@.take(i as int), addr),
        decreases queue@.len() - i,
    {
        proof {
            assert(queue@.take(i + 1).drop_last() =~= queue@.take(i as int));
        }
        if queue[i].0 == addr {
            n = n + 1;
        }
        i = i + 1;
    }
    proof {
        assert(queue@.take(i as int) =~= queue@);
    }
    n
}

/// A wake wakes as many as it may of those that wait.
pub proof fn law_wake_count(s: Seq<(usize, usize)>, addr: usize, n: nat)
    ensures
        woken_by(s, addr, n).len() == (if waiting_at(s, addr) <= n {
            waiting_at(s, addr)
        } else {
            n
        }),
    decreases s.len(),
{
    if s.len() > 0 {
        law_wake_count(s.drop_last(), addr, n);
    }
}

/// A wake takes those it wakes off the queue and nobody else.
pub proof fn law_wake_leaves_the_rest(s: Seq<(usize, usize)>, addr: usize, n: nat, other: usize)
    ensures
        waiting_at(requeued(s, addr, addr, n, 0), addr) == waiting_at(s, addr)
            - woken_by(s, addr, n).len(),
        other != addr ==> waiting_at(requeued(s, addr, addr, n, 0), other) == waiting_at(s, other),
        requeued(s, addr, addr, n, 0).len() == s.len() - woken_by(s, addr, n).len(),
    decreases s.len(),
{
    if s.len() > 0 {
        law_wake_leaves_the_rest(s.drop_last(), addr, n, other);
        let rest = requeued(s.drop_last(), addr, addr, n, 0);
        assert(rest.push(s.last()).drop_last() =~= rest);
    }
}

/// A requeue loses nobody: each waiter is woken or still queued.
pub proof fn law_requeue_loses_nobody(
    s: Seq<(usize, usize)>,
    src: usize,
    dst: usize,
    n: nat,
    m: nat,
)
    ensures
        requeued(s, src, dst, n, m).len() + woken_by(s, src, n).len() == s.len(),
    decreases s.len(),
{
    if s.len() > 0 {
        law_requeue_loses_nobody(s.drop_last(), src, dst, n, m);
    }
}

/// The waiters on a set of addresses, each with the address it waits on, in the order
/// in which they came.
pub struct FutexBucket {
    pub waiters: VecDeque<(usize, usize)>,
}

impl FutexBucket {
    /// No waiters.
    pub fn new() -> (r: Self)
        ensures
            r.waiters@.len() == 0,
    {
        FutexBucket { waiters: VecDeque::new() }
    }

    /// Queues `who` on `addr` if the word there, `val`, is still what it expects. On
    /// `Ok` the thread then sleeps until it is woken or its time is up.
    pub fn wait(&mut self, addr: usize, expected: u32, val: u32, who: usize) -> (r: Result<
        (),
        &'static str,
    >)
        ensures
            val != expected ==> r == Err::<(), &'static str>("changed") && final(self).waiters@
                == old(self).waiters@,
            val == expected ==> r is Ok && final(self).waiters@ == old(self).waiters@.push(
                (addr, who),
            ),
    {
        if val != expected {
            return Err("changed");
        }
        self.waiters.push_back((addr, who));
        Ok(())
    }

    /// How the wait of a thread that slept ends: well when it was woken, and with
    /// "timeout" when its time was up first.
    pub fn wait_result(woken: bool) -> (r: Result<(), &'static str>)
        ensures
            r == (if woken {
                Ok::<(), &'static str>(())
            } else {
                Err("timeout")
            }),
    {
        if woken {
            Ok(())
        } else {
            Err("timeout")
        }
    }

    /// Wakes at most `count` of those waiting on `addr`, first come first, and returns
    /// them.
    pub fn wake(&mut self, addr: usize, count: usize) -> (r: Vec<usize>)
        ensures
            r@ == woken_by(old(self).waiters@, addr, count as nat),
            final(self).waiters@ == requeued(old(self).waiters@, addr, addr, count as nat, 0),
    {
        requeue_in(&mut self.waiters, addr, addr, count, 0)
    }

    /// Wakes the first `wake_n` of those waiting on `src` and lets the next `move_n`
    /// wait on `dst` instead; returns those woken.
    pub fn requeue(&mut self, src: usize, dst: usize, wake_n: usize, move_n: usize) -> (r: Vec<
        usize,
    >)
        ensures
            r@ == woken_by(old(self).waiters@, src, wake_n as nat),
            final(self).waiters@ == requeued(
                old(self).waiters@,
                src,
                dst,
                wake_n as nat,
                move_n as nat,
            ),
    {
        requeue_in(&mut self.waiters, src, dst, wake_n, move_n)
    }

    /// The number of those waiting on `addr`.
    pub fn pending_at(&self, addr: usize) -> (r: usize)
        ensures
            r == waiting_at(self.waiters@, addr),
    {
        count_at(&self.waiters, addr)
    }
}

/// A futex queue without time limits.
pub struct FutexTable {
    pub table: VecDeque<(usize, usize)>,
}

impl FutexTable {
    /// No waiters.
    pub fn new() -> (r: Self)
        ensures
            r.table@.len() == 0,
    {
        FutexTable { table: VecDeque::new() }
    }

    /// Queues `who` on `addr` if the word there, `val`, is still what it expects, and
    /// says whether the thread has to sleep.
    pub fn ftx_wait(&mut self, addr: usize, expected: u32, val: u32, who: usize) -> (r: bool)
        ensures
            r == (val == expected),
            final(self).table@ == (if r {
                old(self).table@.push((addr, who))
            } else {
                old(self).table@
            }),
    {
        if val != expected {
            return false;
        }
        self.table.push_back((addr, who));
        true
    }

    /// Wakes at most `count` of those waiting on `addr`, first come first, and returns
    /// them.
    pub fn ftx_wake(&mut self, addr: usize, count: usize) -> (r: Vec<usize>)
        ensures
            r@ == woken_by(old(self).table@, addr, count as nat),
            final(self).table@ == requeued(old(self).table@, addr, addr, count as nat, 0),
    {
        requeue_in(&mut self.table, addr, addr, count, 0)
    }

    /// Wakes the first `wake_n` of those waiting on `src_addr` and lets the next
    /// `move_n` wait on `dst_addr` instead; returns those woken.
    pub fn ftx_requeue(
        &mut self,
        src_addr: usize,
        dst_addr: usize,
        wake_n: usize,
        move_n: usize,
    ) -> (r: Vec<usize>)
        ensures
            r@ == woken_by(old(self).table@, src_addr, wake_n as nat),
            final(self).table@ == requeued(
                old(self).table@,
                src_addr,
                dst_addr,
                wake_n as nat,
                move_n as nat,
            ),
    {
        requeue_in(&mut self.table, src_addr, dst_addr, wake_n, move_n)
    }
}

// ---- Wait queues ----

/// A registration of an epoll instance on a queue.
#[derive(Clone, Copy, PartialEq, Eq, Structural, Debug)]
pub struct RegEp {
    pub task_id: usize,
    pub epfd: usize,
    pub fd: usize,
}

/// What a thread that waits for a condition does next.
#[derive(Clone, Copy, PartialEq, Eq, Structural, Debug)]
pub enum ParkStep {
    /// The condition holds: go on.
    Ready,
    /// A signal was waiting: look at the condition once more, and take what it says.
    Recheck,
    /// Sleep until woken; then look at the condition once more.
    Sleep,
}

/// A queue of sleeping threads with the epoll instances that watch it.
///
/// A signal that finds nobody asleep is kept for the next thread that would sleep.
pub struct SyncQueue {
    pub q: VecDeque<usize>,
    pub eq: VecDeque<RegEp>,
    pub pending_signals: usize,
}

impl SyncQueue {
    /// An empty queue.
    pub fn new() -> (r: Self)
        ensures
            r.q@.len() == 0,
            r.eq@.len() == 0,
            r.pending_signals == 0,
    {
        SyncQueue { q: VecDeque::new(), eq: VecDeque::new(), pending_signals: 0 }
    }

    /// `post` is this queue with `who` asleep at its end.
    pub open spec fn slept(self, who: usize, post: SyncQueue) -> bool {
        &&& post.q@ == self.q@.push(who)
        &&& post.eq@ == self.eq@
        &&& post.pending_signals == self.pending_signals
    }

    /// `post` is this queue without the first `n` threads.
    pub open spec fn woke(self, n: int, post: SyncQueue) -> bool {
        &&& post.q@ == self.q@.skip(n)
        &&& post.eq@ == self.eq@
        &&& post.pending_signals == self.pending_signals
    }

    /// Decides what thread `who` does when the condition it waits for is `satisfied`
    /// or not: it sleeps only if no signal is kept.
    pub fn park_on(&mut self, satisfied: bool, who: usize) -> (r: ParkStep)
        ensures
            r == (if satisfied {
                ParkStep::Ready
            } else if old(self).pending_signals > 0 {
                ParkStep::Recheck
            } else {
                ParkStep::Sleep
            }),
            match r {
                ParkStep::Ready => *final(self) == *old(self),
                ParkStep::Recheck => final(self).q@ == old(self).q@ && final(self).eq@ == old(self).eq@ && final(self).pending_signals == old(self).pending_signals - 1,
                ParkStep::Sleep => old(self).slept(who, *final(self)),
            },
    {
        if satisfied {
            return ParkStep::Ready;
        }
        if self.pending_signals > 0 {
            self.pending_signals = self.pending_signals - 1;
            return ParkStep::Recheck;
        }
        self.q.push_back(who);
        ParkStep::Sleep
    }

    /// Wakes the first sleeper and returns it; with nobody asleep the signal is kept.
    pub fn signal(&mut self) -> (r: Option<usize>)
        ensures
            old(self).q@.len() == 0 ==> r is None && final(self).q@ == old(self).q@ && final(self).eq@ == old(self).eq@ && final(self).pending_signals == old(self).pending_signals.wrapping_add(1),
            old(self).q@.len() > 0 ==> r == Some(old(self).q@[0]) && old(self).woke(
                1,
                *final(self),
            ),
    {
        match self.q.pop_front() {
            None => {
                self.pending_signals = self.pending_signals.wrapping_add(1);
                None
            },
            Some(t) => {
                proof {
                    assert(self.q@ =~= old(self).q@.skip(1));
                }
                Some(t)
            },
        }
    }

    /// Wakes every sleeper and returns them in their order.
    pub fn broadcast(&mut self) -> (r: Vec<usize>)
        ensures
            r@ == old(self).q@,
            old(self).woke(old(self).q@.len() as int, *final(self)),
    {
        let n: usize = self.q.len();
        let r = self.signal_n(n);
        proof {
            assert(r@ =~= old(self).q@);
        }
        r
    }

    /// Wakes at most `n` sleepers and returns them in their order.
    pub fn signal_n(&mut self, n: usize) -> (r: Vec<usize>)
        ensures
            r@.len() == (if n < old(self).q@.len() {
                n as nat
            } else {
                old(self).q@.len()
            }),
            r@ == old(self).q@.take(r@.len() as int),
            old(self).woke(r@.len() as int, *final(self)),
    {
        let ghost all = self.q@;
        let mut woken: Vec<usize> = Vec::new();
        while woken.len() < n && self.q.len() > 0
            invariant
                woken@.len() <= n,
                woken@.len() <= all.len(),
                woken@ == all.take(woken@.len() as int),
                self.q@ == all.skip(woken@.len() as int),
                self.eq@ == old(self).eq@,
                self.pending_signals == old(self).pending_signals,
            decreases n - woken@.len(),
        {
            let ghost k = woken@.len() as int;
            if let Some(t) = self.q.pop_front() {
                woken.push(t);
                proof {
                    assert(all.skip(k)[0] == all[k]);
                    assert(all.take(k).push(all[k]) =~= all.take(k + 1));
                    assert(self.q@ =~= all.skip(k + 1));
                }
            }
        }
        woken
    }

    /// The number of sleepers.
    pub fn pending(&self) -> (r: usize)
        ensures
            r == self.q@.len(),
    {
        self.q.len()
    }

    /// One turn of a thread that waits until its condition has an `outcome`: that
    /// outcome, or `None` once `who` is queued and has to sleep.
    pub fn wait_ev(&mut self, outcome: Option<bool>, who: usize) -> (r: Option<bool>)
        ensures
            r == outcome,
            r is Some ==> *final(self) == *old(self),
            r is None ==> old(self).slept(who, *final(self)),
    {
        if outcome.is_none() {
            self.q.push_back(who);
        }
        outcome
    }

    /// One turn of a thread that waits on several queues at once: the outcome of its
    /// condition, or `None` once `who` sleeps in each of the queues.
    pub fn wait_events(queues: &mut Vec<SyncQueue>, outcome: Option<bool>, who: usize) -> (r:
        Option<bool>)
        ensures
            r == outcome,
            final(queues)@.len() == old(queues)@.len(),
            r is Some ==> final(queues)@ == old(queues)@,
            r is None ==> forall|i: int|
                0 <= i < old(queues)@.len() ==> (#[trigger] old(queues)@[i]).slept(
                    who,
                    final(queues)@[i],
                ),
    {
        if outcome.is_some() {
            return outcome;
        }
        let n: usize = queues.len();
        let ghost before = queues@;
        let mut i: usize = 0;
        while i < n
            invariant
                0 <= i <= n,
                n == queues@.len(),
                n == before.len(),
                forall|j: int| 0 <= j < i ==> (#[trigger] before[j]).slept(who, queues@[j]),
                forall|j: int| i <= j < n ==> queues@[j] == #[trigger] before[j],
            decreases n - i,
        {
            queues[i].q.push_back(who);
            i = i + 1;
        }
        outcome
    }

    /// Queues `who`, which then gives up the lock it holds and sleeps.
    pub fn wait_guard(&mut self, who: usize)
        ensures
            old(self).slept(who, *final(self)),
    {
        self.q.push_back(who);
    }

    /// Queues `who`, which then sleeps for a limited time; the wait counts as done
    /// either way.
    pub fn wait_timeout(&mut self, who: usize) -> (r: bool)
        ensures
            r,
            old(self).slept(who, *final(self)),
    {
        self.q.push_back(who);
        true
    }

    /// Registers an epoll instance.
    pub fn reg_epoll(&mut self, task_id: usize, epfd: usize, fd: usize)
        ensures
            final(self).q@ == old(self).q@,
            final(self).pending_signals == old(self).pending_signals,
            final(self).eq@ == old(self).eq@.push((RegEp { task_id, epfd, fd })),
    {
        self.eq.push_back(RegEp { task_id, epfd, fd });
    }

    /// Takes the first registration that matches away and says whether there was one.
    pub fn unreg_epoll(&mut self, task_id: usize, epfd: usize, fd: usize) -> (r: bool)
        ensures
            final(self).q@ == old(self).q@,
            final(self).pending_signals == old(self).pending_signals,
            r == old(self).eq@.contains((RegEp { task_id, epfd, fd })),
            final(self).eq@ == (if r {
                old(self).eq@.remove(old(self).eq@.index_of_first((RegEp { task_id, epfd, fd }))->0)
            } else {
                old(self).eq@
            }),
    {
        let x = RegEp { task_id, epfd, fd };
        let mut i: usize = 0;
        while i < self.eq.len()
            invariant
                0 <= i <= self.eq@.len(),
                *self == *old(self),
                x == (RegEp { task_id, epfd, fd }),
                forall|j: int| 0 <= j < i ==> self.eq@[j] != x,
            decreases self.eq@.len() - i,
        {
            if self.eq[i] == x {
                proof {
                    assert(self.eq@[i as int] == x);
                    self.eq@.index_of_first_ensures(x);
                }
                let _ = self.eq.remove(i);
                return true;
            }
            i = i + 1;
        }
        false
    }
}

/// Woken in the order in which they fell asleep: a thread that sleeps in an empty
/// queue is the one that the next signal wakes.
pub proof fn law_signal_wakes_first_sleeper(a: SyncQueue, who: usize, b: SyncQueue)
    requires
        a.slept(who, b),
    ensures
        b.q@.len() > 0,
        b.q@[0] == (if a.q@.len() == 0 {
            who
        } else {
            a.q@[0]
        }),
{
}

/// The holder may enter again, and is out only after leaving as often as it entered; anyone may
/// enter a lock that nobody holds.
pub proof fn law_holder_enters_again(lock: KernLock, id: usize)
    requires
        lock.wf(),
        lock.can_enter(id),
        id != 0,
        lock.depth < usize::MAX - 1,
    ensures
        lock.entered(id).can_enter(id),
        lock.entered(id).flag && lock.entered(id).holder == id,
        lock.entered(id).depth == lock.depth + 1,
        lock.entered(id).entered(id).left() == lock.entered(id),
        !lock.flag ==> forall|other: usize| #[trigger] lock.can_enter(other),
        lock.flag && lock.holder != id ==> !lock.can_enter(id),
{
}

/// A subscription lasts until an event that it waits for: those that the new word ends are gone,
/// all others stay, and while the word stays the same nobody is told.
pub proof fn law_subscriptions_last_until_they_fire(
    bus: Bus,
    rst: u32,
    s: u32,
    c: Box<dyn EvCallback>,
)
    ensures
        ({
            let post = bus.change(rst, s);
            let ev = post.ev;
            let stays = |c: Box<dyn EvCallback>| !c.fires(ev);
            &&& post.cbs.contains(c) ==> bus.cbs.contains(c)
            &&& post.ev != bus.ev ==> (post.cbs.contains(c) <==> bus.cbs.contains(c) && stays(c))
            &&& post.ev == bus.ev ==> post.cbs == bus.cbs
        }),
{
    let ev = (bus.ev & !rst) | s;
    let keep = |c: Box<dyn EvCallback>| !c.fires(ev);
    crate::tables::lemma_filter_holds(bus.cbs, keep, c);
    if ev != bus.ev {
        assert(bus.change(rst, s).cbs =~= bus.cbs.filter(keep));
    }
}

/// A watch ends on a word that has one of its bits, and on no other.
pub proof fn law_watch_ends_on_its_bits(w: EvWatch, ev: u32, bit: u32)
    requires
        bit < 32,
    ensures
        ev & (1u32 << bit) != 0 && w.mask & (1u32 << bit) != 0 ==> w.fires(ev),
        ev == 0 || w.mask == 0 ==> !w.fires(ev),
        w.mask == 1u32 << bit ==> (w.fires(ev) <==> ev & (1u32 << bit) != 0),
{
    let m = w.mask;
    assert((ev & (1u32 << bit) != 0 && m & (1u32 << bit) != 0 ==> ev & m != 0) && (ev == 0 || m == 0
        ==> ev & m == 0)) by (bit_vector);
}

/// Those who wait at an address are woken in the order in which they came, the first ones only.
pub proof fn law_first_come_is_first_woken(s: Seq<(usize, usize)>, addr: usize, n: nat)
    ensures
        woken_by(s, addr, n) == woken_by(s, addr, s.len()).take(
            if n <= waiting_at(s, addr) {
                n as int
            } else {
                waiting_at(s, addr) as int
            },
        ),
        woken_by(s, addr, s.len()).len() == waiting_at(s, addr),
        waiting_at(s, addr) <= s.len(),
    decreases s.len(),
{
    if s.len() > 0 {
        let t = s.drop_last();
        law_first_come_is_first_woken(t, addr, n);
        law_first_come_is_first_woken(t, addr, t.len());
        law_first_come_is_first_woken(t, addr, s.len());
        let (all, was) = (woken_by(s, addr, s.len()), woken_by(t, addr, t.len()));
        assert(woken_by(t, addr, s.len()) =~= was);
        let k = if n <= waiting_at(s, addr) {
            n as int
        } else {
            waiting_at(s, addr) as int
        };
        if s.last().0 == addr {
            assert(all == was.push(s.last().1));
            if waiting_at(t, addr) < n {
                assert(woken_by(s, addr, n) =~= all.take(k));
            } else {
                assert(woken_by(s, addr, n) =~= all.take(k));
            }
        } else {
            assert(all == was);
            assert(woken_by(s, addr, n) =~= all.take(k));
        }
    } else {
        assert(woken_by(s, addr, n) =~= woken_by(s, addr, s.len()).take(0));
    }
}

/// Who is woken was waiting at the address.
pub proof fn law_woken_were_waiting(s: Seq<(usize, usize)>, addr: usize, n: nat, who: usize)
    ensures
        woken_by(s, addr, n).contains(who) ==> s.contains((addr, who)),
        s.contains((addr, who)) ==> woken_by(s, addr, s.len()).contains(who),
    decreases s.len(),
{
    if s.len() > 0 {
        let t = s.drop_last();
        law_woken_were_waiting(t, addr, n, who);
        law_first_come_is_first_woken(t, addr, s.len());
        law_first_come_is_first_woken(t, addr, t.len());
        assert(woken_by(t, addr, s.len()) =~= woken_by(t, addr, t.len()));
        assert(s =~= t.push(s.last()));
        if woken_by(s, addr, n).contains(who) {
            if s.last().0 == addr && waiting_at(t, addr) < n {
                crate::tables::lemma_push_contains(woken_by(t, addr, n), s.last().1, who);
            }
            if t.contains((addr, who)) {
                let i = choose|i: int| 0 <= i < t.len() && t[i] == (addr, who);
                assert(s[i] == (addr, who));
            } else {
                assert(s[s.len() - 1] == (addr, who));
            }
        }
        if s.contains((addr, who)) {
            let i = choose|i: int| 0 <= i < s.len() && s[i] == (addr, who);
            if i < t.len() {
                assert(t[i] == (addr, who));
            }
            if s.last().0 == addr {
                crate::tables::lemma_push_contains(
                    woken_by(t, addr, t.len()),
                    s.last().1,
                    who,
                );
            }
        }
    }
}

/// Requeuing wakes the first at the source, moves the next ones to the target, and leaves the
/// rest and all others where they wait.
pub proof fn law_requeue_moves_to_the_target(
    s: Seq<(usize, usize)>,
    src: usize,
    dst: usize,
    n: nat,
    m: nat,
    other: usize,
)
    requires
        src != dst,
    ensures
        ({
            let w = waiting_at(s, src);
            let gone = if w <= n + m {
                w
            } else {
                n + m
            };
            let woken = if w <= n {
                w
            } else {
                n
            };
            let post = requeued(s, src, dst, n, m);
            &&& waiting_at(post, src) == w - gone
            &&& waiting_at(post, dst) == waiting_at(s, dst) + (gone - woken)
            &&& other != src && other != dst ==> waiting_at(post, other) == waiting_at(s, other)
        }),
    decreases s.len(),
{
    if s.len() > 0 {
        let t = s.drop_last();
        law_requeue_moves_to_the_target(t, src, dst, n, m, other);
        let rest = requeued(t, src, dst, n, m);
        assert(rest.push(s.last()).drop_last() =~= rest);
        assert(rest.push((dst, s.last().1)).drop_last() =~= rest);
    }
}

/// Sleepers wait in the order in which they came, and are woken from the front.
pub proof fn law_sleepers_keep_their_order(a: SyncQueue, who: usize, b: SyncQueue, n: int, c: SyncQueue, i: int)
    requires
        a.slept(who, b),
        b.woke(n, c),
        0 <= n <= a.q@.len(),
    ensures
        b.q@.len() == a.q@.len() + 1,
        b.q@.last() == who,
        c.q@.len() == b.q@.len() - n,
        0 <= i < c.q@.len() ==> c.q@[i] == b.q@[i + n],
        0 <= i < a.q@.len() ==> b.q@[i] == a.q@[i],
        c.eq@ == a.eq@ && c.pending_signals == a.pending_signals,
{
}

/// Taking from a semaphore lowers its count by one, and raising it sets the count, announces it
/// when there is something to take, and leaves the rest.
pub proof fn law_count_goes_by_one(s: Sema, t: Sema, u: Sema, c: int)
    requires
        s.taken(t),
        s.raised_to(c, u),
    ensures
        t.cnt == s.cnt - 1 && t.pid == s.pid && t.rm == s.rm,
        u.cnt == c && u.pid == s.pid && u.rm == s.rm,
        c >= 1 ==> u.bus.ev & EvFlag::SEM_ACQ == EvFlag::SEM_ACQ,
        c < 1 ==> u.bus == s.bus,
        s.cnt == 1 ==> t.bus.ev & EvFlag::SEM_ACQ == 0,
        s.cnt != 1 ==> t.bus == s.bus,
{
    if c >= 1 {
        law_set_keeps_other_bits(s.bus, EvFlag::SEM_ACQ, u.bus);
    }
    if s.cnt == 1 {
        law_clear_keeps_other_bits(s.bus, EvFlag::SEM_ACQ, t.bus);
    }
}

} // verus!
