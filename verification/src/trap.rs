//! Register snapshots and the trap controller.

use vstd::prelude::*;

use crate::consts::{N_REGS, PAGE_SZ};

verus! {

/// What a register snapshot holds.
#[verifier::ext_equal]
pub struct Regs {
    pub r: Seq<u64>,
    pub ip: u64,
    pub flags: u64,
}

impl Regs {
    /// The same snapshot with one general register set.
    pub open spec fn with_reg(self, i: int, v: u64) -> Regs {
        Regs { r: self.r.update(i, v), ..self }
    }

    /// The value at a slot: the general registers first, then the instruction pointer, then
    /// the flags.
    pub open spec fn slot(self, i: int) -> u64 {
        if i < N_REGS {
            self.r[i]
        } else if i == N_REGS {
            self.ip
        } else {
            self.flags
        }
    }

    /// What an operation code, of which the low four bits count, does with a value.
    pub open spec fn transformed(self, op: u8, val: u64) -> Regs {
        let code = op % 16;
        if code == 0 {
            self.with_reg(0, val)
        } else if code == 1 {
            Regs { ip: val, ..self }
        } else if code == 2 {
            self.with_reg(N_REGS - 1, val)
        } else if code == 3 {
            self.with_reg(N_REGS - 2, val)
        } else if code == 4 {
            Regs { flags: val, ..self }
        } else if code == 5 && val / 0x0100_0000_0000_0000 < N_REGS {
            self.with_reg((val / 0x0100_0000_0000_0000) as int, val % 0x0100_0000_0000_0000)
        } else {
            self
        }
    }

    /// The slots below `n` at which two snapshots differ, in order, with both values.
    pub open spec fn differing(self, other: Regs, n: int) -> Seq<(usize, u64, u64)>
        decreases n,
    {
        if n <= 0 {
            Seq::empty()
        } else {
            let below = self.differing(other, n - 1);
            if self.slot(n - 1) != other.slot(n - 1) {
                below.push(((n - 1) as usize, self.slot(n - 1), other.slot(n - 1)))
            } else {
                below
            }
        }
    }

    /// The hash of the first `n` slots: each is mixed in and the state multiplied, but for
    /// the flags, after which it is not.
    pub open spec fn hashed(self, n: int) -> u64
        decreases n,
    {
        if n <= 0 {
            0xcbf29ce484222325u64
        } else {
            let h = self.hashed(n - 1) ^ self.slot(n - 1);
            if n - 1 <= N_REGS {
                h.wrapping_mul(0x100000001b3)
            } else {
                h
            }
        }
    }
}

/// A register's value by its top four bits: below 4 they are cut off, from 4 to 7 the bit
/// below them is extended over them, from 8 to 11 the value is negated, from 12 it is
/// zero.
pub open spec fn classed(v: u64) -> u64 {
    let top = v / 0x1000_0000_0000_0000;
    let low = v % 0x1000_0000_0000_0000;
    if top < 4 {
        low
    } else if top < 8 {
        if low < 0x0800_0000_0000_0000 {
            low
        } else {
            (low + 0xF000_0000_0000_0000) as u64
        }
    } else if top < 12 {
        (0x1_0000_0000_0000_0000 - v) as u64
    } else {
        0
    }
}

/// A snapshot of the processor's registers. The first six general registers hold a system
/// call's arguments and the first its result; the last but one holds the thread-local
/// base, the last the stack pointer.
#[derive(Clone, Copy, Debug, PartialEq, Eq)]
pub struct Context {
    pub r: [u64; N_REGS],
    pub ip: u64,
    pub flags: u64,
}

impl View for Context {
    type V = Regs;

    open spec fn view(&self) -> Regs {
        Regs { r: self.r@, ip: self.ip, flags: self.flags }
    }
}

impl Context {
    /// A snapshot of zeros.
    pub fn new() -> (r: Self)
        ensures
            r@ == (Regs { r: Seq::new(N_REGS as nat, |i: int| 0u64), ip: 0, flags: 0 }),
    {
        let c = Context { r: [0u64;16], ip: 0, flags: 0 };
        assert(c.r@ =~= Seq::new(N_REGS as nat, |i: int| 0u64));
        c
    }

    /// A snapshot of the given registers, with instruction pointer and flags zero.
    pub fn capture(src: &[u64; N_REGS]) -> (r: Self)
        ensures
            r@ == (Regs { r: src@, ip: 0, flags: 0 }),
    {
        Context { r: *src, ip: 0, flags: 0 }
    }

    /// The registers of the snapshot.
    pub fn apply(&self) -> (r: [u64; N_REGS])
        ensures
            r@ == self@.r,
    {
        self.r
    }

    /// Sets the instruction pointer.
    pub fn set_ip(&mut self, v: u64)
        ensures
            final(self)@ == (Regs { ip: v, ..old(self)@ }),
    {
        self.ip = v;
    }

    /// Sets the stack pointer.
    pub fn set_sp(&mut self, v: u64)
        ensures
            final(self)@ == old(self)@.with_reg(N_REGS - 1, v),
    {
        self.r[15] = v;
    }

    /// Sets the result register.
    pub fn set_ret(&mut self, v: u64)
        ensures
            final(self)@ == old(self)@.with_reg(0, v),
    {
        self.r[0] = v;
    }

    /// Sets the thread-local base.
    pub fn set_tls(&mut self, v: u64)
        ensures
            final(self)@ == old(self)@.with_reg(N_REGS - 2, v),
    {
        self.r[14] = v;
    }

    /// A copy on which an operation was done: code 0 sets the result, 1 the instruction
    /// pointer, 2 the stack pointer, 3 the thread-local base, 4 the flags, and 5 the register
    /// that the top byte of the value names to the rest of the value. Other codes, and
    /// registers that there are not, change nothing.
    pub fn transform(&self, op: u8, val: u64) -> (r: Context)
        ensures
            r@ == self@.transformed(op, val),
    {
        let mut out = *self;
        let code: u8 = op % 16;
        if code == 0 {
            out.r[0] = val;
        } else if code == 1 {
            out.ip = val;
        } else if code == 2 {
            out.r[15] = val;
        } else if code == 3 {
            out.r[14] = val;
        } else if code == 4 {
            out.flags = val;
        } else if code == 5 {
            let idx: u64 = val / 0x0100_0000_0000_0000;
            if idx < 16 {
                out.r[idx as usize] = val % 0x0100_0000_0000_0000;
            }
        }
        out
    }

    /// The six arguments of a system call.
    pub fn syscall_args(&self) -> (r: (u64, u64, u64, u64, u64, u64))
        ensures
            r == (self@.r[0], self@.r[1], self@.r[2], self@.r[3], self@.r[4], self@.r[5]),
    {
        (self.r[0], self.r[1], self.r[2], self.r[3], self.r[4], self.r[5])
    }

    /// A copy with another result.
    pub fn clone_with_ret(&self, ret: u64) -> (r: Context)
        ensures
            r@ == self@.with_reg(0, ret),
    {
        let mut c = *self;
        c.r[0] = ret;
        c
    }

    /// The slots at which two snapshots differ, with the value here and the value there. The
    /// instruction pointer has the number after the last register, the flags the next.
    pub fn diff(&self, other: &Context) -> (r: Vec<(usize, u64, u64)>)
        ensures
            r@ == self@.differing(other@, N_REGS + 2),
    {
        let mut changes: Vec<(usize, u64, u64)> = Vec::new();
        let mut i: usize = 0;
        while i < N_REGS
            invariant
                0 <= i <= N_REGS,
                changes@ == self@.differing(other@, i as int),
            decreases N_REGS - i,
        {
            if self.r[i] != other.r[i] {
                changes.push((i, self.r[i], other.r[i]));
            }
            i += 1;
        }
        proof {
            reveal_with_fuel(Regs::differing, 3);
        }
        if self.ip != other.ip {
            changes.push((N_REGS, self.ip, other.ip));
        }
        if self.flags != other.flags {
            changes.push((N_REGS + 1, self.flags, other.flags));
        }
        changes
    }

    /// A hash over the whole snapshot.
    pub fn hash(&self) -> (r: u64)
        ensures
            r == self@.hashed(N_REGS + 2),
    {
        let mut h: u64 = 0xcbf29ce484222325;
        let mut i: usize = 0;
        while i < N_REGS
            invariant
                0 <= i <= N_REGS,
                h == self@.hashed(i as int),
            decreases N_REGS - i,
        {
            h = h ^ self.r[i];
            h = h.wrapping_mul(0x100000001b3);
            i += 1;
        }
        proof {
            reveal_with_fuel(Regs::hashed, 3);
        }
        h = h ^ self.ip;
        h = h.wrapping_mul(0x100000001b3);
        h ^ self.flags
    }

    /// The value of a register brought into the form of its class; zero for a register that
    /// there is not.
    pub fn reg_class(&self, idx: usize) -> (r: u64)
        ensures
            r == if idx < N_REGS {
                classed(self@.r[idx as int])
            } else {
                0
            },
    {
        if idx >= N_REGS {
            return 0;
        }
        let v: u64 = self.r[idx];
        let top: u64 = v / 0x1000_0000_0000_0000;
        let low: u64 = v % 0x1000_0000_0000_0000;
        if top < 4 {
            low
        } else if top < 8 {
            if low < 0x0800_0000_0000_0000 {
                low
            } else {
                low + 0xF000_0000_0000_0000
            }
        } else if top < 12 {
            0xFFFF_FFFF_FFFF_FFFF - v + 1
        } else {
            0
        }
    }
}

proof fn lemma_differing_empty(a: Regs, b: Regs, n: int)
    requires
        0 <= n,
    ensures
        a.differing(b, n).len() == 0 <==> forall|i: int|
            0 <= i < n ==> #[trigger] a.slot(i) == b.slot(i),
    decreases n,
{
    if n > 0 {
        lemma_differing_empty(a, b, n - 1);
        if a.differing(b, n).len() == 0 {
            assert forall|i: int| 0 <= i < n implies #[trigger] a.slot(i) == b.slot(i) by {
                if i < n - 1 {
                    assert(a.slot(i) == b.slot(i));
                }
            }
        } else {
            assert(exists|i: int| 0 <= i < n && #[trigger] a.slot(i) != b.slot(i));
        }
    }
}

/// Two snapshots are equal exactly when no slot differs.
pub proof fn law_no_difference_means_equal(a: Context, b: Context)
    ensures
        a@.differing(b@, N_REGS + 2).len() == 0 <==> a@ == b@,
{
    lemma_differing_empty(a@, b@, N_REGS + 2);
    if a@.differing(b@, N_REGS + 2).len() == 0 {
        assert forall|i: int| 0 <= i < N_REGS implies a@.r[i] == b@.r[i] by {
            assert(a@.slot(i) == b@.slot(i));
        }
        assert(a@.slot(N_REGS as int) == b@.slot(N_REGS as int));
        assert(a@.slot(N_REGS + 1) == b@.slot(N_REGS + 1));
        assert(a@ =~= b@);
    }
}

/// A service routine for a trap vector. It may change the interrupted context.
pub trait TrapHandler: Send {
    /// What the routine makes of a context.
    spec fn handled(&self, c: Regs) -> Regs;

    /// Runs the routine.
    fn run(&self, c: &mut Context)
        ensures
            final(c)@ == self.handled(old(c)@),
    ;
}

/// A service routine that does one operation on the context.
pub struct OpHandler {
    pub op: u8,
    pub val: u64,
}

impl TrapHandler for OpHandler {
    open spec fn handled(&self, c: Regs) -> Regs {
        c.transformed(self.op, self.val)
    }

    fn run(&self, c: &mut Context) {
        let out = c.transform(self.op, self.val);
        *c = out;
    }
}

/// The number of trap vectors.
pub const N_VECTORS: usize = 16;

/// The trap vector of a page fault, which no mask holds back.
pub const PGFAULT_VECTOR: usize = 14;

/// The trap controller: interrupt masks, nesting, the frame being handled and the table of
/// service routines.
pub struct TrapCtl {
    pub active: bool,
    pub hw_mask: u32,
    pub sw_mask: u32,
    pub nest: usize,
    pub frame: Option<Context>,
    pub stack: Vec<Context>,
    pub irq_on: bool,
    pub suppressed: bool,
    pub handlers: Vec<Option<Box<dyn TrapHandler>>>,
}

impl TrapCtl {
    /// There is a place for a routine at every vector.
    pub open spec fn wf(self) -> bool {
        self.handlers@.len() == N_VECTORS
    }

    /// Whether a vector is let through: those below 8 by the hardware mask, the others by the
    /// software mask, a page fault always.
    pub open spec fn lets_through(self, vector: usize) -> bool {
        if vector < 8 {
            self.hw_mask & (1u32 << vector) != 0
        } else if vector == PGFAULT_VECTOR {
            true
        } else {
            vector < N_VECTORS && self.sw_mask & (1u32 << ((vector - 8) as usize)) != 0
        }
    }

    /// What the routine of a vector, if there is one, makes of a context.
    pub open spec fn served(self, vector: usize, c: Regs) -> Regs {
        if vector < N_VECTORS && self.handlers@[vector as int] is Some {
            self.handlers@[vector as int]->0.handled(c)
        } else {
            c
        }
    }

    /// A controller with every mask closed, interrupts on and no routine.
    pub fn new() -> (r: Self)
        ensures
            r.wf(),
            !r.active,
            r.hw_mask == 0,
            r.sw_mask == 0,
            r.nest == 0,
            r.frame is None,
            r.stack@.len() == 0,
            r.irq_on,
            !r.suppressed,
            forall|i: int| 0 <= i < N_VECTORS ==> #[trigger] r.handlers@[i] is None,
    {
        let mut handlers: Vec<Option<Box<dyn TrapHandler>>> = Vec::new();
        let mut i: usize = 0;
        while i < N_VECTORS
            invariant
                i <= N_VECTORS,
                handlers@.len() == i,
                forall|k: int| 0 <= k < i ==> #[trigger] handlers@[k] is None,
            decreases N_VECTORS - i,
        {
            handlers.push(None);
            i += 1;
        }
        TrapCtl {
            active: false,
            hw_mask: 0,
            sw_mask: 0,
            nest: 0,
            frame: None,
            stack: Vec::new(),
            irq_on: true,
            suppressed: false,
            handlers,
        }
    }

    /// Sets the software mask to `a` and the hardware mask to `b`.
    pub fn configure(&mut self, a: u32, b: u32)
        ensures
            *final(self) == (TrapCtl { sw_mask: a, hw_mask: b, ..*old(self) }),
    {
        self.hw_mask = b;
        self.sw_mask = a;
    }

    /// The hardware mask.
    pub fn hw(&self) -> (r: u32)
        ensures
            r == self.hw_mask,
    {
        self.hw_mask
    }

    /// The software mask.
    pub fn sw(&self) -> (r: u32)
        ensures
            r == self.sw_mask,
    {
        self.sw_mask
    }

    /// Whether a trap is being handled.
    pub fn in_handler(&self) -> (r: bool)
        ensures
            r == (self.active || self.nest > 0),
    {
        self.active || self.nest > 0
    }

    /// Puts a routine at a vector; a vector that there is not is passed over.
    pub fn register_handler(&mut self, vector: usize, handler: Box<dyn TrapHandler>)
        requires
            old(self).wf(),
        ensures
            final(self).wf(),
            final(self).handlers@ == if vector < N_VECTORS {
                old(self).handlers@.update(vector as int, Some(handler))
            } else {
                old(self).handlers@
            },
            *final(self) == (TrapCtl { handlers: final(self).handlers, ..*old(self) }),
    {
        if vector < N_VECTORS {
            self.handlers[vector] = Some(handler);
        }
    }

    /// Handles a trap: the context is saved as the frame, the vector's routine runs on it,
    /// and what the routine left is both the frame and the context to go on with.
    pub fn dispatch(&mut self, vector: usize, ctx: Context) -> (r: Context)
        requires
            old(self).wf(),
        ensures
            r@ == old(self).served(vector, ctx@),
            *final(self) == (TrapCtl { frame: Some(r), active: false, ..*old(self) }),
    {
        let mut c = ctx;
        self.active = true;
        let depth: usize = self.nest;
        self.nest = depth.wrapping_add(1);
        if vector < N_VECTORS {
            match &self.handlers[vector] {
                Some(handler) => {
                    handler.run(&mut c);
                },
                None => {},
            }
        }
        self.frame = Some(c);
        self.nest = self.nest.wrapping_sub(1);
        self.active = false;
        c
    }

    /// The frame handled last.
    pub fn current(&self) -> (r: Option<Context>)
        ensures
            r == self.frame,
    {
        self.frame
    }

    /// The page of an address that faulted and the offset in that page.
    pub fn on_pgfault(&self, va: usize) -> (r: Result<(usize, usize), &'static str>)
        ensures
            r == Ok::<(usize, usize), &'static str>(
                ((va - va % PAGE_SZ) as usize, va % PAGE_SZ),
            ),
    {
        let offset: usize = va % PAGE_SZ;
        Ok((va - offset, offset))
    }

    /// Handles a trap where its vector is let through, and else hands the context back.
    pub fn dispatch_vector(&mut self, vector: usize, ctx: Context) -> (r: Context)
        requires
            old(self).wf(),
        ensures
            old(self).lets_through(vector) ==> r@ == old(self).served(vector, ctx@)
                && *final(self) == (TrapCtl { frame: Some(r), active: false, ..*old(self) }),
            !old(self).lets_through(vector) ==> r == ctx && *final(self) == *old(self),
    {
        if vector < 8 {
            if self.hw_mask & (1u32 << vector) != 0 {
                return self.dispatch(vector, ctx);
            }
            ctx
        } else if vector == PGFAULT_VECTOR {
            self.dispatch(vector, ctx)
        } else if vector < N_VECTORS {
            if self.sw_mask & (1u32 << (vector - 8)) != 0 {
                return self.dispatch(vector, ctx);
            }
            ctx
        } else {
            ctx
        }
    }

    /// Saves an outer frame.
    pub fn push_frame(&mut self, ctx: &Context)
        ensures
            final(self).stack@ == old(self).stack@.push(*ctx),
            *final(self) == (TrapCtl { stack: final(self).stack, ..*old(self) }),
    {
        self.stack.push(*ctx);
    }

    /// Takes back the frame saved last.
    pub fn pop_frame(&mut self) -> (r: Option<Context>)
        ensures
            old(self).stack@.len() == 0 ==> r is None && final(self).stack@ == old(self).stack@,
            old(self).stack@.len() > 0 ==> r == Some(old(self).stack@.last())
                && final(self).stack@ == old(self).stack@.drop_last(),
            *final(self) == (TrapCtl { stack: final(self).stack, ..*old(self) }),
    {
        self.stack.pop()
    }

    /// How many traps are being handled inside each other.
    pub fn nest_depth(&self) -> (r: usize)
        ensures
            r == self.nest,
    {
        self.nest
    }

    /// Marks traps as suppressed.
    pub fn suppress(&mut self)
        ensures
            *final(self) == (TrapCtl { suppressed: true, ..*old(self) }),
    {
        self.suppressed = true;
    }

    /// Takes the mark back.
    pub fn unsuppress(&mut self)
        ensures
            *final(self) == (TrapCtl { suppressed: false, ..*old(self) }),
    {
        self.suppressed = false;
    }
}

/// A frame that is saved and taken back is the same, and what was saved before it is as it
/// was.
pub proof fn law_pop_undoes_push(before: TrapCtl, saved: TrapCtl, after: TrapCtl, c: Context)
    requires
        saved.stack@ == before.stack@.push(c),
        after.stack@ == saved.stack@.drop_last(),
    ensures
        saved.stack@.last() == c,
        after.stack@ == before.stack@,
{
    assert(after.stack@ =~= before.stack@);
}

/// A page fault is let through whatever the masks are, and no vector above the table is.
pub proof fn law_page_fault_is_never_masked(t: TrapCtl, vector: usize)
    ensures
        t.lets_through(PGFAULT_VECTOR),
        vector >= N_VECTORS ==> !t.lets_through(vector),
{
}

/// Each operation on a context changes one thing: the result, the place to go on, the stack, the
/// thread pointer, the flags, or the register that the top byte names.
pub proof fn law_operation_changes_one_thing(c: Regs, op: u8, val: u64, i: int)
    requires
        c.r.len() == N_REGS,
        0 <= i < N_REGS,
    ensures
        ({
            let d = c.transformed(op, val);
            let code = op % 16;
            &&& d.r.len() == N_REGS
            &&& code == 0 ==> d.r[0] == val && d.ip == c.ip && d.flags == c.flags && (i != 0
                ==> d.r[i] == c.r[i])
            &&& code == 1 ==> d.ip == val && d.r == c.r && d.flags == c.flags
            &&& code == 2 ==> d.r[N_REGS - 1] == val && d.ip == c.ip && d.flags == c.flags && (i
                != N_REGS - 1 ==> d.r[i] == c.r[i])
            &&& code == 3 ==> d.r[N_REGS - 2] == val && d.ip == c.ip && d.flags == c.flags && (i
                != N_REGS - 2 ==> d.r[i] == c.r[i])
            &&& code == 4 ==> d.flags == val && d.r == c.r && d.ip == c.ip
            &&& code == 5 && val == i * 0x0100_0000_0000_0000 + val % 0x0100_0000_0000_0000
                ==> d.r[i] == val % 0x0100_0000_0000_0000 && d.ip == c.ip && d.flags == c.flags
            &&& code > 5 ==> d == c
        }),
{
}

/// The differences of two contexts are the places at which they differ, with what each has
/// there, in order.
pub proof fn law_differences_are_what_differs(a: Regs, b: Regs, n: int, i: int)
    requires
        0 <= i < n <= N_REGS + 2,
    ensures
        a.differing(b, n).contains((i as usize, a.slot(i), b.slot(i))) <==> a.slot(i) != b.slot(i),
        a.differing(b, n).len() <= n,
        forall|k: int|
            0 <= k < a.differing(b, n).len() ==> (#[trigger] a.differing(b, n)[k]).0 < n,
    decreases n,
{
    let d = a.differing(b, n);
    let below = a.differing(b, n - 1);
    if n > 1 {
        law_differences_are_what_differs(a, b, n - 1, if i < n - 1 {
            i
        } else {
            0
        });
    }
    let e = (i as usize, a.slot(i), b.slot(i));
    if i < n - 1 {
        if below.contains(e) {
            let k = choose|k: int| 0 <= k < below.len() && below[k] == e;
            assert(d[k] == e);
        }
        if d.contains(e) {
            let k = choose|k: int| 0 <= k < d.len() && d[k] == e;
            assert(k < below.len());
            assert(below[k] == e);
        }
    } else {
        if a.slot(i) != b.slot(i) {
            assert(d[below.len() as int] == e);
        } else if d.contains(e) {
            let k = choose|k: int| 0 <= k < d.len() && d[k] == e;
            assert(below[k].0 < n - 1);
        }
    }
}

/// The slots of a context are its registers, then where it goes on, then its flags.
pub proof fn law_slots_are_the_registers(a: Regs, i: int)
    ensures
        0 <= i < N_REGS ==> a.slot(i) == a.r[i],
        a.slot(N_REGS as int) == a.ip,
        a.slot(N_REGS + 1) == a.flags,
{
}

/// By its top bits a value counts without them, with its sign, as what is missing to the whole
/// range, or as nothing.
pub proof fn law_class_goes_by_the_top_bits(v: u64)
    ensures
        v < 0x4000_0000_0000_0000 ==> classed(v) < 0x1000_0000_0000_0000 && classed(v)
            % 0x1000_0000_0000_0000 == v % 0x1000_0000_0000_0000,
        0x4000_0000_0000_0000 <= v < 0x8000_0000_0000_0000 ==> classed(v) % 0x1000_0000_0000_0000
            == v % 0x1000_0000_0000_0000 && (classed(v) < 0x0800_0000_0000_0000 || classed(v)
            >= 0xF800_0000_0000_0000),
        0x8000_0000_0000_0000 <= v < 0xC000_0000_0000_0000 ==> v + classed(v)
            == 0x1_0000_0000_0000_0000,
        v >= 0xC000_0000_0000_0000 ==> classed(v) == 0,
{
}

/// The first eight vectors go by one mask and the others by the other: a vector whose bit is set
/// gets through, and one whose bit is clear does not, but for the page fault.
pub proof fn law_masks_hold_vectors_back(t: TrapCtl, vector: usize)
    requires
        vector < 16,
    ensures
        vector < 8 ==> (t.lets_through(vector) <==> t.hw_mask & (1u32 << vector) != 0),
        vector < 8 && t.hw_mask == 0 ==> !t.lets_through(vector),
        vector < 8 && t.hw_mask == 0xff ==> t.lets_through(vector),
        vector >= 8 && vector != 14 && t.sw_mask == 0 ==> !t.lets_through(vector),
        vector >= 8 && t.sw_mask == 0xff ==> t.lets_through(vector),
{
    let w = (vector - 8) as usize;
    if vector < 8 {
        assert(0u32 & (1u32 << vector) == 0 && (vector < 8 ==> 0xffu32 & (1u32 << vector) != 0))
            by (bit_vector);
    } else {
        assert(0u32 & (1u32 << w) == 0 && (w < 8 ==> 0xffu32 & (1u32 << w) != 0)) by (bit_vector);
    }
}

/// A vector is served by the routine that is registered for it; without one, the context stays.
pub proof fn law_vector_is_served_by_its_routine(t: TrapCtl, vector: usize, c: Regs)
    requires
        t.wf(),
    ensures
        vector < 16 && t.handlers@[vector as int] is Some ==> t.served(vector, c)
            == t.handlers@[vector as int]->0.handled(c),
        vector < 16 && t.handlers@[vector as int] is None ==> t.served(vector, c) == c,
        vector >= 16 ==> t.served(vector, c) == c,
{
}

} // verus!
