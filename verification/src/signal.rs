//! Signals of a process: what is pending, what is blocked, and what each one does.
use crate::consts::{NSIG, SIGKILL, SIGSTOP, SIG_DFL, SIG_IGN};
use vstd::prelude::*;

verus! {

/// What happens when a signal is delivered.
#[derive(Clone, Copy, PartialEq, Eq, Structural, Debug)]
pub struct SigAction {
    pub handler: usize,
    pub flags: u32,
    pub mask: u64,
}

/// The signals of a process, one bit for each in `pending` and `blocked`.
pub struct SigSet {
    pub pending: u64,
    pub blocked: u64,
    pub actions: Vec<SigAction>,
}

/// The bits of the signals that cannot be blocked.
pub const UNBLOCKABLE: u64 = 0x8_0200;

/// The set `mask` holds the signal `signo`.
pub open spec fn has_sig(mask: u64, signo: u32) -> bool {
    (mask & (1u64 << signo)) != 0
}

/// The action every signal starts with.
pub open spec fn default_action() -> SigAction {
    SigAction { handler: SIG_DFL, flags: 0, mask: 0 }
}

/// What a program change leaves of an action: a handler of the old program is dropped,
/// and ignoring stays.
pub open spec fn action_after_exec(a: SigAction) -> SigAction {
    if a.handler != SIG_DFL && a.handler != SIG_IGN {
        SigAction { handler: SIG_DFL, ..a }
    } else {
        a
    }
}

impl SigSet {
    /// There is an action for each signal, and none is blocked that must not be.
    pub open spec fn wf(self) -> bool {
        &&& self.actions@.len() == NSIG + 1
        &&& self.blocked & UNBLOCKABLE == 0
    }

    /// The signals that may be delivered now.
    pub open spec fn active(self) -> u64 {
        self.pending & !self.blocked
    }

    /// The signal is pending and not blocked.
    pub open spec fn can_deliver(self, signo: u32) -> bool {
        has_sig(self.pending, signo) && !has_sig(self.blocked, signo)
    }

    /// The signals that may be delivered are those that are pending and not blocked.
    pub proof fn lemma_active(self, signo: u32)
        requires
            signo < NSIG,
        ensures
            has_sig(self.active(), signo) == self.can_deliver(signo),
    {
        let (p, b) = (self.pending, self.blocked);
        assert(((p & !b) & (1u64 << signo) != 0) == (p & (1u64 << signo) != 0 && b & (1u64 << signo)
            == 0)) by (bit_vector)
            requires
                signo < 64,
        ;
    }

    /// No signal pending, none blocked, and the default action for all.
    pub fn new() -> (r: Self)
        ensures
            r.wf(),
            r.pending == 0,
            r.blocked == 0,
            forall|signo: u32| signo < NSIG ==> !#[trigger] has_sig(r.pending, signo),
            forall|signo: u32| signo < NSIG ==> !#[trigger] has_sig(r.blocked, signo),
            forall|i: int| 0 <= i <= NSIG ==> r.actions@[i] == default_action(),
    {
        let mut actions: Vec<SigAction> = Vec::new();
        let mut i: u32 = 0;
        while i <= NSIG
            invariant
                i <= NSIG + 1,
                actions@.len() == i,
                forall|j: int| 0 <= j < i ==> actions@[j] == default_action(),
            decreases NSIG + 1 - i,
        {
            actions.push(SigAction { handler: SIG_DFL, flags: 0, mask: 0 });
            i = i + 1;
        }
        proof {
            assert(0u64 & UNBLOCKABLE == 0) by (bit_vector);
            assert(forall|signo: u32| 0u64 & #[trigger] (1u64 << signo) == 0) by (bit_vector);
        }
        SigSet { pending: 0, blocked: 0, actions }
    }

    /// Whether the signal is pending.
    pub fn sig_pending(&self, signo: u32) -> (r: bool)
        requires
            signo < 64,
        ensures
            r == has_sig(self.pending, signo),
    {
        (self.pending & (1u64 << signo)) != 0
    }

    /// Makes the signal pending; a number out of range is ignored.
    pub fn sig_raise(&mut self, signo: u32)
        ensures
            final(self).blocked == old(self).blocked,
            final(self).actions@ == old(self).actions@,
            final(self).pending == (if signo < NSIG {
                old(self).pending | (1u64 << signo)
            } else {
                old(self).pending
            }),
            signo < NSIG ==> has_sig(final(self).pending, signo),
            forall|other: u32|
                other < NSIG && other != signo ==> #[trigger] has_sig(final(self).pending, other)
                    == has_sig(old(self).pending, other),
    {
        if signo < NSIG {
            self.pending = self.pending | (1u64 << signo);
            proof {
                let p = old(self).pending;
                law_raise_then_clear(p, signo, signo);
                assert forall|other: u32| other < NSIG && other != signo implies #[trigger] has_sig(
                    self.pending,
                    other,
                ) == has_sig(p, other) by {
                    law_raise_then_clear(p, signo, other);
                }
            }
        }
    }

    /// The signals that may be delivered now; number 0 is no signal.
    pub fn coalesce_pending(&mut self) -> (r: u64)
        ensures
            *final(self) == *old(self),
            r == old(self).active() & !1u64,
    {
        let active: u64 = self.pending & !self.blocked;
        let mut result: u64 = 0;
        let mut i: u32 = 1;
        proof {
            assert(0u64 == active & !1u64 & !(0xffff_ffff_ffff_ffffu64 << 1u32)) by (bit_vector);
        }
        while i < NSIG
            invariant
                1 <= i <= NSIG,
                result == active & !1u64 & !(0xffff_ffff_ffff_ffffu64 << i),
            decreases NSIG - i,
        {
            proof {
                let j: u32 = (i + 1) as u32;
                assert(active & !1u64 & !(0xffff_ffff_ffff_ffffu64 << j) == if active & (1u64 << i)
                    != 0 {
                    result | (1u64 << i)
                } else {
                    result
                }) by (bit_vector)
                    requires
                        1 <= i < 64,
                        j == i + 1,
                        result == active & !1u64 & !(0xffff_ffff_ffff_ffffu64 << i),
                ;
            }
            if (active & (1u64 << i)) != 0 {
                result = result | (1u64 << i);
            }
            i = i + 1;
        }
        proof {
            assert(active & !1u64 & !(0xffff_ffff_ffff_ffffu64 << 64u32) == active & !1u64)
                by (bit_vector);
        }
        result
    }

    /// Takes the signal off the pending ones; a number out of range is ignored.
    pub fn sig_clear(&mut self, signo: u32)
        ensures
            final(self).blocked == old(self).blocked,
            final(self).actions@ == old(self).actions@,
            final(self).pending == (if signo < NSIG {
                old(self).pending & !(1u64 << signo)
            } else {
                old(self).pending
            }),
            signo < NSIG ==> !has_sig(final(self).pending, signo),
            forall|other: u32|
                other < NSIG && other != signo ==> #[trigger] has_sig(final(self).pending, other)
                    == has_sig(old(self).pending, other),
    {
        if signo < NSIG {
            self.pending = self.pending & !(1u64 << signo);
            proof {
                let p = old(self).pending;
                assert((p & !(1u64 << signo)) & (1u64 << signo) == 0) by (bit_vector);
                assert forall|other: u32| other < NSIG && other != signo implies #[trigger] has_sig(
                    self.pending,
                    other,
                ) == has_sig(p, other) by {
                    assert((p & !(1u64 << signo)) & (1u64 << other) == p & (1u64 << other))
                        by (bit_vector)
                        requires
                            signo < 64,
                            other < 64,
                            other != signo,
                    ;
                }
            }
        }
    }

    /// Blocks the signals of `mask` as well, but for those that cannot be blocked.
    pub fn sig_block(&mut self, mask: u64)
        ensures
            final(self).pending == old(self).pending,
            final(self).actions@ == old(self).actions@,
            final(self).blocked == (old(self).blocked | mask) & !UNBLOCKABLE,
            final(self).blocked & UNBLOCKABLE == 0,
    {
        self.blocked = self.blocked | mask;
        self.blocked = self.blocked & !UNBLOCKABLE;
        proof {
            let b = old(self).blocked;
            assert(((b | mask) & !UNBLOCKABLE) & UNBLOCKABLE == 0) by (bit_vector);
        }
    }

    /// Unblocks the signals of `mask`.
    pub fn sig_unblock(&mut self, mask: u64)
        ensures
            final(self).pending == old(self).pending,
            final(self).actions@ == old(self).actions@,
            final(self).blocked == old(self).blocked & !mask,
            old(self).wf() ==> final(self).wf(),
    {
        self.blocked = self.blocked & !mask;
        proof {
            let b = old(self).blocked;
            assert(b & UNBLOCKABLE == 0 ==> (b & !mask) & UNBLOCKABLE == 0) by (bit_vector);
        }
    }

    /// Blocks the signals of `mask` and no others, but for those that cannot be blocked.
    pub fn sig_setmask(&mut self, mask: u64)
        ensures
            final(self).pending == old(self).pending,
            final(self).actions@ == old(self).actions@,
            final(self).blocked == mask & !UNBLOCKABLE,
            final(self).blocked & UNBLOCKABLE == 0,
    {
        self.blocked = mask & !UNBLOCKABLE;
        proof {
            assert((mask & !UNBLOCKABLE) & UNBLOCKABLE == 0) by (bit_vector);
        }
    }

    /// The lowest signal that may be delivered now.
    pub fn deliverable(&self) -> (r: Option<u32>)
        ensures
            match r {
                Some(i) => 1 <= i < NSIG && self.can_deliver(i) && forall|j: u32|
                    1 <= j < i ==> !#[trigger] self.can_deliver(j),
                None => forall|j: u32| 1 <= j < NSIG ==> !#[trigger] self.can_deliver(j),
            },
    {
        let actionable: u64 = self.pending & !self.blocked;
        proof {
            assert forall|j: u32| j < NSIG implies #[trigger] self.can_deliver(j) == has_sig(
                actionable,
                j,
            ) by {
                self.lemma_active(j);
            }
        }
        if actionable == 0 {
            proof {
                assert forall|j: u32| 1 <= j < NSIG implies !#[trigger] self.can_deliver(j) by {
                    assert(0u64 & (1u64 << j) == 0) by (bit_vector);
                }
            }
            return None;
        }
        let mut i: u32 = 1;
        while i < NSIG
            invariant
                1 <= i <= NSIG,
                forall|j: u32| j < NSIG ==> #[trigger] self.can_deliver(j) == has_sig(actionable, j),
                forall|j: u32| 1 <= j < i ==> !#[trigger] self.can_deliver(j),
            decreases NSIG - i,
        {
            if (actionable & (1u64 << i)) != 0 {
                return Some(i);
            }
            i = i + 1;
        }
        None
    }

    /// Sets the action of a signal. The signals that cannot be caught keep theirs, and
    /// a number out of range is ignored.
    pub fn set_action(&mut self, signo: u32, action: SigAction)
        requires
            old(self).wf(),
        ensures
            final(self).wf(),
            final(self).pending == old(self).pending,
            final(self).blocked == old(self).blocked,
            final(self).actions@ == (if signo < NSIG && signo != SIGKILL && signo != SIGSTOP {
                old(self).actions@.update(signo as int, action)
            } else {
                old(self).actions@
            }),
    {
        if signo < NSIG && signo != SIGKILL && signo != SIGSTOP {
            self.actions.set(signo as usize, action);
        }
    }

    /// The action of a signal; a number out of range has that of number 0.
    pub fn get_action(&self, signo: u32) -> (r: &SigAction)
        requires
            self.actions@.len() > 0,
        ensures
            *r == (if signo < self.actions@.len() {
                self.actions@[signo as int]
            } else {
                self.actions@[0]
            }),
    {
        if (signo as usize) < self.actions.len() {
            &self.actions[signo as usize]
        } else {
            &self.actions[0]
        }
    }

    /// Whether the signal is ignored.
    pub fn is_ignored(&self, signo: u32) -> (r: bool)
        ensures
            r == (signo < self.actions@.len() && self.actions@[signo as int].handler == SIG_IGN),
    {
        if (signo as usize) < self.actions.len() {
            self.actions[signo as usize].handler == SIG_IGN
        } else {
            false
        }
    }

    /// Drops the handlers of a program that another one replaces.
    pub fn clear_non_caught(&mut self)
        ensures
            final(self).pending == old(self).pending,
            final(self).blocked == old(self).blocked,
            final(self).actions@.len() == old(self).actions@.len(),
            forall|i: int|
                0 <= i < old(self).actions@.len() ==> #[trigger] final(self).actions@[i] == (if i
                    >= 1 {
                    action_after_exec(old(self).actions@[i])
                } else {
                    old(self).actions@[i]
                }),
    {
        let n: usize = self.actions.len();
        let mut i: usize = 1;
        while i < n
            invariant
                1 <= i,
                n == self.actions@.len(),
                n == old(self).actions@.len(),
                self.pending == old(self).pending,
                self.blocked == old(self).blocked,
                forall|j: int|
                    0 <= j < n ==> #[trigger] self.actions@[j] == (if 1 <= j < i {
                        action_after_exec(old(self).actions@[j])
                    } else {
                        old(self).actions@[j]
                    }),
            decreases n - i,
        {
            let h: usize = self.actions[i].handler;
            if h != SIG_DFL && h != SIG_IGN {
                let a = self.actions[i];
                self.actions.set(i, SigAction { handler: SIG_DFL, flags: a.flags, mask: a.mask });
            }
            i = i + 1;
        }
    }
}

/// The signals that end or stop a process get through to it whatever it blocks.
pub proof fn law_kill_and_stop_get_through(s: SigSet, signo: u32)
    requires
        s.wf(),
        signo == SIGKILL || signo == SIGSTOP,
        has_sig(s.pending, signo),
    ensures
        s.can_deliver(signo),
        has_sig(s.active(), signo),
{
    let b = s.blocked;
    assert(b & UNBLOCKABLE == 0 && (signo == 9 || signo == 19) ==> b & (1u64 << signo) == 0)
        by (bit_vector);
    s.lemma_active(signo);
}

/// Raising a signal makes it pending and leaves every other one as it was; clearing it
/// takes it back.
pub proof fn law_raise_then_clear(p: u64, signo: u32, other: u32)
    requires
        signo < NSIG,
        other < NSIG,
    ensures
        has_sig(p | (1u64 << signo), signo),
        other != signo ==> has_sig(p | (1u64 << signo), other) == has_sig(p, other),
        !has_sig((p | (1u64 << signo)) & !(1u64 << signo), signo),
        other != signo ==> has_sig((p | (1u64 << signo)) & !(1u64 << signo), other) == has_sig(
            p,
            other,
        ),
{
    assert((p | (1u64 << signo)) & (1u64 << signo) != 0 && ((p | (1u64 << signo)) & !(1u64
        << signo)) & (1u64 << signo) == 0 && (other != signo ==> (p | (1u64 << signo)) & (1u64
        << other) == p & (1u64 << other) && ((p | (1u64 << signo)) & !(1u64 << signo)) & (1u64
        << other) == p & (1u64 << other))) by (bit_vector)
        requires
            signo < 64,
            other < 64,
    ;
}

/// A program change can be made twice as well as once.
pub proof fn law_exec_reset_is_idempotent(a: SigAction)
    ensures
        action_after_exec(action_after_exec(a)) == action_after_exec(a),
{
}

/// A signal is delivered if it is pending and not blocked, and only then.
pub proof fn law_blocked_signals_wait(s: SigSet, signo: u32)
    requires
        signo < NSIG,
    ensures
        has_sig(s.blocked, signo) ==> !s.can_deliver(signo) && !has_sig(s.active(), signo),
        !has_sig(s.pending, signo) ==> !s.can_deliver(signo) && !has_sig(s.active(), signo),
        has_sig(s.pending, signo) && !has_sig(s.blocked, signo) ==> s.can_deliver(signo)
            && has_sig(s.active(), signo),
{
    s.lemma_active(signo);
}

/// Blocking signals holds back those that were held back and those named, but for the two
/// that end or stop a process; unblocking lets those named through.
pub proof fn law_block_adds_and_unblock_takes(b: u64, mask: u64, signo: u32)
    requires
        signo < NSIG,
    ensures
        has_sig((b | mask) & !UNBLOCKABLE, signo) <==> (has_sig(b, signo) || has_sig(mask, signo))
            && signo != 9 && signo != 19,
        has_sig(mask & !UNBLOCKABLE, signo) <==> has_sig(mask, signo) && signo != 9 && signo != 19,
        has_sig(b & !mask, signo) <==> has_sig(b, signo) && !has_sig(mask, signo),
{
    assert(((((b | mask) & !0x8_0200u64) & (1u64 << signo) != 0) <==> ((b & (1u64 << signo) != 0
        || mask & (1u64 << signo) != 0) && signo != 9 && signo != 19)) && (((mask & !0x8_0200u64)
        & (1u64 << signo) != 0) <==> (mask & (1u64 << signo) != 0 && signo != 9 && signo != 19))
        && (((b & !mask) & (1u64 << signo) != 0) <==> (b & (1u64 << signo) != 0 && mask & (1u64
        << signo) == 0))) by (bit_vector)
        requires
            signo < 64,
    ;
}

/// Starting a program sets handlers of the old one back to the default, and leaves the
/// default and ignoring a signal as they are; flags and masks stay.
pub proof fn law_exec_resets_handlers(a: SigAction)
    ensures
        a.handler > 1 ==> action_after_exec(a).handler == 0,
        a.handler == 0 || a.handler == 1 ==> action_after_exec(a).handler == a.handler,
        action_after_exec(a).flags == a.flags && action_after_exec(a).mask == a.mask,
        default_action().handler == 0 && default_action().mask == 0 && default_action().flags == 0,
{
}

} // verus!
