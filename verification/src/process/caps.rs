//! What a process is allowed to do.

use vstd::prelude::*;

use crate::consts::INHERITABLE_MASK;

verus! {

/// The capabilities of a process, one bit each: those it may have, those in force, and
/// those it passes on.
pub struct CapSet {
    pub bits: u64,
    pub effective: u64,
    pub ambient: u64,
}

/// The set holds the capability.
pub open spec fn has_cap(set: u64, cap: u32) -> bool {
    cap < 64 && (set & (1u64 << cap)) != 0
}

impl CapSet {
    /// No capability.
    pub fn new() -> (r: Self)
        ensures
            r == (CapSet { bits: 0, effective: 0, ambient: 0 }),
    {
        CapSet { bits: 0, effective: 0, ambient: 0 }
    }

    /// Every capability; none is passed on.
    pub fn full() -> (r: Self)
        ensures
            r == (CapSet { bits: u64::MAX, effective: u64::MAX, ambient: 0 }),
    {
        CapSet { bits: u64::MAX, effective: u64::MAX, ambient: 0 }
    }

    /// Whether a capability is in force.
    pub fn check(&self, cap: u32) -> (r: bool)
        ensures
            r == has_cap(self.effective, cap),
    {
        if cap >= 64 {
            return false;
        }
        (self.effective & (1u64 << cap)) != 0
    }

    /// Allows a capability and puts it in force.
    pub fn grant(&mut self, cap: u32)
        ensures
            *final(self) == if cap < 64 {
                CapSet {
                    bits: old(self).bits | (1u64 << cap),
                    effective: old(self).effective | (1u64 << cap),
                    ..*old(self)
                }
            } else {
                *old(self)
            },
    {
        if cap < 64 {
            self.bits = self.bits | (1u64 << cap);
            self.effective = self.effective | (1u64 << cap);
        }
    }

    /// Takes a capability away.
    pub fn drop_cap(&mut self, cap: u32)
        ensures
            *final(self) == if cap < 64 {
                CapSet {
                    bits: old(self).bits & !(1u64 << cap),
                    effective: old(self).effective & !(1u64 << cap),
                    ..*old(self)
                }
            } else {
                *old(self)
            },
    {
        if cap < 64 {
            self.bits = self.bits & !(1u64 << cap);
            self.effective = self.effective & !(1u64 << cap);
        }
    }

    /// What a child has of its parent's capabilities: those that can be inherited.
    pub fn inherit(parent: &CapSet) -> (r: CapSet)
        ensures
            r == (CapSet {
                bits: parent.bits & INHERITABLE_MASK,
                effective: parent.effective & INHERITABLE_MASK,
                ambient: parent.ambient,
            }),
    {
        CapSet {
            bits: parent.bits & INHERITABLE_MASK,
            effective: parent.effective & INHERITABLE_MASK,
            ambient: parent.ambient,
        }
    }

    /// Whether any capability of a set is in force.
    pub fn has_any(&self, mask: u64) -> (r: bool)
        ensures
            r == ((self.effective & mask) != 0),
    {
        (self.effective & mask) != 0
    }

    /// Passes nothing on.
    pub fn clear_ambient(&mut self)
        ensures
            *final(self) == (CapSet { ambient: 0, ..*old(self) }),
    {
        self.ambient = 0;
    }

    /// Passes a capability on, if the process may have it. Says whether it may.
    pub fn raise_ambient(&mut self, cap: u32) -> (r: bool)
        ensures
            r == has_cap(old(self).bits, cap),
            *final(self) == if has_cap(old(self).bits, cap) {
                CapSet { ambient: old(self).ambient | (1u64 << cap), ..*old(self) }
            } else {
                *old(self)
            },
    {
        if cap >= 64 {
            return false;
        }
        if (self.bits & (1u64 << cap)) != 0 {
            self.ambient = self.ambient | (1u64 << cap);
            true
        } else {
            false
        }
    }
}

/// A capability that was granted is in force until it is dropped, and no other is touched.
pub proof fn law_grant_then_drop(set: u64, cap: u32, other: u32)
    requires
        cap < 64,
        other < 64,
        other != cap,
    ensures
        has_cap(set | (1u64 << cap), cap),
        !has_cap(set & !(1u64 << cap), cap),
        has_cap(set | (1u64 << cap), other) == has_cap(set, other),
        has_cap(set & !(1u64 << cap), other) == has_cap(set, other),
{
    let (a, b) = (1u64 << cap, 1u64 << other);
    assert((set | a) & a != 0 && (set & !a) & a == 0) by (bit_vector)
        requires
            a == 1u64 << cap,
            cap < 64,
    ;
    assert((set | a) & b == set & b && (set & !a) & b == set & b) by (bit_vector)
        requires
            a == 1u64 << cap,
            b == 1u64 << other,
            cap < 64,
            other < 64,
            other != cap,
    ;
}

/// A child has no capability that its parent lacks, and none that cannot be inherited.
pub proof fn law_child_has_no_more(parent: u64, cap: u32)
    requires
        has_cap(parent & INHERITABLE_MASK, cap),
    ensures
        has_cap(parent, cap),
        cap < 40,
{
    let b = 1u64 << cap;
    assert(parent & b != 0 && cap < 40) by (bit_vector)
        requires
            (parent & 0x0000_00FF_FFFF_FFFFu64) & b != 0,
            b == 1u64 << cap,
            cap < 64,
    ;
}

} // verus!
