//! Epoll instances: which descriptors are watched for which events.
use crate::fs::files::{FileStore, Files};
use std::collections::{BTreeMap, BTreeSet};
use vstd::prelude::*;

verus! {

broadcast use vstd::std_specs::btree::group_btree_axioms;

/// What a user keeps beside an event.
#[derive(Clone, Copy, PartialEq, Eq, Structural, Debug)]
pub struct EpData {
    pub ptr: u64,
}

/// A set of events, with what the user keeps beside it.
#[derive(Clone, Copy, PartialEq, Eq, Structural, Debug)]
pub struct EpEvent {
    pub events: u32,
    pub data: EpData,
}

impl EpEvent {
    pub const IN: u32 = 0x001;
    pub const OUT: u32 = 0x004;
    pub const ERR: u32 = 0x008;
    pub const HUP: u32 = 0x010;
    pub const PRI: u32 = 0x002;
    pub const RDNORM: u32 = 0x040;
    pub const RDBAND: u32 = 0x080;
    pub const WRNORM: u32 = 0x100;
    pub const WRBAND: u32 = 0x200;
    pub const MSG: u32 = 0x400;
    pub const RDHUP: u32 = 0x2000;
    pub const EXCL: u32 = 0x1000_0000;
    pub const WAKEUP: u32 = 0x2000_0000;
    pub const ONESHOT: u32 = 0x4000_0000;
    pub const ET: u32 = 0x8000_0000;

    /// Whether any of the events `ev` is in the set.
    pub fn has(&self, ev: u32) -> (r: bool)
        ensures
            r == ((self.events & ev) != 0),
    {
        (self.events & ev) != 0
    }
}

/// What a control call does.
pub struct EpCtlOp;

impl EpCtlOp {
    pub const ADD: i32 = 1;
    pub const DEL: i32 = 2;
    pub const MOD: i32 = 3;
}

/// An epoll instance. The sets of ready and of newly controlled descriptors are shared
/// by all its handles; the events are each handle's own.
pub struct EpInst {
    pub events: BTreeMap<usize, EpEvent>,
    pub ready: usize,
    pub new_ctl: usize,
}

impl EpInst {
    /// The sets are there.
    pub open spec fn wf(self, st: Files) -> bool {
        &&& self.ready < st.sets.len()
        &&& self.new_ctl < st.sets.len()
        &&& self.ready != self.new_ctl
    }

    /// The instances watch the same and share the same.
    pub open spec fn same(self, other: EpInst) -> bool {
        &&& self.events@ == other.events@
        &&& self.ready == other.ready
        &&& self.new_ctl == other.new_ctl
    }

    /// The outcome of a control call.
    pub open spec fn control_result(self, op: i32, fd: usize) -> Result<(), &'static str> {
        if op == EpCtlOp::ADD || ((op == EpCtlOp::MOD || op == EpCtlOp::DEL)
            && self.events@.contains_key(fd)) {
            Ok(())
        } else {
            Err("eperm")
        }
    }

    /// The events after a control call.
    pub open spec fn control_events(self, op: i32, fd: usize, ev: EpEvent) -> Map<usize, EpEvent> {
        if self.control_result(op, fd) is Err {
            self.events@
        } else if op == EpCtlOp::DEL {
            self.events@.remove(fd)
        } else {
            self.events@.insert(fd, ev)
        }
    }

    /// What is shared after a control call: what was added or changed is noted.
    pub open spec fn control_files(self, op: i32, fd: usize, st: Files) -> Files {
        if self.control_result(op, fd) is Ok && op != EpCtlOp::DEL {
            st.with_set(self.new_ctl, st.sets[self.new_ctl as int].insert(fd))
        } else {
            st
        }
    }

    /// An instance that watches nothing.
    pub fn new(st: &mut FileStore) -> (r: Self)
        ensures
            r.events@ == Map::<usize, EpEvent>::empty(),
            r.ready == old(st)@.sets.len(),
            r.new_ctl == old(st)@.sets.len() + 1,
            r.wf(final(st)@),
            final(st)@ == (Files {
                sets: old(st)@.sets.push(Set::empty()).push(Set::empty()),
                ..old(st)@
            }),
    {
        let ready: usize = st.sets.len();
        st.sets.push(BTreeSet::new());
        let new_ctl: usize = st.sets.len();
        st.sets.push(BTreeSet::new());
        proof {
            assert(st@.sets =~= old(st)@.sets.push(Set::empty()).push(Set::empty()));
            assert(st@.data =~= old(st)@.data);
            assert(st@.pipes =~= old(st)@.pipes);
        }
        EpInst { events: BTreeMap::new(), ready, new_ctl }
    }

    /// Another handle of the instance.
    pub fn again(&self) -> (r: Self)
        ensures
            r.same(*self),
    {
        EpInst { events: self.events.clone(), ready: self.ready, new_ctl: self.new_ctl }
    }

    /// Adds, changes or takes away what is watched on a descriptor. Only what is
    /// watched can be changed or taken away.
    pub fn control(&mut self, st: &mut FileStore, op: i32, fd: usize, ev: &EpEvent) -> (r: Result<
        (),
        &'static str,
    >)
        requires
            old(self).wf(old(st)@),
        ensures
            r == old(self).control_result(op, fd),
            final(self).events@ == old(self).control_events(op, fd, *ev),
            final(self).ready == old(self).ready,
            final(self).new_ctl == old(self).new_ctl,
            final(st)@ == old(self).control_files(op, fd, old(st)@),
            final(self).wf(final(st)@),
    {
        if op == EpCtlOp::ADD || (op == EpCtlOp::MOD && self.events.contains_key(&fd)) {
            let _ = self.events.insert(fd, *ev);
            let _ = st.sets[self.new_ctl].insert(fd);
            proof {
                assert(st@ =~= old(self).control_files(op, fd, old(st)@));
            }
            Ok(())
        } else if op == EpCtlOp::DEL && self.events.contains_key(&fd) {
            let _ = self.events.remove(&fd);
            Ok(())
        } else {
            Err("eperm")
        }
    }
}

/// What was added is watched with its events until it is taken away, and a descriptor
/// that is not watched cannot be changed.
pub proof fn law_control_add_then_delete(a: EpInst, b: EpInst, c: EpInst, fd: usize, ev: EpEvent)
    requires
        b.events@ == a.control_events(EpCtlOp::ADD, fd, ev),
        c.events@ == b.control_events(EpCtlOp::DEL, fd, ev),
    ensures
        b.events@.contains_key(fd) && b.events@[fd] == ev,
        b.control_result(EpCtlOp::DEL, fd) is Ok,
        !c.events@.contains_key(fd),
        c.control_result(EpCtlOp::MOD, fd) == Err::<(), &'static str>("eperm"),
        !a.events@.contains_key(fd) ==> c.events@ == a.events@,
{
    if !a.events@.contains_key(fd) {
        assert(c.events@ =~= a.events@);
    }
}

/// Controlling a descriptor changes the events of that one at most: adding and changing set
/// them to what is asked for, removing takes them away, and anything else is refused.
pub proof fn law_control_changes_one(a: EpInst, op: i32, fd: usize, ev: EpEvent, other: usize, st: Files)
    requires
        a.wf(st),
    ensures
        other != fd ==> a.control_events(op, fd, ev).contains_key(other)
            == a.events@.contains_key(other) && a.control_events(op, fd, ev)[other]
            == a.events@[other],
        op == 1 ==> a.control_result(op, fd) is Ok,
        op == 2 || op == 3 ==> (a.control_result(op, fd) is Ok <==> a.events@.contains_key(fd)),
        op < 1 || 3 < op ==> a.control_result(op, fd) == Err::<(), &'static str>("eperm"),
        a.control_result(op, fd) is Ok && op != 2 ==> a.control_events(op, fd, ev).contains_key(fd)
            && a.control_events(op, fd, ev)[fd] == ev && a.control_files(
            op,
            fd,
            st,
        ).sets[a.new_ctl as int].contains(fd),
        a.control_result(op, fd) is Ok && op == 2 ==> !a.control_events(op, fd, ev).contains_key(
            fd,
        ) && a.control_files(op, fd, st) == st,
        a.control_result(op, fd) is Err ==> a.control_events(op, fd, ev) == a.events@
            && a.control_files(op, fd, st) == st,
        a.control_files(op, fd, st).data == st.data && a.control_files(op, fd, st).descs == st.descs,
        a.control_files(op, fd, st).sets[a.ready as int] == st.sets[a.ready as int],
{
}

/// An instance that is the same watches the same and shares the same sets.
pub proof fn law_same_instances_share_their_sets(a: EpInst, b: EpInst, fd: usize)
    requires
        a.same(b),
    ensures
        a.events@.contains_key(fd) <==> b.events@.contains_key(fd),
        a.events@.contains_key(fd) ==> a.events@[fd] == b.events@[fd],
        a.ready == b.ready,
        a.new_ctl == b.new_ctl,
{
}

} // verus!
