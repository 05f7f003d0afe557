//! Timers on a wheel of slots that the clock walks round.
use crate::consts::TIMER_WHEEL_SIZE;
use vstd::prelude::*;

verus! {

/// A timer that is due after the tick `deadline`, and every `interval` ticks from there
/// on if it repeats.
#[derive(Clone, Copy, PartialEq, Eq, Structural, Debug)]
pub struct TimerEntry {
    pub deadline: usize,
    pub interval: usize,
    pub callback_id: usize,
    pub active: bool,
    pub repeat: bool,
}

impl TimerEntry {
    /// The timer is due at the tick `now`.
    pub open spec fn is_due(self, now: usize) -> bool {
        now > self.deadline
    }

    /// The timer as its next round finds it, counted from the tick `now`.
    pub open spec fn after_reset(self, now: usize) -> TimerEntry {
        if self.repeat {
            TimerEntry { deadline: (now + self.interval) as usize, ..self }
        } else {
            TimerEntry { active: false, ..self }
        }
    }

    /// A running timer; it repeats if it has an interval.
    pub open spec fn fresh(deadline: usize, interval: usize, cb_id: usize) -> TimerEntry {
        TimerEntry { deadline, interval, callback_id: cb_id, active: true, repeat: interval > 0 }
    }

    /// A running timer; it repeats if it has an interval.
    pub fn new(deadline: usize, interval: usize, cb_id: usize) -> (r: Self)
        ensures
            r == TimerEntry::fresh(deadline, interval, cb_id),
    {
        TimerEntry { deadline, interval, callback_id: cb_id, active: true, repeat: interval > 0 }
    }

    /// Whether the timer is due at the tick `now`.
    pub fn expired(&self, now: usize) -> (r: bool)
        ensures
            r == self.is_due(now),
    {
        now > self.deadline
    }

    /// Arms a repeating timer for its next round; stops one that does not repeat.
    pub fn reset(&mut self, now: usize)
        requires
            old(self).repeat ==> now + old(self).interval <= usize::MAX,
        ensures
            *final(self) == old(self).after_reset(now),
    {
        if self.repeat {
            self.deadline = now + self.interval;
        } else {
            self.active = false;
        }
    }

    /// The ticks left until the deadline.
    pub fn remaining(&self, now: usize) -> (r: usize)
        ensures
            r == (if now >= self.deadline {
                0
            } else {
                self.deadline - now
            }),
    {
        if now >= self.deadline {
            0
        } else {
            self.deadline - now
        }
    }

    /// Stops the timer. It leaves its wheel when the clock next reaches its slot.
    pub fn cancel(&mut self)
        ensures
            *final(self) == (TimerEntry { active: false, ..*old(self) }),
    {
        self.active = false;
    }
}

/// Timers by slot: a timer stands in the slot of its deadline.
pub struct TimerWheel {
    pub slots: Vec<Vec<TimerEntry>>,
    pub current_slot: usize,
}

/// The slot of a deadline.
pub open spec fn slot_of(deadline: usize) -> int {
    deadline as int % TIMER_WHEEL_SIZE as int
}

/// The number of running timers among `s`.
pub open spec fn active_in(s: Seq<TimerEntry>) -> nat
    decreases s.len(),
{
    if s.len() == 0 {
        0
    } else {
        active_in(s.drop_last()) + (if s.last().active {
            1nat
        } else {
            0
        })
    }
}

/// The number of running timers in all of `slots`.
pub open spec fn active_total(slots: Seq<Vec<TimerEntry>>) -> nat
    decreases slots.len(),
{
    if slots.len() == 0 {
        0
    } else {
        active_total(slots.drop_last()) + active_in(slots.last()@)
    }
}

/// The timers of a slot that go off at `now`.
pub open spec fn fired_of(slot: Seq<TimerEntry>, now: usize) -> Seq<TimerEntry> {
    slot.filter(|e: TimerEntry| e.active && e.is_due(now))
}

/// The timers of a slot that still run after `now`.
pub open spec fn left_of(slot: Seq<TimerEntry>, now: usize) -> Seq<TimerEntry> {
    slot.filter(|e: TimerEntry| e.active && !e.is_due(now))
}

/// The new timers that the repeating ones of `fired` leave behind.
pub open spec fn rearmed(fired: Seq<TimerEntry>, now: usize) -> Seq<TimerEntry>
    decreases fired.len(),
{
    if fired.len() == 0 {
        Seq::empty()
    } else {
        let e = fired.last();
        if e.repeat {
            rearmed(fired.drop_last(), now).push(
                TimerEntry::fresh((now + e.interval) as usize, e.interval, e.callback_id),
            )
        } else {
            rearmed(fired.drop_last(), now)
        }
    }
}

impl TimerWheel {
    /// The wheel has all its slots, and the hand points at one.
    pub open spec fn wf(self) -> bool {
        &&& self.slots@.len() == TIMER_WHEEL_SIZE
        &&& self.current_slot < TIMER_WHEEL_SIZE
    }

    /// Each timer stands in the slot of its deadline.
    pub open spec fn placed(self) -> bool {
        forall|s: int, i: int|
            0 <= s < self.slots@.len() && 0 <= i < self.slots@[s]@.len() ==> slot_of(
                (#[trigger] self.slots@[s]@[i]).deadline,
            ) == s
    }

    /// The slot that the hand reaches next.
    pub open spec fn next_slot(self) -> int {
        (self.current_slot + 1) % TIMER_WHEEL_SIZE as int
    }

    /// A running timer with the callback stands at position `i` of slot `s`.
    pub open spec fn runs_at(self, cb_id: usize, s: int, i: int) -> bool {
        &&& 0 <= s < self.slots@.len()
        &&& 0 <= i < self.slots@[s]@.len()
        &&& self.slots@[s]@[i].callback_id == cb_id
        &&& self.slots@[s]@[i].active
    }

    /// Position `i` of slot `s` holds the first running timer with the callback.
    pub open spec fn first_running(self, cb_id: usize, s: int, i: int) -> bool {
        &&& self.runs_at(cb_id, s, i)
        &&& forall|s2: int, i2: int|
            (s2 < s || (s2 == s && i2 < i)) ==> !#[trigger] self.runs_at(cb_id, s2, i2)
    }

    /// `post` is this wheel with the timer at position `i` of slot `s` stopped.
    pub open spec fn stopped_at(self, s: int, i: int, post: TimerWheel) -> bool {
        &&& post.current_slot == self.current_slot
        &&& post.slots@.len() == self.slots@.len()
        &&& forall|k: int|
            0 <= k < self.slots@.len() && k != s ==> #[trigger] post.slots@[k] == self.slots@[k]
        &&& post.slots@[s]@ == self.slots@[s]@.update(
            i,
            (TimerEntry { active: false, ..self.slots@[s]@[i] }),
        )
    }

    /// An empty wheel with its hand at slot 0.
    pub fn new() -> (r: Self)
        ensures
            r.wf(),
            r.placed(),
            r.current_slot == 0,
            forall|s: int| 0 <= s < TIMER_WHEEL_SIZE ==> (#[trigger] r.slots@[s])@.len() == 0,
    {
        let mut slots: Vec<Vec<TimerEntry>> = Vec::new();
        let mut k: usize = 0;
        while k < TIMER_WHEEL_SIZE
            invariant
                k <= TIMER_WHEEL_SIZE,
                slots@.len() == k,
                forall|s: int| 0 <= s < k ==> (#[trigger] slots@[s])@.len() == 0,
            decreases TIMER_WHEEL_SIZE - k,
        {
            slots.push(Vec::new());
            k = k + 1;
        }
        TimerWheel { slots, current_slot: 0 }
    }

    /// Puts a timer into the slot of its deadline.
    pub fn add_timer(&mut self, entry: TimerEntry)
        requires
            old(self).wf(),
        ensures
            final(self).wf(),
            old(self).placed() ==> final(self).placed(),
            final(self).current_slot == old(self).current_slot,
            forall|s: int|
                0 <= s < TIMER_WHEEL_SIZE ==> (#[trigger] final(self).slots@[s])@ == (if s
                    == slot_of(entry.deadline) {
                    old(self).slots@[s]@.push(entry)
                } else {
                    old(self).slots@[s]@
                }),
    {
        let slot: usize = entry.deadline % TIMER_WHEEL_SIZE;
        self.slots[slot].push(entry);
        proof {
            if old(self).placed() {
                assert forall|s: int, i: int|
                    0 <= s < self.slots@.len() && 0 <= i < self.slots@[s]@.len() implies slot_of(
                    (#[trigger] self.slots@[s]@[i]).deadline,
                ) == s by {
                    if i < old(self).slots@[s]@.len() {
                        assert(self.slots@[s]@[i] == old(self).slots@[s]@[i]);
                    }
                }
            }
        }
    }

    /// Moves the hand one slot on and returns the timers there that go off at `now`,
    /// those that repeat with their next deadline. Stopped timers of the slot are
    /// dropped, and each repeating one that goes off leaves a new timer in the slot of
    /// that deadline.
    pub fn advance(&mut self, now: usize) -> (r: Vec<TimerEntry>)
        requires
            old(self).wf(),
            forall|i: int|
                0 <= i < old(self).slots@[old(self).next_slot()]@.len() ==> {
                    let e = #[trigger] old(self).slots@[old(self).next_slot()]@[i];
                    e.active && e.is_due(now) && e.repeat ==> now + e.interval <= usize::MAX
                },
        ensures
            final(self).wf(),
            old(self).placed() ==> final(self).placed(),
            final(self).current_slot == old(self).next_slot(),
            ({
                let slot = old(self).slots@[old(self).next_slot()]@;
                let fired = fired_of(slot, now);
                &&& r@.len() == fired.len()
                &&& forall|i: int|
                    0 <= i < r@.len() ==> #[trigger] r@[i] == (if fired[i].repeat {
                        fired[i].after_reset(now)
                    } else {
                        fired[i]
                    })
                &&& forall|s: int|
                    0 <= s < TIMER_WHEEL_SIZE ==> (#[trigger] final(self).slots@[s])@ == (if s
                        == old(self).next_slot() {
                        left_of(slot, now)
                    } else {
                        old(self).slots@[s]@
                    }) + rearmed(fired, now).filter(|e: TimerEntry| slot_of(e.deadline) == s)
            }),
    {
        let cur: usize = (self.current_slot + 1) % TIMER_WHEEL_SIZE;
        self.current_slot = cur;
        let mut fired: Vec<TimerEntry> = Vec::new();
        let mut left: Vec<TimerEntry> = Vec::new();
        let ghost slot = self.slots@[cur as int]@;
        let ghost due = |e: TimerEntry| e.active && e.is_due(now);
        let ghost runs = |e: TimerEntry| e.active && !e.is_due(now);
        let n: usize = self.slots[cur].len();
        let mut i: usize = 0;
        proof {
            assert(slot.take(0).filter(due) =~= Seq::empty() && slot.take(0).filter(runs)
                =~= Seq::empty()) by {
                reveal(Seq::filter);
            }
        }
        while i < n
            invariant
                0 <= i <= n,
                cur < TIMER_WHEEL_SIZE,
                self.slots@.len() == TIMER_WHEEL_SIZE,
                self.current_slot == cur,
                self.slots@ == old(self).slots@,
                slot == self.slots@[cur as int]@,
                n == slot.len(),
                due == (|e: TimerEntry| e.active && e.is_due(now)),
                runs == (|e: TimerEntry| e.active && !e.is_due(now)),
                fired@ == slot.take(i as int).filter(due),
                left@ == slot.take(i as int).filter(runs),
            decreases n - i,
        {
            let e = self.slots[cur][i];
            proof {
                crate::tables::lemma_filter_take(slot, i as int, due);
                crate::tables::lemma_filter_take(slot, i as int, runs);
            }
            if e.active && e.expired(now) {
                fired.push(e);
            } else if e.active {
                left.push(e);
            }
            i = i + 1;
        }
        proof {
            assert(slot.take(n as int) =~= slot);
        }
        let ghost went = fired@;
        proof {
            assert(slot == old(self).slots@[old(self).next_slot()]@);
            assert forall|i: int| 0 <= i < slot.len() implies {
                let e = #[trigger] slot[i];
                e.active && e.is_due(now) && e.repeat ==> now + e.interval <= usize::MAX
            } by {
                assert(old(self).slots@[old(self).next_slot()]@[i] == slot[i]);
            }
            lemma_fired_bound(slot, now);
            assert(went == fired_of(slot, now));
        }
        self.slots.set(cur, left);
        let ghost base = self.slots@;
        proof {
            if old(self).placed() {
                assert forall|i: int| 0 <= i < slot.len() implies slot_of(
                    (#[trigger] slot[i]).deadline,
                ) == cur by {
                    assert(old(self).slots@[cur as int]@[i] == slot[i]);
                }
                lemma_left_placed(slot, now, cur as int);
                assert(left@ == left_of(slot, now));
            }
            assert(self.slots@ == old(self).slots@.update(cur as int, left));
            if old(self).placed() {
                assert forall|s: int, j: int|
                    0 <= s < self.slots@.len() && 0 <= j < self.slots@[s]@.len() implies slot_of(
                    (#[trigger] self.slots@[s]@[j]).deadline,
                ) == s by {
                    if s == cur {
                        assert(self.slots@[s]@[j] == left@[j]);
                    } else {
                        assert(self.slots@[s]@[j] == old(self).slots@[s]@[j]);
                    }
                }
            }
            assert forall|s: int| 0 <= s < TIMER_WHEEL_SIZE implies (#[trigger] self.slots@[s])@
                == base[s]@ + rearmed(went.take(0), now).filter(
                |e: TimerEntry| slot_of(e.deadline) == s,
            ) by {
                lemma_rearm_step(went, now, -1, s);
            }
        }
        let m: usize = fired.len();
        let mut k: usize = 0;
        while k < m
            invariant
                0 <= k <= m,
                m == fired@.len(),
                m == went.len(),
                self.wf(),
                old(self).placed() ==> self.placed(),
                self.current_slot == cur,
                forall|j: int|
                    0 <= j < m ==> (#[trigger] went[j]).repeat ==> now + went[j].interval
                        <= usize::MAX,
                forall|j: int|
                    0 <= j < m ==> #[trigger] fired@[j] == (if j < k && went[j].repeat {
                        went[j].after_reset(now)
                    } else {
                        went[j]
                    }),
                forall|s: int|
                    0 <= s < TIMER_WHEEL_SIZE ==> (#[trigger] self.slots@[s])@ == base[s]@
                        + rearmed(went.take(k as int), now).filter(
                        |e: TimerEntry| slot_of(e.deadline) == s,
                    ),
            decreases m - k,
        {
            let mut t = fired[k];
            let ghost before = self.slots@;
            if t.repeat {
                t.reset(now);
                fired.set(k, t);
                let next = TimerEntry::new(t.deadline, t.interval, t.callback_id);
                self.add_timer(next);
            }
            proof {
                assert forall|s: int| 0 <= s < TIMER_WHEEL_SIZE implies (#[trigger] self.slots@[s])@
                    == base[s]@ + rearmed(went.take(k + 1), now).filter(
                    |e: TimerEntry| slot_of(e.deadline) == s,
                ) by {
                    lemma_rearm_step(went, now, k as int, s);
                    assert(before[s]@ == base[s]@ + rearmed(went.take(k as int), now).filter(
                        |e: TimerEntry| slot_of(e.deadline) == s,
                    ));
                }
            }
            k = k + 1;
        }
        proof {
            assert(went.take(m as int) =~= went);
        }
        fired
    }

    /// Stops the first running timer with the callback, and says whether there was one.
    pub fn cancel(&mut self, cb_id: usize) -> (r: bool)
        ensures
            r <==> exists|s: int, i: int| #[trigger] old(self).runs_at(cb_id, s, i),
            r ==> exists|s: int, i: int|
                #[trigger] old(self).first_running(cb_id, s, i) && old(self).stopped_at(
                    s,
                    i,
                    *final(self),
                ),
            !r ==> *final(self) == *old(self),
    {
        let mut s: usize = 0;
        while s < self.slots.len()
            invariant
                0 <= s <= self.slots@.len(),
                *self == *old(self),
                forall|s2: int, i2: int| s2 < s ==> !#[trigger] self.runs_at(cb_id, s2, i2),
            decreases self.slots@.len() - s,
        {
            let mut i: usize = 0;
            while i < self.slots[s].len()
                invariant
                    0 <= s < self.slots@.len(),
                    0 <= i <= self.slots@[s as int]@.len(),
                    *self == *old(self),
                    forall|s2: int, i2: int|
                        (s2 < s || (s2 == s && i2 < i)) ==> !#[trigger] self.runs_at(
                            cb_id,
                            s2,
                            i2,
                        ),
                decreases self.slots@[s as int]@.len() - i,
            {
                let e = self.slots[s][i];
                if e.callback_id == cb_id && e.active {
                    proof {
                        assert(old(self).runs_at(cb_id, s as int, i as int));
                        assert(old(self).first_running(cb_id, s as int, i as int));
                    }
                    let mut stopped = e;
                    stopped.cancel();
                    self.slots[s].set(i, stopped);
                    proof {
                        assert(old(self).stopped_at(s as int, i as int, *self));
                    }
                    return true;
                }
                proof {
                    assert(!self.runs_at(cb_id, s as int, i as int));
                }
                i = i + 1;
            }
            s = s + 1;
        }
        false
    }

    /// The number of running timers.
    pub fn active_count(&self) -> (r: usize)
        requires
            active_total(self.slots@) <= usize::MAX,
        ensures
            r == active_total(self.slots@),
    {
        let mut total: usize = 0;
        let mut s: usize = 0;
        while s < self.slots.len()
            invariant
                0 <= s <= self.slots@.len(),
                active_total(self.slots@) <= usize::MAX,
                total == active_total(self.slots@.take(s as int)),
            decreases self.slots@.len() - s,
        {
            let ghost here = self.slots@[s as int]@;
            proof {
                lemma_active_take(self.slots@, s as int);
                lemma_active_take(self.slots@, s + 1);
                assert(self.slots@.take(s + 1).drop_last() =~= self.slots@.take(s as int));
            }
            let mut i: usize = 0;
            while i < self.slots[s].len()
                invariant
                    0 <= s < self.slots@.len(),
                    here == self.slots@[s as int]@,
                    0 <= i <= here.len(),
                    total == active_total(self.slots@.take(s as int)) + active_in(
                        here.take(i as int),
                    ),
                    active_total(self.slots@.take(s as int)) + active_in(here) <= usize::MAX,
                decreases here.len() - i,
            {
                proof {
                    lemma_active_prefix(here, i + 1);
                    assert(here.take(i + 1).drop_last() =~= here.take(i as int));
                }
                if self.slots[s][i].active {
                    total = total + 1;
                }
                i = i + 1;
            }
            proof {
                assert(here.take(i as int) =~= here);
            }
            s = s + 1;
        }
        proof {
            assert(self.slots@.take(s as int) =~= self.slots@);
        }
        total
    }
}

/// What fires was in the slot.
proof fn lemma_fired_bound(slot: Seq<TimerEntry>, now: usize)
    requires
        forall|i: int|
            0 <= i < slot.len() ==> {
                let e = #[trigger] slot[i];
                e.active && e.is_due(now) && e.repeat ==> now + e.interval <= usize::MAX
            },
    ensures
        forall|i: int|
            0 <= i < fired_of(slot, now).len() ==> (#[trigger] fired_of(slot, now)[i]).repeat ==> now
                + fired_of(slot, now)[i].interval <= usize::MAX,
{
    let due = |e: TimerEntry| e.active && e.is_due(now);
    assert forall|i: int|
        0 <= i < slot.filter(due).len() && (#[trigger] slot.filter(due)[i]).repeat implies now
        + slot.filter(due)[i].interval <= usize::MAX by {
        crate::tables::lemma_filter_holds(slot, due, slot.filter(due)[i]);
        assert(slot.filter(due).contains(slot.filter(due)[i]));
        let j = choose|j: int| 0 <= j < slot.len() && slot[j] == slot.filter(due)[i];
        assert(slot[j].repeat);
    }
}

/// What stays in a slot keeps its place.
proof fn lemma_left_placed(slot: Seq<TimerEntry>, now: usize, s: int)
    requires
        forall|i: int| 0 <= i < slot.len() ==> slot_of((#[trigger] slot[i]).deadline) == s,
    ensures
        forall|i: int|
            0 <= i < left_of(slot, now).len() ==> slot_of(
                (#[trigger] left_of(slot, now)[i]).deadline,
            ) == s,
{
    let runs = |e: TimerEntry| e.active && !e.is_due(now);
    assert forall|i: int| 0 <= i < slot.filter(runs).len() implies slot_of(
        (#[trigger] slot.filter(runs)[i]).deadline,
    ) == s by {
        crate::tables::lemma_filter_holds(slot, runs, slot.filter(runs)[i]);
        assert(slot.filter(runs).contains(slot.filter(runs)[i]));
        let j = choose|j: int| 0 <= j < slot.len() && slot[j] == slot.filter(runs)[i];
        assert(slot_of(slot[j].deadline) == s);
    }
}

/// One more fired timer adds to slot `s` what it leaves behind there; none at all adds
/// nothing.
proof fn lemma_rearm_step(went: Seq<TimerEntry>, now: usize, k: int, s: int)
    requires
        -1 <= k < went.len(),
    ensures
        ({
            let here = |e: TimerEntry| slot_of(e.deadline) == s;
            let old_add = rearmed(went.take(k), now).filter(here);
            let new_add = rearmed(went.take(k + 1), now).filter(here);
            if k == -1 {
                new_add == Seq::<TimerEntry>::empty()
            } else {
                let e = TimerEntry::fresh(
                    (now + went[k].interval) as usize,
                    went[k].interval,
                    went[k].callback_id,
                );
                new_add == (if went[k].repeat && slot_of(e.deadline) == s {
                    old_add.push(e)
                } else {
                    old_add
                })
            }
        }),
{
    let here = |e: TimerEntry| slot_of(e.deadline) == s;
    reveal(Seq::filter);
    if k >= 0 {
        assert(went.take(k + 1).drop_last() =~= went.take(k));
        if went[k].repeat {
            let e = TimerEntry::fresh(
                (now + went[k].interval) as usize,
                went[k].interval,
                went[k].callback_id,
            );
            assert(rearmed(went.take(k), now).push(e).drop_last() =~= rearmed(went.take(k), now));
        }
    }
}

/// A prefix holds no more running timers than the whole.
proof fn lemma_active_prefix(s: Seq<TimerEntry>, i: int)
    requires
        0 <= i <= s.len(),
    ensures
        active_in(s.take(i)) <= active_in(s),
    decreases s.len() - i,
{
    if i == s.len() {
        assert(s.take(i) =~= s);
    } else {
        lemma_active_prefix(s, i + 1);
        assert(s.take(i + 1).drop_last() =~= s.take(i));
    }
}

/// The first slots hold no more running timers than all of them.
proof fn lemma_active_take(slots: Seq<Vec<TimerEntry>>, i: int)
    requires
        0 <= i <= slots.len(),
    ensures
        active_total(slots.take(i)) <= active_total(slots),
    decreases slots.len() - i,
{
    if i == slots.len() {
        assert(slots.take(i) =~= slots);
    } else {
        lemma_active_take(slots, i + 1);
        assert(slots.take(i + 1).drop_last() =~= slots.take(i));
    }
}

/// Stopping a running timer of a slot lowers its count by one.
proof fn lemma_stop_in_slot(a: Seq<TimerEntry>, i: int)
    requires
        0 <= i < a.len(),
        a[i].active,
    ensures
        active_in(a.update(i, (TimerEntry { active: false, ..a[i] }))) == active_in(a) - 1,
    decreases a.len(),
{
    let b = a.update(i, (TimerEntry { active: false, ..a[i] }));
    if i == a.len() - 1 {
        assert(b.drop_last() =~= a.drop_last());
    } else {
        lemma_stop_in_slot(a.drop_last(), i);
        assert(b.drop_last() =~= a.drop_last().update(
            i,
            (TimerEntry { active: false, ..a[i] }),
        ));
    }
}

/// Slots that differ in one, which has one running timer less, hold one less in all.
proof fn lemma_total_less_one(a: Seq<Vec<TimerEntry>>, b: Seq<Vec<TimerEntry>>, s: int)
    requires
        a.len() == b.len(),
        0 <= s < a.len(),
        forall|k: int| 0 <= k < a.len() && k != s ==> a[k] == b[k],
        active_in(b[s]@) == active_in(a[s]@) - 1,
    ensures
        active_total(b) == active_total(a) - 1,
    decreases a.len(),
{
    if s == a.len() - 1 {
        assert(a.drop_last() =~= b.drop_last());
    } else {
        lemma_total_less_one(a.drop_last(), b.drop_last(), s);
    }
}

/// Stopping a timer leaves one running timer less.
pub proof fn law_cancel_lowers_count(w: TimerWheel, cb_id: usize, s: int, i: int, post: TimerWheel)
    requires
        w.runs_at(cb_id, s, i),
        w.stopped_at(s, i, post),
    ensures
        active_total(post.slots@) == active_total(w.slots@) - 1,
{
    lemma_stop_in_slot(w.slots@[s]@, i);
    lemma_total_less_one(w.slots@, post.slots@, s);
}

/// No timer of a slot goes off early, and none that is due and runs is left there.
pub proof fn law_advance_fires_what_is_due(slot: Seq<TimerEntry>, now: usize, e: TimerEntry)
    ensures
        fired_of(slot, now).contains(e) <==> slot.contains(e) && e.active && now > e.deadline,
        left_of(slot, now).contains(e) <==> slot.contains(e) && e.active && now <= e.deadline,
{
    let due = |x: TimerEntry| x.active && x.is_due(now);
    let runs = |x: TimerEntry| x.active && !x.is_due(now);
    crate::tables::lemma_filter_holds(slot, due, e);
    crate::tables::lemma_filter_holds(slot, runs, e);
}

/// A timer that repeats starts again from now on and stays active; one that does not is over.
/// It repeats if it has an interval.
pub proof fn law_only_repeating_timers_go_on(e: TimerEntry, now: usize)
    requires
        now + e.interval <= usize::MAX,
    ensures
        e.repeat ==> e.after_reset(now).deadline == now + e.interval && e.after_reset(now).active
            == e.active,
        !e.repeat ==> !e.after_reset(now).active && e.after_reset(now).deadline == e.deadline,
        e.after_reset(now).callback_id == e.callback_id && e.after_reset(now).interval == e.interval
            && e.after_reset(now).repeat == e.repeat,
        e.interval > 0 && e.repeat ==> !e.after_reset(now).is_due(now),
        forall|d: usize, i: usize, id: usize|
            (#[trigger] TimerEntry::fresh(d, i, id)).deadline == d && TimerEntry::fresh(
                d,
                i,
                id,
            ).interval == i && TimerEntry::fresh(d, i, id).callback_id == id && TimerEntry::fresh(
                d,
                i,
                id,
            ).active && (TimerEntry::fresh(d, i, id).repeat <==> i > 0),
{
}

/// Of the timers that fired, those that repeat are set again, each once: active, with the same
/// callback and interval, and due an interval from now.
pub proof fn law_repeating_timers_are_set_again(fired: Seq<TimerEntry>, now: usize, e: TimerEntry)
    requires
        fired.contains(e),
        now + e.interval <= usize::MAX,
    ensures
        e.repeat ==> rearmed(fired, now).contains(
            (TimerEntry {
                deadline: (now + e.interval) as usize,
                interval: e.interval,
                callback_id: e.callback_id,
                active: true,
                repeat: e.interval > 0,
            }),
        ),
        rearmed(fired, now).len() <= fired.len(),
        rearmed(fired, now).len() == fired.filter(|x: TimerEntry| x.repeat).len(),
    decreases fired.len(),
{
    lemma_rearmed_len(fired, now);
    lemma_rearmed_holds(fired, now, e);
}

proof fn lemma_rearmed_len(fired: Seq<TimerEntry>, now: usize)
    ensures
        rearmed(fired, now).len() <= fired.len(),
        rearmed(fired, now).len() == fired.filter(|x: TimerEntry| x.repeat).len(),
    decreases fired.len(),
{
    reveal(Seq::filter);
    if fired.len() > 0 {
        lemma_rearmed_len(fired.drop_last(), now);
    }
}

proof fn lemma_rearmed_holds(fired: Seq<TimerEntry>, now: usize, e: TimerEntry)
    requires
        fired.contains(e),
    ensures
        e.repeat ==> rearmed(fired, now).contains(
            TimerEntry::fresh((now + e.interval) as usize, e.interval, e.callback_id),
        ),
    decreases fired.len(),
{
    let t = fired.drop_last();
    let i = choose|i: int| 0 <= i < fired.len() && fired[i] == e;
    let new = TimerEntry::fresh((now + e.interval) as usize, e.interval, e.callback_id);
    let (was, now_set) = (rearmed(t, now), rearmed(fired, now));
    if i < t.len() {
        assert(t[i] == e);
        lemma_rearmed_holds(t, now, e);
        if e.repeat {
            let j = choose|j: int| 0 <= j < was.len() && was[j] == new;
            assert(now_set[j] == new);
        }
    } else if e.repeat {
        assert(now_set[was.len() as int] == new);
    }
}

/// Timers a whole turn of the wheel apart share a slot, others within a turn do not; the wheel
/// goes on slot by slot and begins again behind the last.
pub proof fn law_wheel_goes_round(d: usize, k: int, w: TimerWheel)
    requires
        0 <= k,
        d + k <= usize::MAX,
        w.wf(),
    ensures
        0 <= slot_of(d) < 256,
        slot_of((d + k) as usize) == slot_of(d) <==> k % 256 == 0,
        w.current_slot < 255 ==> w.next_slot() == w.current_slot + 1,
        w.current_slot == 255 ==> w.next_slot() == 0,
{
}

/// The timers that are active are counted, wherever they are.
pub proof fn law_added_timer_is_counted(s: Seq<TimerEntry>, e: TimerEntry)
    ensures
        active_in(s.push(e)) == active_in(s) + if e.active {
            1nat
        } else {
            0nat
        },
        active_in(Seq::<TimerEntry>::empty()) == 0,
{
    assert(s.push(e).drop_last() =~= s);
}

} // verus!
