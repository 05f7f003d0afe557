//! The run queue and the policy by which a task waits in it.

use vstd::prelude::*;

use crate::consts::{PRIO_DEFAULT, SCHED_NORMAL};

verus! {

/// How a task is scheduled. A smaller `prio` goes first; `vruntime` is the time the task
/// has had, scaled by its weight.
#[derive(Clone, Copy)]
pub struct SchedulePolicy {
    pub policy: u8,
    pub prio: i32,
    pub nice: i32,
    pub time_slice: usize,
    pub vruntime: u64,
}

/// The share of processor time that goes with a nice value.
pub open spec fn weight_of(nice: i32) -> u64 {
    if nice < -10 {
        88761
    } else if nice < 0 {
        29154
    } else if nice == 0 {
        1024
    } else if nice < 10 {
        335
    } else {
        110
    }
}

/// How much a task of weight `w` ages in `ticks`.
pub open spec fn aged_by(ticks: u64, w: u64) -> u64 {
    (ticks as int * 1024 / w as int) as u64
}

impl SchedulePolicy {
    /// The policy that a priority gives.
    pub open spec fn of_prio(prio: i32) -> SchedulePolicy {
        SchedulePolicy {
            policy: SCHED_NORMAL,
            prio,
            nice: prio,
            time_slice: (20 - prio) as usize,
            vruntime: 0,
        }
    }

    /// The policy that a task starts with.
    pub open spec fn default_policy() -> SchedulePolicy {
        SchedulePolicy {
            policy: SCHED_NORMAL,
            prio: PRIO_DEFAULT,
            nice: 0,
            time_slice: 10,
            vruntime: 0,
        }
    }

    /// The same policy after the task has run for `ticks`.
    pub open spec fn aged(self, ticks: u64) -> SchedulePolicy {
        SchedulePolicy {
            vruntime: self.vruntime.wrapping_add(aged_by(ticks, weight_of(self.nice))),
            ..self
        }
    }

    /// The same policy with the priority raised by `amount`, as far as it goes.
    pub open spec fn boosted(self, amount: i32) -> SchedulePolicy {
        SchedulePolicy {
            prio: if self.prio - amount < -20 {
                -20i32
            } else {
                (self.prio - amount) as i32
            },
            ..self
        }
    }

    /// The score that orders the queue.
    pub open spec fn rank(self) -> int {
        self.prio * 1000 - self.nice * 50 + (self.vruntime as i64) - weight_of(self.nice)
    }

    /// The score by which a task is taken out.
    pub open spec fn urgency(self) -> int {
        self.prio * 1000 + (self.vruntime as i64) - weight_of(self.nice)
    }

    /// The score by which the next task is looked up.
    pub open spec fn preference(self) -> int {
        self.prio * 100 + (self.vruntime as i64)
    }

    /// The score by which two policies are compared: here the virtual time counts by the
    /// weight, rounded towards zero.
    pub open spec fn standing(self) -> int {
        let v = self.vruntime as i64 as int;
        let w = weight_of(self.nice) as int;
        self.prio * 100 - self.nice * 10 + if v >= 0 {
            v / w
        } else {
            -((-v) / w)
        }
    }

    /// The default policy.
    pub fn new() -> (r: Self)
        ensures
            r == Self::default_policy(),
    {
        SchedulePolicy {
            policy: SCHED_NORMAL,
            prio: PRIO_DEFAULT,
            nice: 0,
            time_slice: 10,
            vruntime: 0,
        }
    }

    /// The policy of a priority. The higher the priority, the longer the time slice.
    pub fn with_prio(prio: i32) -> (r: Self)
        requires
            prio <= 20,
        ensures
            r == Self::of_prio(prio),
    {
        SchedulePolicy {
            policy: SCHED_NORMAL,
            prio,
            nice: prio,
            time_slice: (20 - prio as i64) as usize,
            vruntime: 0,
        }
    }

    /// The weight that the nice value gives.
    pub fn weight(&self) -> (r: u64)
        ensures
            r == weight_of(self.nice),
    {
        if self.nice < -10 {
            88761
        } else if self.nice < 0 {
            29154
        } else if self.nice == 0 {
            1024
        } else if self.nice < 10 {
            335
        } else {
            110
        }
    }

    fn rank_now(&self) -> (r: i128)
        ensures
            r == self.rank(),
    {
        self.prio as i128 * 1000 - self.nice as i128 * 50 + (self.vruntime as i64) as i128
            - self.weight() as i128
    }

    fn urgency_now(&self) -> (r: i128)
        ensures
            r == self.urgency(),
    {
        self.prio as i128 * 1000 + (self.vruntime as i64) as i128 - self.weight() as i128
    }

    fn preference_now(&self) -> (r: i128)
        ensures
            r == self.preference(),
    {
        self.prio as i128 * 100 + (self.vruntime as i64) as i128
    }

    fn standing_now(&self) -> (r: i128)
        ensures
            r == self.standing(),
    {
        let v: i128 = (self.vruntime as i64) as i128;
        let w: u64 = self.weight();
        let scaled: i128 = if v >= 0 {
            (v as u64 / w) as i128
        } else {
            -(((-v) as u64 / w) as i128)
        };
        self.prio as i128 * 100 - self.nice as i128 * 10 + scaled
    }

    fn age(&mut self, ticks: u64)
        requires
            ticks * 1024 <= u64::MAX,
        ensures
            *final(self) == old(self).aged(ticks),
    {
        let w: u64 = self.weight();
        let delta: u64 = (ticks * 1024) / w;
        proof {
            let (t, d) = (ticks as int * 1024, w as int);
            assert(t / d <= t) by (nonlinear_arith)
                requires
                    d > 0,
                    t >= 0,
            ;
        }
        self.vruntime = self.vruntime.wrapping_add(delta);
    }
}

/// A nicer task has no larger weight.
pub proof fn law_weight_falls_with_nice(a: i32, b: i32)
    requires
        a <= b,
    ensures
        weight_of(b) <= weight_of(a),
{
}

/// The larger the weight, the slower a task ages.
pub proof fn law_heavier_ages_slower(ticks: u64, a: u64, b: u64)
    requires
        0 < a <= b,
        ticks * 1024 <= u64::MAX,
    ensures
        aged_by(ticks, b) <= aged_by(ticks, a),
{
    let t = ticks as int * 1024;
    vstd::arithmetic::div_mod::lemma_div_is_ordered_by_denominator(t, a as int, b as int);
    vstd::arithmetic::div_mod::lemma_div_is_ordered_by_denominator(t, 1, a as int);
    vstd::arithmetic::div_mod::lemma_div_pos_is_pos(t, a as int);
    vstd::arithmetic::div_mod::lemma_div_pos_is_pos(t, b as int);
}

/// A task of higher priority gets a longer time slice.
pub proof fn law_higher_priority_gets_longer_slice(a: i32, b: i32)
    requires
        a < b <= 20,
    ensures
        SchedulePolicy::of_prio(a).time_slice > SchedulePolicy::of_prio(b).time_slice,
{
}

/// Priority decides: of two tasks of the same nice value, the one of smaller `prio` is the
/// more urgent as long as their virtual times differ by less than a thousand, and ranks
/// before the other; it is preferred, and stands before the other, as long as they differ by
/// less than a hundred.
pub proof fn law_priority_decides(p: SchedulePolicy, q: SchedulePolicy)
    requires
        p.nice == q.nice,
        p.prio < q.prio,
    ensures
        (p.vruntime as i64) - (q.vruntime as i64) < 1000 ==> p.urgency() < q.urgency() && p.rank()
            < q.rank(),
        (p.vruntime as i64) - (q.vruntime as i64) < 100 ==> p.preference() < q.preference(),
        0 <= (p.vruntime as i64) && 0 <= (q.vruntime as i64) && (p.vruntime as i64) - (
        q.vruntime as i64) < 100 ==> p.standing() < q.standing(),
{
    let (v, u) = (p.vruntime as i64 as int, q.vruntime as i64 as int);
    let w = weight_of(p.nice) as int;
    if 0 <= v && 0 <= u && v - u < 100 {
        vstd::arithmetic::div_mod::lemma_fundamental_div_mod(v, w);
        vstd::arithmetic::div_mod::lemma_fundamental_div_mod(u, w);
        assert(v / w - u / w < 100) by (nonlinear_arith)
            requires
                w >= 100,
                v == w * (v / w) + v % w,
                u == w * (u / w) + u % w,
                0 <= v % w < w,
                0 <= u % w < w,
                v - u < 100,
        ;
    }
}

/// Each step of priority is worth a thousand ticks of virtual time when the queue is ordered
/// and when a task is taken out, and a hundred when the next task is looked up.
pub proof fn law_priority_is_worth_time(p: SchedulePolicy, q: SchedulePolicy)
    requires
        p.nice == q.nice,
    ensures
        p.urgency() - q.urgency() == 1000 * (p.prio - q.prio) + ((p.vruntime as i64) - (
        q.vruntime as i64)),
        p.rank() - q.rank() == p.urgency() - q.urgency(),
        p.preference() - q.preference() == 100 * (p.prio - q.prio) + ((p.vruntime as i64) - (
        q.vruntime as i64)),
{
}

/// Of two tasks of the same priority and nice value, the one that has had less time goes
/// first, and of two that have had the same time, the one of larger weight.
pub proof fn law_less_time_goes_first(p: SchedulePolicy, q: SchedulePolicy)
    requires
        p.prio == q.prio,
        p.vruntime <= q.vruntime <= i64::MAX,
    ensures
        p.nice == q.nice && p.vruntime < q.vruntime ==> p.urgency() < q.urgency() && p.rank()
            < q.rank() && p.preference() < q.preference() && p.standing() <= q.standing(),
        p.vruntime < q.vruntime ==> p.preference() < q.preference(),
        p.vruntime == q.vruntime ==> {
            &&& q.urgency() - p.urgency() == weight_of(p.nice) - weight_of(q.nice)
            &&& q.rank() - p.rank() == weight_of(p.nice) - weight_of(q.nice) - 50 * (q.nice
                - p.nice)
            &&& q.preference() == p.preference()
        },
{
    let (v, u) = (p.vruntime as int, q.vruntime as int);
    let w = weight_of(p.nice) as int;
    vstd::arithmetic::div_mod::lemma_div_is_ordered(v, u, w);
}

/// A task stands by its priority, a hundred a step, less ten for each step of its nice value,
/// and by the whole times that its weight goes into its virtual time.
pub proof fn law_standing_counts_time_by_weight(p: SchedulePolicy, n: int)
    requires
        p.vruntime <= i64::MAX,
        weight_of(p.nice) * n <= p.vruntime < weight_of(p.nice) * (n + 1),
    ensures
        p.standing() == 100 * p.prio - 10 * p.nice + n,
{
    let (v, w) = (p.vruntime as int, weight_of(p.nice) as int);
    assert(w * (n + 1) == w * n + w && w * n == n * w) by (nonlinear_arith);
    vstd::arithmetic::div_mod::lemma_fundamental_div_mod_converse(v, w, n, v - w * n);
}

/// The default weight is that of nice value 0. The best nice values weigh more than 86 times
/// as much and the other good ones 28 times, the worse ones a third and the worst a ninth.
pub proof fn law_weights_are_apart(n: i32)
    ensures
        n == 0 <==> weight_of(n) == 1024,
        n < -10 ==> 86 * 1024 < weight_of(n) < 87 * 1024,
        -10 <= n < 0 ==> 28 * 1024 < weight_of(n) < 29 * 1024,
        0 < n < 10 ==> 3 * weight_of(n) <= 1024 < 4 * weight_of(n),
        10 <= n ==> 9 * weight_of(n) <= 1024 < 10 * weight_of(n),
{
}

/// A task ages by the ticks scaled by its weight, rounded down: at the default weight by one
/// a tick. Nothing else about it changes.
pub proof fn law_age_is_scaled(p: SchedulePolicy, ticks: u64)
    requires
        ticks * 1024 <= u64::MAX,
    ensures
        ({
            let (d, w) = (aged_by(ticks, weight_of(p.nice)) as int, weight_of(p.nice) as int);
            &&& d * w <= ticks * 1024 < (d + 1) * w
            &&& p.nice == 0 ==> d == ticks
            &&& p.vruntime + d <= u64::MAX ==> p.aged(ticks).vruntime == p.vruntime + d
            &&& p.aged(ticks).prio == p.prio && p.aged(ticks).nice == p.nice
            &&& p.aged(ticks).policy == p.policy && p.aged(ticks).time_slice == p.time_slice
        }),
{
    let (t, w) = (ticks as int * 1024, weight_of(p.nice) as int);
    vstd::arithmetic::div_mod::lemma_fundamental_div_mod(t, w);
    vstd::arithmetic::div_mod::lemma_div_is_ordered_by_denominator(t, 1, w);
    vstd::arithmetic::div_mod::lemma_div_pos_is_pos(t, w);
    let d = t / w;
    assert(d * w <= t < (d + 1) * w) by (nonlinear_arith)
        requires
            t == w * d + t % w,
            0 <= t % w < w,
    ;
}

/// Raising a priority never takes it beyond -20, changes nothing else, and in two steps comes
/// to the same as in one.
pub proof fn law_boost_stops_at_the_top(p: SchedulePolicy, a: i32, b: i32)
    requires
        0 <= a,
        0 <= b,
        p.prio >= -20,
        i32::MIN <= p.prio - a - b,
        a + b <= i32::MAX,
    ensures
        -20 <= p.boosted(a).prio <= p.prio,
        p.boosted(a).prio > -20 ==> p.prio - p.boosted(a).prio == a,
        p.prio - p.boosted(a).prio <= a,
        p.boosted(a).boosted(b) == p.boosted((a + b) as i32),
        p.boosted(a).nice == p.nice && p.boosted(a).vruntime == p.vruntime,
        p.boosted(a).time_slice == p.time_slice && p.boosted(a).policy == p.policy,
{
}

/// A task starts in the middle, with no time had.
pub proof fn law_default_is_in_the_middle()
    ensures
        SchedulePolicy::default_policy().nice == 0,
        SchedulePolicy::default_policy().vruntime == 0,
        weight_of(SchedulePolicy::default_policy().nice) == 1024,
        SchedulePolicy::default_policy() == (SchedulePolicy {
            prio: SchedulePolicy::default_policy().prio,
            time_slice: 10,
            ..SchedulePolicy::of_prio(0)
        }),
{
}

/// A task in the queue.
pub type Waiting = (usize, SchedulePolicy);

/// The queue with a task put behind all that rank no higher in number, looking from the
/// end.
pub open spec fn placed(s: Seq<Waiting>, e: Waiting) -> Seq<Waiting>
    decreases s.len(),
{
    if s.len() == 0 || s.last().1.rank() <= e.1.rank() {
        s.push(e)
    } else {
        placed(s.drop_last(), e).push(s.last())
    }
}

/// The tasks ordered by rank; those of equal rank stay in the order they had.
pub open spec fn ranked(s: Seq<Waiting>) -> Seq<Waiting>
    decreases s.len(),
{
    if s.len() == 0 {
        s
    } else {
        placed(ranked(s.drop_last()), s.last())
    }
}

/// No task stands before one of smaller rank.
pub open spec fn in_rank_order(s: Seq<Waiting>) -> bool {
    forall|i: int, j: int| 0 <= i <= j < s.len() ==> s[i].1.rank() <= s[j].1.rank()
}

proof fn lemma_placed(s: Seq<Waiting>, e: Waiting)
    ensures
        placed(s, e).len() == s.len() + 1,
        placed(s, e).to_multiset() == s.to_multiset().insert(e),
        in_rank_order(s) ==> in_rank_order(placed(s, e)),
        forall|i: int|
            0 <= i <= s.len() ==> placed(s, e)[i] == e || exists|k: int|
                0 <= k < s.len() && #[trigger] s[k] == #[trigger] placed(s, e)[i],
    decreases s.len(),
{
    broadcast use vstd::seq_lib::group_to_multiset_ensures;

    let p = placed(s, e);
    if s.len() == 0 || s.last().1.rank() <= e.1.rank() {
        assert forall|i: int| 0 <= i <= s.len() implies p[i] == e || exists|k: int|
            0 <= k < s.len() && #[trigger] s[k] == #[trigger] p[i] by {
            if i < s.len() {
                assert(s[i] == p[i]);
            }
        }
    } else {
        let t = s.drop_last();
        let q = placed(t, e);
        lemma_placed(t, e);
        assert(s =~= t.push(s.last()));
        assert(p.to_multiset() =~= s.to_multiset().insert(e));
        assert forall|i: int| 0 <= i <= s.len() implies p[i] == e || exists|k: int|
            0 <= k < s.len() && #[trigger] s[k] == #[trigger] p[i] by {
            if i < s.len() {
                assert(p[i] == q[i]);
                if q[i] != e {
                    let k = choose|k: int| 0 <= k < t.len() && #[trigger] t[k] == q[i];
                    assert(s[k] == p[i]);
                }
            } else {
                assert(s[s.len() - 1] == p[i]);
            }
        }
        if in_rank_order(s) {
            assert(in_rank_order(t));
            assert forall|i: int, j: int| 0 <= i <= j < p.len() implies p[i].1.rank()
                <= p[j].1.rank() by {
                if j < q.len() {
                    assert(p[i] == q[i] && p[j] == q[j]);
                } else if i < q.len() {
                    assert(p[i] == q[i]);
                    if q[i] != e {
                        let k = choose|k: int| 0 <= k < t.len() && #[trigger] t[k] == q[i];
                        assert(s[k] == q[i]);
                        assert(s[k].1.rank() <= s[s.len() - 1].1.rank());
                    }
                }
            }
        }
    }
}

/// Ranking the tasks puts them in order and neither adds nor loses one.
pub proof fn law_ranking_orders(s: Seq<Waiting>)
    ensures
        in_rank_order(ranked(s)),
        ranked(s).to_multiset() == s.to_multiset(),
        ranked(s).len() == s.len(),
    decreases s.len(),
{
    broadcast use vstd::seq_lib::group_to_multiset_ensures;

    if s.len() > 0 {
        let t = s.drop_last();
        law_ranking_orders(t);
        lemma_placed(ranked(t), s.last());
        assert(s =~= t.push(s.last()));
    }
}

/// The first place at which a score is least.
pub open spec fn first_least(s: Seq<Waiting>, score: spec_fn(SchedulePolicy) -> int) -> int
    decreases s.len(),
{
    if s.len() <= 1 {
        0
    } else {
        let i = first_least(s.drop_last(), score);
        if score(s.last().1) < score(s[i].1) {
            s.len() - 1
        } else {
            i
        }
    }
}

/// The score by which a task is taken out, as a function.
pub open spec fn by_urgency() -> spec_fn(SchedulePolicy) -> int {
    |p: SchedulePolicy| p.urgency()
}

/// The score by which the next task is looked up, as a function.
pub open spec fn by_preference() -> spec_fn(SchedulePolicy) -> int {
    |p: SchedulePolicy| p.preference()
}

/// The place that `first_least` names has the least score, and no earlier place has.
pub proof fn law_first_least(s: Seq<Waiting>, score: spec_fn(SchedulePolicy) -> int)
    requires
        s.len() > 0,
    ensures
        0 <= first_least(s, score) < s.len(),
        forall|k: int|
            0 <= k < s.len() ==> score(s[first_least(s, score)].1) <= score((#[trigger] s[k]).1),
        forall|k: int|
            0 <= k < first_least(s, score) ==> score(s[first_least(s, score)].1) < score(
                (#[trigger] s[k]).1,
            ),
    decreases s.len(),
{
    if s.len() > 1 {
        let t = s.drop_last();
        law_first_least(t, score);
        let i = first_least(t, score);
        assert forall|k: int| 0 <= k < s.len() implies score(s[first_least(s, score)].1)
            <= score((#[trigger] s[k]).1) by {
            if k < t.len() {
                assert(t[k] == s[k]);
            }
        }
        assert forall|k: int| 0 <= k < first_least(s, score) implies score(
            s[first_least(s, score)].1,
        ) < score((#[trigger] s[k]).1) by {
            assert(t[k] == s[k]);
        }
    }
}

/// No task is taken out while one of the same nice value waits that has a smaller `prio` and
/// a virtual time less than a thousand later, or the same `prio` and less time, or the same
/// of both and an earlier place.
pub proof fn law_most_urgent_is_taken(s: Seq<Waiting>, k: int)
    requires
        0 <= k < s.len(),
    ensures
        ({
            let i = first_least(s, by_urgency());
            let (p, q) = (s[i].1, s[k].1);
            let gap = (q.vruntime as i64) - (p.vruntime as i64);
            &&& 0 <= i < s.len()
            &&& q.nice == p.nice && q.prio < p.prio ==> gap >= 1000
            &&& q.nice == p.nice && q.prio == p.prio ==> gap >= 0
            &&& q.nice == p.nice && q.prio == p.prio && gap == 0 ==> i <= k
        }),
{
    law_first_least(s, by_urgency());
    let i = first_least(s, by_urgency());
    assert(by_urgency()(s[i].1) <= by_urgency()(s[k].1));
    if k < i {
        assert(by_urgency()(s[i].1) < by_urgency()(s[k].1));
    }
}

/// No task is named as the next while one waits that has a smaller `prio` and a virtual time
/// less than a hundred later, or the same `prio` and less time, or the same of both and an
/// earlier place.
pub proof fn law_next_is_preferred(s: Seq<Waiting>, k: int)
    requires
        0 <= k < s.len(),
    ensures
        ({
            let i = first_least(s, by_preference());
            let (p, q) = (s[i].1, s[k].1);
            let gap = (q.vruntime as i64) - (p.vruntime as i64);
            &&& 0 <= i < s.len()
            &&& q.prio < p.prio ==> gap >= 100
            &&& q.prio == p.prio ==> gap >= 0
            &&& q.prio == p.prio && gap == 0 ==> i <= k
        }),
{
    law_first_least(s, by_preference());
    let i = first_least(s, by_preference());
    assert(by_preference()(s[i].1) <= by_preference()(s[k].1));
    if k < i {
        assert(by_preference()(s[i].1) < by_preference()(s[k].1));
    }
}

/// A task that is added to an ordered queue comes behind all that rank no higher in number
/// and before all others, which stay in the order they had.
pub proof fn law_added_task_comes_behind_its_equals(s: Seq<Waiting>, e: Waiting)
    requires
        in_rank_order(s),
    ensures
        exists|k: int|
            {
                &&& 0 <= k <= s.len()
                &&& ranked(s.push(e)) == #[trigger] s.insert(k, e)
                &&& forall|j: int| 0 <= j < k ==> (#[trigger] s[j]).1.rank() <= e.1.rank()
                &&& forall|j: int| k <= j < s.len() ==> (#[trigger] s[j]).1.rank() > e.1.rank()
            },
{
    lemma_ranked_stays(s);
    assert(s.push(e).drop_last() =~= s);
    let k = lemma_placed_at(s, e);
    assert(ranked(s.push(e)) == s.insert(k, e));
}

proof fn lemma_ranked_stays(s: Seq<Waiting>)
    requires
        in_rank_order(s),
    ensures
        ranked(s) == s,
    decreases s.len(),
{
    if s.len() > 0 {
        let t = s.drop_last();
        assert(in_rank_order(t));
        lemma_ranked_stays(t);
        if t.len() > 0 {
            assert(s[t.len() - 1].1.rank() <= s[t.len() as int].1.rank());
        }
        assert(t.push(s.last()) =~= s);
    }
}

proof fn lemma_placed_at(s: Seq<Waiting>, e: Waiting) -> (k: int)
    requires
        in_rank_order(s),
    ensures
        0 <= k <= s.len(),
        placed(s, e) == s.insert(k, e),
        forall|j: int| 0 <= j < k ==> (#[trigger] s[j]).1.rank() <= e.1.rank(),
        forall|j: int| k <= j < s.len() ==> (#[trigger] s[j]).1.rank() > e.1.rank(),
    decreases s.len(),
{
    if s.len() == 0 || s.last().1.rank() <= e.1.rank() {
        assert(s.push(e) =~= s.insert(s.len() as int, e));
        assert forall|j: int| 0 <= j < s.len() implies (#[trigger] s[j]).1.rank()
            <= e.1.rank() by {
            assert(s[j].1.rank() <= s[s.len() - 1].1.rank());
        }
        s.len() as int
    } else {
        let t = s.drop_last();
        assert(in_rank_order(t));
        let k = lemma_placed_at(t, e);
        assert(t.insert(k, e).push(s.last()) =~= s.insert(k, e));
        assert forall|j: int| 0 <= j < k implies (#[trigger] s[j]).1.rank() <= e.1.rank() by {
            assert(s[j] == t[j]);
        }
        assert forall|j: int| k <= j < s.len() implies (#[trigger] s[j]).1.rank()
            > e.1.rank() by {
            if j < t.len() {
                assert(s[j] == t[j]);
            }
        }
        k
    }
}

/// Taking a task out of the queue leaves every entry of the others and none of its own.
pub proof fn law_removed_task_is_gone(s: Seq<Waiting>, id: usize, e: Waiting)
    ensures
        s.filter(not_task(id)).contains(e) <==> s.contains(e) && e.0 != id,
{
    crate::tables::lemma_filter_holds(s, not_task(id), e);
}

/// The place of a task is the first at which it stands.
pub proof fn law_place_is_the_first(s: Seq<Waiting>, id: usize)
    ensures
        0 <= place_of(s, id) <= s.len(),
        place_of(s, id) < s.len() ==> s[place_of(s, id)].0 == id,
        forall|k: int| 0 <= k < place_of(s, id) ==> (#[trigger] s[k]).0 != id,
    decreases s.len(),
{
    if s.len() > 0 {
        let t = s.drop_last();
        law_place_is_the_first(t, id);
        assert forall|k: int| 0 <= k < place_of(s, id) implies (#[trigger] s[k]).0 != id by {
            if k < t.len() {
                assert(s[k] == t[k]);
            }
        }
        if place_of(s, id) < t.len() {
            assert(s[place_of(s, id)] == t[place_of(s, id)]);
        }
    }
}

/// Rebalancing loses no task and ages each by the same ticks: what was there is there aged,
/// and the tasks stand by virtual time.
pub proof fn law_rebalance_ages_and_sorts(s: Seq<Waiting>, ticks: u64, i: int)
    requires
        0 <= i < s.len(),
    ensures
        ({
            let out = sorted_up_to(all_aged(s, ticks), s.len() as int);
            &&& out.len() == s.len()
            &&& out.contains((s[i].0, s[i].1.aged(ticks)))
            &&& forall|a: int, b: int|
                0 <= a <= b < out.len() ==> (#[trigger] out[a]).1.vruntime <= (
                #[trigger] out[b]).1.vruntime
        }),
{
    broadcast use vstd::seq_lib::group_to_multiset_ensures;

    let t = all_aged(s, ticks);
    law_sweeps_sort(t, s.len() as int);
    let out = sorted_up_to(t, s.len() as int);
    assert(t[i] == (s[i].0, s[i].1.aged(ticks)));
    assert(t.contains(t[i]));
    assert(t.to_multiset().count(t[i]) > 0);
    assert(out.contains(t[i]));
}

/// The first place of a task in the queue; the length where it has none.
pub open spec fn place_of(s: Seq<Waiting>, id: usize) -> int
    decreases s.len(),
{
    if s.len() == 0 {
        0
    } else {
        let p = place_of(s.drop_last(), id);
        if p < s.len() - 1 || s.last().0 == id {
            p
        } else {
            s.len() as int
        }
    }
}

proof fn lemma_place_of(s: Seq<Waiting>, id: usize, i: int)
    requires
        0 <= i <= s.len(),
        forall|k: int| 0 <= k < i ==> (#[trigger] s[k]).0 != id,
        i < s.len() ==> s[i].0 == id,
    ensures
        place_of(s, id) == i,
    decreases s.len(),
{
    if s.len() > 0 {
        let t = s.drop_last();
        let j = if i < s.len() {
            i
        } else {
            t.len() as int
        };
        lemma_place_of(t, id, j);
    }
}

/// Every task but one.
pub open spec fn not_task(id: usize) -> spec_fn(Waiting) -> bool {
    |e: Waiting| e.0 != id
}

/// Two places exchanged where the later has the smaller virtual time.
pub open spec fn exchanged(s: Seq<Waiting>, i: int, j: int) -> Seq<Waiting> {
    if s[i].1.vruntime > s[j].1.vruntime {
        s.update(i, s[j]).update(j, s[i])
    } else {
        s
    }
}

/// Place `i` compared, and where need be exchanged, with each later place below `j`.
pub open spec fn swept(s: Seq<Waiting>, i: int, j: int) -> Seq<Waiting>
    decreases j - i,
{
    if j <= i + 1 {
        s
    } else {
        exchanged(swept(s, i, j - 1), i, j - 1)
    }
}

/// The queue after the sweeps of the first `n` places.
pub open spec fn sorted_up_to(s: Seq<Waiting>, n: int) -> Seq<Waiting>
    decreases n,
{
    if n <= 0 {
        s
    } else {
        swept(sorted_up_to(s, n - 1), n - 1, s.len() as int)
    }
}

/// Every task aged by the same number of ticks.
pub open spec fn all_aged(s: Seq<Waiting>, ticks: u64) -> Seq<Waiting> {
    s.map_values(|e: Waiting| (e.0, e.1.aged(ticks)))
}

proof fn lemma_exchanged(s: Seq<Waiting>, i: int, j: int)
    requires
        0 <= i < j < s.len(),
    ensures
        exchanged(s, i, j).len() == s.len(),
        exchanged(s, i, j).to_multiset() == s.to_multiset(),
{
    broadcast use vstd::seq_lib::group_to_multiset_ensures;

    if s[i].1.vruntime > s[j].1.vruntime {
        let t = s.update(i, s[j]);
        vstd::seq_lib::to_multiset_update(s, i, s[j]);
        vstd::seq_lib::to_multiset_update(t, j, s[i]);
        assert(t[j] == s[j]);
        let m = s.to_multiset();
        assert(m.contains(s[i]));
        assert(exchanged(s, i, j).to_multiset() =~= m);
    }
}

/// From place `i` on, no virtual time is below `v`.
spec fn from_on(s: Seq<Waiting>, i: int, v: u64) -> bool {
    forall|k: int| i <= k < s.len() ==> v <= (#[trigger] s[k]).1.vruntime
}

proof fn lemma_swept(s: Seq<Waiting>, i: int, j: int)
    requires
        0 <= i < s.len(),
        i + 1 <= j <= s.len(),
    ensures
        swept(s, i, j).len() == s.len(),
        swept(s, i, j).to_multiset() == s.to_multiset(),
        forall|k: int| 0 <= k < i ==> #[trigger] swept(s, i, j)[k] == s[k],
        forall|k: int|
            i <= k < j ==> swept(s, i, j)[i].1.vruntime <= (#[trigger] swept(s, i, j)[k]).1.vruntime,
        forall|v: u64| from_on(s, i, v) ==> #[trigger] from_on(swept(s, i, j), i, v),
    decreases j,
{
    if j > i + 1 {
        lemma_swept(s, i, j - 1);
        let t = swept(s, i, j - 1);
        lemma_exchanged(t, i, j - 1);
        assert forall|v: u64| from_on(s, i, v) implies #[trigger] from_on(
            swept(s, i, j),
            i,
            v,
        ) by {
            assert(from_on(t, i, v));
            assert(v <= t[i].1.vruntime && v <= t[j - 1].1.vruntime);
        }
    }
}

/// The sweeps of all places order the tasks by virtual time and neither add nor lose one.
pub proof fn law_sweeps_sort(s: Seq<Waiting>, n: int)
    requires
        0 <= n <= s.len(),
    ensures
        sorted_up_to(s, n).len() == s.len(),
        sorted_up_to(s, n).to_multiset() == s.to_multiset(),
        forall|a: int, b: int|
            0 <= a < n && a <= b < s.len() ==> (#[trigger] sorted_up_to(s, n)[a]).1.vruntime
                <= (#[trigger] sorted_up_to(s, n)[b]).1.vruntime,
    decreases n,
{
    if n > 0 {
        law_sweeps_sort(s, n - 1);
        let t = sorted_up_to(s, n - 1);
        let u = sorted_up_to(s, n);
        lemma_swept(t, n - 1, s.len() as int);
        assert forall|a: int, b: int| 0 <= a < n && a <= b < s.len() implies (#[trigger] u[a]).1.vruntime
            <= (#[trigger] u[b]).1.vruntime by {
            if a < n - 1 {
                let v = t[a].1.vruntime;
                assert(u[a] == t[a]);
                if b < n - 1 {
                    assert(u[b] == t[b]);
                } else {
                    assert forall|k: int| n - 1 <= k < t.len() implies v <= (#[trigger]
                    t[k]).1.vruntime by {
                        assert(t[a].1.vruntime <= t[k].1.vruntime);
                    }
                    assert(from_on(u, n - 1, v));
                    assert(v <= u[b].1.vruntime);
                }
            }
        }
    }
}

/// The tasks that are ready to run, the one that is running, and how many times preemption
/// has been switched off.
pub struct RunQueue {
    pub queue: Vec<Waiting>,
    pub current: Option<usize>,
    pub preempt_count: usize,
}

impl RunQueue {
    /// An empty queue with no task running.
    pub fn new() -> (r: Self)
        ensures
            r.queue@.len() == 0,
            r.current is None,
            r.preempt_count == 0,
    {
        RunQueue { queue: Vec::new(), current: None, preempt_count: 0 }
    }

    /// Adds a task and orders the queue by rank. A task may stand in the queue more than
    /// once.
    pub fn enqueue(&mut self, task_id: usize, policy: SchedulePolicy)
        ensures
            final(self).queue@ == ranked(old(self).queue@.push((task_id, policy))),
            *final(self) == (RunQueue { queue: final(self).queue, ..*old(self) }),
    {
        self.queue.push((task_id, policy));
        let ghost q = self.queue@;
        let mut out: Vec<Waiting> = Vec::new();
        let mut n: usize = 0;
        while n < self.queue.len()
            invariant
                q == self.queue@,
                0 <= n <= q.len(),
                out@ == ranked(q.take(n as int)),
            decreases q.len() - n,
        {
            let e = self.queue[n];
            Self::place(&mut out, e);
            assert(q.take(n + 1).drop_last() =~= q.take(n as int));
            n += 1;
        }
        assert(q.take(n as int) =~= q);
        self.queue = out;
    }

    fn place(s: &mut Vec<Waiting>, e: Waiting)
        ensures
            final(s)@ == placed(old(s)@, e),
    {
        let ghost whole = s@;
        let mut i: usize = s.len();
        let mine: i128 = e.1.rank_now();
        assert(whole.take(i as int) =~= whole);
        assert(placed(whole, e) + whole.skip(i as int) =~= placed(whole, e));
        while i > 0 && s[i - 1].1.rank_now() > mine
            invariant
                s@ == whole,
                0 <= i <= whole.len(),
                mine == e.1.rank(),
                placed(whole, e) == placed(whole.take(i as int), e) + whole.skip(i as int),
            decreases i,
        {
            proof {
                let t = whole.take(i as int);
                assert(t.drop_last() =~= whole.take(i - 1));
                assert(placed(t, e) == placed(whole.take(i - 1), e).push(whole[i - 1]));
                assert(placed(whole, e) =~= placed(whole.take(i - 1), e) + whole.skip(i - 1));
            }
            i -= 1;
        }
        assert(placed(whole.take(i as int), e) == whole.take(i as int).push(e));
        assert(whole.insert(i as int, e) =~= whole.take(i as int).push(e) + whole.skip(i as int));
        s.insert(i, e);
    }

    /// Takes out the first of the most urgent tasks.
    pub fn dequeue(&mut self) -> (r: Option<Waiting>)
        ensures
            old(self).queue@.len() == 0 ==> r is None && *final(self) == *old(self),
            old(self).queue@.len() > 0 ==> {
                let i = first_least(old(self).queue@, by_urgency());
                r == Some(old(self).queue@[i]) && final(self).queue@ == old(self).queue@.remove(i)
            },
            *final(self) == (RunQueue { queue: final(self).queue, ..*old(self) }),
    {
        if self.queue.len() == 0 {
            return None;
        }
        let ghost q = self.queue@;
        let mut best: usize = 0;
        let mut n: usize = 1;
        while n < self.queue.len()
            invariant
                q == self.queue@,
                1 <= n <= q.len(),
                best < n,
                best == first_least(q.take(n as int), by_urgency()),
            decreases q.len() - n,
        {
            if self.queue[n].1.urgency_now() < self.queue[best].1.urgency_now() {
                best = n;
            }
            assert(q.take(n + 1).drop_last() =~= q.take(n as int));
            n += 1;
        }
        assert(q.take(n as int) =~= q);
        Some(self.queue.remove(best))
    }

    /// The task that should run next; it stays in the queue.
    pub fn pick_next(&self) -> (r: Option<usize>)
        ensures
            self.queue@.len() == 0 ==> r is None,
            self.queue@.len() > 0 ==> r == Some(
                self.queue@[first_least(self.queue@, by_preference())].0,
            ),
    {
        if self.queue.len() == 0 {
            return None;
        }
        let ghost q = self.queue@;
        let mut best: usize = 0;
        let mut n: usize = 1;
        while n < self.queue.len()
            invariant
                q == self.queue@,
                1 <= n <= q.len(),
                best < n,
                best == first_least(q.take(n as int), by_preference()),
            decreases q.len() - n,
        {
            if self.queue[n].1.preference_now() < self.queue[best].1.preference_now() {
                best = n;
            }
            assert(q.take(n + 1).drop_last() =~= q.take(n as int));
            n += 1;
        }
        assert(q.take(n as int) =~= q);
        Some(self.queue[best].0)
    }

    /// Compares two policies by their standing.
    pub fn cmp_priority(a: &SchedulePolicy, b: &SchedulePolicy) -> (r: std::cmp::Ordering)
        ensures
            r == if a.standing() < b.standing() {
                std::cmp::Ordering::Less
            } else if a.standing() > b.standing() {
                std::cmp::Ordering::Greater
            } else {
                std::cmp::Ordering::Equal
            },
    {
        let (sa, sb): (i128, i128) = (a.standing_now(), b.standing_now());
        if sa < sb {
            std::cmp::Ordering::Less
        } else if sa > sb {
            std::cmp::Ordering::Greater
        } else {
            std::cmp::Ordering::Equal
        }
    }

    /// Ages every task by the ticks on the clock and sorts the queue by virtual time.
    pub fn rebalance(&mut self, tick: u64)
        requires
            old(self).queue@.len() > 0 ==> tick * 1024 <= u64::MAX,
        ensures
            final(self).queue@ == sorted_up_to(
                all_aged(old(self).queue@, tick),
                old(self).queue@.len() as int,
            ),
            *final(self) == (RunQueue { queue: final(self).queue, ..*old(self) }),
    {
        let ghost q = self.queue@;
        let ghost want = all_aged(q, tick);
        let len: usize = self.queue.len();
        let mut n: usize = 0;
        while n < len
            invariant
                len == q.len(),
                len > 0 ==> tick * 1024 <= u64::MAX,
                self.queue@.len() == len,
                self.current == old(self).current,
                self.preempt_count == old(self).preempt_count,
                want == all_aged(q, tick),
                forall|k: int| 0 <= k < n ==> #[trigger] self.queue@[k] == want[k],
                forall|k: int| n <= k < len ==> #[trigger] self.queue@[k] == q[k],
            decreases len - n,
        {
            let mut e = self.queue[n];
            e.1.age(tick);
            self.queue[n] = e;
            n += 1;
        }
        assert(self.queue@ =~= want);
        let mut i: usize = 0;
        while i < len
            invariant
                0 <= i <= len,
                len == want.len(),
                self.queue@.len() == len,
                self.current == old(self).current,
                self.preempt_count == old(self).preempt_count,
                self.queue@ == sorted_up_to(want, i as int),
            decreases len - i,
        {
            let ghost t = self.queue@;
            let mut j: usize = i + 1;
            while j < len
                invariant
                    0 <= i < j <= len,
                    len == t.len(),
                    self.queue@.len() == len,
                    self.current == old(self).current,
                    self.preempt_count == old(self).preempt_count,
                    self.queue@ == swept(t, i as int, j as int),
                decreases len - j,
            {
                if self.queue[i].1.vruntime > self.queue[j].1.vruntime {
                    let (a, b) = (self.queue[i], self.queue[j]);
                    self.queue[i] = b;
                    self.queue[j] = a;
                }
                j += 1;
            }
            i += 1;
        }
    }

    /// Names the running task.
    pub fn set_current(&mut self, id: usize)
        ensures
            *final(self) == (RunQueue { current: Some(id), ..*old(self) }),
    {
        self.current = Some(id);
    }

    /// Says that no task is running.
    pub fn clear_current(&mut self)
        ensures
            *final(self) == (RunQueue { current: None, ..*old(self) }),
    {
        self.current = None;
    }

    /// How many tasks are ready.
    pub fn len(&self) -> (r: usize)
        ensures
            r == self.queue@.len(),
    {
        self.queue.len()
    }

    /// Takes a task out of the queue wherever it stands, and says whether it stood there.
    pub fn remove(&mut self, task_id: usize) -> (r: bool)
        ensures
            final(self).queue@ == old(self).queue@.filter(not_task(task_id)),
            r == (final(self).queue@.len() < old(self).queue@.len()),
            *final(self) == (RunQueue { queue: final(self).queue, ..*old(self) }),
    {
        let ghost q = self.queue@;
        let before: usize = self.queue.len();
        let mut i: usize = 0;
        let ghost mut seen: int = 0;
        let ghost mut kept = Seq::<Waiting>::empty();
        proof {
            assert(q.take(0).filter(not_task(task_id)) =~= kept) by {
                reveal(Seq::filter);
            }
            assert(kept + q.skip(0) =~= q);
        }
        while i < self.queue.len()
            invariant
                self.queue@ == kept + q.skip(seen),
                0 <= seen <= q.len(),
                i == kept.len(),
                kept == q.take(seen).filter(not_task(task_id)),
                self.current == old(self).current,
                self.preempt_count == old(self).preempt_count,
            decreases q.len() - seen,
        {
            proof {
                assert(seen < q.len());
                crate::tables::lemma_shift(kept, q, seen);
                crate::tables::lemma_filter_take(q, seen, not_task(task_id));
            }
            if self.queue[i].0 == task_id {
                let _gone = self.queue.remove(i);
            } else {
                proof {
                    kept = kept.push(q[seen]);
                }
                i += 1;
            }
            proof {
                seen = seen + 1;
            }
        }
        proof {
            assert(seen == q.len());
            assert(q.take(seen) =~= q);
            assert(kept + q.skip(seen) =~= kept);
        }
        self.queue.len() < before
    }

    /// Ages the first entry of a task.
    pub fn update_vruntime(&mut self, task_id: usize, delta: u64)
        requires
            place_of(old(self).queue@, task_id) < old(self).queue@.len() ==> delta * 1024
                <= u64::MAX,
        ensures
            final(self).queue@ == ({
                let (q, i) = (old(self).queue@, place_of(old(self).queue@, task_id));
                if i < q.len() {
                    q.update(i, (q[i].0, q[i].1.aged(delta)))
                } else {
                    q
                }
            }),
            *final(self) == (RunQueue { queue: final(self).queue, ..*old(self) }),
    {
        let i: usize = self.position(task_id);
        if i < self.queue.len() {
            let mut e = self.queue[i];
            e.1.age(delta);
            self.queue[i] = e;
        }
    }

    fn position(&self, task_id: usize) -> (r: usize)
        ensures
            r == place_of(self.queue@, task_id),
            0 <= r <= self.queue@.len(),
    {
        let mut i: usize = 0;
        while i < self.queue.len() && self.queue[i].0 != task_id
            invariant
                i <= self.queue@.len(),
                forall|k: int| 0 <= k < i ==> (#[trigger] self.queue@[k]).0 != task_id,
            decreases self.queue@.len() - i,
        {
            i += 1;
        }
        proof {
            lemma_place_of(self.queue@, task_id, i as int);
        }
        i
    }

    /// Switches preemption off once more.
    pub fn preempt_disable(&mut self)
        ensures
            *final(self) == (RunQueue {
                preempt_count: old(self).preempt_count.wrapping_add(1),
                ..*old(self)
            }),
    {
        self.preempt_count = self.preempt_count.wrapping_add(1);
    }

    /// Takes one switching off back.
    pub fn preempt_enable(&mut self)
        ensures
            *final(self) == (RunQueue {
                preempt_count: old(self).preempt_count.wrapping_sub(1),
                ..*old(self)
            }),
    {
        self.preempt_count = self.preempt_count.wrapping_sub(1);
    }

    /// Whether the running task may be preempted.
    pub fn preemptible(&self) -> (r: bool)
        ensures
            r == (self.preempt_count == 0),
    {
        self.preempt_count == 0
    }

    /// Raises the priority of the first entry of a task, at most to -20.
    pub fn boost_priority(&mut self, task_id: usize, amount: i32)
        requires
            ({
                let (q, i) = (old(self).queue@, place_of(old(self).queue@, task_id));
                i < q.len() ==> i32::MIN <= q[i].1.prio - amount <= i32::MAX
            }),
        ensures
            final(self).queue@ == ({
                let (q, i) = (old(self).queue@, place_of(old(self).queue@, task_id));
                if i < q.len() {
                    q.update(i, (q[i].0, q[i].1.boosted(amount)))
                } else {
                    q
                }
            }),
            *final(self) == (RunQueue { queue: final(self).queue, ..*old(self) }),
    {
        let i: usize = self.position(task_id);
        if i < self.queue.len() {
            let mut e = self.queue[i];
            let raised: i32 = e.1.prio - amount;
            e.1.prio = if raised < -20 {
                -20
            } else {
                raised
            };
            self.queue[i] = e;
        }
    }

    /// Puts the running task at the end of the queue with the default policy. Says whether
    /// there was one.
    pub fn yield_current(&mut self) -> (r: bool)
        ensures
            r == (old(self).current is Some),
            old(self).current is None ==> *final(self) == *old(self),
            old(self).current is Some ==> final(self).queue@ == old(self).queue@.push(
                (old(self).current->0, SchedulePolicy::default_policy()),
            ),
            *final(self) == (RunQueue { queue: final(self).queue, current: None, ..*old(self) }),
    {
        match self.current {
            Some(id) => {
                self.current = None;
                self.queue.push((id, SchedulePolicy::new()));
                true
            },
            None => false,
        }
    }
}

/// Switching preemption off and on again changes nothing.
pub proof fn law_preempt_enable_undoes_disable(a: RunQueue, b: RunQueue, c: RunQueue)
    requires
        b == (RunQueue { preempt_count: a.preempt_count.wrapping_add(1), ..a }),
        c == (RunQueue { preempt_count: b.preempt_count.wrapping_sub(1), ..b }),
    ensures
        c == a,
{
}

/// Two places are exchanged where the later one has less virtual time, and only then: those
/// with equal time keep their places.
pub proof fn law_equal_times_keep_their_places(s: Seq<Waiting>, i: int, j: int, k: int)
    requires
        0 <= i < j < s.len(),
        0 <= k < s.len(),
    ensures
        s[i].1.vruntime <= s[j].1.vruntime ==> exchanged(s, i, j) == s,
        s[i].1.vruntime > s[j].1.vruntime ==> {
            &&& exchanged(s, i, j).len() == s.len()
            &&& exchanged(s, i, j)[i] == s[j]
            &&& exchanged(s, i, j)[j] == s[i]
            &&& k != i && k != j ==> exchanged(s, i, j)[k] == s[k]
        },
{
}

} // verus!
