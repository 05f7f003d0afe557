//! The queue of a disk, served like a lift: on in one direction while there are requests
//! there, and then back.
use crate::consts::IOQUEUE_DEPTH;
use std::collections::VecDeque;
use vstd::prelude::*;

verus! {

/// A request for a block.
#[derive(Clone, Copy, PartialEq, Eq, Structural, Debug)]
pub struct IoRequest {
    pub block: usize,
    pub write: bool,
    pub priority: u8,
    pub submitted_tick: usize,
}

/// The requests of a disk in the order in which they came, with where its head stands
/// and which way it goes.
pub struct IoQueue {
    pub pending: VecDeque<IoRequest>,
    pub head_pos: usize,
    pub direction_up: bool,
    pub dispatched: usize,
    pub merged: usize,
}

/// How far off a block is for a head that goes up or down. What lies behind the head
/// counts as half the number range further off.
pub open spec fn distance(up: bool, head: usize, block: usize) -> int {
    if up {
        if block >= head {
            block - head
        } else {
            usize::MAX / 2 + block
        }
    } else {
        if block <= head {
            head - block
        } else {
            usize::MAX / 2 + head
        }
    }
}

/// The request `i` is nearest, and the first of those that are as near.
pub open spec fn is_nearest(q: Seq<IoRequest>, up: bool, head: usize, i: int) -> bool {
    &&& 0 <= i < q.len()
    &&& forall|j: int|
        0 <= j < q.len() ==> distance(up, head, q[i].block) <= distance(
            up,
            head,
            (#[trigger] q[j]).block,
        )
    &&& forall|j: int|
        0 <= j < i ==> distance(up, head, q[i].block) < distance(
            up,
            head,
            (#[trigger] q[j]).block,
        )
}

/// Which way the head goes after serving `block`, with `rest` left.
pub open spec fn next_up(up: bool, head: usize, block: usize, rest: Seq<IoRequest>) -> bool {
    if up && block >= head && (forall|j: int| 0 <= j < rest.len() ==> (#[trigger] rest[j]).block
        < block) {
        false
    } else if !up && block <= head && (forall|j: int|
        0 <= j < rest.len() ==> (#[trigger] rest[j]).block > block) {
        true
    } else {
        up
    }
}

/// The requests without those that ask in the same direction for the block behind that
/// of the request kept last.
pub open spec fn merged(q: Seq<IoRequest>) -> Seq<IoRequest>
    decreases q.len(),
{
    if q.len() == 0 {
        q
    } else {
        let m = merged(q.drop_last());
        if m.len() > 0 && m.last().block + 1 == q.last().block && m.last().write
            == q.last().write {
            m
        } else {
            m.push(q.last())
        }
    }
}

/// No request that another one is held against asks for the last block that can be
/// counted.
pub open spec fn can_merge(q: Seq<IoRequest>) -> bool {
    forall|k: int| 0 < k < q.len() ==> (#[trigger] merged(q.take(k))).last().block < usize::MAX
}

/// The request for a block at a tick.
pub open spec fn request(blk: usize, write: bool, priority: u8, now: usize) -> IoRequest {
    IoRequest { block: blk, write, priority, submitted_tick: now }
}

/// The requests of a batch at a tick.
pub open spec fn batch(reqs: Seq<(usize, bool, u8)>, now: usize) -> Seq<IoRequest> {
    Seq::new(reqs.len(), |i: int| request(reqs[i].0, reqs[i].1, reqs[i].2, now))
}

proof fn lemma_merged_bounds(q: Seq<IoRequest>)
    ensures
        merged(q).len() <= q.len(),
        q.len() > 0 ==> merged(q).len() > 0,
    decreases q.len(),
{
    if q.len() > 0 {
        lemma_merged_bounds(q.drop_last());
    }
}

impl IoQueue {
    /// The queues differ in what is pending at most.
    pub open spec fn same_but_pending(self, post: IoQueue) -> bool {
        &&& post.head_pos == self.head_pos
        &&& post.direction_up == self.direction_up
        &&& post.dispatched == self.dispatched
        &&& post.merged == self.merged
    }

    /// A batch makes the queue so deep that it is merged.
    pub open spec fn too_deep(len: nat) -> bool {
        (len as usize) as i32 > IOQUEUE_DEPTH as i32
    }

    /// An empty queue with the head at block 0, going up.
    pub fn new() -> (r: Self)
        ensures
            r.pending@.len() == 0,
            r.head_pos == 0,
            r.direction_up,
            r.dispatched == 0,
            r.merged == 0,
    {
        IoQueue {
            pending: VecDeque::new(),
            head_pos: 0,
            direction_up: true,
            dispatched: 0,
            merged: 0,
        }
    }

    /// Queues a request.
    pub fn submit(&mut self, blk: usize, write: bool, priority: u8, now: usize)
        ensures
            final(self).pending@ == old(self).pending@.push(request(blk, write, priority, now)),
            old(self).same_but_pending(*final(self)),
    {
        self.pending.push_back(IoRequest { block: blk, write, priority, submitted_tick: now });
    }

    /// Queues a batch of requests, and says how many they were. A queue that is too deep
    /// after that is merged.
    pub fn submit_batch(&mut self, requests: &[(usize, bool, u8)], now: usize) -> (r: usize)
        requires
            ({
                let all = old(self).pending@ + batch(requests@, now);
                IoQueue::too_deep(all.len()) ==> can_merge(all)
            }),
        ensures
            r == requests@.len(),
            final(self).head_pos == old(self).head_pos,
            final(self).direction_up == old(self).direction_up,
            final(self).dispatched == old(self).dispatched,
            ({
                let all = old(self).pending@ + batch(requests@, now);
                if IoQueue::too_deep(all.len()) {
                    &&& final(self).pending@ == merged(all)
                    &&& final(self).merged == old(self).merged.wrapping_add(
                        (all.len() - merged(all).len()) as usize,
                    )
                } else {
                    final(self).pending@ == all && final(self).merged == old(self).merged
                }
            }),
    {
        let mut i: usize = 0;
        proof {
            assert(old(self).pending@ + batch(requests@.take(0), now) =~= old(self).pending@);
        }
        while i < requests.len()
            invariant
                i <= requests@.len(),
                self.pending@ == old(self).pending@ + batch(requests@.take(i as int), now),
                old(self).same_but_pending(*self),
            decreases requests@.len() - i,
        {
            let (blk, wr, prio) = requests[i];
            self.submit(blk, wr, prio, now);
            proof {
                assert(batch(requests@.take(i + 1), now) =~= batch(
                    requests@.take(i as int),
                    now,
                ).push(request(blk, wr, prio, now)));
                assert(self.pending@ =~= old(self).pending@ + batch(requests@.take(i + 1), now));
            }
            i = i + 1;
        }
        proof {
            assert(requests@.take(i as int) =~= requests@);
        }
        let depth: i32 = self.pending.len() as i32;
        if depth > IOQUEUE_DEPTH as i32 {
            let _ = self.merge_adjacent();
        }
        requests.len()
    }

    /// What the search for the nearest request computes fits.
    pub open spec fn distances_fit(self) -> bool {
        forall|j: int|
            0 <= j < self.pending@.len() ==> distance(
                self.direction_up,
                self.head_pos,
                (#[trigger] self.pending@[j]).block,
            ) <= usize::MAX
    }

    /// `post` is this queue once the request `i` has been served.
    pub open spec fn served(self, i: int, post: IoQueue) -> bool {
        let block = self.pending@[i].block;
        &&& post.pending@ == self.pending@.remove(i)
        &&& post.head_pos == block
        &&& post.direction_up == next_up(
            self.direction_up,
            self.head_pos,
            block,
            self.pending@.remove(i),
        )
        &&& post.dispatched == self.dispatched.wrapping_add(1)
        &&& post.merged == self.merged
    }

    /// Serves the nearest request: its block, and whether it writes.
    pub fn dispatch(&mut self) -> (r: Option<(usize, bool)>)
        requires
            old(self).distances_fit(),
        ensures
            old(self).pending@.len() == 0 ==> r is None && *final(self) == *old(self),
            old(self).pending@.len() > 0 ==> exists|i: int| #[trigger]
                is_nearest(old(self).pending@, old(self).direction_up, old(self).head_pos, i) && r
                    == Some((old(self).pending@[i].block, old(self).pending@[i].write)) && old(
                    self).served(i, *final(self)),
    {
        if self.pending.len() == 0 {
            return None;
        }
        let head: usize = self.head_pos;
        let up = self.direction_up;
        let ghost q = self.pending@;
        let mut best: usize = 0;
        let mut best_dist: usize = usize::MAX;
        let mut i: usize = 0;
        while i < self.pending.len()
            invariant
                *self == *old(self),
                q == self.pending@,
                up == self.direction_up,
                head == self.head_pos,
                self.distances_fit(),
                i <= q.len(),
                best < q.len(),
                best <= i,
                i == 0 ==> best == 0 && best_dist == usize::MAX,
                best_dist < usize::MAX ==> best < i && best_dist == distance(
                    up,
                    head,
                    q[best as int].block,
                ),
                best_dist == usize::MAX ==> best == 0,
                forall|j: int|
                    0 <= j < i ==> best_dist <= distance(up, head, (#[trigger] q[j]).block),
                forall|j: int|
                    0 <= j < best ==> best_dist < distance(up, head, (#[trigger] q[j]).block),
            decreases q.len() - i,
        {
            let block: usize = self.pending[i].block;
            proof {
                assert(distance(up, head, q[i as int].block) <= usize::MAX);
            }
            let dist: usize = if up {
                if block >= head {
                    block - head
                } else {
                    usize::MAX / 2 + block
                }
            } else {
                if block <= head {
                    head - block
                } else {
                    usize::MAX / 2 + head
                }
            };
            if dist < best_dist {
                best_dist = dist;
                best = i;
            }
            i = i + 1;
        }
        proof {
            assert(distance(up, head, q[best as int].block) <= usize::MAX);
            assert(is_nearest(q, up, head, best as int));
        }
        let req = self.pending[best];
        let _ = self.pending.remove(best);
        self.head_pos = req.block;
        if up && req.block >= head {
            if self.all_on_side(req.block, false) {
                self.direction_up = false;
            }
        } else if !up && req.block <= head {
            if self.all_on_side(req.block, true) {
                self.direction_up = true;
            }
        }
        self.dispatched = self.dispatched.wrapping_add(1);
        proof {
            assert(old(self).served(best as int, *self));
        }
        Some((req.block, req.write))
    }

    /// Whether all that is pending lies above the block, or all below it.
    fn all_on_side(&self, block: usize, above: bool) -> (r: bool)
        ensures
            r == forall|j: int|
                0 <= j < self.pending@.len() ==> if above {
                    (#[trigger] self.pending@[j]).block > block
                } else {
                    self.pending@[j].block < block
                },
    {
        let mut i: usize = 0;
        while i < self.pending.len()
            invariant
                i <= self.pending@.len(),
                forall|j: int|
                    0 <= j < i ==> if above {
                        (#[trigger] self.pending@[j]).block > block
                    } else {
                        self.pending@[j].block < block
                    },
            decreases self.pending@.len() - i,
        {
            let b: usize = self.pending[i].block;
            let fits = if above {
                b > block
            } else {
                b < block
            };
            if !fits {
                return false;
            }
            i = i + 1;
        }
        true
    }

    /// Merges each request into the one before it that asks in the same direction for
    /// the block before, and says how many were merged.
    pub fn merge_adjacent(&mut self) -> (r: usize)
        requires
            can_merge(old(self).pending@),
        ensures
            final(self).pending@ == merged(old(self).pending@),
            r == old(self).pending@.len() - merged(old(self).pending@).len(),
            final(self).merged == old(self).merged.wrapping_add(r),
            final(self).head_pos == old(self).head_pos,
            final(self).direction_up == old(self).direction_up,
            final(self).dispatched == old(self).dispatched,
    {
        let ghost q = self.pending@;
        let mut kept: VecDeque<IoRequest> = VecDeque::new();
        let mut count: usize = 0;
        let mut i: usize = 0;
        while i < self.pending.len()
            invariant
                *self == *old(self),
                q == self.pending@,
                can_merge(q),
                i <= q.len(),
                kept@ == merged(q.take(i as int)),
                count == i - kept@.len(),
            decreases q.len() - i,
        {
            let x = self.pending[i];
            proof {
                assert(q.take(i + 1).drop_last() =~= q.take(i as int));
                lemma_merged_bounds(q.take(i as int));
                if i > 0 {
                    assert(merged(q.take(i as int)).last().block < usize::MAX);
                }
            }
            let n: usize = kept.len();
            let joins = n > 0 && kept[n - 1].block + 1 == x.block && kept[n - 1].write == x.write;
            if joins {
                count = count + 1;
            } else {
                kept.push_back(x);
            }
            i = i + 1;
        }
        proof {
            assert(q.take(i as int) =~= q);
        }
        self.pending = kept;
        self.merged = self.merged.wrapping_add(count);
        count
    }

    /// The number of requests that are pending.
    pub fn depth(&self) -> (r: usize)
        ensures
            r == self.pending@.len(),
    {
        self.pending.len()
    }
}

/// While there is a request ahead within half the number range, the head does not turn
/// round: it serves the nearest one ahead.
pub proof fn law_head_goes_on(q: Seq<IoRequest>, up: bool, head: usize, i: int, ahead: int)
    requires
        is_nearest(q, up, head, i),
        0 <= ahead < q.len(),
        if up {
            head <= q[ahead].block && q[ahead].block - head < usize::MAX / 2
        } else {
            q[ahead].block <= head && head - q[ahead].block < usize::MAX / 2
        },
    ensures
        if up {
            head <= q[i].block <= q[ahead].block
        } else {
            q[ahead].block <= q[i].block <= head
        },
{
    assert(distance(up, head, q[i].block) <= distance(up, head, q[ahead].block));
}

/// With no request ahead, the head turns to what is behind it: going up, it serves the lowest
/// block, and going down, the request that came first.
pub proof fn law_head_turns_back(q: Seq<IoRequest>, up: bool, head: usize, i: int)
    requires
        is_nearest(q, up, head, i),
        forall|j: int|
            0 <= j < q.len() ==> if up {
                (#[trigger] q[j]).block < head
            } else {
                q[j].block > head
            },
    ensures
        up ==> forall|j: int| 0 <= j < q.len() ==> q[i].block <= (#[trigger] q[j]).block,
        !up ==> i == 0,
{
    if up {
        assert forall|j: int| 0 <= j < q.len() implies q[i].block <= (#[trigger] q[j]).block by {
            assert(distance(up, head, q[i].block) <= distance(up, head, q[j].block));
        }
    } else if i > 0 {
        assert(distance(up, head, q[i].block) < distance(up, head, q[0].block));
        assert(q[0].block > head);
    }
}

/// The head goes on in its direction while anything is left there, and turns round when all
/// that is left lies on the other side of the block it served.
pub proof fn law_direction_follows_what_is_left(
    up: bool,
    head: usize,
    block: usize,
    rest: Seq<IoRequest>,
    j: int,
)
    requires
        0 <= j < rest.len(),
        if up {
            head <= block
        } else {
            block <= head
        },
    ensures
        up && rest[j].block >= block ==> next_up(up, head, block, rest),
        !up && rest[j].block <= block ==> !next_up(up, head, block, rest),
        (forall|k: int|
            0 <= k < rest.len() ==> if up {
                (#[trigger] rest[k]).block < block
            } else {
                rest[k].block > block
            }) ==> next_up(up, head, block, rest) == !up,
{
    if up {
        assert(rest[j].block >= block ==> !(forall|k: int|
            0 <= k < rest.len() ==> (#[trigger] rest[k]).block < block));
    }
}

/// Serving a request moves the head to its block and leaves the count of merges alone; one
/// more has been served.
pub proof fn law_head_moves_to_the_block(a: IoQueue, i: int, b: IoQueue)
    requires
        0 <= i < a.pending@.len(),
        a.served(i, b),
    ensures
        b.head_pos == a.pending@[i].block,
        b.merged == a.merged,
        a.dispatched < usize::MAX ==> b.dispatched == a.dispatched + 1,
        forall|j: int| 0 <= j < i ==> #[trigger] b.pending@[j] == a.pending@[j],
        forall|j: int| i < j < a.pending@.len() ==> b.pending@[j - 1] == #[trigger] a.pending@[j],
{
}

/// A batch asks for what is in it, in its order, at one tick.
pub proof fn law_batch_is_what_was_asked(reqs: Seq<(usize, bool, u8)>, now: usize, i: int)
    requires
        0 <= i < reqs.len(),
    ensures
        batch(reqs, now).len() == reqs.len(),
        batch(reqs, now)[i].block == reqs[i].0,
        batch(reqs, now)[i].write == reqs[i].1,
        batch(reqs, now)[i].priority == reqs[i].2,
        batch(reqs, now)[i].submitted_tick == now,
{
}

/// A queue is merged by a batch only when more requests than it is meant for are pending.
pub proof fn law_only_deep_queues_are_merged(len: nat)
    requires
        len <= i32::MAX,
    ensures
        IoQueue::too_deep(len) <==> len > IOQUEUE_DEPTH,
{
    assert((len as usize) as i32 == len);
}

/// Each request is served once: what is served leaves the queue, and nothing else does.
pub proof fn law_dispatch_serves_one(a: IoQueue, i: int, b: IoQueue)
    requires
        0 <= i < a.pending@.len(),
        a.served(i, b),
    ensures
        b.pending@.len() == a.pending@.len() - 1,
        b.pending@.to_multiset().insert(a.pending@[i]) == a.pending@.to_multiset(),
{
    broadcast use vstd::seq_lib::group_to_multiset_ensures;

    let s = a.pending@;
    assert(s.remove(i).to_multiset() =~= s.to_multiset().remove(s[i]));
    assert(s.to_multiset().contains(s[i])) by {
        assert(s.contains(s[i]));
    }
    assert(b.pending@.to_multiset().insert(s[i]) =~= s.to_multiset());
}

/// The requests of `m` are those at the places `at` of `q`, in the same order.
pub open spec fn taken_from(q: Seq<IoRequest>, at: Seq<int>, m: Seq<IoRequest>) -> bool {
    &&& at.len() == m.len()
    &&& forall|j: int| 0 <= j < at.len() ==> 0 <= #[trigger] at[j] < q.len() && m[j] == q[at[j]]
    &&& forall|j: int, k: int| 0 <= j < k < at.len() ==> #[trigger] at[j] < #[trigger] at[k]
}

/// The request at place `i` follows on the kept request `j`, which is the last one before it:
/// it asks in the same direction for the block behind.
pub open spec fn follows_on(q: Seq<IoRequest>, at: Seq<int>, j: int, i: int) -> bool {
    &&& 0 <= j < at.len()
    &&& at[j] < i
    &&& j + 1 < at.len() ==> i < at[j + 1]
    &&& q[i].block == q[at[j]].block + 1
    &&& q[i].write == q[at[j]].write
}

/// The request at place `i` is kept or follows on one that is.
pub open spec fn accounted_for(q: Seq<IoRequest>, at: Seq<int>, i: int) -> bool {
    at.contains(i) || exists|j: int| follows_on(q, at, j, i)
}

/// Merging only joins requests of one direction: the requests that are kept keep their order,
/// the first among them, and each one left out asks in the same direction as the request kept
/// last before it for the block behind that one's. So no write is lost behind a read.
pub proof fn law_merge_joins_one_direction(q: Seq<IoRequest>)
    ensures
        exists|at: Seq<int>|
            {
                &&& #[trigger] taken_from(q, at, merged(q))
                &&& q.len() > 0 ==> at.len() > 0 && at[0] == 0
                &&& forall|i: int| 0 <= i < q.len() ==> #[trigger] accounted_for(q, at, i)
            },
        forall|j: int, k: int|
            #![trigger merged(q)[j], merged(q)[k]]
            0 <= j < merged(q).len() - 1 && k == j + 1 && merged(q)[j].write == merged(q)[k].write
                ==> merged(q)[k].block != merged(q)[j].block + 1,
{
    let at = lemma_merged_places(q);
    assert(taken_from(q, at, merged(q)));
}

/// A queue in which no two neighbours go in the same direction is left as it is, and so is
/// one in which no request asks for the block behind that of the one before it.
pub proof fn law_unlike_neighbours_stay(q: Seq<IoRequest>)
    requires
        forall|i: int|
            #![trigger q[i]]
            0 < i < q.len() ==> q[i].write != q[i - 1].write || q[i].block != q[i - 1].block + 1,
    ensures
        merged(q) == q,
    decreases q.len(),
{
    if q.len() > 0 {
        let t = q.drop_last();
        assert forall|i: int|
            #![trigger t[i]]
            0 < i < t.len() implies t[i].write != t[i - 1].write || t[i].block != t[i - 1].block
            + 1 by {
            assert(t[i] == q[i] && t[i - 1] == q[i - 1]);
        }
        law_unlike_neighbours_stay(t);
        if t.len() > 0 {
            assert(q[t.len() as int].write != q[t.len() - 1].write || q[t.len() as int].block
                != q[t.len() - 1].block + 1);
        }
        assert(t.push(q.last()) =~= q);
    }
}

/// A request right behind another for the block before in the same direction is merged into
/// it, if that one is kept.
pub proof fn law_next_block_is_merged(q: Seq<IoRequest>, x: IoRequest)
    requires
        q.len() > 0,
        merged(q).len() > 0,
        merged(q).last() == q.last(),
        x.write == q.last().write,
        x.block == q.last().block + 1,
    ensures
        merged(q.push(x)) == merged(q),
{
    assert(q.push(x).drop_last() =~= q);
}

proof fn lemma_merged_places(q: Seq<IoRequest>) -> (at: Seq<int>)
    ensures
        taken_from(q, at, merged(q)),
        q.len() > 0 ==> at.len() > 0 && at[0] == 0,
        forall|i: int| 0 <= i < q.len() ==> #[trigger] accounted_for(q, at, i),
        forall|j: int, k: int|
            #![trigger merged(q)[j], merged(q)[k]]
            0 <= j < merged(q).len() - 1 && k == j + 1 && merged(q)[j].write == merged(q)[k].write
                ==> merged(q)[k].block != merged(q)[j].block + 1,
    decreases q.len(),
{
    if q.len() == 0 {
        Seq::empty()
    } else {
        let t = q.drop_last();
        let n = t.len() as int;
        let was = lemma_merged_places(t);
        let (m, k) = (merged(t), merged(q));
        lemma_merged_bounds(t);
        let at = if k.len() == m.len() {
            was
        } else {
            was.push(n)
        };
        assert forall|i: int| 0 <= i < q.len() implies #[trigger] accounted_for(q, at, i) by {
            if i < n {
                assert(accounted_for(t, was, i));
                if was.contains(i) {
                    let p = choose|p: int| 0 <= p < was.len() && was[p] == i;
                    assert(at[p] == i);
                } else {
                    let j = choose|j: int| follows_on(t, was, j, i);
                    assert(was[j] < n);
                    assert(t[i] == q[i]);
                    assert(t[was[j]] == q[was[j]]);
                    assert(follows_on(q, at, j, i));
                }
            } else if k.len() != m.len() {
                assert(at[was.len() as int] == n);
            } else {
                let j = was.len() - 1;
                assert(was[j] < n);
                assert(m[j] == t[was[j]]);
                assert(follows_on(q, at, j, i));
            }
        }
        assert forall|j: int, l: int|
            #![trigger k[j], k[l]]
            0 <= j < k.len() - 1 && l == j + 1 && k[j].write == k[l].write implies k[l].block
            != k[j].block + 1 by {
            if l < m.len() {
                assert(k[j] == m[j] && k[l] == m[l]);
            }
        }
        at
    }
}

/// Merging again finds nothing more to merge.
pub proof fn law_merge_is_idempotent(q: Seq<IoRequest>)
    ensures
        merged(merged(q)) == merged(q),
    decreases q.len(),
{
    if q.len() > 0 {
        law_merge_is_idempotent(q.drop_last());
        let m = merged(q.drop_last());
        if !(m.len() > 0 && m.last().block + 1 == q.last().block && m.last().write
            == q.last().write) {
            assert(m.push(q.last()).drop_last() =~= m);
        }
    }
}

/// A request keeps what it was made with, and a queue that takes one changes nothing but what
/// is pending.
pub proof fn law_request_keeps_what_was_asked(
    a: IoQueue,
    b: IoQueue,
    blk: usize,
    write: bool,
    priority: u8,
    now: usize,
)
    ensures
        request(blk, write, priority, now).block == blk,
        request(blk, write, priority, now).write == write,
        request(blk, write, priority, now).priority == priority,
        request(blk, write, priority, now).submitted_tick == now,
        a.same_but_pending(b) ==> b.head_pos == a.head_pos && b.direction_up == a.direction_up
            && b.dispatched == a.dispatched && b.merged == a.merged,
{
}

} // verus!
