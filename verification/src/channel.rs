//! A ring of bytes, and a channel that readers may sleep on.
use crate::sync::{Spin, SyncQueue};
use vstd::prelude::*;

verus! {

/// A ring of bytes: `rd` counts the bytes taken out, `wr` those put in, both from
/// wherever the ring started, `n` those that are in it, and `cap` those that it can hold.
#[verifier::ext_equal]
pub struct Ring {
    pub data: Seq<u8>,
    pub rd: usize,
    pub wr: usize,
    pub cap: int,
    pub n: int,
}

/// One use of a ring: a byte is put in, if there is room, or the next one is taken out, if
/// there is one.
pub enum RingStep {
    Push(u8),
    Pop,
}

impl Ring {
    /// The ring with `v` put in, if there is room.
    pub open spec fn push(self, v: u8) -> Ring {
        if self.n >= self.cap {
            self
        } else {
            Ring {
                data: self.data.update(self.wr as int % self.cap, v),
                wr: self.wr.wrapping_add(1),
                n: self.n + 1,
                ..self
            }
        }
    }

    /// The byte that comes out next.
    pub open spec fn front(self) -> u8 {
        self.data[self.rd as int % self.cap]
    }

    /// The ring with the next byte taken out, if there is one.
    pub open spec fn pop(self) -> Ring {
        if self.n <= 0 {
            self
        } else {
            Ring { rd: self.rd.wrapping_add(1), n: self.n - 1, ..self }
        }
    }

    /// The ring with the bytes of `s` put in as far as there is room.
    pub open spec fn push_all(self, s: Seq<u8>) -> Ring
        decreases s.len(),
    {
        if s.len() == 0 {
            self
        } else {
            self.push_all(s.drop_last()).push(s.last())
        }
    }

    /// The ring with the next `k` bytes taken out.
    pub open spec fn pop_many(self, k: int) -> Ring
        decreases k,
    {
        if k <= 0 {
            self
        } else {
            self.pop_many(k - 1).pop()
        }
    }

    /// The next `k` bytes that come out.
    pub open spec fn taken(self, k: int) -> Seq<u8>
        decreases k,
    {
        if k <= 0 {
            Seq::empty()
        } else {
            self.taken(k - 1).push(self.pop_many(k - 1).front())
        }
    }

    /// How many of `len` bytes there is room for.
    pub open spec fn accepts(self, len: int) -> int {
        if self.n >= self.cap {
            0
        } else if len <= self.cap - self.n {
            len
        } else {
            self.cap - self.n
        }
    }

    /// How many of `max` bytes can be taken out.
    pub open spec fn gives(self, max: int) -> int {
        if max < self.n {
            max
        } else {
            self.n
        }
    }

    /// The counters agree with each other and have not run out.
    pub open spec fn in_order(self) -> bool {
        &&& self.data.len() == self.cap
        &&& 0 <= self.n <= self.cap
        &&& self.rd + self.n <= usize::MAX
        &&& self.cap > 0 ==> (self.rd + self.n) % self.cap == self.wr as int % self.cap
    }

    /// The ring after some steps.
    pub open spec fn after(self, steps: Seq<RingStep>) -> Ring
        decreases steps.len(),
    {
        if steps.len() == 0 {
            self
        } else {
            match steps.last() {
                RingStep::Push(v) => self.after(steps.drop_last()).push(v),
                RingStep::Pop => self.after(steps.drop_last()).pop(),
            }
        }
    }

    /// The bytes that some steps put in, in their order: those for which there was room.
    pub open spec fn put_by(self, steps: Seq<RingStep>) -> Seq<u8>
        decreases steps.len(),
    {
        if steps.len() == 0 {
            Seq::empty()
        } else {
            let r = self.after(steps.drop_last());
            match steps.last() {
                RingStep::Push(v) if r.n < r.cap => self.put_by(steps.drop_last()).push(v),
                _ => self.put_by(steps.drop_last()),
            }
        }
    }

    /// The bytes that some steps took out, in their order.
    pub open spec fn taken_by(self, steps: Seq<RingStep>) -> Seq<u8>
        decreases steps.len(),
    {
        if steps.len() == 0 {
            Seq::empty()
        } else {
            let r = self.after(steps.drop_last());
            if steps.last() is Pop && r.n > 0 {
                self.taken_by(steps.drop_last()).push(r.front())
            } else {
                self.taken_by(steps.drop_last())
            }
        }
    }

    /// The bytes in the ring, the next one first.
    pub open spec fn contents(self) -> Seq<u8> {
        Seq::new(self.n as nat, |i: int| self.data[(self.rd + i) % self.cap])
    }
}

/// Numbers less than `c` apart leave different remainders.
proof fn lemma_mod_apart(a: int, b: int, c: int)
    requires
        0 < b - a < c,
    ensures
        a % c != b % c,
{
    if a % c == b % c {
        vstd::arithmetic::div_mod::lemma_fundamental_div_mod(a, c);
        vstd::arithmetic::div_mod::lemma_fundamental_div_mod(b, c);
        let (p, q) = (a / c, b / c);
        assert(b - a == c * (q - p)) by (nonlinear_arith)
            requires
                a == c * p + a % c,
                b == c * q + b % c,
                a % c == b % c,
        ;
        assert(false) by (nonlinear_arith)
            requires
                b - a == c * (q - p),
                0 < b - a < c,
        ;
    }
}

/// Equal remainders stay equal one further on.
proof fn lemma_mod_next(a: int, b: int, c: int)
    requires
        c > 0,
        a % c == b % c,
    ensures
        (a + 1) % c == (b + 1) % c,
{
    vstd::arithmetic::div_mod::lemma_add_mod_noop(a, 1, c);
    vstd::arithmetic::div_mod::lemma_add_mod_noop(b, 1, c);
}

/// A byte put in stands behind those that are there.
pub proof fn law_push_appends(r: Ring, v: u8)
    requires
        r.in_order(),
        r.n < r.cap,
        r.wr < usize::MAX,
        r.rd + r.n < usize::MAX,
    ensures
        r.push(v).in_order(),
        r.push(v).contents() == r.contents().push(v),
{
    let post = r.push(v);
    lemma_mod_next(r.rd + r.n, r.wr as int, r.cap);
    assert forall|i: int| 0 <= i < post.n implies post.contents()[i] == r.contents().push(v)[i] by {
        if i < r.n {
            lemma_mod_apart(r.rd + i, r.rd + r.n, r.cap);
        }
    }
    assert(post.contents() =~= r.contents().push(v));
}

/// The byte taken out is the first of those that are there.
pub proof fn law_pop_takes_first(r: Ring)
    requires
        r.in_order(),
        r.n > 0,
    ensures
        r.front() == r.contents()[0],
        r.pop().in_order(),
        r.pop().contents() == r.contents().skip(1),
{
    assert(r.pop().contents() =~= r.contents().skip(1));
}

/// Bytes put in stand behind those that are there, as many as there is room for.
pub proof fn law_push_all_appends(r: Ring, s: Seq<u8>)
    requires
        r.in_order(),
        r.wr + s.len() <= usize::MAX,
        r.rd + r.n + s.len() <= usize::MAX,
    ensures
        r.push_all(s).in_order(),
        r.push_all(s).cap == r.cap,
        r.push_all(s).rd == r.rd,
        r.push_all(s).n == r.n + r.accepts(s.len() as int),
        r.push_all(s).wr == r.wr + r.accepts(s.len() as int),
        r.push_all(s).contents() == r.contents() + s.take(r.accepts(s.len() as int)),
    decreases s.len(),
{
    if s.len() == 0 {
        assert(r.contents() + s.take(0) =~= r.contents());
    } else {
        let t = s.drop_last();
        law_push_all_appends(r, t);
        let mid = r.push_all(t);
        if mid.n < mid.cap {
            law_push_appends(mid, s.last());
            assert(t.take(t.len() as int) =~= t);
            assert(s.take(s.len() as int) =~= t.push(s.last()));
            assert(r.contents() + s =~= (r.contents() + t).push(s.last()));
        } else {
            assert(s.take(r.accepts(s.len() as int)) =~= t.take(r.accepts(t.len() as int)));
        }
    }
}

/// Bytes taken out are the first of those that are there.
pub proof fn law_pop_many_takes_prefix(r: Ring, k: int)
    requires
        r.in_order(),
        0 <= k <= r.n,
    ensures
        r.taken(k) == r.contents().take(k),
        r.pop_many(k).in_order(),
        r.pop_many(k).contents() == r.contents().skip(k),
        r.pop_many(k).n == r.n - k,
    decreases k,
{
    if k == 0 {
        assert(r.contents().take(0) =~= Seq::empty());
        assert(r.contents().skip(0) =~= r.contents());
    } else {
        law_pop_many_takes_prefix(r, k - 1);
        let mid = r.pop_many(k - 1);
        law_pop_takes_first(mid);
        assert(r.contents().take(k) =~= r.contents().take(k - 1).push(r.contents()[k - 1]));
        assert(r.contents().skip(k - 1).skip(1) =~= r.contents().skip(k));
        assert(mid.contents()[0] == r.contents()[k - 1]);
    }
}

/// First in, first out: what goes into an empty ring with room for it comes out in the
/// same order.
pub proof fn law_ring_is_fifo(r: Ring, s: Seq<u8>)
    requires
        r.in_order(),
        r.n == 0,
        s.len() <= r.cap,
        r.wr + s.len() <= usize::MAX,
        r.rd + s.len() <= usize::MAX,
    ensures
        r.push_all(s).taken(s.len() as int) == s,
        r.push_all(s).pop_many(s.len() as int).n == 0,
{
    law_push_all_appends(r, s);
    law_pop_many_takes_prefix(r.push_all(s), s.len() as int);
    assert(r.contents() + s.take(s.len() as int) =~= s);
    assert(s.take(s.len() as int) =~= s);
}

/// Whatever is put in and taken out, a ring that was empty is a bounded queue: what came out
/// is the beginning of what was put in, the rest is in the ring in its order, never more than
/// it can hold, and the next byte out is the first of that rest. The numbers of bytes put in
/// and taken out are to be countable.
pub proof fn law_ring_is_a_bounded_queue(r: Ring, steps: Seq<RingStep>)
    requires
        r.in_order(),
        r.cap > 0,
        r.n == 0,
        r.rd + steps.len() <= usize::MAX,
        r.wr + steps.len() <= usize::MAX,
    ensures
        ({
            let e = r.after(steps);
            let s = r.put_by(steps);
            let p = r.taken_by(steps).len();
            &&& e.in_order()
            &&& e.cap == r.cap
            &&& p <= s.len() <= steps.len()
            &&& r.taken_by(steps) == s.take(p as int)
            &&& e.contents() == s.skip(p as int)
            &&& e.n == s.len() - p
            &&& e.n <= r.cap
            &&& e.rd == r.rd + p
            &&& e.wr == r.wr + s.len()
            &&& p < s.len() ==> e.front() == s[p as int]
            &&& p == s.len() ==> e.pop() == e
            &&& forall|v: u8| #[trigger] e.push(v) == e <==> s.len() - p == r.cap
        }),
    decreases steps.len(),
{
    let e = r.after(steps);
    let s = r.put_by(steps);
    let p = r.taken_by(steps).len() as int;
    if steps.len() == 0 {
        assert(s.skip(0) =~= e.contents());
        assert(s.take(0) =~= r.taken_by(steps));
    } else {
        let less = steps.drop_last();
        law_ring_is_a_bounded_queue(r, less);
        let d = r.after(less);
        let t = r.put_by(less);
        let q = r.taken_by(less).len() as int;
        match steps.last() {
            RingStep::Push(v) => {
                if d.n < d.cap {
                    law_push_appends(d, v);
                    assert(s.take(p) =~= t.take(q));
                    assert(s.skip(p) =~= t.skip(q).push(v));
                }
            },
            RingStep::Pop => {
                if d.n > 0 {
                    law_pop_takes_first(d);
                    assert(s.take(p) =~= t.take(q).push(t[q]));
                    assert(s.skip(p) =~= t.skip(q).skip(1));
                }
            },
        }
        if e.n > 0 {
            assert(e.front() == e.contents()[0]);
        }
    }
}

/// Putting in never makes the ring hold more than it can, nor changes where it is read.
pub proof fn lemma_push_all_bounds(r: Ring, s: Seq<u8>)
    requires
        0 <= r.n <= r.cap,
    ensures
        r.push_all(s).cap == r.cap,
        r.push_all(s).n == r.n + r.accepts(s.len() as int),
        r.push_all(s).rd == r.rd,
    decreases s.len(),
{
    if s.len() > 0 {
        lemma_push_all_bounds(r, s.drop_last());
    }
}

/// Bytes beyond what there is room for change nothing.
pub proof fn lemma_push_all_full(r: Ring, s: Seq<u8>, k: int)
    requires
        0 <= r.n <= r.cap,
        r.accepts(s.len() as int) <= k <= s.len(),
    ensures
        r.push_all(s) == r.push_all(s.take(k)),
    decreases s.len(),
{
    if k == s.len() {
        assert(s.take(k) =~= s);
    } else {
        lemma_push_all_full(r, s.drop_last(), k);
        lemma_push_all_bounds(r, s.drop_last());
        assert(s.drop_last().take(k) =~= s.take(k));
    }
}

/// Taking out leaves that many fewer.
pub proof fn lemma_pop_many_bounds(r: Ring, k: int)
    requires
        0 <= k <= r.n <= r.cap,
    ensures
        r.pop_many(k).n == r.n - k,
        r.pop_many(k).data == r.data,
        r.pop_many(k).wr == r.wr,
        r.taken(k).len() == k,
    decreases k,
{
    if k > 0 {
        lemma_pop_many_bounds(r, k - 1);
    }
}

/// A ring of bytes in a vector of `cap` bytes.
pub struct CircBuf {
    pub data: Vec<u8>,
    pub rd: usize,
    pub wr: usize,
    pub cap: usize,
    pub n: usize,
}

impl View for CircBuf {
    type V = Ring;

    open spec fn view(&self) -> Ring {
        Ring {
            data: self.data@,
            rd: self.rd,
            wr: self.wr,
            cap: self.cap as int,
            n: self.n as int,
        }
    }
}

impl CircBuf {
    /// The capacity is that of the vector, and no more is in the ring.
    pub open spec fn wf(self) -> bool {
        &&& self.data@.len() == self.cap
        &&& self.n <= self.cap
    }

    /// An empty ring for `c` bytes.
    pub fn new(c: usize) -> (r: Self)
        ensures
            r.wf(),
            r@ == (Ring {
                data: Seq::new(c as nat, |i: int| 0u8),
                rd: 0,
                wr: 0,
                cap: c as int,
                n: 0,
            }),
            r@.in_order(),
    {
        let data: Vec<u8> = vec![0u8;c];
        proof {
            assert(data@ =~= Seq::new(c as nat, |i: int| 0u8));
        }
        CircBuf { data, rd: 0, wr: 0, cap: c, n: 0 }
    }

    /// A ring of zeros for `c` bytes whose counters stand at `r` and `w`.
    pub fn with_pos(c: usize, r: usize, w: usize) -> (b: Self)
        requires
            w < r ==> r <= c,
        ensures
            b.cap == c,
            b@.data == Seq::new(c as nat, |i: int| 0u8),
            b.rd == r,
            b.wr == w,
            b.n == (if w >= r {
                w - r
            } else {
                c - r + w
            }),
            b.n <= c ==> b.wf(),
            b.n <= c && r + b.n <= usize::MAX ==> b@.in_order(),
    {
        let n: usize = if w >= r {
            w - r
        } else {
            c - r + w
        };
        let data: Vec<u8> = vec![0u8;c];
        proof {
            assert(data@ =~= Seq::new(c as nat, |i: int| 0u8));
            if w < r {
                vstd::arithmetic::div_mod::lemma_mod_add_multiples_vanish(w as int, c as int);
            }
        }
        CircBuf { data, rd: r, wr: w, cap: c, n }
    }

    /// Puts a byte in, and says whether there was room.
    pub fn push(&mut self, v: u8) -> (r: bool)
        requires
            old(self).wf(),
        ensures
            final(self).wf(),
            r == (old(self).n < old(self).cap),
            final(self)@ == old(self)@.push(v),
            !r ==> *final(self) == *old(self),
    {
        if self.full() {
            return false;
        }
        let i: usize = self.wr % self.cap;
        self.data.set(i, v);
        self.wr = self.wr.wrapping_add(1);
        self.n = self.n + 1;
        true
    }

    /// Takes the next byte out.
    pub fn pop(&mut self) -> (r: Option<u8>)
        requires
            old(self).wf(),
        ensures
            final(self).wf(),
            final(self)@ == old(self)@.pop(),
            r == (if old(self).n > 0 {
                Some(old(self)@.front())
            } else {
                None
            }),
            r is None ==> *final(self) == *old(self),
    {
        if self.empty() {
            return None;
        }
        let i: usize = self.rd % self.cap;
        let v: u8 = self.data[i];
        self.rd = self.rd.wrapping_add(1);
        self.n = self.n - 1;
        Some(v)
    }

    /// The number of bytes in the ring.
    pub fn len(&self) -> (r: usize)
        ensures
            r == self.n,
    {
        self.n
    }

    /// Whether nothing is in the ring.
    pub fn empty(&self) -> (r: bool)
        ensures
            r == (self.n == 0),
    {
        self.n == 0
    }

    /// Whether there is no room in the ring.
    pub fn full(&self) -> (r: bool)
        ensures
            r == (self.n >= self.cap),
    {
        self.n >= self.cap
    }

    /// The next byte, which stays.
    pub fn peek(&self) -> (r: Option<u8>)
        requires
            self.wf(),
        ensures
            r == (if self.n > 0 {
                Some(self@.front())
            } else {
                None
            }),
    {
        if self.empty() {
            return None;
        }
        let i: usize = self.rd % self.cap;
        Some(self.data[i])
    }

    /// Takes at most `max` bytes out and puts them behind `dst`; returns how many.
    pub fn drain_to(&mut self, dst: &mut Vec<u8>, max: usize) -> (r: usize)
        requires
            old(self).wf(),
        ensures
            final(self).wf(),
            final(self).cap == old(self).cap,
            r == old(self)@.gives(max as int),
            final(self)@ == old(self)@.pop_many(r as int),
            final(dst)@ == old(dst)@ + old(self)@.taken(r as int),
    {
        let take: usize = if max < self.n {
            max
        } else {
            self.n
        };
        let ghost start = self@;
        let mut i: usize = 0;
        proof {
            assert(dst@ =~= old(dst)@ + start.taken(0));
        }
        while i < take
            invariant
                0 <= i <= take <= start.n <= start.cap,
                self.wf(),
                self.cap == old(self).cap,
                self@ == start.pop_many(i as int),
                dst@ == old(dst)@ + start.taken(i as int),
            decreases take - i,
        {
            proof {
                lemma_pop_many_bounds(start, i as int);
            }
            if let Some(b) = self.pop() {
                dst.push(b);
            }
            proof {
                assert(dst@ =~= old(dst)@ + start.taken(i + 1));
            }
            i = i + 1;
        }
        take
    }

    /// Puts the bytes of `src` in as far as there is room; returns how many.
    pub fn fill_from(&mut self, src: &[u8]) -> (r: usize)
        requires
            old(self).wf(),
        ensures
            final(self).wf(),
            final(self).cap == old(self).cap,
            r == old(self)@.accepts(src@.len() as int),
            final(self)@ == old(self)@.push_all(src@),
    {
        let ghost start = self@;
        let mut i: usize = 0;
        while i < src.len()
            invariant
                0 <= i <= src@.len(),
                start == old(self)@,
                0 <= start.n <= start.cap,
                self.wf(),
                self.cap == old(self).cap,
                self.cap == start.cap,
                self@ == start.push_all(src@.take(i as int)),
                i == start.accepts(i as int),
            decreases src@.len() - i,
        {
            proof {
                lemma_push_all_bounds(start, src@.take(i as int));
                assert(src@.take(i + 1).drop_last() =~= src@.take(i as int));
            }
            if !self.push(src[i]) {
                proof {
                    lemma_push_all_full(start, src@, i as int);
                }
                return i;
            }
            i = i + 1;
        }
        proof {
            assert(src@.take(i as int) =~= src@);
        }
        i
    }

    /// How many more bytes there is room for.
    pub fn remaining(&self) -> (r: usize)
        ensures
            r == (if self.n <= self.cap {
                self.cap - self.n
            } else {
                0
            }),
    {
        self.cap.saturating_sub(self.n)
    }
}

/// What a reader does next.
#[derive(Clone, Copy, PartialEq, Eq, Structural, Debug)]
pub enum RecvStep {
    /// Another reader is inside: try again.
    Busy,
    /// The reader is queued: sleep until woken, and then call `recv_woken`.
    Sleep,
    /// Nothing was there for a woken reader: call `recv` again.
    Again,
    /// The read is over, with a byte or, once the channel is closed, with the end of the
    /// stream.
    Done(Option<u8>),
}

/// The largest capacity of a channel.
pub const CHANNEL_MAX: usize = 0x10_0000;

/// A byte stream from writers to readers. Readers go in one at a time, past `guard`,
/// and those that find nothing sleep in `wq`.
pub struct Channel {
    pub buf: CircBuf,
    pub guard: Spin,
    pub wq: SyncQueue,
    pub shut: bool,
}

impl Channel {
    /// The ring is sound and can hold something.
    pub open spec fn wf(self) -> bool {
        &&& self.buf.wf()
        &&& 1 <= self.buf.cap <= CHANNEL_MAX
    }

    /// The channels differ in what is in their rings at most.
    pub open spec fn same_but_ring(self, post: Channel) -> bool {
        &&& post.wf()
        &&& post.buf.cap == self.buf.cap
        &&& post.guard == self.guard
        &&& post.wq == self.wq
        &&& post.shut == self.shut
    }

    /// The channels differ in what is in their rings and in the first sleeper, which
    /// `woken` is and `post` no longer has.
    pub open spec fn same_but_ring_and_woken(self, woken: Option<usize>, post: Channel) -> bool {
        &&& post.wf()
        &&& post.buf.cap == self.buf.cap
        &&& post.guard == self.guard
        &&& post.shut == self.shut
        &&& woken == (if self.wq.q@.len() > 0 {
            Some(self.wq.q@[0])
        } else {
            None
        })
        &&& if self.wq.q@.len() > 0 {
            self.wq.woke(1, post.wq)
        } else {
            post.wq == self.wq
        }
    }

    /// A channel for `cap` bytes, though for one at least and `CHANNEL_MAX` at most.
    pub fn new(cap: usize) -> (r: Self)
        ensures
            r.wf(),
            r.buf.cap == (if cap == 0 {
                1
            } else if cap > CHANNEL_MAX {
                CHANNEL_MAX
            } else {
                cap
            }),
            r.buf.n == 0,
            r.buf@.in_order(),
            r.buf.rd == 0,
            r.buf.wr == 0,
            !r.guard.v,
            r.wq.q@.len() == 0,
            r.wq.eq@.len() == 0,
            r.wq.pending_signals == 0,
            !r.shut,
    {
        let effective: usize = if cap == 0 {
            1
        } else if cap > CHANNEL_MAX {
            CHANNEL_MAX
        } else {
            cap
        };
        Channel {
            buf: CircBuf::new(effective),
            guard: Spin::new(),
            wq: SyncQueue::new(),
            shut: false,
        }
    }

    /// A read by thread `who`: a byte if there is one; else the end of the stream if
    /// the channel is closed; else the reader is put to sleep.
    pub fn recv(&mut self, who: usize) -> (r: RecvStep)
        requires
            old(self).wf(),
        ensures
            final(self).wf(),
            r == (if old(self).guard.v {
                RecvStep::Busy
            } else if old(self).buf.n > 0 {
                RecvStep::Done(Some(old(self).buf@.front()))
            } else if old(self).shut {
                RecvStep::Done(None)
            } else {
                RecvStep::Sleep
            }),
            match r {
                RecvStep::Busy | RecvStep::Again => *final(self) == *old(self),
                RecvStep::Done(_) => old(self).same_but_ring(*final(self)) && final(self).buf@
                    == old(self).buf@.pop(),
                RecvStep::Sleep => final(self).buf == old(self).buf && final(self).guard == old(
                    self).guard && final(self).shut == old(self).shut && old(self).wq.slept(
                    who,
                    final(self).wq,
                ),
            },
    {
        if !self.guard.try_acquire() {
            proof {
                assert(self.guard == old(self).guard);
            }
            return RecvStep::Busy;
        }
        let first = self.buf.pop();
        self.guard.release();
        proof {
            assert(self.guard == old(self).guard);
        }
        if first.is_some() {
            return RecvStep::Done(first);
        }
        if self.shut {
            return RecvStep::Done(None);
        }
        self.wq.wait_guard(who);
        RecvStep::Sleep
    }

    /// The rest of a read by a thread that was put to sleep and has been woken: a byte
    /// if there is one; else the end of the stream if the channel is closed; else the reader
    /// is to start over.
    pub fn recv_woken(&mut self) -> (r: RecvStep)
        requires
            old(self).wf(),
        ensures
            final(self).wf(),
            r == (if old(self).guard.v {
                RecvStep::Busy
            } else if old(self).buf.n > 0 {
                RecvStep::Done(Some(old(self).buf@.front()))
            } else if old(self).shut {
                RecvStep::Done(None)
            } else {
                RecvStep::Again
            }),
            r is Done ==> old(self).same_but_ring(*final(self)) && final(self).buf@ == old(
                self,
            ).buf@.pop(),
            r !is Done ==> *final(self) == *old(self),
    {
        if !self.guard.try_acquire() {
            proof {
                assert(self.guard == old(self).guard);
            }
            return RecvStep::Busy;
        }
        let v = self.buf.pop();
        self.guard.release();
        proof {
            assert(self.guard == old(self).guard);
        }
        if v.is_none() && !self.shut {
            return RecvStep::Again;
        }
        RecvStep::Done(v)
    }

    /// Puts a byte in if the channel is open and has room, and says whether it did; if
    /// so, the first sleeper is woken and returned.
    pub fn send(&mut self, v: u8) -> (r: (bool, Option<usize>))
        requires
            old(self).wf(),
        ensures
            final(self).wf(),
            r.0 == (!old(self).shut && old(self).buf.n < old(self).buf.cap),
            !r.0 ==> r.1 is None && *final(self) == *old(self),
            r.0 ==> old(self).same_but_ring_and_woken(r.1, *final(self)) && final(self).buf@
                == old(self).buf@.push(v),
    {
        if self.shut || self.buf.full() {
            return (false, None);
        }
        let _ = self.buf.push(v);
        let woken = self.wake_one();
        (true, woken)
    }

    /// Wakes the first sleeper, if any.
    fn wake_one(&mut self) -> (r: Option<usize>)
        requires
            old(self).wf(),
        ensures
            final(self).buf == old(self).buf,
            old(self).same_but_ring_and_woken(r, *final(self)),
    {
        if self.wq.pending() > 0 {
            self.wq.signal()
        } else {
            None
        }
    }

    /// Closes the channel and returns the sleepers, which are all woken. What is in the
    /// ring can still be read.
    pub fn close(&mut self) -> (r: Vec<usize>)
        requires
            old(self).wf(),
        ensures
            final(self).wf(),
            final(self).shut,
            final(self).buf == old(self).buf,
            final(self).guard == old(self).guard,
            r@ == old(self).wq.q@,
            old(self).wq.woke(old(self).wq.q@.len() as int, final(self).wq),
    {
        self.shut = true;
        self.wq.broadcast()
    }

    /// A read that does not wait: nothing if another reader is inside or the ring is
    /// empty.
    pub fn try_recv(&mut self) -> (r: Option<u8>)
        requires
            old(self).wf(),
        ensures
            old(self).guard.v ==> r is None && *final(self) == *old(self),
            !old(self).guard.v ==> old(self).same_but_ring(*final(self)) && final(self).buf@
                == old(self).buf@.pop() && r == (if old(self).buf.n > 0 {
                Some(old(self).buf@.front())
            } else {
                None
            }),
    {
        if !self.guard.try_acquire() {
            proof {
                assert(self.guard == old(self).guard);
            }
            return None;
        }
        let v = self.buf.pop();
        self.guard.release();
        v
    }

    /// Puts bytes in as far as there is room, unless the channel is closed, and says
    /// how many; if any, the first sleeper is woken and returned.
    pub fn send_batch(&mut self, data: &[u8]) -> (r: (usize, Option<usize>))
        requires
            old(self).wf(),
        ensures
            final(self).wf(),
            r.0 == (if old(self).shut {
                0
            } else {
                old(self).buf@.accepts(data@.len() as int)
            }),
            r.0 == 0 ==> r.1 is None && *final(self) == *old(self),
            r.0 > 0 ==> old(self).same_but_ring_and_woken(r.1, *final(self)) && final(self).buf@
                == old(self).buf@.push_all(data@),
    {
        if self.shut || data.len() == 0 || self.buf.full() {
            return (0, None);
        }
        let written: usize = self.buf.fill_from(data);
        let woken = self.wake_one();
        (written, woken)
    }

    /// The number of bytes in the channel.
    pub fn depth(&self) -> (r: usize)
        ensures
            r == self.buf.n,
    {
        self.buf.len()
    }

    /// Takes everything out.
    pub fn drain_all(&mut self) -> (r: Vec<u8>)
        requires
            old(self).wf(),
        ensures
            old(self).same_but_ring(*final(self)),
            r@ == old(self).buf@.taken(old(self).buf.n as int),
            final(self).buf@ == old(self).buf@.pop_many(old(self).buf.n as int),
            final(self).buf.n == 0,
    {
        let mut result: Vec<u8> = Vec::new();
        let n: usize = self.buf.len();
        proof {
            lemma_pop_many_bounds(self.buf@, n as int);
        }
        let _ = self.buf.drain_to(&mut result, n);
        proof {
            assert(result@ =~= old(self).buf@.taken(n as int));
        }
        result
    }

    /// Whether the channel is closed.
    pub fn is_closed(&self) -> (r: bool)
        ensures
            r == self.shut,
    {
        self.shut
    }

    /// How many more bytes there is room for.
    pub fn remaining_capacity(&self) -> (r: usize)
        requires
            self.wf(),
        ensures
            r == self.buf.cap - self.buf.n,
    {
        self.buf.remaining()
    }
}

/// A ring takes what it has room for and gives what it has.
pub proof fn law_ring_takes_what_fits(r: Ring, len: int)
    requires
        0 <= r.n <= r.cap,
        len >= 0,
    ensures
        len <= r.cap - r.n ==> r.accepts(len) == len,
        len >= r.cap - r.n ==> r.accepts(len) == r.cap - r.n,
        len <= r.n ==> r.gives(len) == len,
        len >= r.n ==> r.gives(len) == r.n,
{
}

/// What changes a ring leaves its channel open or shut as it was, with the same lock, the
/// same room and the same sleepers, but for the first one where it is woken.
pub proof fn law_channel_keeps_the_rest(a: Channel, woken: Option<usize>, b: Channel)
    ensures
        a.same_but_ring(b) ==> {
            &&& b.shut == a.shut
            &&& b.guard == a.guard
            &&& b.buf.cap == a.buf.cap
            &&& b.wq == a.wq
        },
        a.same_but_ring_and_woken(woken, b) ==> {
            &&& b.shut == a.shut
            &&& b.guard == a.guard
            &&& b.buf.cap == a.buf.cap
            &&& a.wq.q@.len() == 0 ==> woken is None && b.wq == a.wq
            &&& a.wq.q@.len() > 0 ==> woken == Some(a.wq.q@[0]) && b.wq.q@ == a.wq.q@.skip(1)
        },
{
}

} // verus!
