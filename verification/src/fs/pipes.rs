//! The two ends of a pipe.
use crate::fs::files::{FileStore, Files, Pipe, PipeBuf};
use crate::sync::{EvBus, EvFlag};
use std::collections::VecDeque;
use vstd::prelude::*;

verus! {

/// An end of a pipe: the one to read from or the one to write to.
#[derive(Clone, Copy, PartialEq, Eq, Structural, Debug)]
pub enum PipeDir {
    Rd,
    Wr,
}

/// A handle of one end of a pipe.
#[derive(Clone, Copy, PartialEq, Eq, Structural, Debug)]
pub struct PipeNode {
    pub data: usize,
    pub dir: PipeDir,
}

impl PipeNode {
    /// The pipe is there.
    pub open spec fn wf(self, st: Files) -> bool {
        self.data < st.pipes.len()
    }

    /// What the ends of the pipe share.
    pub open spec fn shared(self, st: Files) -> Pipe {
        st.pipes[self.data as int]
    }

    /// The outcome of reading at most `n` bytes, those bytes, and what is shared after
    /// it. The end for writing gives nothing.
    pub open spec fn read_out(self, st: Files, n: nat) -> (
        Result<usize, &'static str>,
        Seq<u8>,
        Files,
    ) {
        let p = self.shared(st);
        let k = p.gives(n as int);
        if n == 0 || self.dir != PipeDir::Rd {
            (Ok(0), Seq::empty(), st)
        } else if p.must_wait() {
            (Err("again"), Seq::empty(), st)
        } else {
            (Ok(k as usize), p.buf.take(k), st.with_pipe(self.data, p.read(k)))
        }
    }

    /// The outcome of writing the bytes, and what is shared after it. The end for
    /// reading takes nothing.
    pub open spec fn write_out(self, st: Files, bytes: Seq<u8>) -> (
        Result<usize, &'static str>,
        Files,
    ) {
        if self.dir != PipeDir::Wr {
            (Ok(0), st)
        } else {
            (Ok(bytes.len() as usize), st.with_pipe(self.data, self.shared(st).written(bytes)))
        }
    }

    /// What is shared once this handle is dropped.
    pub open spec fn dropped_from(self, st: Files) -> Files {
        st.with_pipe(self.data, self.shared(st).dropped())
    }

    /// A new pipe: its end to read from and its end to write to.
    pub fn pair(st: &mut FileStore) -> (r: (PipeNode, PipeNode))
        ensures
            r.0 == (PipeNode { data: old(st)@.pipes.len() as usize, dir: PipeDir::Rd }),
            r.1 == (PipeNode { data: old(st)@.pipes.len() as usize, dir: PipeDir::Wr }),
            r.0.wf(final(st)@),
            r.1.wf(final(st)@),
            final(st)@ == (Files { pipes: old(st)@.pipes.push(Pipe::fresh()), ..old(st)@ }),
    {
        let n: usize = st.pipes.len();
        st.pipes.push(PipeBuf { buf: VecDeque::new(), bus: EvBus::make(), ends: 2 });
        proof {
            assert(st@.pipes =~= old(st)@.pipes.push(Pipe::fresh()));
            assert(st@.data =~= old(st)@.data);
            assert(st@.sets =~= old(st)@.sets);
        }
        (PipeNode { data: n, dir: PipeDir::Rd }, PipeNode { data: n, dir: PipeDir::Wr })
    }

    /// Drops this handle: the pipe has one end less, and the other one is told.
    pub fn release(&self, st: &mut FileStore)
        requires
            self.wf(old(st)@),
        ensures
            final(st)@ == self.dropped_from(old(st)@),
    {
        let ends: i32 = st.pipes[self.data].ends;
        st.pipes[self.data].ends = ends.wrapping_sub(1);
        st.pipes[self.data].bus.set(EvFlag::CLOSED);
        proof {
            assert(st@ =~= self.dropped_from(old(st)@));
        }
    }

    /// Whether a read from this end would not have to wait.
    pub fn can_read(&self, st: &FileStore) -> (r: bool)
        requires
            self.wf(st@),
        ensures
            r == (self.dir == PipeDir::Rd && (self.shared(st@).buf.len() > 0 || self.shared(
                st@,
            ).ends < 2)),
    {
        if self.dir != PipeDir::Rd {
            return false;
        }
        st.pipes[self.data].buf.len() > 0 || st.pipes[self.data].ends < 2
    }

    /// Whether a write to this end would find a reader.
    pub fn can_write(&self, st: &FileStore) -> (r: bool)
        requires
            self.wf(st@),
        ensures
            r == (self.dir == PipeDir::Wr && self.shared(st@).ends == 2),
    {
        if self.dir != PipeDir::Wr {
            return false;
        }
        st.pipes[self.data].ends == 2
    }

    /// Reads at most as many bytes as `buf` holds. With nothing to read and both ends
    /// there the reader has to try again.
    pub fn read_at(&self, st: &mut FileStore, buf: &mut [u8]) -> (r: Result<usize, &'static str>)
        requires
            self.wf(old(st)@),
        ensures
            ({
                let (want, out, post) = self.read_out(old(st)@, old(buf)@.len());
                &&& r == want
                &&& final(st)@ == post
                &&& final(buf)@ == out + old(buf)@.skip(out.len() as int)
            }),
    {
        proof {
            assert(buf@ =~= Seq::<u8>::empty() + buf@.skip(0));
        }
        if buf.len() == 0 || self.dir != PipeDir::Rd {
            return Ok(0);
        }
        let have: usize = st.pipes[self.data].buf.len();
        if have == 0 && st.pipes[self.data].ends == 2 {
            return Err("again");
        }
        let n: usize = if buf.len() < have {
            buf.len()
        } else {
            have
        };
        let ghost all = st.pipes@[self.data as int].buf@;
        let ghost room = buf@;
        let mut i: usize = 0;
        proof {
            assert(buf@ =~= all.take(0) + room.skip(0));
            assert(all.skip(0) =~= all);
        }
        while i < n
            invariant
                i <= n <= all.len(),
                n <= room.len(),
                buf@.len() == room.len(),
                self.data < st.pipes@.len(),
                st.pipes@.len() == old(st).pipes@.len(),
                st.data@ == old(st).data@,
                st.descs@ == old(st).descs@,
                st.sets@ == old(st).sets@,
                forall|k: int|
                    0 <= k < st.pipes@.len() && k != self.data ==> st.pipes@[k] == old(
                        st).pipes@[k],
                st.pipes@[self.data as int].bus == old(st).pipes@[self.data as int].bus,
                st.pipes@[self.data as int].ends == old(st).pipes@[self.data as int].ends,
                st.pipes@[self.data as int].buf@ == all.skip(i as int),
                buf@ == all.take(i as int) + room.skip(i as int),
            decreases n - i,
        {
            if let Some(b) = st.pipes[self.data].buf.pop_front() {
                buf[i] = b;
                proof {
                    assert(b == all[i as int]);
                    assert(buf@ =~= all.take(i + 1) + room.skip(i + 1));
                    assert(st.pipes@[self.data as int].buf@ =~= all.skip(i + 1));
                }
            }
            i = i + 1;
        }
        if st.pipes[self.data].buf.len() == 0 {
            st.pipes[self.data].bus.clear(EvFlag::READABLE);
        }
        proof {
            assert(st@ =~= self.read_out(old(st)@, room.len()).2);
        }
        Ok(n)
    }

    /// Writes the bytes and tells the reader.
    pub fn write_at(&self, st: &mut FileStore, buf: &[u8]) -> (r: Result<usize, &'static str>)
        requires
            self.wf(old(st)@),
        ensures
            (r, final(st)@) == self.write_out(old(st)@, buf@),
    {
        if self.dir != PipeDir::Wr {
            return Ok(0);
        }
        let ghost all = st.pipes@[self.data as int].buf@;
        let mut i: usize = 0;
        proof {
            assert(all + buf@.take(0) =~= all);
        }
        while i < buf.len()
            invariant
                i <= buf@.len(),
                self.data < st.pipes@.len(),
                st.pipes@.len() == old(st).pipes@.len(),
                st.data@ == old(st).data@,
                st.descs@ == old(st).descs@,
                st.sets@ == old(st).sets@,
                forall|k: int|
                    0 <= k < st.pipes@.len() && k != self.data ==> st.pipes@[k] == old(
                        st).pipes@[k],
                st.pipes@[self.data as int].bus == old(st).pipes@[self.data as int].bus,
                st.pipes@[self.data as int].ends == old(st).pipes@[self.data as int].ends,
                st.pipes@[self.data as int].buf@ == all + buf@.take(i as int),
            decreases buf@.len() - i,
        {
            st.pipes[self.data].buf.push_back(buf[i]);
            proof {
                assert(all + buf@.take(i + 1) =~= (all + buf@.take(i as int)).push(
                    buf@[i as int],
                ));
            }
            i = i + 1;
        }
        st.pipes[self.data].bus.set(EvFlag::READABLE);
        proof {
            assert(buf@.take(i as int) =~= buf@);
            assert(st@ =~= self.write_out(old(st)@, buf@).1);
        }
        Ok(buf.len())
    }

    /// Whether this end can be read, can be written, and is in error.
    pub fn poll(&self, st: &FileStore) -> (r: (bool, bool, bool))
        requires
            self.wf(st@),
        ensures
            r.0 == (self.dir == PipeDir::Rd && (self.shared(st@).buf.len() > 0 || self.shared(
                st@,
            ).ends < 2)),
            r.1 == (self.dir == PipeDir::Wr && self.shared(st@).ends == 2),
            !r.2,
    {
        (self.can_read(st), self.can_write(st), false)
    }
}

/// What is written into an empty pipe is what comes out at its other end.
pub proof fn law_pipe_gives_what_was_written(st: Files, rd: PipeNode, wr: PipeNode, bytes: Seq<u8>)
    requires
        rd.wf(st),
        rd.data == wr.data,
        rd.dir == PipeDir::Rd,
        wr.dir == PipeDir::Wr,
        rd.shared(st).buf.len() == 0,
        0 < bytes.len() <= usize::MAX,
    ensures
        ({
            let mid = wr.write_out(st, bytes).1;
            let (r, out, post) = rd.read_out(mid, bytes.len());
            &&& wr.write_out(st, bytes).0 == Ok::<usize, &'static str>(bytes.len() as usize)
            &&& r == Ok::<usize, &'static str>(bytes.len() as usize)
            &&& out == bytes
            &&& rd.shared(post).buf.len() == 0
        }),
{
    let mid = wr.write_out(st, bytes).1;
    assert(rd.shared(mid).buf =~= bytes);
    assert(bytes.take(bytes.len() as int) =~= bytes);
}

/// Two reads take what one read of both lengths takes.
pub proof fn law_pipe_reads_in_order(st: Files, rd: PipeNode, a: nat, b: nat)
    requires
        rd.wf(st),
        rd.dir == PipeDir::Rd,
        a > 0,
        b > 0,
        a + b <= rd.shared(st).buf.len(),
        a + b <= usize::MAX,
    ensures
        ({
            let (r1, out1, mid) = rd.read_out(st, a);
            let (r2, out2, post) = rd.read_out(mid, b);
            let (r, out, at_once) = rd.read_out(st, a + b);
            &&& out == out1 + out2
            &&& rd.shared(post).buf == rd.shared(at_once).buf
        }),
{
    let all = rd.shared(st).buf;
    let (r1, out1, mid) = rd.read_out(st, a);
    let (r2, out2, post) = rd.read_out(mid, b);
    let (r, out, at_once) = rd.read_out(st, a + b);
    assert(rd.shared(mid).buf =~= all.skip(a as int));
    assert(out =~= out1 + out2);
    assert(rd.shared(post).buf =~= rd.shared(at_once).buf);
}

/// A reader is told to wait only while the other end is there: once an end is dropped,
/// an empty pipe reads as at its end.
pub proof fn law_pipe_ends_after_drop(st: Files, rd: PipeNode, wr: PipeNode, n: nat)
    requires
        rd.wf(st),
        rd.data == wr.data,
        rd.dir == PipeDir::Rd,
        rd.shared(st).ends == 2,
        rd.shared(st).buf.len() == 0,
        n > 0,
    ensures
        rd.read_out(st, n).0 == Err::<usize, &'static str>("again"),
        rd.read_out(wr.dropped_from(st), n).0 == Ok::<usize, &'static str>(0),
{
}

/// Each end does one thing: the end to write to gives nothing to read, and the end to read from
/// takes nothing. Only the pipe of an end changes.
pub proof fn law_ends_have_one_direction(st: Files, p: PipeNode, bytes: Seq<u8>, n: nat, other: int)
    requires
        p.wf(st),
        0 <= other < st.pipes.len(),
        other != p.data,
    ensures
        p.dir == PipeDir::Wr ==> p.read_out(st, n) == (
            Ok::<usize, &'static str>(0),
            Seq::<u8>::empty(),
            st,
        ),
        p.dir == PipeDir::Rd ==> p.write_out(st, bytes) == (Ok::<usize, &'static str>(0), st),
        p.read_out(st, n).2.pipes[other] == st.pipes[other],
        p.write_out(st, bytes).1.pipes[other] == st.pipes[other],
        p.dropped_from(st).pipes[other] == st.pipes[other],
        p.read_out(st, n).2.data == st.data && p.write_out(st, bytes).1.data == st.data,
        p.dropped_from(st).data == st.data && p.dropped_from(st).descs == st.descs,
{
}

} // verus!
