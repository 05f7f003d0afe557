//! Open files, pipes and epoll instances over one store of what they share.
//!
//! A handle names what it shares by number: two handles with the same numbers are two
//! names of one open file.
use crate::bytes::copy_out;
use crate::consts::O_NONBLOCK;
use crate::sync::{Bus, EvBus, EvFlag};
use crate::text::to_decimal;
use std::collections::{BTreeSet, VecDeque};
use vstd::prelude::*;

verus! {

broadcast use vstd::std_specs::btree::group_btree_axioms;

// ---- What handles share ----

/// How a file was opened.
#[derive(Clone, Copy, PartialEq, Eq, Structural, Debug)]
pub struct FdOpt {
    /// For reading.
    pub rd: bool,
    /// For writing.
    pub wr: bool,
    /// For writing at the end.
    pub ap: bool,
    /// Without blocking.
    pub nb: bool,
}

impl Default for FdOpt {
    /// For reading only.
    fn default() -> (r: Self)
        ensures
            r == (FdOpt { rd: true, wr: false, ap: false, nb: false }),
    {
        FdOpt { rd: true, wr: false, ap: false, nb: false }
    }
}

/// What all handles of one open file share besides its bytes.
#[derive(Clone, Copy, PartialEq, Eq, Structural, Debug)]
pub struct FdState {
    pub off: u64,
    pub opt: FdOpt,
    pub flk: u8,
}

impl FdState {
    /// A file just opened, at its start.
    pub fn create(opt: FdOpt) -> (r: Self)
        ensures
            r == FdState::fresh(opt),
    {
        FdState { off: 0, opt, flk: 0 }
    }

    /// A file just opened, at its start.
    pub open spec fn fresh(opt: FdOpt) -> FdState {
        FdState { off: 0, opt, flk: 0 }
    }
}

/// What the two ends of a pipe share. `ends` starts at 2 and goes down with every end
/// that is dropped.
pub struct PipeBuf {
    pub buf: VecDeque<u8>,
    pub bus: EvBus,
    pub ends: i32,
}

/// What the ends of a pipe share, seen from outside.
#[verifier::ext_equal]
pub struct Pipe {
    pub buf: Seq<u8>,
    pub bus: Bus,
    pub ends: i32,
}

impl View for PipeBuf {
    type V = Pipe;

    open spec fn view(&self) -> Pipe {
        Pipe { buf: self.buf@, bus: self.bus@, ends: self.ends }
    }
}

impl Pipe {
    /// A pipe with both ends and nothing in it.
    pub open spec fn fresh() -> Pipe {
        Pipe { buf: Seq::empty(), bus: Bus::empty(), ends: 2 }
    }

    /// The pipe with one end less.
    pub open spec fn dropped(self) -> Pipe {
        Pipe {
            ends: self.ends.wrapping_sub(1),
            bus: self.bus.change(0, EvFlag::CLOSED),
            ..self
        }
    }

    /// The pipe with the bytes written.
    pub open spec fn written(self, bytes: Seq<u8>) -> Pipe {
        Pipe { buf: self.buf + bytes, bus: self.bus.change(0, EvFlag::READABLE), ..self }
    }

    /// How many of `n` bytes a read gives.
    pub open spec fn gives(self, n: int) -> int {
        if n < self.buf.len() {
            n
        } else {
            self.buf.len() as int
        }
    }

    /// The pipe with `k` bytes read.
    pub open spec fn read(self, k: int) -> Pipe {
        let rest = self.buf.skip(k);
        Pipe {
            buf: rest,
            bus: if rest.len() == 0 {
                self.bus.change(EvFlag::READABLE, 0)
            } else {
                self.bus
            },
            ..self
        }
    }

    /// Both ends are there and nothing is to be read: a reader has to wait.
    pub open spec fn must_wait(self) -> bool {
        self.buf.len() == 0 && self.ends == 2
    }
}

/// The bytes, positions, pipes and number sets that handles share.
pub struct FileStore {
    pub data: Vec<Vec<u8>>,
    pub descs: Vec<FdState>,
    pub pipes: Vec<PipeBuf>,
    pub sets: Vec<BTreeSet<usize>>,
}

/// What handles share, seen from outside.
#[verifier::ext_equal]
pub struct Files {
    pub data: Seq<Seq<u8>>,
    pub descs: Seq<FdState>,
    pub pipes: Seq<Pipe>,
    pub sets: Seq<Set<usize>>,
}

impl View for FileStore {
    type V = Files;

    open spec fn view(&self) -> Files {
        Files {
            data: self.data@.map_values(|v: Vec<u8>| v@),
            descs: self.descs@,
            pipes: self.pipes@.map_values(|p: PipeBuf| p@),
            sets: self.sets@.map_values(|s: BTreeSet<usize>| s@),
        }
    }
}

impl Files {
    /// Nothing shared yet.
    pub open spec fn empty() -> Files {
        Files { data: Seq::empty(), descs: Seq::empty(), pipes: Seq::empty(), sets: Seq::empty() }
    }

    /// With other bytes in the file.
    pub open spec fn with_data(self, i: usize, d: Seq<u8>) -> Files {
        Files { data: self.data.update(i as int, d), ..self }
    }

    /// With another position in the open file.
    pub open spec fn with_off(self, i: usize, off: u64) -> Files {
        Files {
            descs: self.descs.update(i as int, FdState { off, ..self.descs[i as int] }),
            ..self
        }
    }

    /// With other options of the open file.
    pub open spec fn with_opt(self, i: usize, opt: FdOpt) -> Files {
        Files {
            descs: self.descs.update(i as int, FdState { opt, ..self.descs[i as int] }),
            ..self
        }
    }

    /// With another pipe in its place.
    pub open spec fn with_pipe(self, i: usize, p: Pipe) -> Files {
        Files { pipes: self.pipes.update(i as int, p), ..self }
    }

    /// With another set in its place.
    pub open spec fn with_set(self, i: usize, s: Set<usize>) -> Files {
        Files { sets: self.sets.update(i as int, s), ..self }
    }

    /// Everything that was there is still there.
    pub open spec fn grown_to(self, post: Files) -> bool {
        &&& self.data.len() <= post.data.len()
        &&& self.descs.len() <= post.descs.len()
        &&& self.pipes.len() <= post.pipes.len()
        &&& self.sets.len() <= post.sets.len()
    }
}

impl FileStore {
    /// Nothing shared yet.
    pub fn new() -> (r: Self)
        ensures
            r@ == Files::empty(),
    {
        let r = FileStore {
            data: Vec::new(),
            descs: Vec::new(),
            pipes: Vec::new(),
            sets: Vec::new(),
        };
        proof {
            assert(r@ =~= Files::empty());
        }
        r
    }

    /// Sets the position of an open file.
    pub(crate) fn set_off(&mut self, desc: usize, off: u64)
        requires
            desc < old(self).descs@.len(),
        ensures
            final(self)@ == old(self)@.with_off(desc, off),
    {
        let d = self.descs[desc];
        self.descs.set(desc, FdState { off, opt: d.opt, flk: d.flk });
    }

    /// Changes the options of an open file.
    pub(crate) fn set_opt(&mut self, desc: usize, opt: FdOpt)
        requires
            desc < old(self).descs@.len(),
        ensures
            final(self)@ == old(self)@.with_opt(desc, opt),
    {
        let d = self.descs[desc];
        self.descs.set(desc, FdState { off: d.off, opt, flk: d.flk });
    }

    /// Writes bytes into a file, which grows as far as it has to.
    pub(crate) fn put(&mut self, file: usize, off: usize, buf: &[u8])
        requires
            file < old(self).data@.len(),
            off + buf@.len() <= usize::MAX,
        ensures
            final(self)@ == old(self)@.with_data(
                file,
                overwritten(old(self)@.data[file as int], off as int, buf@),
            ),
    {
        let ghost before = self.data@[file as int]@;
        let end: usize = off + buf.len();
        if end > self.data[file].len() {
            self.data[file].resize(end, 0u8);
        }
        let ghost grown = self.data@[file as int]@;
        let mut i: usize = 0;
        while i < buf.len()
            invariant
                file < self.data@.len(),
                i <= buf@.len(),
                off + buf@.len() == end,
                end <= grown.len(),
                self.descs@ == old(self).descs@,
                self.pipes@ == old(self).pipes@,
                self.sets@ == old(self).sets@,
                self.data@.len() == old(self).data@.len(),
                forall|k: int|
                    0 <= k < self.data@.len() && k != file ==> self.data@[k] == old(self).data@[k],
                self.data@[file as int]@.len() == grown.len(),
                forall|k: int|
                    0 <= k < grown.len() ==> #[trigger] self.data@[file as int]@[k] == (if off <= k
                        < off + i {
                        buf@[k - off]
                    } else {
                        grown[k]
                    }),
            decreases buf@.len() - i,
        {
            self.data[file].set(off + i, buf[i]);
            i = i + 1;
        }
        proof {
            assert(self.data@[file as int]@ =~= overwritten(before, off as int, buf@));
            assert(self@ =~= old(self)@.with_data(
                file,
                overwritten(before, off as int, buf@),
            ));
        }
    }
}

/// The bytes with `buf` written over them from `off` on, and zeros where they were too
/// short for that.
pub open spec fn overwritten(d: Seq<u8>, off: int, buf: Seq<u8>) -> Seq<u8> {
    Seq::new(
        (if d.len() < off + buf.len() {
            off + buf.len()
        } else {
            d.len() as int
        }) as nat,
        |i: int|
            if off <= i < off + buf.len() {
                buf[i - off]
            } else if i < d.len() {
                d[i]
            } else {
                0u8
            },
    )
}

/// The bytes cut or filled up with zeros to a length.
pub open spec fn resized(d: Seq<u8>, len: int) -> Seq<u8> {
    Seq::new(
        len as nat,
        |i: int|
            if i < d.len() {
                d[i]
            } else {
                0u8
            },
    )
}

// ---- Files ----

/// A handle of an open file.
pub struct FHandle {
    pub path: String,
    pub data: usize,
    pub desc: usize,
    pub pipe: bool,
    pub cloexec: bool,
}

/// A position in a file.
#[derive(Clone, Copy, PartialEq, Eq, Structural, Debug)]
pub enum FSeek {
    Start(u64),
    End(i64),
    Cur(i64),
}

impl FHandle {
    /// What the handle names is there.
    pub open spec fn wf(self, st: Files) -> bool {
        &&& self.data < st.data.len()
        &&& self.desc < st.descs.len()
    }

    /// The shared state of the open file.
    pub open spec fn state(self, st: Files) -> FdState {
        st.descs[self.desc as int]
    }

    /// The bytes of the file.
    pub open spec fn bytes(self, st: Files) -> Seq<u8> {
        st.data[self.data as int]
    }

    /// Where a write goes: to the end when appending, else to the position.
    pub open spec fn write_off(self, st: Files) -> usize {
        if self.state(st).opt.ap {
            (self.bytes(st).len() as u64) as usize
        } else {
            self.state(st).off as usize
        }
    }

    /// The outcome of writing `buf` at `off`, and what is shared after it.
    pub open spec fn written_at(self, st: Files, off: usize, buf: Seq<u8>) -> (
        Result<usize, &'static str>,
        Files,
    ) {
        if !self.state(st).opt.wr {
            (Err("ebadf"), st)
        } else {
            (
                Ok(buf.len() as usize),
                st.with_data(self.data, overwritten(self.bytes(st), off as int, buf)),
            )
        }
    }

    /// The outcome of a write, and what is shared after it: the position stands behind
    /// what was written.
    pub open spec fn written(self, st: Files, buf: Seq<u8>) -> (
        Result<usize, &'static str>,
        Files,
    ) {
        let (r, post) = self.written_at(st, self.write_off(st), buf);
        match r {
            Ok(n) => (r, post.with_off(self.desc, (self.write_off(st) + n) as u64)),
            Err(e) => (r, post),
        }
    }

    /// A handle of a new empty file.
    pub fn new(st: &mut FileStore, path: &str, opt: FdOpt, pipe: bool, cloexec: bool) -> (r: Self)
        ensures
            r.path@ == path@,
            r.data == old(st)@.data.len(),
            r.desc == old(st)@.descs.len(),
            r.pipe == pipe,
            r.cloexec == cloexec,
            r.wf(final(st)@),
            final(st)@ == (Files {
                data: old(st)@.data.push(Seq::empty()),
                descs: old(st)@.descs.push(FdState::fresh(opt)),
                ..old(st)@
            }),
    {
        let mut r = FHandle::with_data(st, path, opt, Vec::new());
        r.pipe = pipe;
        r.cloexec = cloexec;
        r
    }

    /// A handle of a new file with the bytes.
    pub fn with_data(st: &mut FileStore, path: &str, opt: FdOpt, d: Vec<u8>) -> (r: Self)
        ensures
            r.path@ == path@,
            r.data == old(st)@.data.len(),
            r.desc == old(st)@.descs.len(),
            !r.pipe,
            !r.cloexec,
            r.wf(final(st)@),
            final(st)@ == (Files {
                data: old(st)@.data.push(d@),
                descs: old(st)@.descs.push(FdState::fresh(opt)),
                ..old(st)@
            }),
    {
        let data: usize = st.data.len();
        let desc: usize = st.descs.len();
        st.data.push(d);
        st.descs.push(FdState::create(opt));
        proof {
            assert(st@.data =~= old(st)@.data.push(d@));
            assert(st@.pipes =~= old(st)@.pipes);
            assert(st@.sets =~= old(st)@.sets);
        }
        FHandle { path: path.to_owned(), data, desc, pipe: false, cloexec: false }
    }

    /// Another handle of the same open file: they share its bytes and its position.
    pub fn dup(&self, cloexec: bool) -> (r: Self)
        ensures
            r == (FHandle { cloexec, ..*self }),
    {
        FHandle {
            path: self.path.clone(),
            data: self.data,
            desc: self.desc,
            pipe: self.pipe,
            cloexec,
        }
    }

    /// Sets or clears non-blocking mode.
    pub fn set_opt(&self, st: &mut FileStore, arg: usize)
        requires
            self.wf(old(st)@),
        ensures
            final(st)@ == (Files {
                descs: old(st)@.descs.update(
                    self.desc as int,
                    FdState {
                        opt: FdOpt { nb: (arg & O_NONBLOCK) != 0, ..self.state(old(st)@).opt },
                        ..self.state(old(st)@)
                    },
                ),
                ..old(st)@
            }),
    {
        let d = st.descs[self.desc];
        let nb = (arg & O_NONBLOCK) != 0;
        st.descs.set(
            self.desc,
            FdState {
                off: d.off,
                opt: FdOpt { rd: d.opt.rd, wr: d.opt.wr, ap: d.opt.ap, nb },
                flk: d.flk,
            },
        );
    }

    /// How the file was opened.
    pub fn get_opt(&self, st: &FileStore) -> (r: FdOpt)
        requires
            self.wf(st@),
        ensures
            r == self.state(st@).opt,
    {
        st.descs[self.desc].opt
    }

    /// Reads on from the position, which moves on by what was read.
    pub fn read(&self, st: &mut FileStore, buf: &mut [u8]) -> (r: Result<usize, &'static str>)
        requires
            self.wf(old(st)@),
        ensures
            ({
                let d = self.state(old(st)@);
                let out = crate::bytes::read_slice(
                    self.bytes(old(st)@),
                    (d.off as usize) as int,
                    old(buf)@.len() as int,
                );
                if !d.opt.rd {
                    &&& r == Err::<usize, &'static str>("ebadf")
                    &&& final(st)@ == old(st)@
                    &&& final(buf)@ == old(buf)@
                } else {
                    &&& r == Ok::<usize, &'static str>(out.len() as usize)
                    &&& final(buf)@ == out + old(buf)@.skip(out.len() as int)
                    &&& final(st)@ == old(st)@.with_off(
                        self.desc,
                        d.off.wrapping_add(out.len() as u64),
                    )
                }
            }),
    {
        let off: u64 = st.descs[self.desc].off;
        match self.read_at(st, off as usize, buf) {
            Err(e) => Err(e),
            Ok(n) => {
                st.set_off(self.desc, off.wrapping_add(n as u64));
                Ok(n)
            },
        }
    }

    /// Reads at `off`; the position stays.
    pub fn read_at(&self, st: &FileStore, off: usize, buf: &mut [u8]) -> (r: Result<
        usize,
        &'static str,
    >)
        requires
            self.wf(st@),
        ensures
            ({
                let out = crate::bytes::read_slice(
                    self.bytes(st@),
                    off as int,
                    old(buf)@.len() as int,
                );
                if !self.state(st@).opt.rd {
                    r == Err::<usize, &'static str>("ebadf") && final(buf)@ == old(buf)@
                } else {
                    &&& r == Ok::<usize, &'static str>(out.len() as usize)
                    &&& out.len() <= usize::MAX
                    &&& final(buf)@ == out + old(buf)@.skip(out.len() as int)
                }
            }),
    {
        if !st.descs[self.desc].opt.rd {
            return Err("ebadf");
        }
        Ok(copy_out(st.data[self.data].as_slice(), off, buf))
    }

    /// Writes at the position, or at the end when appending; the position then stands behind
    /// what was written.
    pub fn write(&self, st: &mut FileStore, buf: &[u8]) -> (r: Result<usize, &'static str>)
        requires
            self.wf(old(st)@),
            self.state(old(st)@).opt.wr ==> self.write_off(old(st)@) + buf@.len() <= usize::MAX,
        ensures
            (r, final(st)@) == self.written(old(st)@, buf@),
    {
        let d = st.descs[self.desc];
        let off: usize = if d.opt.ap {
            (st.data[self.data].len() as u64) as usize
        } else {
            d.off as usize
        };
        match self.write_at(st, off, buf) {
            Err(e) => Err(e),
            Ok(n) => {
                st.set_off(self.desc, (off + n) as u64);
                Ok(n)
            },
        }
    }

    /// Writes at `off`; the position stays.
    pub fn write_at(&self, st: &mut FileStore, off: usize, buf: &[u8]) -> (r: Result<
        usize,
        &'static str,
    >)
        requires
            self.wf(old(st)@),
            self.state(old(st)@).opt.wr ==> off + buf@.len() <= usize::MAX,
        ensures
            (r, final(st)@) == self.written_at(old(st)@, off, buf@),
            r is Ok ==> r->Ok_0 == buf@.len(),
    {
        if !st.descs[self.desc].opt.wr {
            return Err("ebadf");
        }
        st.put(self.data, off, buf);
        Ok(buf.len())
    }

    /// Where a seek goes.
    pub open spec fn seek_target(self, st: Files, pos: FSeek) -> u64 {
        match pos {
            FSeek::Start(o) => o,
            FSeek::End(o) => ((self.bytes(st).len() as i64 + o) as i64) as u64,
            FSeek::Cur(o) => ((self.state(st).off as i64 + o) as i64) as u64,
        }
    }

    /// The sum that a seek computes fits.
    pub open spec fn seek_fits(self, st: Files, pos: FSeek) -> bool {
        match pos {
            FSeek::Start(o) => true,
            FSeek::End(o) => i64::MIN <= self.bytes(st).len() as i64 + o <= i64::MAX,
            FSeek::Cur(o) => i64::MIN <= self.state(st).off as i64 + o <= i64::MAX,
        }
    }

    /// Moves the position, and returns it.
    pub fn seek(&self, st: &mut FileStore, pos: FSeek) -> (r: Result<u64, &'static str>)
        requires
            self.wf(old(st)@),
            self.seek_fits(old(st)@, pos),
        ensures
            r == Ok::<u64, &'static str>(self.seek_target(old(st)@, pos)),
            final(st)@ == old(st)@.with_off(self.desc, self.seek_target(old(st)@, pos)),
    {
        let off: u64 = match pos {
            FSeek::Start(o) => o,
            FSeek::End(o) => {
                let len: i64 = st.data[self.data].len() as i64;
                (len + o) as u64
            },
            FSeek::Cur(o) => {
                let at: i64 = st.descs[self.desc].off as i64;
                (at + o) as u64
            },
        };
        st.set_off(self.desc, off);
        Ok(off)
    }

    /// Reads if the lowest bit of `dir` is set and writes if not, at `offset` or, without
    /// one, at the position. The buffer for the direction has to be there.
    pub fn transfer(
        &self,
        st: &mut FileStore,
        dir: u8,
        offset: Option<usize>,
        buf_rd: Option<&mut [u8]>,
        buf_wr: Option<&[u8]>,
    ) -> (r: Result<usize, &'static str>)
        requires
            self.wf(old(st)@),
            dir & 1 == 0 && buf_wr is Some && self.state(old(st)@).opt.wr ==> (match offset {
                Some(off) => off,
                None => self.write_off(old(st)@),
            }) + buf_wr->0@.len() <= usize::MAX,
        ensures
            dir & 1 == 0 && buf_wr is Some ==> (r, final(st)@) == (match offset {
                Some(off) => self.written_at(old(st)@, off, buf_wr->0@),
                None => self.written(old(st)@, buf_wr->0@),
            }),
            dir & 1 == 0 && buf_wr is None || dir & 1 != 0 && buf_rd is None ==> r == Err::<
                usize,
                &'static str,
            >("einval") && final(st)@ == old(st)@,
            dir & 1 != 0 && buf_rd is Some ==> ({
                let d = self.state(old(st)@);
                let from = match offset {
                    Some(off) => off,
                    None => d.off as usize,
                };
                let out = crate::bytes::read_slice(
                    self.bytes(old(st)@),
                    from as int,
                    old(buf_rd->0)@.len() as int,
                );
                if !d.opt.rd {
                    &&& r == Err::<usize, &'static str>("ebadf")
                    &&& final(st)@ == old(st)@
                    &&& final(buf_rd->0)@ == old(buf_rd->0)@
                } else {
                    &&& r == Ok::<usize, &'static str>(out.len() as usize)
                    &&& final(buf_rd->0)@ == out + old(buf_rd->0)@.skip(out.len() as int)
                    &&& final(st)@ == (if offset is Some {
                        old(st)@
                    } else {
                        old(st)@.with_off(self.desc, d.off.wrapping_add(out.len() as u64))
                    })
                }
            }),
    {
        if dir & 1 != 0 {
            match buf_rd {
                None => Err("einval"),
                Some(buf) => match offset {
                    Some(off) => self.read_at(st, off, buf),
                    None => self.read(st, buf),
                },
            }
        } else {
            match buf_wr {
                None => Err("einval"),
                Some(buf) => match offset {
                    Some(off) => self.write_at(st, off, buf),
                    None => self.write(st, buf),
                },
            }
        }
    }

    /// Sets the length of the file; it is cut or filled up with zeros.
    pub fn set_len(&self, st: &mut FileStore, len: u64) -> (r: Result<(), &'static str>)
        requires
            self.wf(old(st)@),
        ensures
            if self.state(old(st)@).opt.wr {
                &&& r is Ok
                &&& final(st)@ == old(st)@.with_data(
                    self.data,
                    resized(self.bytes(old(st)@), (len as usize) as int),
                )
            } else {
                r == Err::<(), &'static str>("ebadf") && final(st)@ == old(st)@
            },
    {
        if !st.descs[self.desc].opt.wr {
            return Err("ebadf");
        }
        let ghost d = st.data@[self.data as int]@;
        st.data[self.data].resize(len as usize, 0u8);
        proof {
            assert(st.data@[self.data as int]@ =~= resized(d, (len as usize) as int));
            assert(st@ =~= old(st)@.with_data(self.data, resized(d, (len as usize) as int)));
        }
        Ok(())
    }

    /// Nothing has to be written back: the bytes are in memory.
    pub fn sync_all(&self) -> (r: Result<(), &'static str>)
        ensures
            r is Ok,
    {
        Ok(())
    }

    /// Nothing has to be written back: the bytes are in memory.
    pub fn sync_data(&self) -> (r: Result<(), &'static str>)
        ensures
            r is Ok,
    {
        Ok(())
    }

    /// The length of the file.
    pub fn metadata_sz(&self, st: &FileStore) -> (r: usize)
        requires
            self.wf(st@),
        ensures
            r == self.bytes(st@).len(),
    {
        st.data[self.data].len()
    }

    /// Every name is found.
    pub fn lookup(&self, _path: &str, _depth: usize) -> (r: Result<(), &'static str>)
        ensures
            r is Ok,
    {
        Ok(())
    }

    /// The name of the next directory entry, which is made from the position.
    pub fn read_entry(&self, st: &mut FileStore) -> (r: Result<String, &'static str>)
        requires
            self.wf(old(st)@),
            self.state(old(st)@).opt.rd ==> self.state(old(st)@).off < u64::MAX,
        ensures
            ({
                let d = self.state(old(st)@);
                if d.opt.rd {
                    &&& r is Ok
                    &&& r->Ok_0@ == "entry_"@ + crate::text::decimal(d.off as nat)
                    &&& final(st)@ == old(st)@.with_off(self.desc, (d.off + 1) as u64)
                } else {
                    r == Err::<String, &'static str>("ebadf") && final(st)@ == old(st)@
                }
            }),
    {
        let d = st.descs[self.desc];
        if !d.opt.rd {
            return Err("ebadf");
        }
        st.set_off(self.desc, d.off + 1);
        let mut name = String::from_str("entry_");
        name.append(to_decimal(d.off).as_str());
        Ok(name)
    }

    /// A file can always be read and written.
    pub fn poll_status(&self) -> (r: (bool, bool, bool))
        ensures
            r == (true, true, false),
    {
        (true, true, false)
    }

    /// No command does anything.
    pub fn io_ctl(&self, _cmd: u32, _arg: usize) -> (r: Result<usize, &'static str>)
        ensures
            r == Ok::<usize, &'static str>(0),
    {
        Ok(0)
    }

    /// Every range can be mapped.
    pub fn mmap(&self, _start: usize, _end: usize, _off: usize) -> (r: Result<(), &'static str>)
        ensures
            r == Ok::<(), &'static str>(()),
    {
        Ok(())
    }

    /// The number under which the bytes of the file are shared.
    pub fn inode_ref(&self) -> (r: usize)
        ensures
            r == self.data,
    {
        self.data
    }

    /// Nothing has to be read ahead: the bytes are in memory.
    pub fn advise_readahead(&self, _offset: usize, _len: usize) -> (r: Result<(), &'static str>)
        requires
            _offset + _len <= usize::MAX,
        ensures
            r is Ok,
    {
        Ok(())
    }

    /// Makes the file at least `offset + len` bytes long.
    pub fn fallocate(&self, st: &mut FileStore, offset: usize, len: usize) -> (r: Result<
        (),
        &'static str,
    >)
        requires
            self.wf(old(st)@),
            self.state(old(st)@).opt.wr ==> offset + len <= usize::MAX,
        ensures
            ({
                let d = self.bytes(old(st)@);
                if !self.state(old(st)@).opt.wr {
                    r == Err::<(), &'static str>("ebadf") && final(st)@ == old(st)@
                } else if offset + len > d.len() {
                    &&& r is Ok
                    &&& final(st)@ == old(st)@.with_data(self.data, resized(d, offset + len))
                } else {
                    r is Ok && final(st)@ == old(st)@
                }
            }),
    {
        if !st.descs[self.desc].opt.wr {
            return Err("ebadf");
        }
        let needed: usize = offset + len;
        if needed > st.data[self.data].len() {
            let ghost d = st.data@[self.data as int]@;
            st.data[self.data].resize(needed, 0u8);
            proof {
                assert(st.data@[self.data as int]@ =~= resized(d, needed as int));
                assert(st@ =~= old(st)@.with_data(self.data, resized(d, needed as int)));
            }
        }
        Ok(())
    }

    /// What a splice of at most `count` bytes takes from this file.
    pub open spec fn splice_chunk(self, st: Files, count: usize) -> Seq<u8> {
        crate::bytes::read_slice(
            self.bytes(st),
            (self.state(st).off as usize) as int,
            count as int,
        )
    }

    /// What is shared once a splice has taken its bytes.
    pub open spec fn splice_taken(self, st: Files, count: usize) -> Files {
        st.with_off(
            self.desc,
            self.state(st).off.wrapping_add(self.splice_chunk(st, count).len() as u64),
        )
    }

    /// The position is at the end of the file or beyond.
    pub open spec fn at_end(self, st: Files) -> bool {
        self.state(st).off as usize >= self.bytes(st).len()
    }

    /// Reads at most `count` bytes on from the position and writes them to `dst`.
    pub fn splice_to(&self, st: &mut FileStore, dst: &FHandle, count: usize) -> (r: Result<
        usize,
        &'static str,
    >)
        requires
            self.wf(old(st)@),
            dst.wf(old(st)@),
            ({
                let mid = self.splice_taken(old(st)@, count);
                let len = self.splice_chunk(old(st)@, count).len();
                &&& dst.state(mid).opt.wr ==> dst.write_off(mid) + len <= usize::MAX
                &&& dst.state(mid).opt.wr ==> dst.state(mid).off + len <= u64::MAX
            }),
        ensures
            if self.at_end(old(st)@) {
                r == Ok::<usize, &'static str>(0) && final(st)@ == old(st)@
            } else {
                (r, final(st)@) == dst.written(
                    self.splice_taken(old(st)@, count),
                    self.splice_chunk(old(st)@, count),
                )
            },
    {
        let off: u64 = st.descs[self.desc].off;
        let from: usize = off as usize;
        let len: usize = st.data[self.data].len();
        if from >= len {
            return Ok(0);
        }
        let left: usize = len - from;
        let n: usize = if count < left {
            count
        } else {
            left
        };
        let mut chunk: Vec<u8> = Vec::new();
        let ghost all = st.data@[self.data as int]@;
        let mut i: usize = 0;
        while i < n
            invariant
                i <= n,
                from + n <= len,
                self.data < st.data@.len(),
                all == st.data@[self.data as int]@,
                len == all.len(),
                chunk@ == all.subrange(from as int, from + i),
            decreases n - i,
        {
            chunk.push(st.data[self.data][from + i]);
            proof {
                assert(all.subrange(from as int, from + i).push(all[from + i]) =~= all.subrange(
                    from as int,
                    from + i + 1,
                ));
            }
            i = i + 1;
        }
        proof {
            assert(chunk@ =~= self.splice_chunk(old(st)@, count));
        }
        st.set_off(self.desc, off.wrapping_add(n as u64));
        dst.write(st, chunk.as_slice())
    }
}

/// What is written at a place is what is read there, and a file that is written to is as long
/// as before or ends where the write ends.
pub proof fn law_written_bytes_are_read_back(d: Seq<u8>, off: int, buf: Seq<u8>)
    requires
        0 <= off,
        buf.len() > 0,
    ensures
        crate::bytes::read_slice(overwritten(d, off, buf), off, buf.len() as int) == buf,
        off + buf.len() <= d.len() ==> overwritten(d, off, buf).len() == d.len(),
        off + buf.len() > d.len() ==> overwritten(d, off, buf).len() == off + buf.len(),
{
    let out = overwritten(d, off, buf);
    assert(crate::bytes::read_slice(out, off, buf.len() as int) =~= buf);
}

/// Changing the length keeps the bytes that fit and fills with zeros.
pub proof fn law_resizing_keeps_the_front(d: Seq<u8>, len: int, i: int)
    requires
        0 <= i < len,
    ensures
        resized(d, len).len() == len,
        i < d.len() ==> resized(d, len)[i] == d[i],
        i >= d.len() ==> resized(d, len)[i] == 0,
        resized(d, d.len() as int) == d,
{
    assert(resized(d, d.len() as int) =~= d);
}

/// A write goes where the handle stands, or to the end of a file that is open for appending,
/// and the handle stands behind it then. Other files and other handles stay as they are, and a
/// file that is not open for writing is not written.
pub proof fn law_write_goes_where_it_should(f: FHandle, st: Files, buf: Seq<u8>, other: int)
    requires
        f.wf(st),
        f.bytes(st).len() + buf.len() <= usize::MAX,
        f.state(st).off + buf.len() <= usize::MAX,
        f.bytes(st).len() + buf.len() <= u64::MAX,
        f.state(st).off + buf.len() <= u64::MAX,
    ensures
        ({
            let (r, post) = f.written(st, buf);
            let (d, o) = (f.bytes(st), f.state(st));
            &&& !o.opt.wr ==> r == Err::<usize, &'static str>("ebadf") && post == st
            &&& o.opt.wr ==> r == Ok::<usize, &'static str>(buf.len() as usize)
            &&& o.opt.wr && o.opt.ap ==> f.bytes(post) == d + buf && f.state(post).off == d.len()
                + buf.len()
            &&& o.opt.wr && !o.opt.ap && o.off <= d.len() ==> f.bytes(post).take(o.off as int)
                == d.take(o.off as int) && f.bytes(post).subrange(
                o.off as int,
                o.off + buf.len(),
            ) == buf && f.state(post).off == o.off + buf.len()
            &&& f.state(post).opt == o.opt && f.state(post).flk == o.flk
            &&& other != f.data && 0 <= other < st.data.len() ==> post.data[other]
                == st.data[other]
            &&& other != f.desc && 0 <= other < st.descs.len() ==> post.descs[other]
                == st.descs[other]
            &&& post.pipes == st.pipes && post.sets == st.sets
        }),
{
    let (r, post) = f.written(st, buf);
    let (d, o) = (f.bytes(st), f.state(st));
    if o.opt.wr {
        if o.opt.ap {
            assert(f.bytes(post) =~= d + buf);
        } else if o.off <= d.len() {
            assert(f.bytes(post).take(o.off as int) =~= d.take(o.off as int));
            assert(f.bytes(post).subrange(o.off as int, o.off + buf.len()) =~= buf);
        }
    }
}

/// A write at a given place does not move the handle.
pub proof fn law_placed_write_leaves_the_position(f: FHandle, st: Files, off: usize, buf: Seq<u8>)
    requires
        f.wf(st),
        off + buf.len() <= usize::MAX,
    ensures
        ({
            let (r, post) = f.written_at(st, off, buf);
            &&& post.descs == st.descs && post.pipes == st.pipes && post.sets == st.sets
            &&& f.state(st).opt.wr ==> r == Ok::<usize, &'static str>(buf.len() as usize)
                && f.bytes(post).subrange(off as int, off + buf.len()) == buf
            &&& !f.state(st).opt.wr ==> r == Err::<usize, &'static str>("ebadf") && post == st
        }),
{
    if f.state(st).opt.wr {
        let post = f.written_at(st, off, buf).1;
        assert(f.bytes(post).subrange(off as int, off + buf.len()) =~= buf);
    }
}

/// A handle goes to the place that is counted from the start, from where it stands or from the
/// end.
pub proof fn law_seek_counts_from_its_base(f: FHandle, st: Files, o: i64, s: u64)
    requires
        f.wf(st),
        f.bytes(st).len() <= i64::MAX,
        f.state(st).off <= i64::MAX,
        0 <= f.bytes(st).len() + o <= i64::MAX,
        0 <= f.state(st).off + o <= i64::MAX,
    ensures
        f.seek_target(st, FSeek::Start(s)) == s,
        f.seek_target(st, FSeek::End(o)) == f.bytes(st).len() + o,
        f.seek_target(st, FSeek::Cur(o)) == f.state(st).off + o,
{
}

/// What is spliced is what reading from where the handle stands would give.
pub proof fn law_splice_takes_what_is_read(f: FHandle, st: Files, count: usize)
    requires
        f.wf(st),
        f.state(st).off + count <= u64::MAX,
        f.state(st).off <= usize::MAX,
    ensures
        ({
            let out = f.splice_chunk(st, count);
            let post = f.splice_taken(st, count);
            &&& out.len() <= count
            &&& forall|i: int|
                0 <= i < out.len() ==> #[trigger] out[i] == f.bytes(st)[f.state(st).off + i]
            &&& f.at_end(st) <==> f.state(st).off >= f.bytes(st).len()
            &&& f.at_end(st) ==> out.len() == 0
            &&& !f.at_end(st) && count > 0 ==> out.len() > 0
            &&& f.state(post).off == f.state(st).off + out.len()
            &&& post.data == st.data
        }),
{
}

/// A pipe keeps what is written in the order in which it comes, gives no more than it has, and
/// keeps the rest; dropping an end takes no byte away.
pub proof fn law_pipe_is_a_queue(p: Pipe, bytes: Seq<u8>, n: int)
    requires
        0 <= n,
    ensures
        p.written(bytes).buf == p.buf + bytes,
        p.written(bytes).ends == p.ends,
        0 <= p.gives(n) <= n,
        p.gives(n) <= p.buf.len(),
        n <= p.buf.len() ==> p.gives(n) == n,
        n >= p.buf.len() ==> p.gives(n) == p.buf.len(),
        p.buf.take(p.gives(n)) + p.read(p.gives(n)).buf == p.buf,
        p.read(p.gives(n)).ends == p.ends,
        p.dropped().buf == p.buf,
        p.ends > i32::MIN ==> p.dropped().ends == p.ends - 1,
        Pipe::fresh().buf.len() == 0 && Pipe::fresh().ends == 2,
        p.must_wait() <==> p.buf.len() == 0 && p.ends == 2,
{
    assert(p.buf.take(p.gives(n)) + p.read(p.gives(n)).buf =~= p.buf);
}

/// A pipe says that it can be read once something is written, no longer once it is empty, and
/// that it is closed once an end is dropped.
pub proof fn law_pipe_announces(p: Pipe, bytes: Seq<u8>)
    ensures
        p.written(bytes).bus.ev & EvFlag::READABLE == EvFlag::READABLE,
        p.read(p.buf.len() as int).bus.ev & EvFlag::READABLE == 0,
        p.dropped().bus.ev & EvFlag::CLOSED == EvFlag::CLOSED,
{
    let (e, r, c) = (p.bus.ev, EvFlag::READABLE, EvFlag::CLOSED);
    assert(((e & !0u32) | r) & r == r && ((e & !r) | 0u32) & r == 0 && ((e & !0u32) | c) & c == c)
        by (bit_vector);
    assert(p.buf.skip(p.buf.len() as int).len() == 0);
}

} // verus!
