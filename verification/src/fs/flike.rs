//! What a descriptor stands for: a file, an end of a pipe, an epoll instance or an
//! attribute of the configuration file system.
use crate::fs::configfs::{ConfigFS, ConfigNode, Tree};
use crate::fs::epoll::EpInst;
use crate::fs::files::{FHandle, FileStore, Files};
use crate::fs::pipes::{PipeDir, PipeNode};
use vstd::prelude::*;

verus! {

/// What a descriptor stands for.
pub enum FLike {
    File(FHandle),
    Pipe(PipeNode),
    Ep(EpInst),
    Config(ConfigNode),
}

impl FLike {
    /// What it names is there.
    pub open spec fn wf(self, st: Files, cf: Tree) -> bool {
        match self {
            FLike::File(f) => f.wf(st),
            FLike::Pipe(p) => p.wf(st),
            FLike::Ep(e) => e.wf(st),
            FLike::Config(c) => c.item < cf.items.len(),
        }
    }

    /// `r` is another handle of the same thing.
    pub open spec fn duplicated(self, cloexec: bool, r: FLike) -> bool {
        match self {
            FLike::File(f) => r == FLike::File(FHandle { cloexec, ..f }),
            FLike::Pipe(p) => r == self,
            FLike::Ep(e) => r is Ep && r->Ep_0.same(e),
            FLike::Config(c) => r == self,
        }
    }

    /// Both are handles of the same thing with the same flags.
    pub open spec fn same(self, other: FLike) -> bool {
        match self {
            FLike::Ep(e) => other is Ep && other->Ep_0.same(e),
            _ => other == self,
        }
    }

    /// This handle after a read of at most `n` bytes: that of an attribute stands behind what
    /// it read, so that the next read goes on from there.
    pub open spec fn moved_on(self, cf: Tree, n: nat) -> FLike {
        match self {
            FLike::Config(c) => if n > 0 && cf.item_has_attr(c.item, c.attr_name@) {
                let out = crate::bytes::read_slice(
                    cf.attr_bytes(c.item, c.attr_name@),
                    c.offset as int,
                    n as int,
                );
                FLike::Config(ConfigNode { offset: (c.offset + out.len()) as usize, ..c })
            } else {
                self
            },
            _ => self,
        }
    }

    /// The outcome of reading at most `n` bytes, those bytes, and what is shared after
    /// it. A read of an attribute starts at the position of this handle.
    pub open spec fn read_out(self, st: Files, cf: Tree, n: nat) -> (
        Result<usize, &'static str>,
        Seq<u8>,
        Files,
    ) {
        if n == 0 {
            (Ok(0), Seq::empty(), st)
        } else {
            match self {
                FLike::File(f) => {
                    let d = f.state(st);
                    let out = crate::bytes::read_slice(
                        f.bytes(st),
                        (d.off as usize) as int,
                        n as int,
                    );
                    if !d.opt.rd {
                        (Err("ebadf"), Seq::empty(), st)
                    } else {
                        (
                            Ok(out.len() as usize),
                            out,
                            st.with_off(f.desc, d.off.wrapping_add(out.len() as u64)),
                        )
                    }
                },
                FLike::Pipe(p) => p.read_out(st, n),
                FLike::Ep(_) => (Err("enosys"), Seq::empty(), st),
                FLike::Config(c) => {
                    if !cf.item_has_attr(c.item, c.attr_name@) {
                        (Err("enoent"), Seq::empty(), st)
                    } else {
                        let out = crate::bytes::read_slice(
                            cf.attr_bytes(c.item, c.attr_name@),
                            c.offset as int,
                            n as int,
                        );
                        (Ok(out.len() as usize), out, st)
                    }
                },
            }
        }
    }

    /// The outcome of writing the bytes, and what is shared and the configuration after
    /// it. After a write to a file the position stands behind what was written.
    pub open spec fn write_out(self, st: Files, cf: Tree, buf: Seq<u8>) -> (
        Result<usize, &'static str>,
        Files,
        Tree,
    ) {
        if buf.len() == 0 {
            (Ok(0), st, cf)
        } else {
            match self {
                FLike::File(f) => {
                    let (r, post) = f.written_at(st, f.write_off(st), buf);
                    match r {
                        Ok(n) => (
                            r,
                            post.with_off(f.desc, (f.write_off(st) + buf.len()) as u64),
                            cf,
                        ),
                        Err(e) => (r, post, cf),
                    }
                },
                FLike::Pipe(p) => {
                    let (r, post) = p.write_out(st, buf);
                    (r, post, cf)
                },
                FLike::Ep(_) => (Err("enosys"), st, cf),
                FLike::Config(c) => {
                    let (r, post) = cf.write_attr(c.item, c.attr_name@, buf);
                    (r, st, post)
                },
            }
        }
    }

    /// The end of what a write writes can be counted.
    pub open spec fn write_fits(self, st: Files, len: nat) -> bool {
        match self {
            FLike::File(f) => len > 0 && f.state(st).opt.wr ==> f.write_off(st) + len
                <= usize::MAX,
            _ => true,
        }
    }

    /// Whether it can be read, can be written, and is in error.
    pub open spec fn polled(self, st: Files) -> (bool, bool, bool) {
        match self {
            FLike::File(f) => (
                f.state(st).opt.rd,
                f.state(st).opt.wr,
                f.path@.len() == 0 && f.bytes(st).len() == 0,
            ),
            FLike::Pipe(p) => {
                let has_data = p.shared(st).buf.len() > 0;
                let closed = p.shared(st).ends < 2;
                (
                    p.dir == PipeDir::Rd && (has_data || closed),
                    p.dir == PipeDir::Wr && !closed,
                    p.dir == PipeDir::Wr && closed && has_data,
                )
            },
            FLike::Ep(e) => (st.sets[e.ready as int].len() > 0, false, false),
            FLike::Config(_) => (true, true, false),
        }
    }

    /// What is shared once this handle is dropped.
    pub open spec fn dropped_from(self, st: Files) -> Files {
        match self {
            FLike::Pipe(p) => p.dropped_from(st),
            _ => st,
        }
    }

    /// Another handle of the same thing; that of a file gets its own close-on-exec mark.
    pub fn dup(&self, cloexec: bool) -> (r: FLike)
        ensures
            self.duplicated(cloexec, r),
    {
        match self {
            FLike::File(f) => FLike::File(f.dup(cloexec)),
            FLike::Pipe(p) => FLike::Pipe(*p),
            FLike::Ep(e) => FLike::Ep(e.again()),
            FLike::Config(c) => FLike::Config(
                ConfigNode { item: c.item, attr_name: c.attr_name.clone(), offset: c.offset },
            ),
        }
    }

    /// Another handle of the same thing with the same flags.
    pub fn again(&self) -> (r: FLike)
        ensures
            self.same(r),
    {
        match self {
            FLike::File(f) => FLike::File(f.dup(f.cloexec)),
            FLike::Pipe(p) => FLike::Pipe(*p),
            FLike::Ep(e) => FLike::Ep(e.again()),
            FLike::Config(c) => FLike::Config(
                ConfigNode { item: c.item, attr_name: c.attr_name.clone(), offset: c.offset },
            ),
        }
    }

    /// Drops this handle.
    pub fn release(&self, st: &mut FileStore)
        requires
            match *self {
                FLike::Pipe(p) => p.wf(old(st)@),
                _ => true,
            },
        ensures
            final(st)@ == self.dropped_from(old(st)@),
    {
        if let FLike::Pipe(p) = self {
            p.release(st);
        }
    }

    /// Reads at most as many bytes as `buf` holds.
    pub fn read(&mut self, st: &mut FileStore, cf: &ConfigFS, buf: &mut [u8]) -> (r: Result<
        usize,
        &'static str,
    >)
        requires
            cf.wf(),
            old(self).wf(old(st)@, cf@),
        ensures
            ({
                let (want, out, post) = old(self).read_out(old(st)@, cf@, old(buf)@.len());
                &&& r == want
                &&& final(st)@ == post
                &&& final(buf)@ == out + old(buf)@.skip(out.len() as int)
                &&& r is Ok ==> r->Ok_0 == out.len()
            }),
            *final(self) == old(self).moved_on(cf@, old(buf)@.len()),
    {
        proof {
            assert(buf@ =~= Seq::<u8>::empty() + buf@.skip(0));
        }
        if buf.len() == 0 {
            return Ok(0);
        }
        match self {
            FLike::File(f) => {
                let r = f.read(st, buf);
                r
            },
            FLike::Pipe(p) => p.read_at(st, buf),
            FLike::Ep(_) => Err("enosys"),
            FLike::Config(c) => c.read(cf, buf),
        }
    }

    /// Writes the bytes.
    pub fn write(&self, st: &mut FileStore, cf: &mut ConfigFS, buf: &[u8]) -> (r: Result<
        usize,
        &'static str,
    >)
        requires
            old(cf).wf(),
            self.wf(old(st)@, old(cf)@),
            self.write_fits(old(st)@, buf@.len()),
        ensures
            final(cf).wf(),
            (r, final(st)@, final(cf)@) == self.write_out(old(st)@, old(cf)@, buf@),
    {
        if buf.len() == 0 {
            return Ok(0);
        }
        match self {
            FLike::File(f) => {
                let d = st.descs[f.desc];
                let off: usize = if d.opt.ap {
                    (st.data[f.data].len() as u64) as usize
                } else {
                    d.off as usize
                };
                match f.write_at(st, off, buf) {
                    Err(e) => Err(e),
                    Ok(n) => {
                        st.set_off(f.desc, (off + buf.len()) as u64);
                        Ok(n)
                    },
                }
            },
            FLike::Pipe(p) => p.write_at(st, buf),
            FLike::Ep(_) => Err("enosys"),
            FLike::Config(c) => {
                let mut node = ConfigNode {
                    item: c.item,
                    attr_name: c.attr_name.clone(),
                    offset: c.offset,
                };
                node.write(cf, buf)
            },
        }
    }

    /// A device command: files take all of them, pipes only the one for non-blocking
    /// mode, and neither does anything.
    pub fn io_ctl(&self, req: usize, a1: usize) -> (r: Result<usize, &'static str>)
        ensures
            r == (match *self {
                FLike::File(_) => Ok::<usize, &'static str>(0),
                FLike::Pipe(_) => if req == 0x5421 {
                    Ok(0)
                } else {
                    Err("enotty")
                },
                FLike::Ep(_) => Err("enosys"),
                FLike::Config(_) => Err("enotty"),
            }),
    {
        match self {
            FLike::File(f) => f.io_ctl(req as u32, a1),
            FLike::Pipe(_) => {
                if req == 0x5421 {
                    Ok(0)
                } else {
                    Err("enotty")
                }
            },
            FLike::Ep(_) => Err("enosys"),
            FLike::Config(_) => Err("enotty"),
        }
    }

    /// Maps a range that is not empty; only files can be mapped.
    pub fn mmap_fl(&self, start: usize, end: usize, off: usize) -> (r: Result<(), &'static str>)
        ensures
            r == (if start >= end {
                Err::<(), &'static str>("einval")
            } else if self is File {
                Ok(())
            } else {
                Err("enosys")
            }),
    {
        if start >= end {
            return Err("einval");
        }
        match self {
            FLike::File(f) => f.mmap(start, end, off),
            _ => Err("enosys"),
        }
    }

    /// Whether it can be read, can be written, and is in error.
    pub fn poll(&self, st: &FileStore) -> (r: (bool, bool, bool))
        requires
            match *self {
                FLike::Config(_) => true,
                FLike::File(f) => f.wf(st@),
                FLike::Pipe(p) => p.wf(st@),
                FLike::Ep(e) => e.wf(st@),
            },
        ensures
            r == self.polled(st@),
    {
        match self {
            FLike::File(f) => {
                let opt = st.descs[f.desc].opt;
                let bad = f.path.as_str().is_empty() && st.data[f.data].len() == 0;
                (opt.rd, opt.wr, bad)
            },
            FLike::Pipe(p) => {
                let has_data = st.pipes[p.data].buf.len() > 0;
                let closed = st.pipes[p.data].ends < 2;
                (
                    p.dir == PipeDir::Rd && (has_data || closed),
                    p.dir == PipeDir::Wr && !closed,
                    p.dir == PipeDir::Wr && closed && has_data,
                )
            },
            FLike::Ep(e) => (ready_len(st, e.ready) > 0, false, false),
            FLike::Config(c) => c.poll(),
        }
    }
}

/// The number of descriptors in a shared set.
fn ready_len(st: &FileStore, i: usize) -> (r: usize)
    requires
        i < st.sets@.len(),
    ensures
        r == st@.sets[i as int].len(),
{
    broadcast use vstd::std_specs::btree::group_btree_axioms;

    st.sets[i].len()
}

/// Two handles of one open file share its position: what one reads, the other reads on
/// from.
pub proof fn law_dup_shares_position(a: FLike, b: FLike, st: Files, cf: Tree, cloexec: bool, n: nat)
    requires
        a is File,
        a.wf(st, cf),
        a.duplicated(cloexec, b),
    ensures
        b.wf(st, cf),
        b.read_out(st, cf, n) == a.read_out(st, cf, n),
        b.read_out(a.read_out(st, cf, n).2, cf, n) == a.read_out(a.read_out(st, cf, n).2, cf, n),
{
}

/// What is written at the start of an empty file is what is read from its start.
pub proof fn law_file_gives_what_was_written(f: FHandle, st: Files, cf: Tree, bytes: Seq<u8>)
    requires
        f.wf(st),
        f.state(st).opt.wr,
        f.state(st).opt.rd,
        f.state(st).off == 0,
        f.bytes(st).len() == 0,
        0 < bytes.len() <= usize::MAX,
    ensures
        ({
            let mid = FLike::File(f).write_out(st, cf, bytes).1;
            let back = mid.with_off(f.desc, 0);
            &&& FLike::File(f).write_out(st, cf, bytes).0 == Ok::<usize, &'static str>(
                bytes.len() as usize,
            )
            &&& f.bytes(mid) == bytes
            &&& f.state(mid).off == bytes.len() as u64
            &&& FLike::File(f).read_out(back, cf, bytes.len()).1 == bytes
        }),
{
    let mid = FLike::File(f).write_out(st, cf, bytes).1;
    let back = mid.with_off(f.desc, 0);
    assert(f.bytes(mid) =~= bytes);
    assert(f.bytes(back) =~= bytes);
    assert(bytes.skip(0) =~= bytes);
}

/// An attribute that is read in two parts gives what it gives when it is read at once.
pub proof fn law_attribute_is_read_in_parts(c: ConfigNode, st: Files, cf: Tree, n: nat, m: nat)
    requires
        n > 0,
        m > 0,
        cf.item_has_attr(c.item, c.attr_name@),
        cf.attr_bytes(c.item, c.attr_name@).len() <= usize::MAX,
    ensures
        ({
            let fl = FLike::Config(c);
            fl.read_out(st, cf, n).1 + fl.moved_on(cf, n).read_out(st, cf, m).1 == fl.read_out(
                st,
                cf,
                n + m,
            ).1
        }),
{
    let d = cf.attr_bytes(c.item, c.attr_name@);
    let off = c.offset as int;
    let one = crate::bytes::read_slice(d, off, n as int);
    let two = crate::bytes::read_slice(d, off + one.len(), m as int);
    assert(one + two =~= crate::bytes::read_slice(d, off, (n + m) as int));
}

/// A write to a file changes no byte outside the range that it writes.
pub proof fn law_write_keeps_the_rest(d: Seq<u8>, off: int, buf: Seq<u8>, i: int)
    requires
        0 <= off,
        0 <= i < crate::fs::files::overwritten(d, off, buf).len(),
    ensures
        off <= i < off + buf.len() ==> crate::fs::files::overwritten(d, off, buf)[i] == buf[i
            - off],
        i < d.len() && !(off <= i < off + buf.len()) ==> crate::fs::files::overwritten(
            d,
            off,
            buf,
        )[i] == d[i],
        i >= d.len() && !(off <= i < off + buf.len()) ==> crate::fs::files::overwritten(
            d,
            off,
            buf,
        )[i] == 0,
{
}

/// Reading from a file gives the bytes at the position, moves it behind them, and changes no
/// byte; a file that is not open for reading is not read.
pub proof fn law_read_moves_on(f: FHandle, st: Files, cf: Tree, n: nat)
    requires
        f.wf(st),
        n > 0,
        f.state(st).off <= usize::MAX,
        f.state(st).off + f.bytes(st).len() <= u64::MAX,
        f.bytes(st).len() <= usize::MAX,
    ensures
        ({
            let (r, out, post) = FLike::File(f).read_out(st, cf, n);
            let (d, o) = (f.bytes(st), f.state(st));
            &&& !o.opt.rd ==> r == Err::<usize, &'static str>("ebadf") && out.len() == 0 && post
                == st
            &&& o.opt.rd ==> r == Ok::<usize, &'static str>(out.len() as usize)
            &&& o.opt.rd ==> f.state(post).off == o.off + out.len() && f.state(post).opt == o.opt
            &&& o.opt.rd && o.off + n <= d.len() ==> out == d.subrange(o.off as int, o.off + n)
            &&& o.opt.rd && o.off <= d.len() < o.off + n ==> out == d.skip(o.off as int)
            &&& o.opt.rd && o.off >= d.len() ==> out.len() == 0
            &&& post.data == st.data && post.pipes == st.pipes && post.sets == st.sets
            &&& FLike::File(f).moved_on(cf, n) == FLike::File(f)
        }),
{
    let (r, out, post) = FLike::File(f).read_out(st, cf, n);
    let (d, o) = (f.bytes(st), f.state(st));
    if o.opt.rd && o.off + n <= d.len() {
        assert(out =~= d.subrange(o.off as int, o.off + n));
    }
    if o.opt.rd && o.off <= d.len() < o.off + n {
        assert(out =~= d.skip(o.off as int));
    }
}

/// Writing through a descriptor is writing through what it stands for, whatever that is; to an
/// attribute it goes to the attribute, and nothing can be written to or read from a set of
/// watches.
pub proof fn law_descriptor_writes_through(fl: FLike, st: Files, cf: Tree, buf: Seq<u8>, n: nat)
    requires
        buf.len() > 0,
        buf.len() <= usize::MAX,
        n > 0,
    ensures
        fl is File ==> (fl.write_out(st, cf, buf).0, fl.write_out(st, cf, buf).1)
            == fl->File_0.written(st, buf) && fl.write_out(st, cf, buf).2 == cf,
        fl is Pipe ==> (fl.write_out(st, cf, buf).0, fl.write_out(st, cf, buf).1)
            == fl->Pipe_0.write_out(st, buf) && fl.write_out(st, cf, buf).2 == cf,
        fl is Pipe ==> fl.read_out(st, cf, n) == fl->Pipe_0.read_out(st, n),
        fl is Config ==> (fl.write_out(st, cf, buf).0, fl.write_out(st, cf, buf).2)
            == cf.write_attr(fl->Config_0.item, fl->Config_0.attr_name@, buf) && fl.write_out(
            st,
            cf,
            buf,
        ).1 == st,
        fl is Ep ==> fl.write_out(st, cf, buf) == (Err::<usize, &'static str>("enosys"), st, cf)
            && fl.read_out(st, cf, n).0 == Err::<usize, &'static str>("enosys"),
        fl.write_out(st, cf, Seq::<u8>::empty()) == (Ok::<usize, &'static str>(0), st, cf),
        fl.read_out(st, cf, 0) == (Ok::<usize, &'static str>(0), Seq::<u8>::empty(), st),
{
}

/// A copy of a descriptor stands for the same thing: the same file and position, the same end of
/// the same pipe, the same attribute. Only a file has the mark that the copy is asked for.
pub proof fn law_copy_stands_for_the_same(a: FLike, cloexec: bool, b: FLike)
    requires
        a.duplicated(cloexec, b),
    ensures
        a is File ==> b is File && b->File_0.data == a->File_0.data && b->File_0.desc
            == a->File_0.desc && b->File_0.cloexec == cloexec && b->File_0.path == a->File_0.path,
        a is Pipe ==> b == a,
        a is Config ==> b == a,
        a is Ep ==> b is Ep && b->Ep_0.events@ == a->Ep_0.events@ && b->Ep_0.ready
            == a->Ep_0.ready && b->Ep_0.new_ctl == a->Ep_0.new_ctl,
{
}

/// A file is ready for what it is open for. The end of a pipe to read from is ready once there
/// is something to read or the other end is gone, the end to write to while the other end is
/// there.
pub proof fn law_ready_means_it_can_be_done(fl: FLike, st: Files)
    ensures
        fl is File ==> fl.polled(st).0 == fl->File_0.state(st).opt.rd && fl.polled(st).1
            == fl->File_0.state(st).opt.wr,
        fl is Pipe && fl->Pipe_0.dir == PipeDir::Rd ==> !fl.polled(st).1 && !fl.polled(st).2 && (
        fl.polled(st).0 <==> fl->Pipe_0.shared(st).buf.len() > 0 || fl->Pipe_0.shared(st).ends < 2),
        fl is Pipe && fl->Pipe_0.dir == PipeDir::Wr ==> !fl.polled(st).0 && (fl.polled(st).1
            <==> fl->Pipe_0.shared(st).ends >= 2) && (fl.polled(st).2 <==> fl->Pipe_0.shared(
            st,
        ).ends < 2 && fl->Pipe_0.shared(st).buf.len() > 0),
        fl is Pipe && fl->Pipe_0.dir == PipeDir::Rd && fl->Pipe_0.shared(st).ends <= 2 ==> (
        fl.polled(st).0 <==> !fl->Pipe_0.shared(st).must_wait()),
        fl is Ep ==> !fl.polled(st).1 && !fl.polled(st).2,
        fl is Config ==> fl.polled(st) == (true, true, false),
        !(fl is Pipe) ==> fl.dropped_from(st) == st,
        fl is Pipe ==> fl.dropped_from(st) == fl->Pipe_0.dropped_from(st),
{
}

/// Handles that are the same stand for the same file, end of a pipe or attribute, at the same
/// place; an epoll instance watches and shares the same.
pub proof fn law_same_handles_stand_for_the_same(a: FLike, b: FLike)
    requires
        a.same(b),
    ensures
        !(a is Ep) ==> b == a,
        a is Ep ==> b is Ep && b->Ep_0.events@ == a->Ep_0.events@ && b->Ep_0.ready == a->Ep_0.ready
            && b->Ep_0.new_ctl == a->Ep_0.new_ctl,
{
}

} // verus!
