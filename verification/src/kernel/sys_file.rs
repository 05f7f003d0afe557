//! System calls on files and descriptors.

use vstd::prelude::*;

use crate::consts::{
    FD_CLOEXEC, FIOCLEX, FIONBIO, FIONCLEX, F_DUPFD, F_DUPFD_CLOEXEC, F_GETFD, F_GETFL, F_GETLK,
    F_SETFD, F_SETFL, F_SETLK, F_SETLKW, N_PROC, O_APPEND, O_CLOEXEC, O_NONBLOCK, PAGE_SZ,
    SYS_STAT, TCGETS, TCSETS, TIOCGPGRP, TIOCGWINSZ, TIOCSPGRP,
};
use crate::fs::configfs::{ConfigLookup, ConfigNode, Found, Tree};
use crate::fs::files::{FHandle, FdOpt, FdState, Files};
use crate::fs::flike::FLike;
use crate::kernel::Kernel;
use crate::process::{Shared, Task};
use crate::text::{chars_of, starts_with, text_of, to_decimal};
use crate::util::check_access;

verus! {

broadcast use vstd::std_specs::btree::group_btree_axioms;

/// The most descriptors that some calls take.
pub const FD_LIMIT: usize = 1024;

/// The bit of the weight `b`, a power of two, is set.
pub open spec fn bit(x: usize, b: usize) -> bool {
    (x / b) % 2 == 1
}

/// A count as the result of a system call.
pub open spec fn widened(r: Result<usize, &'static str>) -> Result<u64, &'static str> {
    match r {
        Ok(n) => Ok(n as u64),
        Err(e) => Err(e),
    }
}

fn widen(r: Result<usize, &'static str>) -> (w: Result<u64, &'static str>)
    ensures
        w == widened(r),
{
    match r {
        Ok(n) => Ok(n as u64),
        Err(e) => Err(e),
    }
}

/// Reading leaves everything in place that others name.
proof fn lemma_read_keeps_sizes(fl: FLike, st: Files, cf: Tree, n: nat)
    requires
        fl.wf(st, cf),
    ensures
        st.grown_to(fl.read_out(st, cf, n).2),
{
}

/// Writing leaves everything in place that others name.
proof fn lemma_write_keeps_sizes(fl: FLike, st: Files, cf: Tree, buf: Seq<u8>)
    requires
        fl.wf(st, cf),
    ensures
        st.grown_to(fl.write_out(st, cf, buf).1),
        cf.items.len() == fl.write_out(st, cf, buf).2.items.len(),
{
}

// ---- Reading and writing ----

/// What a read of the running task's descriptor comes to: its bytes, or an error.
pub open spec fn fd_read(a: Kernel, fd: usize, count: usize) -> (
    Result<usize, &'static str>,
    Seq<u8>,
    Files,
) {
    match a.running(0) {
        None => (Err("esrch"), Seq::empty(), a.shared.files@),
        Some(t) => {
            let files = a.tasks.tasks@[t as int].files@;
            if files.contains_key(fd) {
                files[fd].read_out(a.shared.files@, a.configfs@, count as nat)
            } else {
                (Err("ebadf"), Seq::empty(), a.shared.files@)
            }
        },
    }
}

/// `b` is the kernel after a read of the running task's descriptor: what is shared may have
/// changed, and where the descriptor stands.
pub open spec fn read_on(a: Kernel, fd: usize, count: usize, b: Kernel) -> bool {
    if a.running(0) is Some && a.tasks.tasks@[a.running(0)->0 as int].files@.contains_key(fd) {
        let t = a.running(0)->0;
        let (x, y) = (a.tasks.tasks@[t as int], b.tasks.tasks@[t as int]);
        &&& crate::kernel::only_task(a.tasks, t, b.tasks)
        &&& y == (Task { files: y.files, ..x })
        &&& y.files@ == x.files@.insert(fd, x.files@[fd].moved_on(a.configfs@, count as nat))
        &&& b == (Kernel {
            tasks: b.tasks,
            shared: Shared { files: b.shared.files, ..a.shared },
            ..a
        })
    } else {
        b == a
    }
}

/// What a write to the running task's descriptor comes to.
pub open spec fn fd_write(a: Kernel, fd: usize, data: Seq<u8>) -> (
    Result<usize, &'static str>,
    Files,
    Tree,
) {
    match a.running(0) {
        None => (Err("esrch"), a.shared.files@, a.configfs@),
        Some(t) => {
            let files = a.tasks.tasks@[t as int].files@;
            if files.contains_key(fd) {
                files[fd].write_out(a.shared.files@, a.configfs@, data)
            } else {
                (Err("ebadf"), a.shared.files@, a.configfs@)
            }
        },
    }
}

/// The end of a write to the running task's descriptor can be counted.
pub open spec fn fd_write_fits(a: Kernel, fd: usize, len: nat) -> bool {
    match a.running(0) {
        None => true,
        Some(t) => {
            let files = a.tasks.tasks@[t as int].files@;
            files.contains_key(fd) ==> files[fd].write_fits(a.shared.files@, len)
        },
    }
}

/// The end of a write can be counted, if it comes to that.
pub open spec fn write_counts(a: Kernel, fd: usize, addr: usize, count: usize) -> bool {
    fd >= 3 && addr != 0 && crate::util::in_user_space(addr, count) ==> fd_write_fits(
        a,
        fd,
        count as nat,
    )
}

/// What a read from the console gives: all that is asked for but one page where it is
/// cached, and else at most 16 pages.
pub open spec fn console_read(cached: bool, count: usize) -> u64 {
    if cached {
        if count > PAGE_SZ {
            (count - PAGE_SZ) as u64
        } else {
            count as u64
        }
    } else if count > 16 * PAGE_SZ {
        (16 * PAGE_SZ) as u64
    } else {
        count as u64
    }
}

/// The outcome of a read.
pub open spec fn did_read(
    a: Kernel,
    fd: usize,
    addr: usize,
    count: usize,
    r: Result<u64, &'static str>,
    b: Kernel,
) -> bool {
    if count == 0 {
        r == Ok::<u64, &'static str>(0) && b == a
    } else if addr == 0 || !crate::util::in_user_space(addr, count) {
        r == Err::<u64, &'static str>("efault") && b == a
    } else if fd >= 3 {
        let (want, _out, post) = fd_read(a, fd, count);
        &&& r == widened(want)
        &&& b.shared.files@ == post
        &&& read_on(a, fd, count, b)
    } else {
        r == Ok::<u64, &'static str>(console_read(a.cache.holds(fd), count)) && b == a
    }
}

/// The outcome of a write, for which the bytes at the address stand as zeros.
pub open spec fn did_write(
    a: Kernel,
    fd: usize,
    addr: usize,
    count: usize,
    r: Result<u64, &'static str>,
    b: Kernel,
) -> bool {
    if count == 0 {
        r == Ok::<u64, &'static str>(0) && b == a
    } else if addr == 0 || !crate::util::in_user_space(addr, count) {
        r == Err::<u64, &'static str>("efault") && b == a
    } else if fd >= 3 {
        let (want, st, cf) = fd_write(a, fd, Seq::new(count as nat, |i: int| 0u8));
        &&& r == widened(want)
        &&& b.shared.files@ == st
        &&& b.configfs@ == cf
        &&& b == (Kernel {
            shared: Shared { files: b.shared.files, ..a.shared },
            configfs: b.configfs,
            ..a
        })
    } else {
        &&& r == Ok::<u64, &'static str>(count as u64)
        &&& console_marked(a, fd, b)
    }
}

/// `b` is the kernel once the block of a console descriptor is marked as modified and the
/// operation counted.
pub open spec fn console_marked(a: Kernel, fd: usize, b: Kernel) -> bool {
    exists|mid: crate::fs::block_cache::BlockCache| #[trigger]
        a.cache.with_chain(a.cache.chain_of(fd), a.cache.marked(fd), mid) && b == (Kernel {
            cache: crate::fs::block_cache::BlockCache {
                ops: a.cache.ops.wrapping_add(1),
                ..mid
            },
            ..a
        })
}

impl Kernel {
    /// Reads from a descriptor of the running task.
    pub fn read_fd(&mut self, fd: usize, count: usize) -> (r: Result<Vec<u8>, &'static str>)
        requires
            old(self).wf(),
        ensures
            final(self).wf(),
            ({
                let (want, out, post) = fd_read(*old(self), fd, count);
                &&& want is Ok ==> r is Ok && r->Ok_0@ == out && want == Ok::<usize, &'static str>(
                    out.len() as usize,
                )
                &&& want is Err ==> r is Err && r->Err_0 == want->Err_0
                &&& final(self).shared.files@ == post
            }),
            read_on(*old(self), fd, count, *final(self)),
    {
        let t: usize = match self.cur_task(0) {
            Some(t) => t,
            None => {
                return Err("esrch");
            },
        };
        let ghost x = self.tasks.tasks@[t as int];
        let ghost st = self.shared.files@;
        proof {
            assert(self.cpus@[0] is Some);
            assert(crate::process::table::links_ok(x, self.tasks.tasks@.len()));
            assert(crate::process::table::backed(
                x,
                self.shared.files@,
                self.configfs@,
                self.shared.sems@,
                self.shared.shms@,
            ));
        }
        if !self.tasks.tasks[t].files.contains_key(&fd) {
            return Err("ebadf");
        }
        let mut buf: Vec<u8> = vec![0u8;count];
        let mut fl: FLike = self.tasks.tasks[t].files.remove(&fd).unwrap();
        proof {
            assert(fl == x.files@[fd]);
            lemma_read_keeps_sizes(fl, st, self.configfs@, count as nat);
        }
        let got: Result<usize, &'static str> = fl.read(
            &mut self.shared.files,
            &self.configfs,
            buf.as_mut_slice(),
        );
        self.tasks.tasks[t].files.insert(fd, fl);
        proof {
            let y = self.tasks.tasks@[t as int];
            assert(y.files@ =~= x.files@.insert(fd, fl));
            crate::kernel::lemma_still_backed(
                x,
                st,
                self.configfs@,
                self.shared.sems@,
                self.shared.shms@,
                self.shared.files@,
                self.configfs@,
                self.shared.sems@,
                self.shared.shms@,
            );
            assert forall|k: usize| #[trigger] y.files@.contains_key(k) implies y.files@[k].wf(
                self.shared.files@,
                self.configfs@,
            ) by {
                assert(x.files@.contains_key(k));
                assert(x.files@[k].wf(self.shared.files@, self.configfs@));
            }
            crate::kernel::lemma_task_changed(*old(self), t, *self);
        }
        match got {
            Ok(n) => {
                buf.truncate(n);
                assert(buf@ =~= fd_read(*old(self), fd, count).1);
                Ok(buf)
            },
            Err(e) => Err(e),
        }
    }

    /// Writes to a descriptor of the running task.
    pub fn write_fd(&mut self, fd: usize, data: &[u8]) -> (r: Result<usize, &'static str>)
        requires
            old(self).wf(),
            fd_write_fits(*old(self), fd, data@.len()),
        ensures
            final(self).wf(),
            (r, final(self).shared.files@, final(self).configfs@) == fd_write(
                *old(self),
                fd,
                data@,
            ),
            *final(self) == (Kernel {
                shared: Shared { files: final(self).shared.files, ..old(self).shared },
                configfs: final(self).configfs,
                ..*old(self)
            }),
    {
        let t: usize = match self.cur_task(0) {
            Some(t) => t,
            None => {
                return Err("esrch");
            },
        };
        let ghost files = self.tasks.tasks@[t as int].files@;
        let ghost st = self.shared.files@;
        let ghost cf = self.configfs@;
        proof {
            assert(self.cpus@[0] is Some);
            assert(crate::process::table::backed(
                self.tasks.tasks@[t as int],
                self.shared.files@,
                self.configfs@,
                self.shared.sems@,
                self.shared.shms@,
            ));
        }
        let r: Result<usize, &'static str> = match self.tasks.tasks[t].files.get(&fd) {
            Some(fl) => {
                proof {
                    assert(files.contains_key(fd));
                    lemma_write_keeps_sizes(*fl, st, cf, data@);
                }
                fl.write(&mut self.shared.files, &mut self.configfs, data)
            },
            None => Err("ebadf"),
        };
        proof {
            self.lemma_shared_grew(*old(self));
        }
        r
    }

    /// Reads: from a descriptor of the running task, or, below 3, from the console.
    pub fn sys_read(&mut self, fd: usize, addr: usize, count: usize) -> (r: Result<
        u64,
        &'static str,
    >)
        requires
            old(self).wf(),
        ensures
            final(self).wf(),
            did_read(*old(self), fd, addr, count, r, *final(self)),
    {
        if addr == 0 && count > 0 {
            return Err("efault");
        }
        if count == 0 {
            return Ok(0);
        }
        if !check_access(addr, count) {
            return Err("efault");
        }
        if fd >= 3 {
            return match self.read_fd(fd, count) {
                Ok(data) => Ok(data.len() as u64),
                Err(e) => Err(e),
            };
        }
        if self.cache.contains(fd) {
            if count > PAGE_SZ {
                Ok((count - PAGE_SZ) as u64)
            } else {
                Ok(count as u64)
            }
        } else if count > 16 * PAGE_SZ {
            Ok((16 * PAGE_SZ) as u64)
        } else {
            Ok(count as u64)
        }
    }

    /// Writes: to a descriptor of the running task, or, below 3, to the console.
    pub fn sys_write(&mut self, fd: usize, addr: usize, count: usize) -> (r: Result<
        u64,
        &'static str,
    >)
        requires
            old(self).wf(),
            write_counts(*old(self), fd, addr, count),
        ensures
            final(self).wf(),
            did_write(*old(self), fd, addr, count, r, *final(self)),
    {
        if addr == 0 && count > 0 {
            return Err("efault");
        }
        if count == 0 {
            return Ok(0);
        }
        if !check_access(addr, count) {
            return Err("efault");
        }
        if fd >= 3 {
            let data: Vec<u8> = vec![0u8;count];
            assert(data@ =~= Seq::new(count as nat, |i: int| 0u8));
            let n: Result<usize, &'static str> = self.write_fd(fd, data.as_slice());
            return widen(n);
        }
        self.cache.mark(fd);
        let ghost mid = self.cache;
        self.cache.count_op();
        assert(old(self).cache.with_chain(
            old(self).cache.chain_of(fd),
            old(self).cache.marked(fd),
            mid,
        ));
        Ok(count as u64)
    }
}

// ---- Opening and closing ----

/// The path that stands for the text at an address.
pub open spec fn open_path(addr: usize) -> Seq<char> {
    "/config/path_"@ + crate::text::decimal(addr as nat)
}

/// How a file is opened by its flags.
pub open spec fn opened_as(flags: usize) -> FdOpt {
    FdOpt {
        rd: flags % 4 == 0 || flags % 4 == 2,
        wr: flags % 4 == 1 || flags % 4 == 2,
        ap: bit(flags, O_APPEND),
        nb: bit(flags, O_NONBLOCK),
    }
}

/// `b` is the kernel once task `t` has an attribute open at `fd`, the least free
/// descriptor.
pub open spec fn attr_opened(
    a: Kernel,
    t: usize,
    item: usize,
    name: Seq<char>,
    fd: usize,
    b: Kernel,
) -> bool {
    let (x, y) = (a.tasks.tasks@[t as int], b.tasks.tasks@[t as int]);
    let fl = y.files@[fd];
    &&& crate::tables::is_least_free(x.files@.dom(), fd)
    &&& fl is Config
    &&& fl->Config_0.item == item
    &&& fl->Config_0.attr_name@ == name
    &&& fl->Config_0.offset == 0
    &&& y.files@ == x.files@.insert(fd, fl)
    &&& y == (Task { files: y.files, ..x })
    &&& crate::kernel::only_task(a.tasks, t, b.tasks)
    &&& b == (Kernel { tasks: b.tasks, ..a })
}

/// `b` is the kernel once task `t` has a new empty file open at `fd`, the least free
/// descriptor.
pub open spec fn file_opened(a: Kernel, t: usize, flags: usize, fd: usize, b: Kernel) -> bool {
    let (x, y) = (a.tasks.tasks@[t as int], b.tasks.tasks@[t as int]);
    let fl = y.files@[fd];
    let st = a.shared.files@;
    &&& crate::tables::is_least_free(x.files@.dom(), fd)
    &&& fl is File
    &&& fl->File_0.path@ == "anon"@
    &&& fl->File_0.data == st.data.len()
    &&& fl->File_0.desc == st.descs.len()
    &&& !fl->File_0.pipe
    &&& fl->File_0.cloexec == bit(flags, O_CLOEXEC)
    &&& y.files@ == x.files@.insert(fd, fl)
    &&& y == (Task { files: y.files, ..x })
    &&& crate::kernel::only_task(a.tasks, t, b.tasks)
    &&& b.shared.files@ == (Files {
        data: st.data.push(Seq::empty()),
        descs: st.descs.push(FdState::fresh(opened_as(flags))),
        ..st
    })
    &&& b == (Kernel {
        tasks: b.tasks,
        shared: Shared { files: b.shared.files, ..a.shared },
        ..a
    })
}

/// The outcome of opening the path at an address. A path into the configuration opens the
/// attribute that it leads to, and nothing else; any other opens a new empty file.
pub open spec fn did_open(
    a: Kernel,
    path_addr: usize,
    flags: usize,
    r: Result<u64, &'static str>,
    b: Kernel,
) -> bool {
    let res = crate::fs::mounts::resolved(
        a.mnt.entries@,
        crate::text::normalized(open_path(path_addr)),
    );
    if path_addr == 0 || !crate::util::in_user_space(path_addr, 256) {
        r == Err::<u64, &'static str>("efault") && b == a
    } else if crate::text::starts(res, "configfs:"@) {
        let found = a.configfs@.lookup(res.skip("configfs:"@.len() as int));
        match (found, a.running(0)) {
            (Ok(Found::Attr(item, name)), Some(t)) => r is Ok && r->Ok_0 <= usize::MAX
                && attr_opened(a, t, item, name, r->Ok_0 as usize, b),
            _ => r == Err::<u64, &'static str>("enoent") && b == a,
        }
    } else if bit(flags, 0o100) && bit(flags, 0o200) && a.cache.holds(path_addr) {
        r == Err::<u64, &'static str>("eexist") && b == a
    } else {
        match a.running(0) {
            Some(t) => r is Ok && r->Ok_0 <= usize::MAX && file_opened(
                a,
                t,
                flags,
                r->Ok_0 as usize,
                b,
            ),
            None => r == Ok::<u64, &'static str>((3 + path_addr % 64) as u64) && b == a,
        }
    }
}

/// The cache once the block of a descriptor's number has left it.
pub open spec fn uncached(a: Kernel, fd: usize, b: Kernel) -> bool {
    exists|mid: crate::fs::block_cache::BlockCache| #[trigger]
        a.cache.with_chain(
            a.cache.chain_of(fd),
            a.cache.home(fd).filter(crate::fs::block_cache::other_block(fd)),
            mid,
        ) && b.cache == (crate::fs::block_cache::BlockCache {
            ops: if a.cache.holds(fd) {
                a.cache.ops.wrapping_add(1)
            } else {
                a.cache.ops
            },
            ..mid
        })
}

/// The descriptor is one that the running task has open, and not one of the console.
pub open spec fn is_open(a: Kernel, fd: usize) -> bool {
    &&& fd >= 3
    &&& a.running(0) is Some
    &&& a.tasks.tasks@[a.running(0)->0 as int].files@.contains_key(fd)
}

/// The outcome of closing a descriptor: the block of its number leaves the cache, and what
/// the running task has open under it is dropped. Those of the console stay.
pub open spec fn did_close(a: Kernel, fd: usize, r: Result<u64, &'static str>, b: Kernel) -> bool {
    if fd > FD_LIMIT {
        r == Err::<u64, &'static str>("ebadf") && b == a
    } else {
        &&& r == Ok::<u64, &'static str>(0)
        &&& uncached(a, fd, b)
        &&& if is_open(a, fd) {
            let t = a.running(0)->0;
            let (x, y) = (a.tasks.tasks@[t as int], b.tasks.tasks@[t as int]);
            &&& crate::kernel::only_task(a.tasks, t, b.tasks)
            &&& y == (Task { files: y.files, ..x })
            &&& y.files@ == x.files@.remove(fd)
            &&& b.shared.files@ == x.files@[fd].dropped_from(a.shared.files@)
            &&& b == (Kernel {
                tasks: b.tasks,
                shared: Shared { files: b.shared.files, ..a.shared },
                cache: b.cache,
                ..a
            })
        } else {
            b == (Kernel { cache: b.cache, ..a })
        }
    }
}

/// What asking for the state of a file comes to.
pub open spec fn stat_result(nr: usize, target: usize, buf: usize) -> Result<u64, &'static str> {
    if buf == 0 || !crate::util::in_user_space(buf, 144) {
        Err("efault")
    } else if nr == SYS_STAT && !crate::util::in_user_space(target, 256) {
        Err("efault")
    } else {
        Ok(0)
    }
}

impl Kernel {
    fn path_at(addr: usize) -> (r: String)
        ensures
            r@ == open_path(addr),
    {
        let mut path = "/config/path_".to_owned();
        let number = to_decimal(addr as u64);
        path.append(number.as_str());
        path
    }

    /// Opens the path at an address.
    pub fn sys_open(&mut self, path_addr: usize, flags: usize, _mode: usize) -> (r: Result<
        u64,
        &'static str,
    >)
        requires
            old(self).wf(),
        ensures
            final(self).wf(),
            did_open(*old(self), path_addr, flags, r, *final(self)),
    {
        if path_addr == 0 {
            return Err("efault");
        }
        if !check_access(path_addr, 256) {
            return Err("efault");
        }
        let path = Self::path_at(path_addr);
        proof {
            reveal_strlit("/config/path_");
        }
        let resolved = match self.lookup_path(path.as_str()) {
            Ok(p) => p,
            Err(_) => path,
        };
        let chars = chars_of(resolved.as_str());
        let head = chars_of("configfs:");
        if starts_with(&chars, &head) {
            let sub = text_of(&chars, head.len(), chars.len());
            assert(sub@ =~= resolved@.skip("configfs:"@.len() as int));
            return match self.configfs.lookup(sub.as_str()) {
                Ok(ConfigLookup::Attr(item, name)) => {
                    match self.cur_task(0) {
                        Some(t) => {
                            assert(self.cpus@[0] is Some);
                            let fd: usize = self.open_attr(t, item, name.as_str());
                            Ok(fd as u64)
                        },
                        None => Err("enoent"),
                    }
                },
                _ => Err("enoent"),
            };
        }
        if (flags / 0o100) % 2 == 1 && (flags / 0o200) % 2 == 1 {
            if self.cache.contains(path_addr) {
                return Err("eexist");
            }
        }
        match self.cur_task(0) {
            Some(t) => {
                assert(self.cpus@[0] is Some);
                let fd: usize = self.open_file(t, flags);
                Ok(fd as u64)
            },
            None => Ok(3 + (path_addr % 64) as u64),
        }
    }

    fn open_attr(&mut self, t: usize, item: usize, name: &str) -> (fd: usize)
        requires
            old(self).wf(),
            t < old(self).tasks.tasks@.len(),
            item < old(self).configfs@.items.len(),
        ensures
            final(self).wf(),
            attr_opened(*old(self), t, item, name@, fd, *final(self)),
    {
        let node = ConfigNode::new(item, name);
        let fd: usize = self.tasks.tasks[t].add_file(FLike::Config(node));
        proof {
            let (x, y) = (old(self).tasks.tasks@[t as int], self.tasks.tasks@[t as int]);
            assert(crate::process::table::links_ok(x, old(self).tasks.tasks@.len()));
            assert(crate::process::table::backed(
                x,
                self.shared.files@,
                self.configfs@,
                self.shared.sems@,
                self.shared.shms@,
            ));
            assert forall|k: usize| #[trigger] y.files@.contains_key(k) implies y.files@[k].wf(
                self.shared.files@,
                self.configfs@,
            ) by {
                if k != fd {
                    assert(x.files@.contains_key(k));
                }
            }
            crate::kernel::lemma_task_changed(*old(self), t, *self);
        }
        fd
    }

    fn open_file(&mut self, t: usize, flags: usize) -> (fd: usize)
        requires
            old(self).wf(),
            t < old(self).tasks.tasks@.len(),
        ensures
            final(self).wf(),
            file_opened(*old(self), t, flags, fd, *final(self)),
    {
        let acc: usize = flags % 4;
        let opt = FdOpt {
            rd: acc == 0 || acc == 2,
            wr: acc == 1 || acc == 2,
            ap: (flags / O_APPEND) % 2 == 1,
            nb: (flags / O_NONBLOCK) % 2 == 1,
        };
        let mut fh = FHandle::new(&mut self.shared.files, "anon", opt, false, false);
        fh.cloexec = (flags / O_CLOEXEC) % 2 == 1;
        let ghost handle = fh;
        let fd: usize = self.tasks.tasks[t].add_file(FLike::File(fh));
        proof {
            let (x, y) = (old(self).tasks.tasks@[t as int], self.tasks.tasks@[t as int]);
            assert(y.files@[fd] == FLike::File(handle));
            assert(crate::process::table::links_ok(x, old(self).tasks.tasks@.len()));
            crate::kernel::lemma_still_backed(
                x,
                old(self).shared.files@,
                self.configfs@,
                self.shared.sems@,
                self.shared.shms@,
                self.shared.files@,
                self.configfs@,
                self.shared.sems@,
                self.shared.shms@,
            );
            assert forall|k: usize| #[trigger] y.files@.contains_key(k) implies y.files@[k].wf(
                self.shared.files@,
                self.configfs@,
            ) by {
                if k != fd {
                    assert(x.files@.contains_key(k));
                }
            }
            crate::kernel::lemma_task_changed(*old(self), t, *self);
        }
        fd
    }

    /// Closes a descriptor.
    pub fn sys_close(&mut self, fd: usize) -> (r: Result<u64, &'static str>)
        requires
            old(self).wf(),
        ensures
            final(self).wf(),
            did_close(*old(self), fd, r, *final(self)),
    {
        if fd > N_PROC * 4 {
            return Err("ebadf");
        }
        let was = self.cache.discard(fd);
        let ghost mid = self.cache;
        if was {
            self.cache.count_op();
        }
        assert(old(self).cache.with_chain(
            old(self).cache.chain_of(fd),
            old(self).cache.home(fd).filter(crate::fs::block_cache::other_block(fd)),
            mid,
        ));
        if fd >= 3 {
            if let Some(t) = self.cur_task(0) {
                assert(self.cpus@[0] is Some);
                if self.tasks.tasks[t].files.contains_key(&fd) {
                    self.close_fd(t, fd);
                }
            }
        }
        Ok(0)
    }

    /// Drops what a task has open under a descriptor.
    fn close_fd(&mut self, t: usize, fd: usize)
        requires
            old(self).wf(),
            t < old(self).tasks.tasks@.len(),
            old(self).tasks.tasks@[t as int].files@.contains_key(fd),
        ensures
            final(self).wf(),
            crate::kernel::only_task(old(self).tasks, t, final(self).tasks),
            ({
                let (x, y) = (
                    old(self).tasks.tasks@[t as int],
                    final(self).tasks.tasks@[t as int],
                );
                &&& y == (Task { files: y.files, ..x })
                &&& y.files@ == x.files@.remove(fd)
                &&& final(self).shared.files@ == x.files@[fd].dropped_from(
                    old(self).shared.files@,
                )
            }),
            *final(self) == (Kernel {
                tasks: final(self).tasks,
                shared: Shared { files: final(self).shared.files, ..old(self).shared },
                ..*old(self)
            }),
    {
        let ghost x = self.tasks.tasks@[t as int];
        let ghost st = self.shared.files@;
        proof {
            assert(crate::process::table::links_ok(x, self.tasks.tasks@.len()));
            assert(crate::process::table::backed(
                x,
                st,
                self.configfs@,
                self.shared.sems@,
                self.shared.shms@,
            ));
        }
        let fl: FLike = self.tasks.tasks[t].files.remove(&fd).unwrap();
        fl.release(&mut self.shared.files);
        proof {
            let y = self.tasks.tasks@[t as int];
            crate::process::task::lemma_dropped_keeps_sizes(x.files@[fd], st);
            crate::kernel::lemma_still_backed(
                x,
                st,
                self.configfs@,
                self.shared.sems@,
                self.shared.shms@,
                self.shared.files@,
                self.configfs@,
                self.shared.sems@,
                self.shared.shms@,
            );
            assert forall|k: usize| #[trigger] y.files@.contains_key(k) implies y.files@[k].wf(
                self.shared.files@,
                self.configfs@,
            ) by {
                assert(x.files@.contains_key(k));
            }
            crate::kernel::lemma_task_changed(*old(self), t, *self);
        }
    }

    /// Asks for the state of a file, by path or by descriptor.
    pub fn sys_stat(&self, nr: usize, target: usize, buf: usize) -> (r: Result<u64, &'static str>)
        ensures
            r == stat_result(nr, target, buf),
    {
        if buf == 0 {
            return Err("efault");
        }
        if !check_access(buf, 144) {
            return Err("efault");
        }
        if nr == SYS_STAT {
            if !check_access(target, 256) {
                return Err("efault");
            }
        }
        Ok(0)
    }
}

// ---- Device commands, pipes and copies of descriptors ----

/// The size of what a device command takes the address of.
pub open spec fn ioctl_size(cmd: usize) -> Option<usize> {
    if cmd == TCGETS || cmd == TCSETS {
        Some(60)
    } else if cmd == TIOCGPGRP || cmd == TIOCSPGRP || cmd == FIONBIO {
        Some(4)
    } else if cmd == TIOCGWINSZ {
        Some(8)
    } else {
        None
    }
}

/// The outcome of a device command. Two set and clear the close-on-exec mark of a descriptor;
/// those of terminals take an address of something of their size.
pub open spec fn did_ioctl(
    a: Kernel,
    fd: usize,
    cmd: usize,
    arg: usize,
    r: Result<u64, &'static str>,
    b: Kernel,
) -> bool {
    if cmd == FIONCLEX || cmd == FIOCLEX {
        r == Ok::<u64, &'static str>(0) && cloexec_set(a, fd, cmd == FIOCLEX, b)
    } else {
        b == a && r == match ioctl_size(cmd) {
            None => Err::<u64, &'static str>("enotty"),
            Some(n) => if crate::util::in_user_space(arg, n) {
                Ok(0)
            } else {
                Err("efault")
            },
        }
    }
}

/// The outcome of opening a pipe: both descriptors in one number, the one to read from in
/// its low half.
pub open spec fn did_pipe(
    a: Kernel,
    fds_addr: usize,
    r: Result<u64, &'static str>,
    b: Kernel,
) -> bool {
    if fds_addr == 0 || !crate::util::in_user_space(fds_addr, 8) {
        r == Err::<u64, &'static str>("efault") && b == a
    } else {
        match a.running(0) {
            None => r == Err::<u64, &'static str>("esrch") && b == a,
            Some(t) => {
                if a.tasks.tasks@[t as int].files@.len() + 2 > N_PROC {
                    r == Err::<u64, &'static str>("emfile") && b == a
                } else {
                    &&& r is Ok
                    &&& crate::kernel::life::piped_in(
                        a.tasks,
                        t,
                        a.shared.files@.pipes.len() as usize,
                        (r->Ok_0 % 0x1_0000_0000) as usize,
                        (r->Ok_0 / 0x1_0000_0000) as usize,
                        b.tasks,
                    )
                    &&& b.shared.files@ == crate::kernel::life::with_new_pipe(a.shared.files@)
                    &&& b == (Kernel {
                        tasks: b.tasks,
                        shared: Shared { files: b.shared.files, ..a.shared },
                        ..a
                    })
                }
            },
        }
    }
}

/// `fd` is the least free descriptor from `from` on.
pub open spec fn is_free_from(files: Map<usize, FLike>, from: usize, fd: usize) -> bool {
    &&& from <= fd
    &&& !files.contains_key(fd)
    &&& forall|k: usize| from <= k < fd ==> files.contains_key(k)
}

/// The outcome of copying a descriptor of task `t` to the least free one from `from` on.
/// Where there is nothing to copy, only that number is given.
pub open spec fn copied_from(
    a: Kernel,
    t: usize,
    old_fd: usize,
    from: usize,
    cloexec: bool,
    r: Result<u64, &'static str>,
    b: Kernel,
) -> bool {
    let (x, y) = (a.tasks.tasks@[t as int], b.tasks.tasks@[t as int]);
    let fd = r->Ok_0 as usize;
    &&& r is Ok && r->Ok_0 <= usize::MAX
    &&& is_free_from(x.files@, from, fd)
    &&& if x.files@.contains_key(old_fd) {
        &&& crate::kernel::only_task(a.tasks, t, b.tasks)
        &&& y == (Task { files: y.files, ..x })
        &&& x.files@[old_fd].duplicated(cloexec, y.files@[fd])
        &&& y.files@ == x.files@.insert(fd, y.files@[fd])
        &&& b == (Kernel { tasks: b.tasks, ..a })
    } else {
        b == a
    }
}

/// The outcome of copying a descriptor to the least free one from it on.
pub open spec fn did_dup(a: Kernel, old_fd: usize, r: Result<u64, &'static str>, b: Kernel) -> bool {
    if old_fd >= FD_LIMIT {
        r == Err::<u64, &'static str>("ebadf") && b == a
    } else {
        match a.running(0) {
            Some(t) => copied_from(a, t, old_fd, old_fd, false, r, b),
            None => r == Ok::<u64, &'static str>((old_fd + 1) as u64) && b == a,
        }
    }
}

/// There is a free descriptor from `from` on in the running task, if there is one.
pub open spec fn has_free_from(a: Kernel, from: usize) -> bool {
    a.running(0) is Some ==> exists|k: usize|
        k >= from && !a.tasks.tasks@[a.running(0)->0 as int].files@.contains_key(k)
}

/// There is a free descriptor from `old_fd` on in the running task, if it comes to that.
pub open spec fn dup_counts(a: Kernel, old_fd: usize) -> bool {
    old_fd < FD_LIMIT ==> has_free_from(a, old_fd)
}

/// What is shared once a descriptor, if it is open, is dropped.
pub open spec fn dropped_at(files: Map<usize, FLike>, fd: usize, st: Files) -> Files {
    if files.contains_key(fd) {
        files[fd].dropped_from(st)
    } else {
        st
    }
}

/// The outcome of copying a descriptor to a given one, which is closed first, even where
/// there is nothing to copy.
pub open spec fn did_dup2(
    a: Kernel,
    old_fd: usize,
    new_fd: usize,
    r: Result<u64, &'static str>,
    b: Kernel,
) -> bool {
    if old_fd >= FD_LIMIT || new_fd >= FD_LIMIT {
        r == Err::<u64, &'static str>("ebadf") && b == a
    } else if old_fd == new_fd || a.running(0) is None {
        r == Ok::<u64, &'static str>(new_fd as u64) && b == a
    } else {
        let t = a.running(0)->0;
        let (x, y) = (a.tasks.tasks@[t as int], b.tasks.tasks@[t as int]);
        let st = a.shared.files@;
        &&& crate::kernel::only_task(a.tasks, t, b.tasks)
        &&& y == (Task { files: y.files, ..x })
        &&& b == (Kernel {
            tasks: b.tasks,
            shared: Shared { files: b.shared.files, ..a.shared },
            ..a
        })
        &&& if x.files@.contains_key(old_fd) {
            &&& r == Ok::<u64, &'static str>(new_fd as u64)
            &&& x.files@[old_fd].duplicated(false, y.files@[new_fd])
            &&& y.files@ == x.files@.insert(new_fd, y.files@[new_fd])
            &&& b.shared.files@ == dropped_at(
                x.files@,
                new_fd,
                x.files@[old_fd].dropped_from(st),
            )
        } else {
            &&& r == Err::<u64, &'static str>("ebadf")
            &&& y.files@ == x.files@.remove(new_fd)
            &&& b.shared.files@ == dropped_at(x.files@, new_fd, st)
        }
    }
}

/// There is a free descriptor from `arg` on in the running task, if it comes to that.
pub open spec fn fcntl_counts(a: Kernel, fd: usize, cmd: usize, arg: usize) -> bool {
    fd < FD_LIMIT && (cmd == F_DUPFD || cmd == F_DUPFD_CLOEXEC) ==> has_free_from(a, arg)
}

/// The file that the running task has open under a descriptor.
pub open spec fn open_file(a: Kernel, fd: usize) -> Option<FHandle> {
    match a.running(0) {
        Some(t) => {
            let files = a.tasks.tasks@[t as int].files@;
            if files.contains_key(fd) && files[fd] is File {
                Some(files[fd]->File_0)
            } else {
                None
            }
        },
        None => None,
    }
}

/// `b` is the kernel once the file that the running task has open under a descriptor, if
/// there is one, is marked as one to close, or not to close, when another program is started.
pub open spec fn cloexec_set(a: Kernel, fd: usize, cloexec: bool, b: Kernel) -> bool {
    match open_file(a, fd) {
        Some(f) => {
            let t = a.running(0)->0;
            let (x, y) = (a.tasks.tasks@[t as int], b.tasks.tasks@[t as int]);
            &&& crate::kernel::only_task(a.tasks, t, b.tasks)
            &&& y == (Task { files: y.files, ..x })
            &&& y.files@ == x.files@.insert(fd, FLike::File(FHandle { cloexec, ..f }))
            &&& b == (Kernel { tasks: b.tasks, ..a })
        },
        None => b == a,
    }
}

/// The flags of an open file that can be changed: whether it is written at its end, and
/// whether it blocks.
pub open spec fn status_flags(o: FdOpt) -> u64 {
    ((if o.ap {
        O_APPEND
    } else {
        0
    }) + (if o.nb {
        O_NONBLOCK
    } else {
        0
    })) as u64
}

/// The flags of a descriptor: those of its file, and else fixed ones.
pub open spec fn flags_of(a: Kernel, fd: usize) -> u64 {
    match open_file(a, fd) {
        Some(f) => status_flags(f.state(a.shared.files@).opt),
        None => if fd <= 2 {
            (O_NONBLOCK + O_APPEND) as u64
        } else {
            O_NONBLOCK as u64
        },
    }
}

/// `b` is the kernel once the file that the running task has open under a descriptor, if
/// there is one, has other flags.
pub open spec fn flags_set(a: Kernel, fd: usize, arg: usize, b: Kernel) -> bool {
    match open_file(a, fd) {
        Some(f) => {
            let o = f.state(a.shared.files@).opt;
            &&& b.shared.files@ == a.shared.files@.with_opt(
                f.desc,
                FdOpt { ap: bit(arg, O_APPEND), nb: bit(arg, O_NONBLOCK), ..o },
            )
            &&& b == (Kernel { shared: Shared { files: b.shared.files, ..a.shared }, ..a })
        },
        None => b == a,
    }
}

/// The outcome of a command on a descriptor.
pub open spec fn did_fcntl(
    a: Kernel,
    fd: usize,
    cmd: usize,
    arg: usize,
    r: Result<u64, &'static str>,
    b: Kernel,
) -> bool {
    if fd >= FD_LIMIT {
        r == Err::<u64, &'static str>("ebadf") && b == a
    } else if cmd == F_DUPFD || cmd == F_DUPFD_CLOEXEC {
        match a.running(0) {
            Some(t) => copied_from(a, t, fd, arg, cmd == F_DUPFD_CLOEXEC, r, b),
            None => r == Ok::<u64, &'static str>(arg as u64) && b == a,
        }
    } else if cmd == F_GETFD {
        let marked = open_file(a, fd) is Some && open_file(a, fd)->0.cloexec;
        r == Ok::<u64, &'static str>(
            if marked {
                FD_CLOEXEC as u64
            } else {
                0
            },
        ) && b == a
    } else if cmd == F_SETFD {
        r == Ok::<u64, &'static str>(0) && cloexec_set(a, fd, bit(arg, FD_CLOEXEC), b)
    } else if cmd == F_GETFL {
        r == Ok::<u64, &'static str>(flags_of(a, fd)) && b == a
    } else if cmd == F_SETFL {
        if arg % O_APPEND == 0 && arg < 4 * O_APPEND {
            r == Ok::<u64, &'static str>(0) && flags_set(a, fd, arg, b)
        } else {
            r == Err::<u64, &'static str>("einval") && b == a
        }
    } else if cmd == F_GETLK || cmd == F_SETLK || cmd == F_SETLKW {
        b == a && r == if crate::util::in_user_space(arg, 32) {
            Ok::<u64, &'static str>(0)
        } else {
            Err("efault")
        }
    } else {
        r == Err::<u64, &'static str>("einval") && b == a
    }
}

/// What is set of a descriptor is what it then has: its close-on-exec mark and its flags.
pub proof fn law_set_flags_are_kept(a: Kernel, fd: usize, arg: usize, b: Kernel)
    requires
        a.wf(),
        open_file(a, fd) is Some,
        arg % O_APPEND == 0,
        arg < 4 * O_APPEND,
    ensures
        cloexec_set(a, fd, true, b) ==> open_file(b, fd) is Some && open_file(b, fd)->0.cloexec,
        cloexec_set(a, fd, false, b) ==> open_file(b, fd) is Some && !open_file(
            b,
            fd,
        )->0.cloexec,
        flags_set(a, fd, arg, b) ==> flags_of(b, fd) == arg,
{
    let t = a.running(0)->0;
    assert(crate::process::table::backed(
        a.tasks.tasks@[t as int],
        a.shared.files@,
        a.configfs@,
        a.shared.sems@,
        a.shared.shms@,
    ));
}

impl Kernel {
    /// A device command.
    pub fn sys_ioctl(&mut self, fd: usize, cmd: usize, arg: usize) -> (r: Result<
        u64,
        &'static str,
    >)
        requires
            old(self).wf(),
        ensures
            final(self).wf(),
            did_ioctl(*old(self), fd, cmd, arg, r, *final(self)),
    {
        if cmd == FIONCLEX || cmd == FIOCLEX {
            self.set_cloexec(fd, cmd == FIOCLEX);
            return Ok(0);
        }
        let len: usize = if cmd == TCGETS || cmd == TCSETS {
            60
        } else if cmd == TIOCGPGRP || cmd == TIOCSPGRP || cmd == FIONBIO {
            4
        } else if cmd == TIOCGWINSZ {
            8
        } else {
            return Err("enotty");
        };
        if check_access(arg, len) {
            Ok(0)
        } else {
            Err("efault")
        }
    }

    /// Marks the file under a descriptor of the running task as one to close, or not to close,
    /// when another program is started.
    fn set_cloexec(&mut self, fd: usize, cloexec: bool)
        requires
            old(self).wf(),
        ensures
            final(self).wf(),
            cloexec_set(*old(self), fd, cloexec, *final(self)),
    {
        let t: usize = match self.cur_task(0) {
            Some(t) => t,
            None => {
                return ;
            },
        };
        let ghost x = self.tasks.tasks@[t as int];
        proof {
            assert(self.cpus@[0] is Some);
            assert(crate::process::table::links_ok(x, self.tasks.tasks@.len()));
            assert(crate::process::table::backed(
                x,
                self.shared.files@,
                self.configfs@,
                self.shared.sems@,
                self.shared.shms@,
            ));
        }
        let marked: Option<FHandle> = match self.tasks.tasks[t].files.get(&fd) {
            Some(FLike::File(f)) => Some(f.dup(cloexec)),
            _ => None,
        };
        if let Some(f) = marked {
            self.tasks.tasks[t].files.insert(fd, FLike::File(f));
            proof {
                let y = self.tasks.tasks@[t as int];
                assert(x.files@[fd].wf(self.shared.files@, self.configfs@));
                assert forall|k: usize| #[trigger] y.files@.contains_key(k) implies y.files@[k].wf(
                    self.shared.files@,
                    self.configfs@,
                ) by {
                    assert(x.files@.contains_key(k));
                }
                crate::kernel::lemma_task_changed(*old(self), t, *self);
            }
        }
    }

    /// Opens a pipe in the running task.
    pub fn sys_pipe(&mut self, fds_addr: usize) -> (r: Result<u64, &'static str>)
        requires
            old(self).wf(),
        ensures
            final(self).wf(),
            did_pipe(*old(self), fds_addr, r, *final(self)),
    {
        if fds_addr == 0 {
            return Err("efault");
        }
        if !check_access(fds_addr, 8) {
            return Err("efault");
        }
        let t: usize = match self.cur_task(0) {
            Some(t) => t,
            None => {
                return Err("esrch");
            },
        };
        assert(self.cpus@[0] is Some);
        let count: usize = self.tasks.tasks[t].fd_count();
        if count > N_PROC - 2 {
            return Err("emfile");
        }
        let ghost files = self.tasks.tasks@[t as int].files@;
        let (rd, wr): (usize, usize) = self.open_pipe(t);
        proof {
            crate::tables::lemma_pigeon(files.dom(), rd);
            let n = old(self).shared.files@.pipes.len() as usize;
            let one = files.insert(
                rd,
                FLike::Pipe(
                    crate::fs::pipes::PipeNode { data: n, dir: crate::fs::pipes::PipeDir::Rd },
                ),
            );
            assert(one.dom() =~= files.dom().insert(rd));
            crate::tables::lemma_pigeon(one.dom(), wr);
            assert(rd <= N_PROC && wr <= N_PROC);
        }
        let both: u64 = rd as u64 + wr as u64 * 0x1_0000_0000;
        assert(both % 0x1_0000_0000 == rd && both / 0x1_0000_0000 == wr);
        Ok(both)
    }

    /// Copies a descriptor of the running task to the least free one from it on.
    pub fn sys_dup(&mut self, old_fd: usize) -> (r: Result<u64, &'static str>)
        requires
            old(self).wf(),
            dup_counts(*old(self), old_fd),
        ensures
            final(self).wf(),
            did_dup(*old(self), old_fd, r, *final(self)),
    {
        if old_fd >= N_PROC * 4 {
            return Err("ebadf");
        }
        let t: usize = match self.cur_task(0) {
            Some(t) => t,
            None => {
                return Ok(old_fd as u64 + 1);
            },
        };
        assert(self.cpus@[0] is Some);
        Ok(self.copy_fd(t, old_fd, old_fd, false))
    }

    /// Copies a descriptor of a task to the least free one from `from` on.
    fn copy_fd(&mut self, t: usize, old_fd: usize, from: usize, cloexec: bool) -> (r: u64)
        requires
            old(self).wf(),
            t < old(self).tasks.tasks@.len(),
            exists|k: usize|
                k >= from && !old(self).tasks.tasks@[t as int].files@.contains_key(k),
        ensures
            final(self).wf(),
            copied_from(*old(self), t, old_fd, from, cloexec, Ok(r), *final(self)),
    {
        let fd: usize = self.tasks.tasks[t].get_free_fd_from(from);
        let ghost x = self.tasks.tasks@[t as int];
        let copy: Option<FLike> = match self.tasks.tasks[t].files.get(&old_fd) {
            Some(fl) => Some(fl.dup(cloexec)),
            None => None,
        };
        if let Some(d) = copy {
            proof {
                assert(crate::process::table::links_ok(x, self.tasks.tasks@.len()));
                assert(crate::process::table::backed(
                    x,
                    self.shared.files@,
                    self.configfs@,
                    self.shared.sems@,
                    self.shared.shms@,
                ));
                assert(x.files@.contains_key(old_fd));
            }
            self.tasks.tasks[t].files.insert(fd, d);
            proof {
                let y = self.tasks.tasks@[t as int];
                assert(y.files@ =~= x.files@.insert(fd, y.files@[fd]));
                assert forall|k: usize| #[trigger] y.files@.contains_key(k) implies y.files@[k].wf(
                    self.shared.files@,
                    self.configfs@,
                ) by {
                    if k != fd {
                        assert(x.files@.contains_key(k));
                    } else {
                        assert(x.files@[old_fd].wf(self.shared.files@, self.configfs@));
                    }
                }
                crate::kernel::lemma_task_changed(*old(self), t, *self);
            }
        }
        fd as u64
    }

    /// Copies a descriptor of the running task to a given one.
    pub fn sys_dup2(&mut self, old_fd: usize, new_fd: usize) -> (r: Result<u64, &'static str>)
        requires
            old(self).wf(),
        ensures
            final(self).wf(),
            did_dup2(*old(self), old_fd, new_fd, r, *final(self)),
    {
        if old_fd >= N_PROC * 4 {
            return Err("ebadf");
        }
        if new_fd >= N_PROC * 4 {
            return Err("ebadf");
        }
        if old_fd == new_fd {
            return Ok(new_fd as u64);
        }
        let t: usize = match self.cur_task(0) {
            Some(t) => t,
            None => {
                return Ok(new_fd as u64);
            },
        };
        let ghost x = self.tasks.tasks@[t as int];
        let ghost st = self.shared.files@;
        proof {
            assert(self.cpus@[0] is Some);
            assert(crate::process::table::links_ok(x, self.tasks.tasks@.len()));
            assert(crate::process::table::backed(
                x,
                self.shared.files@,
                self.configfs@,
                self.shared.sems@,
                self.shared.shms@,
            ));
        }
        let prev: Option<FLike> = self.tasks.tasks[t].files.remove(&new_fd);
        let copy: Option<FLike> = match self.tasks.tasks[t].files.get(&old_fd) {
            Some(fl) => {
                proof {
                    assert(x.files@.contains_key(old_fd));
                    assert(*fl == x.files@[old_fd]);
                }
                let d = fl.dup(false);
                fl.release(&mut self.shared.files);
                Some(d)
            },
            None => None,
        };
        let ghost mid = self.shared.files@;
        match prev {
            Some(p) => {
                assert(x.files@.contains_key(new_fd));
                p.release(&mut self.shared.files);
            },
            None => {},
        }
        let r: Result<u64, &'static str> = match copy {
            Some(d) => {
                self.tasks.tasks[t].files.insert(new_fd, d);
                Ok(new_fd as u64)
            },
            None => Err("ebadf"),
        };
        proof {
            let y = self.tasks.tasks@[t as int];
            if copy is Some {
                assert(y.files@ =~= x.files@.insert(new_fd, y.files@[new_fd]));
                crate::process::task::lemma_dropped_keeps_sizes(x.files@[old_fd], st);
            } else {
                assert(y.files@ =~= x.files@.remove(new_fd));
            }
            if prev is Some {
                crate::process::task::lemma_dropped_keeps_sizes(x.files@[new_fd], mid);
            }
            crate::kernel::lemma_still_backed(
                x,
                st,
                self.configfs@,
                self.shared.sems@,
                self.shared.shms@,
                self.shared.files@,
                self.configfs@,
                self.shared.sems@,
                self.shared.shms@,
            );
            assert forall|k: usize| #[trigger] y.files@.contains_key(k) implies y.files@[k].wf(
                self.shared.files@,
                self.configfs@,
            ) by {
                if k != new_fd {
                    assert(x.files@.contains_key(k));
                } else {
                    assert(x.files@.contains_key(old_fd));
                    assert(x.files@[old_fd].wf(self.shared.files@, self.configfs@));
                }
            }
            crate::kernel::lemma_task_changed(*old(self), t, *self);
        }
        r
    }

    /// A command on a descriptor.
    pub fn sys_fcntl(&mut self, fd: usize, cmd: usize, arg: usize) -> (r: Result<
        u64,
        &'static str,
    >)
        requires
            old(self).wf(),
            fcntl_counts(*old(self), fd, cmd, arg),
        ensures
            final(self).wf(),
            did_fcntl(*old(self), fd, cmd, arg, r, *final(self)),
    {
        if fd >= N_PROC * 4 {
            return Err("ebadf");
        }
        if cmd == F_DUPFD || cmd == F_DUPFD_CLOEXEC {
            match self.cur_task(0) {
                Some(t) => {
                    assert(self.cpus@[0] is Some);
                    Ok(self.copy_fd(t, fd, arg, cmd == F_DUPFD_CLOEXEC))
                },
                None => Ok(arg as u64),
            }
        } else if cmd == F_GETFD {
            match self.file_at(fd) {
                Some(f) if f.cloexec => Ok(FD_CLOEXEC as u64),
                _ => Ok(0),
            }
        } else if cmd == F_SETFD {
            self.set_cloexec(fd, (arg / FD_CLOEXEC) % 2 == 1);
            Ok(0)
        } else if cmd == F_GETFL {
            match self.file_at(fd) {
                Some(f) => {
                    let o = f.get_opt(&self.shared.files);
                    let ap: usize = if o.ap {
                        O_APPEND
                    } else {
                        0
                    };
                    let nb: usize = if o.nb {
                        O_NONBLOCK
                    } else {
                        0
                    };
                    Ok((ap + nb) as u64)
                },
                None => if fd <= 2 {
                    Ok((O_NONBLOCK + O_APPEND) as u64)
                } else {
                    Ok(O_NONBLOCK as u64)
                },
            }
        } else if cmd == F_SETFL {
            if arg % O_APPEND == 0 && arg < 4 * O_APPEND {
                self.set_flags(fd, arg);
                Ok(0)
            } else {
                Err("einval")
            }
        } else if cmd == F_GETLK || cmd == F_SETLK || cmd == F_SETLKW {
            if check_access(arg, 32) {
                Ok(0)
            } else {
                Err("efault")
            }
        } else {
            Err("einval")
        }
    }

    /// The file that the running task has open under a descriptor.
    fn file_at(&self, fd: usize) -> (r: Option<&FHandle>)
        requires
            self.wf(),
        ensures
            match r {
                Some(f) => open_file(*self, fd) == Some(*f) && f.wf(self.shared.files@),
                None => open_file(*self, fd) is None,
            },
    {
        let t: usize = match self.cur_task(0) {
            Some(t) => t,
            None => {
                return None;
            },
        };
        proof {
            assert(self.cpus@[0] is Some);
            assert(crate::process::table::backed(
                self.tasks.tasks@[t as int],
                self.shared.files@,
                self.configfs@,
                self.shared.sems@,
                self.shared.shms@,
            ));
        }
        match self.tasks.tasks[t].files.get(&fd) {
            Some(FLike::File(f)) => {
                assert(self.tasks.tasks@[t as int].files@.contains_key(fd));
                Some(f)
            },
            _ => None,
        }
    }

    /// Sets the flags of the file under a descriptor of the running task.
    fn set_flags(&mut self, fd: usize, arg: usize)
        requires
            old(self).wf(),
        ensures
            final(self).wf(),
            flags_set(*old(self), fd, arg, *final(self)),
    {
        let desc: usize = match self.file_at(fd) {
            Some(f) => f.desc,
            None => {
                return ;
            },
        };
        let o: FdOpt = self.shared.files.descs[desc].opt;
        let ap: bool = (arg / O_APPEND) % 2 == 1;
        let nb: bool = (arg / O_NONBLOCK) % 2 == 1;
        self.shared.files.set_opt(desc, FdOpt { rd: o.rd, wr: o.wr, ap, nb });
        proof {
            self.lemma_shared_grew(*old(self));
        }
    }
}

/// A descriptor that was closed can be neither read nor written any more, and the others of
/// the task stay.
pub proof fn law_closed_descriptor_is_gone(
    a: Kernel,
    fd: usize,
    r: Result<u64, &'static str>,
    b: Kernel,
    other: usize,
    n: usize,
    data: Seq<u8>,
)
    requires
        fd <= FD_LIMIT,
        is_open(a, fd),
        did_close(a, fd, r, b),
        other != fd,
    ensures
        r == Ok::<u64, &'static str>(0),
        !is_open(b, fd),
        fd_read(b, fd, n).0 == Err::<usize, &'static str>("ebadf"),
        fd_write(b, fd, data).0 == Err::<usize, &'static str>("ebadf"),
        is_open(b, other) == is_open(a, other),
{
}

/// A bit of a number is set if the number, without the higher bits, is not below it.
pub proof fn law_bit_is_a_binary_digit(x: usize, b: usize, k: int, d: int)
    requires
        b > 0,
        0 <= d < b,
        0 <= k,
    ensures
        x == k * (2 * b) + d ==> !bit(x, b),
        x == k * (2 * b) + b + d ==> bit(x, b),
{
    if x == k * (2 * b) + d {
        assert(x == (2 * k) * b + d) by (nonlinear_arith)
            requires
                x == k * (2 * b) + d,
        ;
        vstd::arithmetic::div_mod::lemma_fundamental_div_mod_converse(
            x as int,
            b as int,
            2 * k,
            d,
        );
    }
    if x == k * (2 * b) + b + d {
        assert(x == (2 * k + 1) * b + d) by (nonlinear_arith)
            requires
                x == k * (2 * b) + b + d,
        ;
        vstd::arithmetic::div_mod::lemma_fundamental_div_mod_converse(
            x as int,
            b as int,
            2 * k + 1,
            d,
        );
    }
}

/// Reading goes through the descriptor: an open file gives the bytes at its position, and only
/// the position moves; a descriptor that is not open is refused.
pub proof fn law_read_call_reads_the_file(
    a: Kernel,
    fd: usize,
    addr: usize,
    count: usize,
    r: Result<u64, &'static str>,
    b: Kernel,
    t: usize,
)
    requires
        a.wf(),
        a.running(0) == Some(t),
        fd >= 3,
        0 < count,
        0 < addr,
        addr + count <= usize::MAX,
        addr + count <= crate::consts::KERN_BASE,
        did_read(a, fd, addr, count, r, b),
    ensures
        !a.tasks.tasks@[t as int].files@.contains_key(fd) ==> r == Err::<u64, &'static str>("ebadf")
            && b.shared.files@ == a.shared.files@,
        open_file(a, fd) is Some && open_file(a, fd)->0.state(a.shared.files@).opt.rd ==> {
            let f = open_file(a, fd)->0;
            let d = f.bytes(a.shared.files@);
            let o = f.state(a.shared.files@).off;
            &&& r is Ok
            &&& o + count <= d.len() && o + count <= u64::MAX && o + count <= usize::MAX ==> r->Ok_0
                == count && f.state(b.shared.files@).off == o + count
            &&& o >= d.len() && o <= usize::MAX ==> r->Ok_0 == 0
            &&& b.shared.files@.data == a.shared.files@.data
        },
        open_file(a, fd) is Some && !open_file(a, fd)->0.state(a.shared.files@).opt.rd ==> r
            == Err::<u64, &'static str>("ebadf"),
        b.configfs == a.configfs && b.pool == a.pool && b.tasks.map == a.tasks.map,
{
    assert(a.cpus@[0] is Some);
    assert(crate::process::table::backed(
        a.tasks.tasks@[t as int],
        a.shared.files@,
        a.configfs@,
        a.shared.sems@,
        a.shared.shms@,
    ));
    if open_file(a, fd) is Some {
        let f = open_file(a, fd)->0;
        let (d, o) = (f.bytes(a.shared.files@), f.state(a.shared.files@).off);
        assert(a.tasks.tasks@[t as int].files@.contains_key(fd));
        assert(f.wf(a.shared.files@));
        crate::bytes::law_read_is_a_part(d, (o as usize) as int, count as int, 0);
    }
}

/// Nothing is read into or written from an address that is not in user space, and nothing is
/// done for a length of zero.
pub proof fn law_buffers_lie_in_user_space(
    a: Kernel,
    fd: usize,
    addr: usize,
    count: usize,
    r: Result<u64, &'static str>,
    b: Kernel,
)
    ensures
        count > 0 && (addr == 0 || addr + count > crate::consts::KERN_BASE) ==> (did_read(
            a,
            fd,
            addr,
            count,
            r,
            b,
        ) || did_write(a, fd, addr, count, r, b) ==> r == Err::<u64, &'static str>("efault") && b
            == a),
        count == 0 ==> (did_read(a, fd, addr, count, r, b) || did_write(
            a,
            fd,
            addr,
            count,
            r,
            b,
        ) ==> r == Ok::<u64, &'static str>(0) && b == a),
        fd < 3 && did_write(a, fd, addr, count, r, b) && r is Ok ==> r->Ok_0 == count,
        fd < 3 && did_read(a, fd, addr, count, r, b) && r is Ok ==> r->Ok_0 <= count && b == a,
{
}

/// Writing goes through the descriptor: an open file that may be written takes all the bytes, at
/// its position or at its end, and stands behind them; a descriptor that is not open is refused.
pub proof fn law_write_call_writes_the_file(
    a: Kernel,
    fd: usize,
    addr: usize,
    count: usize,
    r: Result<u64, &'static str>,
    b: Kernel,
    t: usize,
)
    requires
        a.wf(),
        a.running(0) == Some(t),
        fd >= 3,
        0 < count,
        0 < addr,
        addr + count <= usize::MAX,
        addr + count <= crate::consts::KERN_BASE,
        did_write(a, fd, addr, count, r, b),
    ensures
        !a.tasks.tasks@[t as int].files@.contains_key(fd) ==> r == Err::<u64, &'static str>("ebadf")
            && b.shared.files@ == a.shared.files@,
        open_file(a, fd) is Some && open_file(a, fd)->0.state(a.shared.files@).opt.wr ==> {
            let f = open_file(a, fd)->0;
            let o = f.state(a.shared.files@);
            &&& r == Ok::<u64, &'static str>(count as u64)
            &&& !o.opt.ap && o.off + count <= usize::MAX && o.off + count <= u64::MAX ==> f.state(
                b.shared.files@,
            ).off == o.off + count
            &&& f.bytes(b.shared.files@).len() >= f.bytes(a.shared.files@).len()
        },
        open_file(a, fd) is Some && !open_file(a, fd)->0.state(a.shared.files@).opt.wr ==> r
            == Err::<u64, &'static str>("ebadf") && b.shared.files@ == a.shared.files@,
        b.tasks == a.tasks && b.pool == a.pool,
{
    assert(a.cpus@[0] is Some);
    assert(crate::process::table::backed(
        a.tasks.tasks@[t as int],
        a.shared.files@,
        a.configfs@,
        a.shared.sems@,
        a.shared.shms@,
    ));
    if open_file(a, fd) is Some {
        assert(a.tasks.tasks@[t as int].files@.contains_key(fd));
        assert(open_file(a, fd)->0.wf(a.shared.files@));
    }
}

/// A file that is opened has a descriptor that was free, the least one; it is empty, stands at
/// its start, and can be used as the flags say. All other descriptors stay.
pub proof fn law_opened_file_is_new(a: Kernel, t: usize, flags: usize, fd: usize, b: Kernel, other: usize)
    requires
        file_opened(a, t, flags, fd, b),
    ensures
        ({
            let (x, y) = (a.tasks.tasks@[t as int], b.tasks.tasks@[t as int]);
            let st = b.shared.files@;
            &&& !x.files@.contains_key(fd)
            &&& other < fd ==> x.files@.contains_key(other)
            &&& other != fd ==> y.files@.contains_key(other) == x.files@.contains_key(other)
                && y.files@[other] == x.files@[other]
            &&& y.files@.contains_key(fd) && y.files@[fd] is File
            &&& y.files@[fd]->File_0.wf(st)
            &&& y.files@[fd]->File_0.bytes(st).len() == 0
            &&& y.files@[fd]->File_0.state(st).off == 0
            &&& y.files@[fd]->File_0.state(st).opt.rd == (flags % 4 == 0 || flags % 4 == 2)
            &&& y.files@[fd]->File_0.state(st).opt.wr == (flags % 4 == 1 || flags % 4 == 2)
            &&& y.files@[fd]->File_0.state(st).opt.ap == (flags / 0x400 % 2 == 1)
            &&& y.files@[fd]->File_0.state(st).opt.nb == (flags / 0x800 % 2 == 1)
            &&& y.files@[fd]->File_0.cloexec == (flags / 0x80000 % 2 == 1)
            &&& y.info == x.info && y.parent == x.parent && y.sig_queue == x.sig_queue
        }),
        forall|i: int|
            0 <= i < a.shared.files@.data.len() ==> #[trigger] b.shared.files@.data[i]
                == a.shared.files@.data[i],
        b.shared.files@.pipes == a.shared.files@.pipes,
        b.pool == a.pool && b.tasks.map == a.tasks.map,
{
}

/// Opening needs a path in user space; what is opened is open then under the number that is
/// given.
pub proof fn law_open_gives_an_open_descriptor(
    a: Kernel,
    path_addr: usize,
    flags: usize,
    r: Result<u64, &'static str>,
    b: Kernel,
    t: usize,
)
    requires
        did_open(a, path_addr, flags, r, b),
        a.running(0) == Some(t),
    ensures
        path_addr == 0 || path_addr + 256 > crate::consts::KERN_BASE ==> r == Err::<
            u64,
            &'static str,
        >("efault"),
        r is Ok ==> b.tasks.tasks@[t as int].files@.contains_key(r->Ok_0 as usize)
            && !a.tasks.tasks@[t as int].files@.contains_key(r->Ok_0 as usize),
        r is Err ==> b == a,
        path_addr > 0 && path_addr + 256 <= crate::consts::KERN_BASE && path_addr + 256
            <= usize::MAX && flags % 128 < 64 && !crate::text::starts(
            crate::fs::mounts::resolved(
                a.mnt.entries@,
                crate::text::normalized(open_path(path_addr)),
            ),
            "configfs:"@,
        ) ==> r is Ok,
{
}

/// A copy of a descriptor is made at the least free number from the one asked for on; it stands
/// for the same thing, and all that was open is open as it was.
pub proof fn law_copy_goes_to_the_least_free(
    a: Kernel,
    t: usize,
    old_fd: usize,
    from: usize,
    cloexec: bool,
    r: Result<u64, &'static str>,
    b: Kernel,
    k: usize,
)
    requires
        copied_from(a, t, old_fd, from, cloexec, r, b),
        a.tasks.tasks@[t as int].files@.contains_key(old_fd),
    ensures
        ({
            let (x, y) = (a.tasks.tasks@[t as int], b.tasks.tasks@[t as int]);
            let fd = r->Ok_0 as usize;
            &&& r is Ok && from <= fd && fd != old_fd
            &&& !x.files@.contains_key(fd) && y.files@.contains_key(fd)
            &&& from <= k < fd ==> x.files@.contains_key(k)
            &&& k != fd ==> y.files@.contains_key(k) == x.files@.contains_key(k) && y.files@[k]
                == x.files@[k]
            &&& x.files@[old_fd] is File ==> y.files@[fd] is File && y.files@[fd]->File_0.data
                == x.files@[old_fd]->File_0.data && y.files@[fd]->File_0.desc
                == x.files@[old_fd]->File_0.desc && y.files@[fd]->File_0.cloexec == cloexec
            &&& x.files@[old_fd] is Pipe ==> y.files@[fd] == x.files@[old_fd]
            &&& y.info == x.info && y.sig_queue == x.sig_queue
        }),
        b.shared == a.shared && b.pool == a.pool,
{
}

/// Copying by call is such a copy: from the descriptor on, without the mark.
pub proof fn law_dup_copies(a: Kernel, old_fd: usize, r: Result<u64, &'static str>, b: Kernel, t: usize)
    requires
        did_dup(a, old_fd, r, b),
        a.running(0) == Some(t),
    ensures
        old_fd >= 1024 ==> r == Err::<u64, &'static str>("ebadf") && b == a,
        old_fd < 1024 ==> copied_from(a, t, old_fd, old_fd, false, r, b),
{
}

/// Copying to a given number makes that number stand for the same thing, whatever it stood for
/// before; all other descriptors stay.
pub proof fn law_dup2_puts_the_copy_there(
    a: Kernel,
    old_fd: usize,
    new_fd: usize,
    r: Result<u64, &'static str>,
    b: Kernel,
    t: usize,
    k: usize,
)
    requires
        did_dup2(a, old_fd, new_fd, r, b),
        a.running(0) == Some(t),
        old_fd < 1024,
        new_fd < 1024,
        old_fd != new_fd,
    ensures
        ({
            let (x, y) = (a.tasks.tasks@[t as int], b.tasks.tasks@[t as int]);
            &&& x.files@.contains_key(old_fd) ==> r == Ok::<u64, &'static str>(new_fd as u64)
                && y.files@.contains_key(new_fd)
            &&& x.files@.contains_key(old_fd) && x.files@[old_fd] is File ==> y.files@[new_fd]
                is File && y.files@[new_fd]->File_0.data == x.files@[old_fd]->File_0.data
                && y.files@[new_fd]->File_0.desc == x.files@[old_fd]->File_0.desc
                && !y.files@[new_fd]->File_0.cloexec
            &&& !x.files@.contains_key(old_fd) ==> r == Err::<u64, &'static str>("ebadf")
                && !y.files@.contains_key(new_fd)
            &&& k != new_fd ==> y.files@.contains_key(k) == x.files@.contains_key(k) && y.files@[k]
                == x.files@[k]
            &&& y.info == x.info && y.sig_queue == x.sig_queue
        }),
        b.shared.files@.data.len() == a.shared.files@.data.len() ==> b.pool == a.pool,
        b.configfs == a.configfs && b.cache == a.cache && b.tasks.map == a.tasks.map,
{
}

/// The mark of a descriptor and the flags of a file that were set by control calls are those
/// that control calls give.
pub proof fn law_controls_give_what_was_set(
    a: Kernel,
    fd: usize,
    arg: usize,
    r: Result<u64, &'static str>,
    b: Kernel,
    got: Result<u64, &'static str>,
    c: Kernel,
)
    requires
        a.wf(),
        open_file(a, fd) is Some,
        fd < 1024,
    ensures
        did_fcntl(a, fd, 2, arg, r, b) && did_fcntl(b, fd, 1, 0, got, c) ==> r is Ok && got == Ok::<
            u64,
            &'static str,
        >((arg % 2) as u64) && c == b,
        did_fcntl(a, fd, 4, arg, r, b) && did_fcntl(b, fd, 3, 0, got, c) && (arg == 0 || arg == 0x400
            || arg == 0x800 || arg == 0xc00) ==> r is Ok && got == Ok::<u64, &'static str>(
            arg as u64,
        ) && c == b,
        did_ioctl(a, fd, 0x5451, arg, r, b) && did_fcntl(b, fd, 1, 0, got, c) ==> got == Ok::<
            u64,
            &'static str,
        >(1),
        did_ioctl(a, fd, 0x5450, arg, r, b) && did_fcntl(b, fd, 1, 0, got, c) ==> got == Ok::<
            u64,
            &'static str,
        >(0),
{
    let t = a.running(0)->0;
    assert(a.cpus@[0] is Some);
    assert(bit(arg, FD_CLOEXEC) <==> arg % 2 == 1);
    if arg == 0 || arg == 0x400 || arg == 0x800 || arg == 0xc00 {
        law_set_flags_are_kept(a, fd, arg, b);
    }
    law_set_flags_are_kept(a, fd, 0, b);
}

/// Copying by control call goes to the least free number from the argument on, with the mark
/// where it is asked for; a descriptor beyond the limit is refused.
pub proof fn law_control_copies(
    a: Kernel,
    fd: usize,
    arg: usize,
    r: Result<u64, &'static str>,
    b: Kernel,
    t: usize,
    cmd: usize,
)
    requires
        a.running(0) == Some(t),
        did_fcntl(a, fd, cmd, arg, r, b),
    ensures
        fd >= 1024 ==> r == Err::<u64, &'static str>("ebadf") && b == a,
        fd < 1024 && cmd == 0 ==> copied_from(a, t, fd, arg, false, r, b),
        fd < 1024 && cmd == 1030 ==> copied_from(a, t, fd, arg, true, r, b),
        fd < 1024 && 7 < cmd < 1024 ==> r == Err::<u64, &'static str>("einval") && b == a,
        r is Err ==> b == a,
{
}

/// A pipe that is made by call is open at the two numbers that are given, the one to read from
/// in the lower half.
pub proof fn law_pipe_call_opens_two_ends(
    a: Kernel,
    fds_addr: usize,
    r: Result<u64, &'static str>,
    b: Kernel,
    t: usize,
)
    requires
        did_pipe(a, fds_addr, r, b),
        a.running(0) == Some(t),
        r is Ok,
    ensures
        ({
            let files = b.tasks.tasks@[t as int].files@;
            let rd = (r->Ok_0 % 0x1_0000_0000) as usize;
            let wr = (r->Ok_0 / 0x1_0000_0000) as usize;
            &&& files.contains_key(rd) && files[rd] is Pipe
            &&& files.contains_key(wr) && files[wr] is Pipe
            &&& files[rd]->Pipe_0.data == files[wr]->Pipe_0.data
            &&& files[rd]->Pipe_0.dir is Rd && files[wr]->Pipe_0.dir is Wr
            &&& rd < wr
            &&& b.shared.files@.pipes.len() == a.shared.files@.pipes.len() + 1
            &&& b.shared.files@.pipes.last().buf.len() == 0
            &&& b.shared.files@.pipes.last().ends == 2
        }),
        fds_addr > 0 && fds_addr + 8 <= crate::consts::KERN_BASE,
        a.tasks.tasks@[t as int].files@.len() <= 254,
{
    crate::kernel::life::law_pipe_opens_two_ends(
        a.tasks.tasks@[t as int],
        a.shared.files@.pipes.len() as usize,
        (r->Ok_0 % 0x1_0000_0000) as usize,
        (r->Ok_0 / 0x1_0000_0000) as usize,
        b.tasks.tasks@[t as int],
        0,
    );
}

/// Closing takes a descriptor away and leaves the others; a number beyond the limit is refused.
pub proof fn law_close_takes_one(
    a: Kernel,
    fd: usize,
    r: Result<u64, &'static str>,
    b: Kernel,
    t: usize,
    k: usize,
)
    requires
        did_close(a, fd, r, b),
        a.running(0) == Some(t),
    ensures
        fd > 1024 ==> r == Err::<u64, &'static str>("ebadf") && b == a,
        fd <= 1024 ==> r == Ok::<u64, &'static str>(0),
        3 <= fd <= 1024 ==> !b.tasks.tasks@[t as int].files@.contains_key(fd),
        k != fd ==> b.tasks.tasks@[t as int].files@.contains_key(k)
            == a.tasks.tasks@[t as int].files@.contains_key(k) && b.tasks.tasks@[t as int].files@[k]
            == a.tasks.tasks@[t as int].files@[k],
        b.tasks.tasks@[t as int].info == a.tasks.tasks@[t as int].info,
{
}

/// A status is asked for into user space, by a path in user space or by a descriptor.
pub proof fn law_status_goes_to_user_space(target: usize, buf: usize)
    requires
        buf + 144 <= usize::MAX,
        target + 256 <= usize::MAX,
    ensures
        stat_result(5, target, buf) is Ok <==> 0 < buf && buf + 144 <= crate::consts::KERN_BASE,
        stat_result(4, target, buf) is Ok <==> 0 < buf && buf + 144 <= crate::consts::KERN_BASE
            && target + 256 <= crate::consts::KERN_BASE,
        stat_result(4, target, buf) is Err ==> stat_result(4, target, buf) == Err::<
            u64,
            &'static str,
        >("efault"),
{
}

/// A device is asked only what it understands, with room in user space for the answer.
pub proof fn law_device_control_needs_room(
    a: Kernel,
    fd: usize,
    cmd: usize,
    arg: usize,
    r: Result<u64, &'static str>,
    b: Kernel,
)
    requires
        did_ioctl(a, fd, cmd, arg, r, b),
        arg + 60 <= usize::MAX,
        cmd != 0x5450,
        cmd != 0x5451,
    ensures
        b == a,
        arg + 60 <= crate::consts::KERN_BASE && (cmd == 0x5401 || cmd == 0x5413 || cmd == 0x5421)
            ==> r == Ok::<u64, &'static str>(0),
        arg > crate::consts::KERN_BASE && (cmd == 0x5401 || cmd == 0x5413 || cmd == 0x5421) ==> r
            == Err::<u64, &'static str>("efault"),
        cmd < 0x5401 || cmd > 0x5451 ==> r == Err::<u64, &'static str>("enotty"),
{
}

/// The console gives what is asked for, up to 16 pages; where its block is cached, it gives a
/// page less of what is longer than one.
pub proof fn law_console_gives_what_is_asked(
    a: Kernel,
    fd: usize,
    addr: usize,
    count: usize,
    r: Result<u64, &'static str>,
    b: Kernel,
)
    requires
        fd < 3,
        count > 0,
        addr > 0,
        crate::util::in_user_space(addr, count),
        did_read(a, fd, addr, count, r, b),
    ensures
        b == a,
        a.cache.holds(fd) && count > 4096 ==> r == Ok::<u64, &'static str>((count - 4096) as u64),
        a.cache.holds(fd) && count <= 4096 ==> r == Ok::<u64, &'static str>(count as u64),
        !a.cache.holds(fd) && count > 65536 ==> r == Ok::<u64, &'static str>(65536),
        !a.cache.holds(fd) && count <= 65536 ==> r == Ok::<u64, &'static str>(count as u64),
{
}

/// A write to the console marks the block of the descriptor as modified, if it is cached, and
/// counts one operation; it changes nothing else.
pub proof fn law_console_write_marks_its_block(
    a: Kernel,
    fd: usize,
    addr: usize,
    count: usize,
    r: Result<u64, &'static str>,
    b: Kernel,
    c: int,
)
    requires
        fd < 3,
        count > 0,
        addr > 0,
        crate::util::in_user_space(addr, count),
        did_write(a, fd, addr, count, r, b),
        0 <= c < a.cache.chains@.len(),
    ensures
        r == Ok::<u64, &'static str>(count as u64),
        a.cache.ops < usize::MAX ==> b.cache.ops == a.cache.ops + 1,
        b.cache.width == a.cache.width,
        b.cache.chains@.len() == a.cache.chains@.len(),
        c == a.cache.chain_of(fd) ==> b.cache.chains@[c].items@ == a.cache.marked(fd),
        c != a.cache.chain_of(fd) ==> b.cache.chains@[c].items@ == a.cache.chains@[c].items@,
        b.tasks == a.tasks && b.shared == a.shared && b.pool == a.pool && b.configfs == a.configfs,
{
    let mid = choose|mid: crate::fs::block_cache::BlockCache| #[trigger]
        a.cache.with_chain(a.cache.chain_of(fd), a.cache.marked(fd), mid) && b == (Kernel {
            cache: crate::fs::block_cache::BlockCache {
                ops: a.cache.ops.wrapping_add(1),
                ..mid
            },
            ..a
        });
    assert(mid.chains@[c].items@ == b.cache.chains@[c].items@);
}

/// Nothing can be read or written where nobody runs.
pub proof fn law_nobody_reads_or_writes(
    a: Kernel,
    fd: usize,
    addr: usize,
    count: usize,
    r: Result<u64, &'static str>,
    b: Kernel,
)
    requires
        a.running(0) is None,
        fd >= 3,
        count > 0,
        addr > 0,
        crate::util::in_user_space(addr, count),
    ensures
        did_read(a, fd, addr, count, r, b) ==> r == Err::<u64, &'static str>("esrch") && b == a,
        did_write(a, fd, addr, count, r, b) ==> r == Err::<u64, &'static str>("esrch") && b.tasks == a.tasks
            && b.shared.files@ == a.shared.files@ && b.configfs@ == a.configfs@,
{
}

/// A path that is to be made and not to be there is refused where its block is cached, and
/// only then. Where nobody runs, the address gives the number.
pub proof fn law_open_refuses_what_is_there(
    a: Kernel,
    path_addr: usize,
    flags: usize,
    r: Result<u64, &'static str>,
    b: Kernel,
    k: int,
    excl: int,
    create: int,
    d: int,
)
    requires
        path_addr > 0,
        crate::util::in_user_space(path_addr, 256),
        !crate::text::starts(
            crate::fs::mounts::resolved(
                a.mnt.entries@,
                crate::text::normalized(open_path(path_addr)),
            ),
            "configfs:"@,
        ),
        did_open(a, path_addr, flags, r, b),
        flags == k * 256 + excl * 128 + create * 64 + d,
        0 <= k,
        0 <= excl <= 1,
        0 <= create <= 1,
        0 <= d < 64,
    ensures
        excl == 1 && create == 1 && a.cache.holds(path_addr) ==> r == Err::<u64, &'static str>("eexist") && b == a,
        !(excl == 1 && create == 1 && a.cache.holds(path_addr)) ==> r is Ok,
        !(excl == 1 && create == 1 && a.cache.holds(path_addr)) && a.running(0) is None ==> r == Ok::<u64, &'static str>(
            (3 + path_addr % 64) as u64,
        ) && b == a,
{
    let high = k * 2 + excl;
    assert(high * (2 * 64usize) == k * 256 + excl * 128) by (nonlinear_arith)
        requires
            high == k * 2 + excl,
    ;
    law_bit_is_a_binary_digit(flags, 64, high, d);
    assert(k * (2 * 128usize) == k * 256) by (nonlinear_arith);
    law_bit_is_a_binary_digit(flags, 128, k, create * 64 + d);
}

/// A path into the configuration opens the attribute that it leads to, under the least free
/// descriptor; a path to anything else, or to nothing, is refused.
pub proof fn law_open_leads_to_attributes(
    a: Kernel,
    path_addr: usize,
    flags: usize,
    r: Result<u64, &'static str>,
    b: Kernel,
    res: Seq<char>,
    t: usize,
    other: usize,
)
    requires
        path_addr > 0,
        crate::util::in_user_space(path_addr, 256),
        res == crate::fs::mounts::resolved(
            a.mnt.entries@,
            crate::text::normalized(open_path(path_addr)),
        ),
        crate::text::starts(res, "configfs:"@),
        did_open(a, path_addr, flags, r, b),
        a.running(0) == Some(t),
    ensures
        match a.configfs@.lookup(res.skip("configfs:"@.len() as int)) {
            Ok(Found::Attr(item, name)) => {
                let (x, y) = (a.tasks.tasks@[t as int], b.tasks.tasks@[t as int]);
                let fd = r->Ok_0 as usize;
                &&& r is Ok
                &&& !x.files@.contains_key(fd) && y.files@.contains_key(fd)
                &&& other < fd ==> x.files@.contains_key(other)
                &&& other != fd ==> y.files@.contains_key(other) == x.files@.contains_key(other)
                    && y.files@[other] == x.files@[other]
                &&& y.files@[fd] is Config
                &&& y.files@[fd]->Config_0.item == item
                &&& y.files@[fd]->Config_0.attr_name@ == name
                &&& y.files@[fd]->Config_0.offset == 0
                &&& b.shared == a.shared && b.configfs == a.configfs
            },
            _ => r == Err::<u64, &'static str>("enoent") && b == a,
        },
{
}

/// Closing a descriptor takes the block of its number out of the cache, and no other, and
/// counts that as an operation.
pub proof fn law_close_takes_the_block(a: Kernel, fd: usize, r: Result<u64, &'static str>, b: Kernel, j: usize)
    requires
        a.wf(),
        fd <= 1024,
        did_close(a, fd, r, b),
    ensures
        !b.cache.holds(fd),
        j != fd && a.cache.holds(j) ==> b.cache.holds(j),
        a.cache.holds(fd) && a.cache.ops < usize::MAX ==> b.cache.ops == a.cache.ops + 1,
        !a.cache.holds(fd) ==> b.cache.ops == a.cache.ops,
        fd < 3 ==> b.tasks == a.tasks && b.shared == a.shared,
{
    let items = a.cache.home(fd).filter(crate::fs::block_cache::other_block(fd));
    let mid = choose|mid: crate::fs::block_cache::BlockCache| #[trigger]
        a.cache.with_chain(a.cache.chain_of(fd), items, mid) && b.cache == (
        crate::fs::block_cache::BlockCache {
            ops: if a.cache.holds(fd) {
                a.cache.ops.wrapping_add(1)
            } else {
                a.cache.ops
            },
            ..mid
        });
    crate::fs::block_cache::law_invalidate_forgets(a.cache, mid, fd);
    assert(b.cache.holds(fd) == mid.holds(fd));
    assert(b.cache.holds(j) == mid.holds(j));
}

/// A device command takes what it names in user space, each kind with its own length.
pub proof fn law_device_commands_have_their_lengths(
    a: Kernel,
    fd: usize,
    cmd: usize,
    arg: usize,
    r: Result<u64, &'static str>,
    b: Kernel,
)
    requires
        did_ioctl(a, fd, cmd, arg, r, b),
    ensures
        cmd == 0x5401 || cmd == 0x5402 ==> r == if crate::util::in_user_space(arg, 60) {
            Ok::<u64, &'static str>(0)
        } else {
            Err::<u64, &'static str>("efault")
        },
        cmd == 0x540F || cmd == 0x5410 || cmd == 0x5421 ==> r == if crate::util::in_user_space(arg, 4) {
            Ok::<u64, &'static str>(0)
        } else {
            Err::<u64, &'static str>("efault")
        },
        cmd == 0x5413 ==> r == if crate::util::in_user_space(arg, 8) {
            Ok::<u64, &'static str>(0)
        } else {
            Err::<u64, &'static str>("efault")
        },
        0x5402 < cmd < 0x540F || 0x5410 < cmd < 0x5413 || 0x5413 < cmd < 0x5421 || 0x5421 < cmd
            < 0x5450 ==> r == Err::<u64, &'static str>("enotty"),
        cmd == 0x5450 || cmd == 0x5451 ==> r == Ok::<u64, &'static str>(0),
{
}

/// A pipe is opened for a running task that has room for two descriptors, into user space.
pub proof fn law_pipe_needs_room(a: Kernel, fds_addr: usize, r: Result<u64, &'static str>, b: Kernel)
    requires
        did_pipe(a, fds_addr, r, b),
    ensures
        fds_addr == 0 || !crate::util::in_user_space(fds_addr, 8) ==> r == Err::<u64, &'static str>("efault") && b == a,
        fds_addr > 0 && crate::util::in_user_space(fds_addr, 8) && a.running(0) is None ==> r == Err::<u64, &'static str>("esrch") && b == a,
        fds_addr > 0 && crate::util::in_user_space(fds_addr, 8) && a.running(0) is Some ==> if a.tasks.tasks@[a.running(
            0,
        )->0 as int].files@.len() <= 254 {
            r is Ok
        } else {
            r == Err::<u64, &'static str>("emfile") && b == a
        },
{
}

/// A copy to the descriptor itself changes nothing, and there are only so many descriptors.
/// What the other descriptor stood for is dropped, even where there is nothing to copy.
pub proof fn law_dup2_closes_first(
    a: Kernel,
    old_fd: usize,
    new_fd: usize,
    r: Result<u64, &'static str>,
    b: Kernel,
    t: usize,
)
    requires
        did_dup2(a, old_fd, new_fd, r, b),
    ensures
        old_fd >= 1024 || new_fd >= 1024 ==> r == Err::<u64, &'static str>("ebadf") && b == a,
        old_fd < 1024 && new_fd == old_fd ==> r == Ok::<u64, &'static str>(new_fd as u64) && b == a,
        old_fd < 1024 && new_fd < 1024 && a.running(0) is None ==> r == Ok::<u64, &'static str>(new_fd as u64) && b == a,
        old_fd < 1024 && new_fd < 1024 && old_fd != new_fd && a.running(0) == Some(t) ==> {
            let x = a.tasks.tasks@[t as int];
            let st = a.shared.files@;
            &&& !x.files@.contains_key(old_fd) && !x.files@.contains_key(new_fd)
                ==> b.shared.files@ == st
            &&& !x.files@.contains_key(old_fd) && x.files@.contains_key(new_fd)
                ==> b.shared.files@ == x.files@[new_fd].dropped_from(st)
            &&& x.files@.contains_key(old_fd) && !x.files@.contains_key(new_fd)
                ==> b.shared.files@ == x.files@[old_fd].dropped_from(st)
            &&& x.files@.contains_key(old_fd) && x.files@.contains_key(new_fd)
                ==> b.shared.files@ == x.files@[new_fd].dropped_from(
                x.files@[old_fd].dropped_from(st),
            )
        },
{
}

/// A copy where there is nothing to copy, or where nobody runs, gives a number and changes
/// nothing.
pub proof fn law_nothing_is_copied(
    a: Kernel,
    fd: usize,
    arg: usize,
    r: Result<u64, &'static str>,
    b: Kernel,
    t: usize,
    k: usize,
)
    requires
        fd < 1024,
    ensures
        a.running(0) is None && did_dup(a, fd, r, b) ==> r == Ok::<u64, &'static str>((fd + 1) as u64) && b == a,
        a.running(0) is None && did_fcntl(a, fd, 0, arg, r, b) ==> r == Ok::<u64, &'static str>(arg as u64) && b == a,
        a.running(0) is None && did_fcntl(a, fd, 1030, arg, r, b) ==> r == Ok::<u64, &'static str>(arg as u64) && b == a,
        a.running(0) == Some(t) && !a.tasks.tasks@[t as int].files@.contains_key(fd) && did_dup(
            a,
            fd,
            r,
            b,
        ) ==> r == Ok::<u64, &'static str>(fd as u64) && b == a,
        a.running(0) == Some(t) && !a.tasks.tasks@[t as int].files@.contains_key(fd) && did_fcntl(
            a,
            fd,
            0,
            arg,
            r,
            b,
        ) ==> {
            &&& b == a
            &&& r is Ok && r->Ok_0 >= arg
            &&& !a.tasks.tasks@[t as int].files@.contains_key(r->Ok_0 as usize)
            &&& arg <= k < r->Ok_0 ==> a.tasks.tasks@[t as int].files@.contains_key(k)
        },
{
}

/// A descriptor that is no open file has no mark, and flags that cannot be changed: those of
/// the console append. Flags that cannot be set are refused, and a lock lies in user space.
pub proof fn law_controls_of_what_is_no_file(
    a: Kernel,
    fd: usize,
    cmd: usize,
    arg: usize,
    r: Result<u64, &'static str>,
    b: Kernel,
)
    requires
        fd < 1024,
        did_fcntl(a, fd, cmd, arg, r, b),
    ensures
        open_file(a, fd) is None && cmd == 1 ==> r == Ok::<u64, &'static str>(0) && b == a,
        open_file(a, fd) is None && cmd == 2 ==> r == Ok::<u64, &'static str>(0) && b == a,
        open_file(a, fd) is None && cmd == 3 && fd <= 2 ==> r == Ok::<u64, &'static str>(0xC00) && b == a,
        open_file(a, fd) is None && cmd == 3 && fd > 2 ==> r == Ok::<u64, &'static str>(0x800) && b == a,
        open_file(a, fd) is None && cmd == 4 && (arg == 0 || arg == 0x400 || arg == 0x800 || arg
            == 0xC00) ==> r == Ok::<u64, &'static str>(0) && b == a,
        cmd == 4 && !(arg == 0 || arg == 0x400 || arg == 0x800 || arg == 0xC00) ==> r == Err::<u64, &'static str>("einval")
            && b == a,
        5 <= cmd <= 7 ==> b == a && r == if crate::util::in_user_space(arg, 32) {
            Ok::<u64, &'static str>(0)
        } else {
            Err::<u64, &'static str>("efault")
        },
        cmd == 1 && open_file(a, fd) is Some ==> b == a && r == Ok::<u64, &'static str>(
            if open_file(a, fd)->0.cloexec {
                1
            } else {
                0
            },
        ),
        1024 <= cmd && cmd != 1030 ==> r == Err::<u64, &'static str>("einval") && b == a,
{
}

/// A descriptor is an open file where the running task has a file under it.
pub proof fn law_open_file_is_the_tasks(a: Kernel, fd: usize, t: usize)
    requires
        a.running(0) == Some(t),
    ensures
        open_file(a, fd) is Some <==> a.tasks.tasks@[t as int].files@.contains_key(fd)
            && a.tasks.tasks@[t as int].files@[fd] is File,
        open_file(a, fd) is Some ==> open_file(a, fd)->0 == a.tasks.tasks@[t as int].files@[fd]->File_0,
        is_open(a, fd) <==> fd >= 3 && a.tasks.tasks@[t as int].files@.contains_key(fd),
{
}

} // verus!
