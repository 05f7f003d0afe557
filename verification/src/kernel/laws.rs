//! What holds of the kernel as a whole.

use vstd::prelude::*;

use crate::consts::{SYS_DUP2, SYS_FORK, SYS_WRITE};
use crate::fs::configfs::{AttrOps, ConfigFS, Found, Tree};
use crate::kernel::Kernel;
use crate::process::Task;

verus! {

/// The task is as it was, and has the same descriptors open.
pub open spec fn same_task(x: Task, y: Task) -> bool {
    y == (Task { files: y.files, ..x }) && y.files@ == x.files@
}

/// Nothing that can be told from outside differs.
pub open spec fn unchanged(a: Kernel, b: Kernel) -> bool {
    &&& b.tasks.tasks@.len() == a.tasks.tasks@.len()
    &&& forall|x: int|
        0 <= x < a.tasks.tasks@.len() ==> same_task(a.tasks.tasks@[x], #[trigger] b.tasks.tasks@[x])
    &&& b.tasks.map@ == a.tasks.map@
    &&& b.tasks.seq == a.tasks.seq
    &&& b.tasks.root == a.tasks.root
    &&& b.shared.files@ == a.shared.files@
    &&& b.shared.sems == a.shared.sems
    &&& b.shared.shms == a.shared.shms
    &&& b.configfs@ == a.configfs@
    &&& b.cache == a.cache
    &&& b.pool == a.pool
    &&& b.cpus == a.cpus
    &&& b.mnt == a.mnt
    &&& b.tty_buf == a.tty_buf
    &&& b.clock == a.clock
    &&& b.gkl == a.gkl
}

/// A system call that is refused changes nothing, but for three: a new process uses its
/// number up, copying a descriptor closes the one it goes to, and a write may reach an
/// attribute that keeps a part of what it refuses.
pub proof fn law_refused_call_changes_nothing(
    a: Kernel,
    nr: usize,
    a0: usize,
    a1: usize,
    a2: usize,
    a3: usize,
    a4: usize,
    a5: usize,
    r: Result<u64, &'static str>,
    b: Kernel,
)
    requires
        a.wf(),
        crate::kernel::dispatch::did_call(a, nr, a0, a1, a2, a3, a4, a5, r, b),
        r is Err,
        nr != SYS_FORK && nr != SYS_DUP2 && nr != SYS_WRITE,
    ensures
        unchanged(a, b),
{
    if nr == crate::consts::SYS_KILL {
        let tt = a.tasks;
        let pid = a0 as isize;
        assert(tt.tasks.len() == tt.tasks@.len());
        if a1 <= crate::consts::NSIG && (pid == -1 || pid < -1) && !(
        crate::kernel::sys_proc::is_forcible(a1) && -1 <= pid <= 1) {
            let g = if pid == -1 {
                crate::kernel::sys_proc::everyone(tt)
            } else {
                tt.group(crate::kernel::life::group_of(pid))
            };
            assert(g.len() == 0);
            assert forall|x: int| 0 <= x < tt.tasks@.len() implies b.tasks.tasks@[x]
                == tt.tasks@[x] by {
                let y = x as usize;
                assert(tt.tasks@[y as int].signalled(
                    crate::tables::times(g, y),
                    a1 as i32,
                    -1isize,
                    b.tasks.tasks@[y as int],
                ));
            }
            assert(b.tasks.tasks@ =~= tt.tasks@);
        }
    }
    if nr == crate::consts::SYS_READ && b != a {
        let t = a.running(0)->0;
        let (x, y) = (a.tasks.tasks@[t as int], b.tasks.tasks@[t as int]);
        assert(x.files@[a0].moved_on(a.configfs@, a2 as nat) == x.files@[a0]);
        assert(y.files@ =~= x.files@);
    }
}

/// No system call keeps a lock: the lock of the kernel is as it was, and those of the
/// cache are free. A tick that finds the lock of the kernel free leaves it free.
pub proof fn law_no_call_keeps_a_lock(
    a: Kernel,
    nr: usize,
    a0: usize,
    a1: usize,
    a2: usize,
    a3: usize,
    a4: usize,
    a5: usize,
    r: Result<u64, &'static str>,
    b: Kernel,
    id: usize,
)
    requires
        a.wf(),
        b.wf(),
        crate::kernel::dispatch::did_call(a, nr, a0, a1, a2, a3, a4, a5, r, b),
    ensures
        b.gkl == a.gkl,
        forall|i: int|
            0 <= i < b.cache.chains@.len() ==> !(#[trigger] b.cache.chains@[i]).lk.v,
        a.gkl.wf() && !a.gkl.flag ==> a.gkl.can_enter(id) && a.gkl.entered(id).left() == a.gkl,
{
}

/// A counter can be made in the subsystem of counters under any plain name. Its value is
/// found under its path; it is 0 at first, then the number written last, without white
/// space around it. Anything else than a number is refused and the value stays.
pub proof fn law_counter_holds_its_value(
    pre: Tree,
    fs: ConfigFS,
    name: Seq<char>,
    text: Seq<char>,
)
    requires
        fs.wf(),
        fs.items@.len() < usize::MAX,
        crate::kernel::life::with_counters(pre, fs@),
        name.len() > 0,
        forall|i: int| 0 <= i < name.len() ==> name[i] != '/',
    ensures
        ({
            let (r, made) = fs@.mkdir("demo"@, name);
            let item = fs@.items.len() as usize;
            let bytes = vstd::utf8::encode_utf8(text);
            let number = crate::text::trimmed(text);
            let (w, wrote) = made.write_attr(item, "value"@, bytes);
            &&& r is Ok
            &&& made.lookup(("demo"@.push('/') + name).push('/') + "value"@) == Ok::<
                Found,
                &'static str,
            >(Found::Attr(item, "value"@))
            &&& made.attr_bytes(item, "value"@) == vstd::utf8::encode_utf8("0"@)
            &&& if crate::text::is_i64_text(number) {
                &&& w == Ok::<usize, &'static str>(bytes.len() as usize)
                &&& wrote.attr_bytes(item, "value"@) == vstd::utf8::encode_utf8(number)
            } else {
                &&& w == Err::<usize, &'static str>("einval")
                &&& wrote.attr_bytes(item, "value"@) == made.attr_bytes(item, "value"@)
            }
        }),
{
    reveal_strlit("demo");
    reveal_strlit("value");
    broadcast use vstd::utf8::encode_utf8_valid_utf8, vstd::utf8::encode_utf8_decode_utf8;

    let t = fs@.types.last();
    let root = pre.groups.len() as usize;
    assert(fs@.groups.len() == fs.groups@.len());
    assert(fs.groups.len() == fs.groups@.len());
    assert(fs.types.len() == fs.types@.len());
    crate::text::law_name_is_one_part("demo"@);
    assert(crate::text::path_parts("demo"@).skip(1) =~= Seq::empty());
    assert(fs@.lookup("demo"@) == Ok::<Found, &'static str>(Found::Group(root)));
    assert(fs@.groups[root as int].item.item_type == pre.types.len());
    assert(fs@.types[pre.types.len() as int] == t);
    let made = fs@.mkdir("demo"@, name).1;
    let item = fs@.items.len() as usize;
    assert(made.types == fs@.types);
    assert(t.attr_pos("value"@) == 0);
    assert(t.has_attr("value"@));
    crate::fs::configfs::law_mkdir_then_lookup(fs, "demo"@, name);
    let it = made.items[item as int];
    assert(it.data =~= Map::empty());
    assert(t.attrs@[0].ops.shown(it) == "0"@);
    let bytes = vstd::utf8::encode_utf8(text);
    let number = crate::text::trimmed(text);
    assert(vstd::utf8::decode_utf8(bytes) == text);
    assert(t.attrs@[0].ops.stored(it, number) == crate::fs::demo::CounterValue.stored(it, number));
    let wrote = made.write_attr(item, "value"@, bytes).1;
    let it2 = wrote.items[item as int];
    assert(t.attrs@[0].ops.shown(it2) == crate::fs::demo::counter_text(it2));
}

/// Each number stands for its call: what a call does is what the call of that name does.
pub proof fn law_number_names_the_call(
    a: Kernel,
    nr: usize,
    a0: usize,
    a1: usize,
    a2: usize,
    a3: usize,
    a4: usize,
    a5: usize,
    r: Result<u64, &'static str>,
    b: Kernel,
)
    requires
        crate::kernel::dispatch::did_call(a, nr, a0, a1, a2, a3, a4, a5, r, b),
    ensures
        nr == 0 ==> crate::kernel::sys_file::did_read(a, a0, a1, a2, r, b),
        nr == 1 ==> crate::kernel::sys_file::did_write(a, a0, a1, a2, r, b),
        nr == 2 ==> crate::kernel::sys_file::did_open(a, a0, a1, r, b),
        nr == 3 ==> crate::kernel::sys_file::did_close(a, a0, r, b),
        nr == 9 ==> r == crate::kernel::sys_mem::mmap_result(a, a0, a1, a3, a4, a5) && b == a,
        nr == 11 ==> r == crate::kernel::sys_mem::munmap_result(a0) && b == a,
        nr == 12 ==> crate::kernel::sys_mem::did_brk(a, a0, r, b),
        nr == 22 ==> crate::kernel::sys_file::did_pipe(a, a0, r, b),
        nr == 32 ==> crate::kernel::sys_file::did_dup(a, a0, r, b),
        nr == 33 ==> crate::kernel::sys_file::did_dup2(a, a0, a1, r, b),
        nr == 16 ==> crate::kernel::sys_file::did_ioctl(a, a0, a1, a2, r, b),
        nr == 72 ==> crate::kernel::sys_file::did_fcntl(a, a0, a1, a2, r, b),
        nr == 4 || nr == 5 ==> r == crate::kernel::sys_file::stat_result(nr, a0, a1) && b == a,
        nr == 57 ==> crate::kernel::sys_proc::did_fork(a, r, b),
        nr == 59 ==> r == crate::kernel::sys_proc::exec_result(a0, a1, a2) && b == a,
        nr == 60 ==> crate::kernel::sys_proc::did_exit(a, a0, r, b),
        nr == 61 ==> r == crate::kernel::sys_proc::wait4_result(a, a0 as isize, a1, a2, a3) && b
            == a,
        nr == 62 ==> crate::kernel::sys_proc::did_kill(a, a0 as isize, a1, r, b),
        nr == 109 ==> crate::kernel::sys_proc::did_setpgid(a, a0, a1, r, b),
        nr == 112 ==> crate::kernel::sys_proc::did_setsid(a, r, b),
        nr == 121 ==> r == crate::kernel::sys_proc::getpgid_result(a, a0) && b == a,
        nr == 13 ==> r == crate::kernel::sys_misc::sigaction_result(a0, a1, a2) && b == a,
        nr == 14 ==> crate::kernel::sys_misc::did_sigprocmask(a, a0, a1, a2, r, b),
        nr == 202 ==> r == crate::kernel::sys_misc::futex_result(a, a0, a1, a2, a3, a4, a5) && b
            == a,
        nr == 213 ==> r == crate::kernel::sys_misc::epoll_create_result(a0) && b == a,
        nr == 228 ==> r == crate::kernel::sys_misc::clock_gettime_result(a0, a1) && b == a,
        nr == 232 ==> r == crate::kernel::sys_misc::epoll_wait_result(a1, a2) && b == a,
        nr == 233 ==> r == crate::kernel::sys_misc::epoll_ctl_result(a1 as i32, a3) && b == a,
{
}

/// A task is answered its own number and that of its parent, and asking changes nothing; with
/// no task running, the number is 1 and there is no parent.
pub proof fn law_caller_is_told_its_number(
    a: Kernel,
    a0: usize,
    a1: usize,
    a2: usize,
    a3: usize,
    a4: usize,
    a5: usize,
    r: Result<u64, &'static str>,
    b: Kernel,
)
    ensures
        crate::kernel::dispatch::did_call(a, 39, a0, a1, a2, a3, a4, a5, r, b) ==> b == a
            && match a.running(0) {
            Some(t) => r == Ok::<u64, &'static str>(a.tasks.tasks@[t as int].info.id as u64),
            None => r == Ok::<u64, &'static str>(1),
        },
        crate::kernel::dispatch::did_call(a, 110, a0, a1, a2, a3, a4, a5, r, b) ==> b == a
            && match a.running(0) {
            Some(t) => match a.tasks.tasks@[t as int].parent {
                Some(p) => r == Ok::<u64, &'static str>(a.tasks.tasks@[p as int].info.id as u64),
                None => r == Ok::<u64, &'static str>(0),
            },
            None => r == Ok::<u64, &'static str>(0),
        },
{
}

/// A number that stands for no call is refused, and nothing changes.
pub proof fn law_unknown_call_is_refused(
    a: Kernel,
    nr: usize,
    a0: usize,
    a1: usize,
    a2: usize,
    a3: usize,
    a4: usize,
    a5: usize,
    r: Result<u64, &'static str>,
    b: Kernel,
)
    requires
        crate::kernel::dispatch::did_call(a, nr, a0, a1, a2, a3, a4, a5, r, b),
        nr > 233 || (121 < nr < 202) || (5 < nr < 9) || (33 < nr < 39) || (72 < nr < 109),
    ensures
        r == Err::<u64, &'static str>("enosys"),
        b == a,
{
}

} // verus!
