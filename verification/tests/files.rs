use chaos_kernel::consts::{O_NONBLOCK, PAGE_SZ};
use chaos_kernel::fs::configfs::ConfigFS;
use chaos_kernel::fs::epoll::{EpCtlOp, EpData, EpEvent, EpInst};
use chaos_kernel::fs::files::{FHandle, FSeek, FdOpt, FileStore};
use chaos_kernel::fs::flike::FLike;
use chaos_kernel::fs::pipes::PipeNode;
use chaos_kernel::fs::term::{read_as_vec, PseudoNode, TrmIO, WinSz};
use chaos_kernel::sync::EvFlag;

const RW: FdOpt = FdOpt { rd: true, wr: true, ap: false, nb: false };

#[test]
fn a_file_is_read_only_by_default() {
    let o = FdOpt::default();
    assert_eq!((o.rd, o.wr, o.ap, o.nb), (true, false, false, false));
    let mut st = FileStore::new();
    let f = FHandle::with_data(&mut st, "/x", o, vec![1, 2, 3]);
    assert_eq!(f.write(&mut st, &[9]), Err("ebadf"));
    assert_eq!(f.write_at(&mut st, 0, &[9]), Err("ebadf"));
    assert_eq!(f.set_len(&mut st, 1), Err("ebadf"));
    assert_eq!(f.fallocate(&mut st, 0, 9), Err("ebadf"));
    assert_eq!(f.metadata_sz(&st), 3);
}

#[test]
fn reads_and_writes_move_the_position() {
    let mut st = FileStore::new();
    let f = FHandle::new(&mut st, "/x", RW, false, false);
    assert_eq!(f.write(&mut st, b"hello"), Ok(5));
    let mut buf = [0u8; 8];
    assert_eq!(f.read(&mut st, &mut buf), Ok(0));
    assert_eq!(f.seek(&mut st, FSeek::Start(1)), Ok(1));
    assert_eq!(f.read(&mut st, &mut buf[..3]), Ok(3));
    assert_eq!(&buf[..3], b"ell");
    assert_eq!(f.seek(&mut st, FSeek::Cur(-2)), Ok(2));
    assert_eq!(f.seek(&mut st, FSeek::End(2)), Ok(7));
    assert_eq!(f.write(&mut st, b"!"), Ok(1));
    assert_eq!(f.read_at(&st, 0, &mut buf), Ok(8));
    assert_eq!(&buf, b"hello\0\0!");
}

#[test]
fn a_copied_handle_shares_position_and_contents() {
    let mut st = FileStore::new();
    let f = FHandle::with_data(&mut st, "/x", RW, vec![1, 2, 3, 4]);
    let g = f.dup(true);
    assert!(g.cloexec && !f.cloexec);
    let mut buf = [0u8; 2];
    assert_eq!(f.read(&mut st, &mut buf), Ok(2));
    assert_eq!(g.read(&mut st, &mut buf), Ok(2));
    assert_eq!(buf, [3, 4]);
    assert_eq!(g.inode_ref(), f.inode_ref());
}

#[test]
fn appending_writes_and_stands_behind_the_end() {
    let mut st = FileStore::new();
    let o = FdOpt { rd: true, wr: true, ap: true, nb: false };
    let f = FHandle::with_data(&mut st, "/x", o, vec![1, 2, 3]);
    assert_eq!(f.write(&mut st, &[4, 5]), Ok(2));
    assert_eq!(f.metadata_sz(&st), 5);
    assert_eq!(f.seek(&mut st, FSeek::Cur(0)), Ok(5));
    assert_eq!(f.seek(&mut st, FSeek::Start(1)), Ok(1));
    assert_eq!(f.transfer(&mut st, 0, None, None, Some(&[6])), Ok(1));
    assert_eq!((f.metadata_sz(&st), f.seek(&mut st, FSeek::Cur(0))), (6, Ok(6)));
    let mut cf = ConfigFS::new();
    let l = FLike::File(f.dup(false));
    assert_eq!(l.write(&mut st, &mut cf, &[6]), Ok(1));
    assert_eq!(f.seek(&mut st, FSeek::Cur(0)), Ok(7));
}

#[test]
fn a_write_only_file_cannot_be_read() {
    let mut st = FileStore::new();
    let o = FdOpt { rd: false, wr: true, ap: false, nb: false };
    let f = FHandle::new(&mut st, "/x", o, false, false);
    let mut buf = [0u8; 2];
    assert_eq!(f.read(&mut st, &mut buf), Err("ebadf"));
    assert_eq!(f.read_at(&st, 0, &mut buf), Err("ebadf"));
    assert_eq!(f.read_entry(&mut st), Err("ebadf"));
    let cf = ConfigFS::new();
    assert_eq!(FLike::File(f).read(&mut st, &cf, &mut buf), Err("ebadf"));
}

#[test]
fn one_call_transfers_either_way() {
    let mut st = FileStore::new();
    let f = FHandle::new(&mut st, "/x", RW, false, false);
    assert_eq!(f.transfer(&mut st, 0, None, None, Some(b"abc")), Ok(3));
    assert_eq!(f.transfer(&mut st, 2, Some(1), None, Some(b"X")), Ok(1));
    let mut buf = [0u8; 4];
    assert_eq!(f.transfer(&mut st, 1, Some(0), Some(&mut buf), None), Ok(3));
    assert_eq!(&buf[..3], b"aXc");
    assert_eq!(f.transfer(&mut st, 1, None, Some(&mut buf), None), Ok(0));
    assert_eq!(f.transfer(&mut st, 1, None, None, Some(b"q")), Err("einval"));
    assert_eq!(f.transfer(&mut st, 0, Some(2), Some(&mut buf), None), Err("einval"));
}

#[test]
fn lengths_can_be_set_and_reserved() {
    let mut st = FileStore::new();
    let f = FHandle::with_data(&mut st, "/x", RW, vec![1, 2, 3]);
    assert_eq!(f.set_len(&mut st, 2), Ok(()));
    assert_eq!(f.fallocate(&mut st, 1, 4), Ok(()));
    let mut buf = [9u8; 8];
    assert_eq!(f.read_at(&st, 0, &mut buf), Ok(5));
    assert_eq!(&buf[..5], &[1, 2, 0, 0, 0]);
    assert_eq!(f.fallocate(&mut st, 0, 1), Ok(()));
    assert_eq!(f.metadata_sz(&st), 5);
    assert_eq!(f.advise_readahead(0, 100), Ok(()));
    assert_eq!((f.sync_all(), f.sync_data(), f.lookup("a", 1)), (Ok(()), Ok(()), Ok(())));
    assert_eq!((f.io_ctl(1, 2), f.mmap(0, 1, 0)), (Ok(0), Ok(())));
    assert_eq!(f.poll_status(), (true, true, false));
}

#[test]
fn entries_are_numbered_by_position() {
    let mut st = FileStore::new();
    let f = FHandle::new(&mut st, "/d", RW, false, false);
    assert_eq!(f.read_entry(&mut st), Ok("entry_0".to_string()));
    assert_eq!(f.read_entry(&mut st), Ok("entry_1".to_string()));
    assert_eq!(f.seek(&mut st, FSeek::Start(120)), Ok(120));
    assert_eq!(f.read_entry(&mut st), Ok("entry_120".to_string()));
}

#[test]
fn splicing_moves_bytes_from_file_to_file() {
    let mut st = FileStore::new();
    let a = FHandle::with_data(&mut st, "/a", RW, vec![1, 2, 3, 4]);
    let b = FHandle::new(&mut st, "/b", RW, false, false);
    assert_eq!(a.splice_to(&mut st, &b, 3), Ok(3));
    assert_eq!(a.splice_to(&mut st, &b, 9), Ok(1));
    assert_eq!(a.splice_to(&mut st, &b, 9), Ok(0));
    let mut buf = [0u8; 4];
    assert_eq!(b.read_at(&st, 0, &mut buf), Ok(4));
    assert_eq!(buf, [1, 2, 3, 4]);
    let ro = FHandle::new(&mut st, "/c", FdOpt::default(), false, false);
    assert_eq!(b.seek(&mut st, FSeek::Start(0)), Ok(0));
    assert_eq!(b.splice_to(&mut st, &ro, 2), Err("ebadf"));
    assert_eq!(b.seek(&mut st, FSeek::Cur(0)), Ok(2));
}

#[test]
fn only_the_nonblocking_bit_can_be_changed() {
    let mut st = FileStore::new();
    let f = FHandle::new(&mut st, "/x", RW, false, false);
    f.set_opt(&mut st, O_NONBLOCK | 3);
    let o = f.get_opt(&st);
    assert_eq!((o.rd, o.wr, o.ap, o.nb), (true, true, false, true));
    f.set_opt(&mut st, 0);
    assert!(!f.get_opt(&st).nb);
}

#[test]
fn a_pipe_carries_bytes_until_an_end_is_dropped() {
    let mut st = FileStore::new();
    let (rd, wr) = PipeNode::pair(&mut st);
    let mut buf = [0u8; 3];
    assert_eq!(rd.read_at(&mut st, &mut buf), Err("again"));
    assert_eq!(rd.poll(&st), (false, false, false));
    assert_eq!(wr.poll(&st), (false, true, false));
    assert_eq!(wr.write_at(&mut st, b"abcd"), Ok(4));
    assert_eq!(st.pipes[0].bus.ev, EvFlag::READABLE);
    assert_eq!(rd.read_at(&mut st, &mut buf), Ok(3));
    assert_eq!(&buf, b"abc");
    assert_eq!(rd.read_at(&mut st, &mut buf), Ok(1));
    assert_eq!(st.pipes[0].bus.ev, 0);
    wr.release(&mut st);
    assert_eq!(st.pipes[0].bus.ev, EvFlag::CLOSED);
    assert!(rd.can_read(&st) && !wr.can_write(&st));
    assert_eq!(rd.read_at(&mut st, &mut buf), Ok(0));
}

#[test]
fn a_pipe_end_does_only_its_own_work() {
    let mut st = FileStore::new();
    let (rd, wr) = PipeNode::pair(&mut st);
    let mut buf = [0u8; 3];
    assert_eq!(rd.write_at(&mut st, b"x"), Ok(0));
    assert_eq!(wr.read_at(&mut st, &mut buf), Ok(0));
    assert_eq!(rd.read_at(&mut st, &mut buf[..0]), Ok(0));
    assert!(!wr.can_read(&st) && !rd.can_write(&st));
}

#[test]
fn open_files_of_every_kind_answer() {
    let mut st = FileStore::new();
    let mut cf = ConfigFS::new();
    let file = FLike::File(FHandle::new(&mut st, "", FdOpt::default(), false, false));
    let (rd, wr) = PipeNode::pair(&mut st);
    let (mut rd, wr) = (FLike::Pipe(rd), FLike::Pipe(wr));
    let mut ep = FLike::Ep(EpInst::new(&mut st));
    let mut buf = [0u8; 2];
    assert_eq!(ep.read(&mut st, &cf, &mut buf), Err("enosys"));
    assert_eq!(ep.write(&mut st, &mut cf, &[1]), Err("enosys"));
    assert_eq!(ep.read(&mut st, &cf, &mut []), Ok(0));
    assert_eq!(file.write(&mut st, &mut cf, &[1]), Err("ebadf"));
    assert_eq!(wr.write(&mut st, &mut cf, &[7, 8, 9]), Ok(3));
    assert_eq!(rd.read(&mut st, &cf, &mut buf), Ok(2));
    assert_eq!(buf, [7, 8]);
    assert_eq!(file.poll(&st), (true, false, true));
    assert_eq!(rd.poll(&st), (true, false, false));
    assert_eq!(wr.poll(&st), (false, true, false));
    rd.release(&mut st);
    assert_eq!(wr.poll(&st), (false, false, true));
    assert_eq!(ep.poll(&st), (false, false, false));
    assert_eq!((file.io_ctl(5, 0), file.io_ctl(0x5401, 0)), (Ok(0), Ok(0)));
    assert_eq!((rd.io_ctl(0x5421, 0), rd.io_ctl(0x5401, 0)), (Ok(0), Err("enotty")));
    assert_eq!(ep.io_ctl(0, 0), Err("enosys"));
    assert_eq!(file.mmap_fl(0, PAGE_SZ, 0), Ok(()));
    assert_eq!(file.mmap_fl(8, 8, 0), Err("einval"));
    assert_eq!(wr.mmap_fl(0, 8, 0), Err("enosys"));
}

#[test]
fn a_copied_descriptor_reads_on_from_the_first() {
    let mut st = FileStore::new();
    let cf = ConfigFS::new();
    let mut a = FLike::File(FHandle::with_data(&mut st, "/x", RW, vec![5, 6, 7]));
    let mut b = a.dup(true);
    let mut buf = [0u8; 1];
    assert_eq!(a.read(&mut st, &cf, &mut buf), Ok(1));
    assert_eq!(b.read(&mut st, &cf, &mut buf), Ok(1));
    assert_eq!(buf, [6]);
}

#[test]
fn watched_descriptors_are_added_changed_and_taken_away() {
    let mut st = FileStore::new();
    let mut e = EpInst::new(&mut st);
    let ev = EpEvent { events: EpEvent::IN | EpEvent::ET, data: EpData { ptr: 3 } };
    assert!(ev.has(EpEvent::ET) && !ev.has(EpEvent::OUT));
    assert_eq!(e.control(&mut st, EpCtlOp::MOD, 3, &ev), Err("eperm"));
    assert_eq!(e.control(&mut st, EpCtlOp::DEL, 3, &ev), Err("eperm"));
    assert_eq!(e.control(&mut st, 4, 3, &ev), Err("eperm"));
    assert_eq!(e.control(&mut st, EpCtlOp::ADD, 3, &ev), Ok(()));
    let out = EpEvent { events: EpEvent::OUT, data: EpData { ptr: 4 } };
    assert_eq!(e.control(&mut st, EpCtlOp::MOD, 3, &out), Ok(()));
    assert_eq!(e.events[&3].events, EpEvent::OUT);
    assert!(st.sets[e.new_ctl].contains(&3));
    assert_eq!(e.control(&mut st, EpCtlOp::DEL, 3, &ev), Ok(()));
    assert_eq!(e.control(&mut st, EpCtlOp::MOD, 3, &ev), Err("eperm"));
    assert_eq!(e.events.len(), 0);
}

#[test]
fn pseudo_files_are_read_only() {
    let p = PseudoNode::new("state", 4);
    let mut buf = [0u8; 3];
    assert_eq!(p.read_at(1, &mut buf), 3);
    assert_eq!(&buf, b"tat");
    assert_eq!((p.read_at(4, &mut buf), p.read_at(5, &mut buf)), (1, 0));
    assert_eq!(p.write_at(0, b"x"), Err("nosup"));
    assert_eq!((p.metadata_sz(), p.ftype), (5, 4));
    assert_eq!(read_as_vec(&[1, 2]), vec![1, 2]);
}

#[test]
fn the_terminal_starts_with_the_usual_settings() {
    let t = TrmIO::default();
    assert_eq!((t.iflag, t.oflag, t.cflag, t.lflag), (0o66402, 0o5, 0o2277, 0o105073));
    assert_eq!(&t.cc[..6], &[3, 28, 127, 21, 4, 0]);
    assert_eq!((t.cc[16], t.cc[17], t.line, t.ispeed, t.ospeed), (255, 0, 0, 0, 0));
    let w = WinSz::default();
    assert_eq!((w.row, w.col, w.xpx, w.ypx), (0, 0, 0, 0));
}
