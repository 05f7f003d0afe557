use std::collections::BTreeMap;

use chaos_kernel::fs::files::{FHandle, FdOpt, FileStore};
use chaos_kernel::fs::flike::FLike;
use chaos_kernel::fs::mounts::MountEntry;
use chaos_kernel::fs::pipes::PipeNode;
use chaos_kernel::ipc::{
    shm_get_or_create, SemArr, SemCtx, SemStore, ShmCtx, ShmStore, ShmTag,
};
use chaos_kernel::util::{
    audit_fd_table, build_pseudo_header, cclk, cfu, check_access, check_access_rw,
    compute_inet_checksum, compute_load_balance, ctu, dtk, parse_ipv4_header, rdu_fixup,
    rehash_mount_cache, ser, tcp_checksum, tmr, up_ms, validate_elf_header, wclk, Clock,
};

const IPC_EXCL: usize = 1 << 9;
const IPC_CREAT: usize = 1 << 10;

#[test]
fn one_key_leads_to_one_array() {
    let mut st = SemStore::new();
    let a = SemArr::get_or_create(5, 2, 0o1777, &mut st).unwrap();
    assert_eq!((st.items[a].ds.perm.mode, st.items[a].ds.nsems), (0o777, 2));
    assert_eq!((st.items[a].ds.perm.key, st.items[a].index(1).get_val()), (5, 0));
    assert_eq!(SemArr::get_or_create(5, 9, IPC_CREAT, &mut st), Ok(a));
    assert_eq!(SemArr::get_or_create(5, 9, IPC_EXCL | IPC_CREAT, &mut st), Err("eexist"));
    assert_eq!(st.refs[a], 2);
    assert_eq!((st.lookup(5), st.items[a].sems.len()), (Some(a), 2));
}

#[test]
fn key_zero_always_makes_an_array_under_the_least_free_key() {
    let mut st = SemStore::new();
    let a = SemArr::get_or_create(1, 1, 0, &mut st).unwrap();
    let b = SemArr::get_or_create(0, 3, IPC_EXCL | IPC_CREAT, &mut st).unwrap();
    let c = SemArr::get_or_create(0, 3, 0, &mut st).unwrap();
    assert!(a != b && b != c);
    assert_eq!((st.items[b].ds.perm.key, st.items[c].ds.perm.key), (2, 3));
    assert!(st.items[c].sems.len() == 3 && st.items[c].sems.iter().all(|s| s.get_val() == 0));
    assert_eq!(SemArr::get_or_create(3, 8, 0, &mut st), Ok(c));
    assert_eq!(st.items[c].sems.len(), 3);
}

#[test]
fn an_array_nobody_holds_is_made_anew() {
    let mut st = SemStore::new();
    let a = SemArr::get_or_create(5, 1, 0, &mut st).unwrap();
    st.release(a);
    assert_eq!(st.lookup(5), None);
    let b = SemArr::get_or_create(5, 3, IPC_EXCL | IPC_CREAT, &mut st).unwrap();
    assert!(a != b && st.items[b].sems.len() == 3);
}

#[test]
fn private_arrays_get_the_least_free_key() {
    let mut st = SemStore::new();
    let _ = SemArr::get_or_create(1, 1, 0, &mut st);
    let a = SemArr::get_or_create(0, 1, 0, &mut st).unwrap();
    assert_eq!(st.items[a].ds.perm.key, 2);
    st.release(a);
    let b = SemArr::get_or_create(0, 1, 0, &mut st).unwrap();
    assert_eq!(st.items[b].ds.perm.key, 3);
}

#[test]
fn an_array_can_be_described_and_removed() {
    let mut st = SemStore::new();
    let a = SemArr::get_or_create(7, 2, 0, &mut st).unwrap();
    let mut ds = st.items[a].ds;
    ds.perm.uid = 3;
    ds.perm.gid = 4;
    ds.perm.mode = 0o7654;
    ds.perm.key = 99;
    st.items[a].ds.otime = 5;
    st.items[a].ds.ctime = 6;
    st.items[a].set_ds(&ds);
    st.items[a].otime_now();
    st.items[a].ctime_now();
    let d = st.items[a].ds;
    assert_eq!((d.perm.uid, d.perm.gid, d.perm.mode, d.perm.key), (3, 4, 0o654, 7));
    assert_eq!((d.otime, d.ctime), (0, 0));
    st.items[a].remove();
    assert_eq!(st.items[a].sems[1].try_acquire(), Err("removed"));
}

#[test]
fn what_a_process_took_comes_back_at_its_end() {
    let mut st = SemStore::new();
    let a = SemArr::get_or_create(7, 3, 0, &mut st).unwrap();
    st.items[a].sems[0].set_val(1);
    st.items[a].sems[1].set_val(5);
    let mut cx = SemCtx::default();
    let id = cx.add(a);
    assert_eq!(st.items[a].sems[0].try_acquire(), Ok(true));
    cx.add_undo(id, 0, -1);
    cx.add_undo(id, 1, -1);
    cx.add_undo(id, 1, -1);
    cx.finish(&mut st);
    assert_eq!(st.items[a].sems[0].get_val(), 1);
    assert_eq!(st.items[a].sems[1].get_val(), 5);
    assert_eq!(st.refs[a], 0);
}

#[test]
fn a_child_inherits_arrays_but_not_what_is_to_undo() {
    let mut st = SemStore::new();
    let a = SemArr::get_or_create(7, 1, 0, &mut st).unwrap();
    let mut cx = SemCtx::default();
    let id = cx.add(a);
    cx.add_undo(id, 0, -1);
    let child = cx.inherit(&mut st);
    assert_eq!((st.refs[a], child.undos.len()), (2, 0));
    child.finish(&mut st);
    assert_eq!((st.items[a].sems[0].get_val(), st.refs[a]), (0, 1));
    assert_eq!((cx.get(id, &mut st), st.refs[a]), (Some(a), 2));
    assert_eq!(cx.get(44, &mut st), None);
    assert_eq!(cx.free_id(), 1);
    cx.remove(id, &mut st);
    assert_eq!((cx.free_id(), st.refs[a]), (0, 1));
}

#[test]
fn segments_are_shared_by_key() {
    let mut st = ShmStore::new();
    let g = shm_get_or_create(3, 2, &mut st);
    assert_eq!(st.items[g], vec![0, 0]);
    assert_eq!((shm_get_or_create(3, 9, &mut st), st.refs[g]), (g, 2));
    let mut cx = ShmCtx::default();
    let id = cx.add(g);
    let mut tag = ShmTag { addr: 0, pages: g };
    tag.set_addr(0x9000);
    st.retain(g);
    cx.set(id, tag, &mut st);
    assert_eq!(st.refs[g], 2);
    assert_eq!((cx.get_id_by_addr(0x9000), cx.get_id_by_addr(1)), (Some(id), None));
    assert_eq!(cx.get(id, &mut st).map(|t| t.addr), Some(0x9000));
    assert_eq!(st.refs[g], 3);
    let child = cx.inherit(&mut st);
    assert_eq!((child.get_id_by_addr(0x9000), st.refs[g]), (Some(id), 4));
    cx.pop(id, &mut st);
    cx.pop(id, &mut st);
    assert_eq!((st.refs[g], cx.get_id_by_addr(0x9000)), (3, None));
    child.finish(&mut st);
    assert_eq!(st.refs[g], 2);
}

#[test]
fn only_the_first_processor_moves_the_main_clock() {
    let mut c = Clock::new();
    dtk(&mut c, 0);
    tmr(&mut c, 3);
    tmr(&mut c, 0);
    assert_eq!((wclk(&c), cclk(&c), up_ms(&c)), (2, 3, 2));
    assert_eq!((ser(b'\r'), ser(b'x'), rdu_fixup()), (b'\n', b'x', 1));
}

#[test]
fn user_addresses_stay_below_the_kernel() {
    let base = 0xFFFF_FFFF_8000_0000usize;
    assert!(check_access(0, 0) && check_access(base - 8, 8) && !check_access(base - 7, 8));
    assert!(check_access(base - 0x1000, 0x1000) && !check_access(base - 0x1000, 0x1001));
    assert!(!check_access(usize::MAX, 1) && !check_access(usize::MAX, 2));
    assert!(check_access_rw(usize::MAX, 0, true) && !check_access_rw(usize::MAX, 2, true));
    assert!(!check_access_rw(base - 7, 8, false) && check_access_rw(base - 8, 8, false));
    assert_eq!((cfu::<u64>(base - 8, 0), cfu::<u64>(base - 7, 0)), (Some(0), None));
    assert_eq!(cfu::<u64>(base - 7, 4), Some(0));
    assert!(ctu(base - 8, 0, &1u64) && !ctu(base - 7, 0, &1u64));
}

#[test]
fn checksums_are_the_usual_ones() {
    assert_eq!(compute_inet_checksum(&[0x00, 0x01, 0xf2, 0x03, 0xf4, 0xf5, 0xf6, 0xf7]), 0x220d);
    assert_eq!(compute_inet_checksum(&[0x00, 0x01, 0xf2, 0x03, 0xf4, 0xf5, 0xf6, 0xf7, 0x22, 0x0d]), 0);
    assert_eq!(compute_inet_checksum(&[1]), 0xFEFF);
    assert_eq!(compute_inet_checksum(&[]), 0xFFFF);
    let mut all = build_pseudo_header(0x0A000001, 0x0A0000FE, 6, 3);
    assert_eq!(all, vec![10, 0, 0, 1, 10, 0, 0, 254, 0, 6, 0, 3]);
    all.extend_from_slice(&[1, 2, 3]);
    assert_eq!(tcp_checksum(0x0A000001, 0x0A0000FE, &[1, 2, 3]), compute_inet_checksum(&all));
}

fn packet() -> Vec<u8> {
    let mut p = vec![
        0x45, 0, 0, 40, 0, 1, 0, 0, 64, 6, 0, 0, 192, 168, 0, 1, 10, 0, 0, 2,
    ];
    let sum = compute_inet_checksum(&p);
    p[10] = (sum >> 8) as u8;
    p[11] = sum as u8;
    p
}

#[test]
fn a_packet_header_is_read_if_it_checks_out() {
    let p = packet();
    assert_eq!(parse_ipv4_header(&p), Some((0xC0A80001, 0x0A000002, 6, 40)));
    let mut bad = packet();
    bad[15] = 2;
    assert_eq!(parse_ipv4_header(&bad), None);
    assert_eq!(parse_ipv4_header(&p[..19]), None);
    let mut v6 = packet();
    v6[0] = 0x65;
    assert_eq!(parse_ipv4_header(&v6), None);
    let mut short = packet();
    short[0] = 0x44;
    assert_eq!(parse_ipv4_header(&short), None);
    let mut long = packet();
    long[0] = 0x46;
    assert_eq!(parse_ipv4_header(&long), None);
}

fn elf() -> Vec<u8> {
    let mut d = vec![0u8; 128];
    d[..4].copy_from_slice(b"\x7fELF");
    d[4] = 2;
    d[5] = 1;
    d[6] = 1;
    d[16] = 3;
    d[24] = 0x10;
    d[26] = 0x40;
    d[32] = 64;
    d[54] = 32;
    d[56] = 2;
    d[96] = 1;
    d
}

fn elf_with(at: usize, v: u8) -> Result<usize, &'static str> {
    let mut d = elf();
    d[at] = v;
    validate_elf_header(&d)
}

#[test]
fn a_program_is_recognised_by_its_header() {
    assert_eq!(validate_elf_header(&elf()), Ok(0x400010));
    assert_eq!(elf_with(16, 2), Ok(0x400010));
    assert_eq!(validate_elf_header(&elf()[..63]), Err("too_short"));
    assert_eq!(elf_with(3, 0), Err("bad_magic"));
    assert_eq!(elf_with(4, 1), Err("not_64bit"));
    assert_eq!(elf_with(5, 2), Err("not_le"));
    assert_eq!(elf_with(6, 0), Err("bad_version"));
    assert_eq!(elf_with(16, 4), Err("not_exec"));
    assert_eq!(elf_with(56, 0), Err("no_phdrs"));
    assert_eq!(elf_with(56, 3), Err("ph_overflow"));
    assert_eq!(elf_with(39, 0xFF), Err("ph_overflow"));
    assert_eq!(elf_with(96, 3), Err("no_load"));
}

#[test]
fn the_idlest_processor_gets_the_next_task() {
    assert_eq!(compute_load_balance(&[], &[], &[]), 0);
    assert_eq!(compute_load_balance(&[3, 1, 2, 2], &[0; 4], &[false; 4]), 1);
    assert_eq!(compute_load_balance(&[2, 2], &[], &[]), 0);
    assert_eq!(compute_load_balance(&[1, 1], &[0, 3], &[]), 1);
    assert_eq!(compute_load_balance(&[0, 3], &[], &[true]), 1);
    assert_eq!(compute_load_balance(&[0, 3], &[], &[false]), 0);
}

#[test]
fn an_audit_lists_gaps_and_faulty_files() {
    let mut st = FileStore::new();
    let (rd, wr) = PipeNode::pair(&mut st);
    let _ = wr.write_at(&mut st, &[1]);
    rd.release(&mut st);
    let mut files: BTreeMap<usize, FLike> = BTreeMap::new();
    files.insert(2, FLike::File(FHandle::new(&mut st, "/ok", FdOpt::default(), false, false)));
    files.insert(5, FLike::File(FHandle::new(&mut st, "", FdOpt::default(), false, false)));
    files.insert(6, FLike::Pipe(wr));
    files.insert(8, FLike::File(FHandle::new(&mut st, "/x", FdOpt::default(), false, false)));
    assert_eq!(audit_fd_table(&files, &st), vec![3, 4, 5, 6, 7]);
    assert_eq!(audit_fd_table(&BTreeMap::new(), &st), Vec::<usize>::new());
}

#[test]
fn mounts_are_indexed_by_hash() {
    let e = |p: &str, t: &str| MountEntry { prefix: p.to_string(), target: t.to_string() };
    let m = rehash_mount_cache(&[e("/dev", "abc"), e("/", "r"), e("/dev", "xyz")]);
    let mut h: u64 = 0xcbf29ce484222325;
    for b in "/dev".bytes() {
        h = (h ^ b as u64).wrapping_mul(0x100000001b3);
    }
    h = (h ^ 3).wrapping_mul(0x517cc1b727220a95);
    assert_eq!((m.len(), m.get(&h)), (2, Some(&2)));
}
