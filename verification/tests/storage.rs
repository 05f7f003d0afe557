use chaos_kernel::fs::block_cache::BlockCache;
use chaos_kernel::fs::disk::Disk;
use chaos_kernel::fs::io_queue::IoQueue;
use chaos_kernel::fs::kobj::KObjRegistry;
use chaos_kernel::fs::mounts::MountTable;
use chaos_kernel::fs::page_cache::PageCache;
use chaos_kernel::sync::KernLock;

#[test]
fn the_least_recently_used_page_goes_first() {
    let mut c = PageCache::new(2);
    c.insert(1, vec![1], 0);
    c.insert(2, vec![2], 0);
    assert_eq!(c.lookup(1, 5), Some(&[1u8][..]));
    c.insert(3, vec![3], 6);
    assert_eq!(c.lookup(2, 7), None);
    assert_eq!(c.lookup(1, 8), Some(&[1u8][..]));
    assert_eq!(c.stats(), (2, 1, 1));
    assert_eq!(c.entries[&1].access_tick, 8);
}

#[test]
fn a_pinned_page_stays() {
    let mut c = PageCache::new(2);
    c.insert(1, vec![1], 0);
    c.insert(2, vec![2], 0);
    assert!(c.pin(1) && !c.pin(9));
    assert!(c.evict_lru());
    assert!(!c.evict_lru());
    assert!(c.unpin(1) && c.unpin(1) && !c.unpin(9));
    assert!(c.evict_lru());
    assert_eq!(c.stats(), (0, 0, 2));
}

#[test]
fn changed_pages_are_written_back_once() {
    let mut c = PageCache::new(4);
    for p in 1..4 {
        c.insert(p, vec![0], 0);
        c.mark_dirty(p);
    }
    c.mark_dirty(9);
    assert_eq!(c.flush_range(2, 3), 1);
    assert_eq!(c.writeback_all(), 2);
    assert_eq!(c.writeback_all(), 0);
    assert!(c.invalidate(2) && !c.invalidate(2));
    assert_eq!(c.lookup(2, 0), None);
}

#[test]
fn a_fetched_block_is_kept_until_it_is_forgotten() {
    let mut c = BlockCache::new(8);
    assert_eq!((c.idx(3), c.idx(200)), (3, 0));
    let seed = 200usize.wrapping_mul(0x9E3779B9) ^ 77;
    let want: Vec<u8> = (0..512).map(|i| (seed.wrapping_add(i) & 0xFF) as u8).collect();
    assert_eq!(c.cached(200), None);
    assert_eq!(c.fetch(200, 77), Some(want.clone()));
    assert_eq!(c.fetch(200, 78), Some(want));
    assert_eq!(c.total_entries(), 1);
    c.invalidate(200);
    assert_eq!((c.cached(200), c.total_entries()), (None, 0));
}

#[test]
fn syncing_cleans_every_block_and_leaves_the_lock() {
    let mut c = BlockCache::new(4);
    let mut gkl = KernLock::new();
    for k in 0..6 {
        let _ = c.fetch(k, 0);
    }
    c.mark(1);
    c.mark(5);
    assert_eq!(c.dirty_count(), 2);
    gkl.enter(2);
    c.sync_all(&mut gkl, 2);
    assert_eq!(c.dirty_count(), 0);
    assert_eq!(gkl.level(), 1);
}

#[test]
fn old_changed_blocks_are_evicted() {
    let mut c = BlockCache::new(4);
    for k in 0..4 {
        let _ = c.fetch(k, 0);
    }
    c.mark(1);
    c.mark(2);
    assert_eq!(c.evict_cold(15, 20), 1);
    assert!(!c.contains(1) && c.contains(2) && c.contains(0) && c.contains(3));
    assert!(c.dirty_count() == 1 && c.discard(2) && !c.discard(2));
}

#[test]
fn the_longest_prefix_counts_and_the_rest_is_resolved_in_turn() {
    let mut m = MountTable::new();
    m.bind("/", "root");
    m.bind("/dev", "devfs");
    m.bind("/dev", "devfs");
    m.bind("/dev/sda", "disk");
    assert_eq!(m.mount_count(), 3);
    assert_eq!(m.resolve("/dev/sdaX"), Ok("disk:X".to_string()));
    assert_eq!(m.resolve("/dev/tty"), Ok("devfs:root:tty".to_string()));
    assert_eq!(m.resolve("home//me"), Ok("home/me".to_string()));
    assert_eq!(m.resolve(""), Ok(String::new()));
    assert_eq!(m.find_mount("/dev/null").map(|e| e.target), Some("devfs".to_string()));
    assert!(m.find_mount("home").is_none());
    let names: Vec<String> = m.list_mounts().into_iter().map(|p| p.0).collect();
    assert_eq!(names, vec!["/dev/sda".to_string(), "/dev".to_string(), "/".to_string()]);
}

#[test]
fn unmounting_takes_every_mount_of_a_prefix() {
    let mut m = MountTable::new();
    m.bind("/a", "one");
    m.bind("/a", "two");
    assert_eq!(m.resolve("/a"), Ok("one:".to_string()));
    assert!(m.has_prefix("/a") && m.unmount("/a") && !m.unmount("/a"));
    assert!(!m.has_prefix("/a"));
    assert_eq!(m.resolve("//a"), Ok("/a".to_string()));
}

#[test]
fn the_head_serves_upward_and_then_turns() {
    let mut q = IoQueue::new();
    q.submit(50, false, 0, 1);
    q.submit(10, true, 0, 1);
    q.submit(30, false, 0, 1);
    q.head_pos = 20;
    assert_eq!(q.dispatch(), Some((30, false)));
    assert!(q.direction_up);
    assert_eq!(q.dispatch(), Some((50, false)));
    assert!(!q.direction_up);
    assert_eq!(q.dispatch(), Some((10, true)));
    assert!(q.direction_up);
    assert_eq!((q.dispatch(), q.dispatched, q.head_pos), (None, 3, 10));
}

#[test]
fn neighbours_of_one_kind_are_merged() {
    let mut q = IoQueue::new();
    assert_eq!(q.submit_batch(&[(1, false, 0), (2, false, 0), (2, true, 0), (3, true, 0), (9, true, 0)], 4), 5);
    assert_eq!(q.depth(), 5);
    assert_eq!(q.merge_adjacent(), 2);
    assert_eq!(q.merge_adjacent(), 0);
    assert_eq!((q.depth(), q.merged), (3, 2));
}

#[test]
fn a_deep_queue_is_merged_by_itself() {
    let mut q = IoQueue::new();
    let mut reqs: Vec<(usize, bool, u8)> = Vec::new();
    for i in 0..129 {
        reqs.push((i * 2, false, 0));
    }
    reqs.push((257, false, 0));
    assert_eq!(q.submit_batch(&reqs, 0), 130);
    assert_eq!((q.depth(), q.merged), (129, 1));
}

#[test]
fn a_failing_disk_is_read_again_until_it_works() {
    let mut d = Disk::failing("sda", 3);
    let mut out = [0u8; 4];
    assert_eq!(d.read_block(7, &mut out), Ok(()));
    assert_eq!((out, d.total_ops(), d.errs), ([0xAA; 4], 4, 0));
    d.set_errs(2);
    d.reset_ops();
    assert_eq!(d.read_block_n(7, &mut out, 2), Err("limit"));
    assert_eq!(d.read_block_n(7, &mut out, 2), Ok(1));
    assert_eq!(out, [0xAA, 0xAB, 0xA8, 0xA9]);
    assert_eq!(d.total_ops(), 3);
}

#[test]
fn a_broken_disk_gives_up_at_the_limit() {
    let mut d = Disk::failing("sda", usize::MAX);
    let mut out = [0u8; 1];
    assert_eq!(d.read_block_n(0, &mut out, 9), Err("limit"));
    assert_eq!((d.errs, d.ops), (usize::MAX, 9));
    assert_eq!(d.write_block(0, &[1]), Err("io_error"));
    assert_eq!(d.errs, usize::MAX);
}

#[test]
fn a_read_of_a_broken_disk_fails() {
    let mut d = Disk::failing("sda", usize::MAX);
    d.attach_journal(Disk::new("log"));
    let mut out = [7u8; 2];
    assert_eq!(d.read_block(3, &mut out), Err("io_error"));
    assert_eq!((out, d.errs, d.total_ops()), ([7, 7], usize::MAX, 1));
    assert_eq!(d.journal.unwrap().total_ops(), 1);
}

#[test]
fn a_journal_is_read_at_each_failure() {
    let mut d = Disk::failing("sda", 2);
    d.attach_journal(Disk::failing("log", 1));
    let mut out = [0u8; 1];
    assert_eq!(d.read_block(0, &mut out), Ok(()));
    assert_eq!(d.flush(), Ok(()));
    let j = d.journal.unwrap();
    assert_eq!((d.ops, j.ops, j.errs), (4, 4, 0));
}

#[test]
fn a_write_uses_up_a_failure() {
    let mut d = Disk::failing("sda", 1);
    assert_eq!(d.write_block(0, &[]), Err("io_error"));
    assert_eq!(d.write_block(0, &[]), Ok(()));
    assert_eq!((Disk::new("x").errs, d.label.as_str()), (0, "sda"));
}

#[test]
fn kernel_objects_are_found_by_kind_and_owner() {
    let mut k = KObjRegistry::new();
    let a = k.register(7, 1, 10);
    let b = k.register_child(7, 2, a, 11);
    let c = k.register_child(8, 1, a, 12);
    assert_eq!((a, b, c), (1, 2, 3));
    assert_eq!(k.find_by_type(7), vec![1, 2]);
    assert_eq!(k.find_by_type(9), Vec::<usize>::new());
    assert_eq!(k.dump_graph(), vec![(1, 2), (1, 3)]);
    assert_eq!(k.owner_objects(1), vec![1, 3]);
    assert!(k.unregister(2) && !k.unregister(2));
    assert_eq!((k.find_by_type(7), k.count()), (vec![1], 2));
}

#[test]
fn objects_nobody_holds_are_swept() {
    let mut k = KObjRegistry::new();
    let a = k.register(7, 1, 0);
    let b = k.register(7, 1, 0);
    assert!(k.ref_up(a) && k.ref_down(a) && k.ref_down(b) && k.ref_down(b));
    assert!(!k.ref_up(99) && !k.ref_down(99));
    assert_eq!(k.gc_sweep(), 1);
    assert_eq!((k.gc_sweep(), k.find_by_type(7)), (0, vec![a]));
    assert_eq!(k.register(1, 1, 0), 3);
}
