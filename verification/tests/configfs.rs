use chaos_kernel::consts::{SYS_READ, SYS_WRITE};
use chaos_kernel::fs::configfs::{ConfigLookup, ConfigNode};
use chaos_kernel::fs::files::{FHandle, FdOpt};
use chaos_kernel::fs::flike::FLike;
use chaos_kernel::kernel::Kernel;

const STACK: usize = 0x10_0000;

#[test]
fn configfs_demo_mkdir_read_write() {
    let mut kern = Kernel::new(64);
    kern.proc_init(STACK);

    kern.configfs.mkdir("demo", "counter0").unwrap();

    let lookup = kern.configfs.lookup("demo/counter0/value").unwrap();
    let ConfigLookup::Attr(item, attr_name) = lookup else {
        panic!("expected attr");
    };
    let mut node = ConfigNode::new(item, &attr_name);
    let mut buf = [0u8; 16];
    let n = node.read(&kern.configfs, &mut buf).unwrap();
    assert_eq!(&buf[..n], b"0");

    node.write(&mut kern.configfs, b"42").unwrap();
    node.offset = 0;
    let n = node.read(&kern.configfs, &mut buf).unwrap();
    assert_eq!(&buf[..n], b"42");
}

#[test]
fn configfs_demo_rmdir() {
    let mut kern = Kernel::new(64);
    kern.proc_init(STACK);

    kern.configfs.mkdir("demo", "counter0").unwrap();
    assert!(kern.configfs.lookup("demo/counter0/value").is_ok());

    kern.configfs.rmdir("demo", "counter0").unwrap();
    assert!(kern.configfs.lookup("demo/counter0/value").is_err());
}

#[test]
fn configfs_via_syscall_open_read_write() {
    let mut kern = Kernel::new(64);
    kern.proc_init(STACK);
    kern.configfs.mkdir("demo", "counter0").unwrap();

    let root = kern.tasks.root.unwrap();
    kern.set_cur(0, Some(root));

    let lookup = kern.configfs.lookup("demo/counter0/value").unwrap();
    let ConfigLookup::Attr(item, attr_name) = lookup else {
        panic!("expected attr");
    };
    kern.configfs.set_data(item, "value", "99");
    let node = ConfigNode::new(item, &attr_name);

    for _ in 0..3 {
        let fh = FHandle::new(&mut kern.shared.files, "dummy", FdOpt::default(), false, false);
        kern.tasks.tasks[root].add_file(FLike::File(fh));
    }
    let fd = kern.tasks.tasks[root].add_file(FLike::Config(node));
    assert!(fd >= 3);

    let read_result = kern.dispatch_syscall(SYS_READ, fd, 0x1000, 16, 0, 0, 0);
    assert!(read_result.is_ok());
    assert_eq!(read_result.unwrap(), 2);
}

#[test]
fn counter_refuses_what_is_no_number() {
    let mut kern = Kernel::new(64);
    kern.proc_init(STACK);
    kern.configfs.mkdir("demo", "c").unwrap();
    let Ok(ConfigLookup::Attr(item, name)) = kern.configfs.lookup("demo/c/value") else {
        panic!("expected attr");
    };
    let mut node = ConfigNode::new(item, &name);
    assert_eq!(node.write(&mut kern.configfs, b" -17\n"), Ok(5));
    assert_eq!(node.write(&mut kern.configfs, b"seven"), Err("einval"));
    assert_eq!(node.write(&mut kern.configfs, b"\xff"), Err("utf8"));
    assert_eq!(node.write(&mut kern.configfs, b"9223372036854775808"), Err("einval"));
    let mut buf = [0u8; 8];
    let n = node.read(&kern.configfs, &mut buf).unwrap();
    assert_eq!(&buf[..n], b"-17");
    assert_eq!(node.read(&kern.configfs, &mut buf), Ok(0));
}

#[test]
fn writing_zero_bytes_through_a_call_is_refused_by_a_counter() {
    let mut kern = Kernel::new(64);
    kern.proc_init(STACK);
    kern.configfs.mkdir("demo", "c").unwrap();
    let root = kern.tasks.root.unwrap();
    kern.set_cur(0, Some(root));
    let Ok(ConfigLookup::Attr(item, name)) = kern.configfs.lookup("demo/c/value") else {
        panic!("expected attr");
    };
    for _ in 0..3 {
        let fh = FHandle::new(&mut kern.shared.files, "dummy", FdOpt::default(), false, false);
        kern.tasks.tasks[root].add_file(FLike::File(fh));
    }
    let fd = kern.tasks.tasks[root].add_file(FLike::Config(ConfigNode::new(item, &name)));
    assert_eq!(kern.dispatch_syscall(SYS_WRITE, fd, 0x1000, 2, 0, 0, 0), Err("einval"));
    assert_eq!(kern.dispatch_syscall(SYS_READ, fd, 0x1000, 9, 0, 0, 0), Ok(1));
    assert_eq!(kern.dispatch_syscall(SYS_READ, fd, 0x1000, 9, 0, 0, 0), Ok(0));
}

#[test]
fn an_open_attribute_is_read_in_parts() {
    let mut kern = Kernel::new(64);
    kern.proc_init(STACK);
    kern.configfs.mkdir("demo", "c").unwrap();
    let root = kern.tasks.root.unwrap();
    kern.set_cur(0, Some(root));
    let Ok(ConfigLookup::Attr(item, name)) = kern.configfs.lookup("demo/c/value") else {
        panic!("expected attr");
    };
    let mut fl = FLike::Config(ConfigNode::new(item, &name));
    assert_eq!(fl.write(&mut kern.shared.files, &mut kern.configfs, b"12345"), Ok(5));
    let mut buf = [0u8; 3];
    assert_eq!(fl.read(&mut kern.shared.files, &kern.configfs, &mut buf), Ok(3));
    assert_eq!(&buf, b"123");
    let fd = kern.tasks.tasks[root].add_file(fl);
    assert_eq!(kern.read_fd(fd, 1), Ok(b"4".to_vec()));
    assert_eq!(kern.read_fd(fd, 9), Ok(b"5".to_vec()));
    assert_eq!(kern.read_fd(fd, 9), Ok(vec![]));
}

#[test]
fn an_open_attribute_outlives_its_directory() {
    let mut kern = Kernel::new(64);
    kern.proc_init(STACK);
    kern.configfs.mkdir("demo", "c").unwrap();
    let Ok(ConfigLookup::Attr(item, name)) = kern.configfs.lookup("demo/c/value") else {
        panic!("expected attr");
    };
    let mut node = ConfigNode::new(item, &name);
    node.write(&mut kern.configfs, b"5").unwrap();
    kern.configfs.rmdir("demo", "c").unwrap();
    let mut buf = [0u8; 4];
    assert_eq!(node.read(&kern.configfs, &mut buf), Ok(1));
    assert_eq!(buf[0], b'5');
}

#[test]
fn lookups_name_what_is_missing() {
    let mut kern = Kernel::new(64);
    kern.proc_init(STACK);
    kern.configfs.mkdir("demo", "c").unwrap();
    assert!(matches!(kern.configfs.lookup("demo"), Ok(ConfigLookup::Group(_))));
    assert!(matches!(kern.configfs.lookup("/demo//c/"), Ok(ConfigLookup::Item(_))));
    assert!(matches!(kern.configfs.lookup("demo/c/other"), Err("enoent")));
    assert!(matches!(kern.configfs.lookup(""), Err("enoent")));
    assert_eq!(kern.configfs.mkdir("demo/c", "d"), Err("notdir"));
    assert_eq!(kern.configfs.mkdir("nope", "d"), Err("enoent"));
    assert_eq!(kern.configfs.rmdir("demo", "d"), Err("enoent"));
}
