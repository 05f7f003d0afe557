use chaos_kernel::channel::{Channel, CircBuf, RecvStep};
use chaos_kernel::strmap::StrMap;
use chaos_kernel::text::{
    chars_of, normalize, parses_as_i64, same_text, split_path, starts_with, text_of, text_of_bytes, to_decimal,
    trim,
};

#[test]
fn a_ring_gives_back_in_order_across_its_end() {
    let mut b = CircBuf::new(3);
    assert!(b.empty());
    assert_eq!((b.pop(), b.peek()), (None, None));
    assert_eq!(b.fill_from(&[1, 2]), 2);
    assert_eq!(b.pop(), Some(1));
    assert_eq!(b.fill_from(&[3, 4, 5]), 2);
    assert!(b.full() && !b.push(9));
    assert_eq!((b.len(), b.remaining(), b.peek()), (3, 0, Some(2)));
    let mut out = Vec::new();
    assert_eq!(b.drain_to(&mut out, 2), 2);
    assert_eq!(b.drain_to(&mut out, 9), 1);
    assert_eq!(out, vec![2, 3, 4]);
    assert_eq!((b.rd, b.wr), (4, 4));
}

#[test]
fn the_first_byte_goes_to_the_first_place() {
    let mut b = CircBuf::new(4);
    assert!(b.push(7));
    assert_eq!(b.data, vec![7, 0, 0, 0]);
    assert_eq!((b.rd, b.wr, b.n), (0, 1, 1));
}

#[test]
fn a_ring_can_start_anywhere() {
    let mut b = CircBuf::with_pos(4, 3, 1);
    assert_eq!(b.len(), 2);
    assert_eq!(b.pop(), Some(0));
    assert_eq!(CircBuf::with_pos(4, 1, 3).len(), 2);
}

#[test]
fn a_ring_is_a_bounded_queue_whatever_is_done() {
    let mut b = CircBuf::new(3);
    let mut put: Vec<u8> = Vec::new();
    let mut got: usize = 0;
    let mut seed: u32 = 7;
    for step in 0..200u8 {
        seed = seed.wrapping_mul(1103515245).wrapping_add(12345);
        assert_eq!((b.len(), b.peek()), (put.len() - got, put.get(got).copied()));
        if (seed >> 16) % 5 < 3 {
            let room = put.len() - got < 3;
            assert_eq!(b.push(step), room);
            if room {
                put.push(step);
            }
        } else {
            assert_eq!(b.pop(), put.get(got).copied());
            got += usize::from(got < put.len());
        }
    }
    assert!(got > 50 && put.len() >= got);
}

#[test]
fn a_ring_without_room_takes_nothing() {
    let mut b = CircBuf::new(0);
    assert!(b.full() && b.empty() && !b.push(1));
}

#[test]
fn a_channel_is_between_one_byte_and_a_mebibyte() {
    assert_eq!(Channel::new(0).remaining_capacity(), 1);
    assert_eq!(Channel::new(5).remaining_capacity(), 5);
    assert_eq!(Channel::new(1 << 21).remaining_capacity(), 1 << 20);
}

#[test]
fn a_reader_sleeps_until_a_byte_comes() {
    let mut c = Channel::new(2);
    assert_eq!(c.recv(11), RecvStep::Sleep);
    assert_eq!(c.send(b'x'), (true, Some(11)));
    assert_eq!(c.recv_woken(), RecvStep::Done(Some(b'x')));
    assert_eq!((c.recv_woken(), c.is_closed()), (RecvStep::Again, false));
    assert_eq!(c.send(b'y'), (true, None));
    assert_eq!(c.recv(11), RecvStep::Done(Some(b'y')));
    assert_eq!(c.try_recv(), None);
}

#[test]
fn one_reader_at_a_time() {
    let mut c = Channel::new(2);
    assert_eq!(c.send(1), (true, None));
    c.guard.acquire();
    assert_eq!(c.recv(5), RecvStep::Busy);
    assert_eq!(c.recv_woken(), RecvStep::Busy);
    assert_eq!(c.try_recv(), None);
    c.guard.release();
    assert_eq!(c.try_recv(), Some(1));
}

#[test]
fn a_full_channel_takes_a_part() {
    let mut c = Channel::new(3);
    assert_eq!(c.recv(4), RecvStep::Sleep);
    assert_eq!(c.send_batch(&[1, 2, 3, 4]), (3, Some(4)));
    assert_eq!(c.send(9), (false, None));
    assert_eq!(c.send_batch(&[5]), (0, None));
    assert_eq!(c.depth(), 3);
    assert_eq!(c.drain_all(), vec![1, 2, 3]);
    assert_eq!(c.send_batch(&[]), (0, None));
}

#[test]
fn a_closed_channel_ends_for_everyone() {
    let mut c = Channel::new(3);
    assert_eq!(c.send(1), (true, None));
    assert_eq!(c.try_recv(), Some(1));
    assert_eq!((c.recv(4), c.recv(6)), (RecvStep::Sleep, RecvStep::Sleep));
    assert_eq!(c.close(), vec![4, 6]);
    assert!(c.is_closed());
    assert_eq!(c.recv_woken(), RecvStep::Done(None));
    assert_eq!(c.send(2), (false, None));
    assert_eq!(c.send_batch(&[2]), (0, None));
    assert_eq!(c.recv(7), RecvStep::Done(None));
}

#[test]
fn what_is_in_a_closed_channel_can_be_read() {
    let mut c = Channel::new(3);
    assert_eq!(c.send_batch(&[8, 9]), (2, None));
    assert_eq!(c.close(), Vec::<usize>::new());
    assert_eq!(c.recv(1), RecvStep::Done(Some(8)));
    assert_eq!(c.recv(1), RecvStep::Done(Some(9)));
    assert_eq!(c.recv(1), RecvStep::Done(None));
}

#[test]
fn paths_split_at_their_slashes() {
    assert_eq!(split_path("/a//bc/"), vec!["a".to_string(), "bc".to_string()]);
    assert_eq!(split_path("///"), Vec::<String>::new());
    assert_eq!(split_path("name"), vec!["name".to_string()]);
    assert_eq!(split_path("a/b/name"), {
        let mut v = split_path("a/b");
        v.push("name".to_string());
        v
    });
}

#[test]
fn numbers_are_written_in_decimal() {
    assert_eq!(to_decimal(0), "0");
    assert_eq!(to_decimal(1070), "1070");
    assert_eq!(to_decimal(u64::MAX), "18446744073709551615");
}

#[test]
fn numbers_are_recognised_as_the_standard_library_does() {
    let cases = [
        "0", "-0", "+7", "", "+", "-", "12a", " 1", "9223372036854775807", "9223372036854775808",
        "-9223372036854775808", "-9223372036854775809", "0000000000000000000000001", "--1", "1_0",
        "\u{661}",
    ];
    for s in cases {
        assert_eq!(parses_as_i64(s), s.parse::<i64>().is_ok(), "{}", s);
    }
}

#[test]
fn white_space_is_trimmed_as_the_standard_library_does() {
    let mut s = String::new();
    for u in 0..0x3100u32 {
        if let Some(c) = char::from_u32(u) {
            s.clear();
            s.push(c);
            s.push_str("a b");
            s.push(c);
            assert_eq!(trim(&s), s.trim(), "{}", u);
        }
    }
    assert_eq!(trim(" \n\t"), "");
}

#[test]
fn bytes_are_text_only_where_they_are_encoded_so() {
    assert_eq!(text_of_bytes("h\u{e9}".as_bytes()), Some("h\u{e9}"));
    assert_eq!(text_of_bytes(&[0xc3]), None);
    assert_eq!(text_of_bytes(&[]), Some(""));
}

#[test]
fn text_can_be_cut_and_compared() {
    let v = chars_of("k\u{e9}y");
    assert_eq!(v.len(), 3);
    assert_eq!(text_of(&v, 1, 3), "\u{e9}y");
    assert!(starts_with(&v, &chars_of("k\u{e9}")) && !starts_with(&v, &chars_of("key")));
    assert!(same_text("ab", "ab") && !same_text("ab", "abc"));
}

#[test]
fn a_text_map_keeps_the_last_value() {
    let mut m: StrMap<u32> = StrMap::new();
    m.insert("a", 1);
    m.insert("b", 2);
    m.insert("a", 3);
    assert_eq!((m.get("a"), m.get("b"), m.get("c")), (Some(&3), Some(&2), None));
    assert!(m.remove("a") && !m.remove("a"));
    assert_eq!((m.get("a"), m.get("b")), (None, Some(&2)));
}

#[test]
fn a_normal_path_has_no_detours() {
    for (path, want) in [
        ("", "/"),
        ("/", "/"),
        ("a/b", "/a/b"),
        ("/a//./b/", "/a/b"),
        ("/a/b/../../c", "/c"),
        ("/../a/..", "/"),
        ("/a/.../b", "/a/.../b"),
    ] {
        assert_eq!(normalize(path), want);
        assert_eq!(normalize(want), want);
    }
}
