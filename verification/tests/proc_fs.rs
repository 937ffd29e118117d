use slabfs::{Proc, Whence, O_CREAT, O_RDWR};

#[test]
fn create_write_seek_read() {
    let mut p = Proc::new();
    let fd = p.open("notes", O_CREAT | O_RDWR);
    assert_eq!(fd, 3);

    assert_eq!(p.write(fd, b"hello"), 5);
    assert_eq!(p.seek(fd, 0, Whence::SeekSet), 0);

    let mut buf = vec![0u8; 5];
    assert_eq!(p.read(fd, &mut buf), 5);
    assert_eq!(&buf, b"hello");
    p.close(fd);
}

#[test]
fn open_without_create_fails() {
    let mut p = Proc::new();
    assert_eq!(p.open("missing", 0), -2);
    assert_eq!(p.open("missing", O_RDWR), -2);
}

#[test]
fn reopen_uses_fresh_cursor() {
    let mut p = Proc::new();
    let fd = p.open("f", O_CREAT);
    assert_eq!(p.write(fd, b"abc"), 3);

    let fd2 = p.open("f", 0);
    assert_ne!(fd, fd2);
    let mut buf = vec![0u8; 3];
    // the second descriptor starts at the beginning
    assert_eq!(p.read(fd2, &mut buf), 3);
    assert_eq!(&buf, b"abc");
    p.close(fd);
    p.close(fd2);
}

#[test]
fn descriptors_are_reused_after_close() {
    let mut p = Proc::new();
    let fd = p.open("a", O_CREAT);
    assert_eq!(fd, 3);
    let fd2 = p.open("b", O_CREAT);
    assert_eq!(fd2, 4);
    p.close(fd);
    // the descriptor released last is handed out next
    let fd3 = p.open("b", 0);
    assert_eq!(fd3, 3);
    p.close(fd2);
    p.close(fd3);
}

#[test]
fn close_of_unknown_descriptor_is_ignored() {
    let mut p = Proc::new();
    p.close(99);
    let fd = p.open("x", O_CREAT);
    assert_eq!(fd, 3);
    p.close(fd);
}

#[test]
fn seek_is_clamped_to_the_file() {
    let mut p = Proc::new();
    let fd = p.open("f", O_CREAT);
    assert_eq!(p.write(fd, b"hello"), 5);

    assert_eq!(p.seek(fd, -10, Whence::SeekCur), 0);
    assert_eq!(p.seek(fd, 100, Whence::SeekSet), 5);
    assert_eq!(p.seek(fd, -2, Whence::SeekEnd), 3);
    assert_eq!(p.seek(fd, 1, Whence::SeekCur), 4);
    p.close(fd);
}

#[test]
fn write_overwrites_and_extends() {
    let mut p = Proc::new();
    let fd = p.open("f", O_CREAT);
    assert_eq!(p.write(fd, b"hello"), 5);
    assert_eq!(p.seek(fd, 3, Whence::SeekSet), 3);
    assert_eq!(p.write(fd, b"XYZA"), 4);

    assert_eq!(p.seek(fd, 0, Whence::SeekSet), 0);
    let mut buf = vec![0u8; 16];
    assert_eq!(p.read(fd, &mut buf), 7);
    assert_eq!(&buf[..7], b"helXYZA");
    assert_eq!(&buf[7..], &[0u8; 9]);
    p.close(fd);
}

#[test]
fn read_does_not_move_the_cursor() {
    let mut p = Proc::new();
    let fd = p.open("f", O_CREAT);
    assert_eq!(p.write(fd, b"abcdef"), 6);
    assert_eq!(p.seek(fd, 2, Whence::SeekSet), 2);

    let mut buf = vec![0u8; 2];
    assert_eq!(p.read(fd, &mut buf), 2);
    assert_eq!(&buf, b"cd");
    // same bytes again: the cursor stayed at 2
    assert_eq!(p.read(fd, &mut buf), 2);
    assert_eq!(&buf, b"cd");
    p.close(fd);
}

#[test]
fn unlinked_file_stays_readable_through_open_descriptor() {
    let mut p = Proc::new();
    let fd = p.open("doomed", O_CREAT);
    assert_eq!(p.write(fd, b"abc"), 3);

    p.unlink("doomed");
    assert_eq!(p.open("doomed", 0), -2);

    assert_eq!(p.seek(fd, 0, Whence::SeekSet), 0);
    let mut buf = vec![0u8; 3];
    assert_eq!(p.read(fd, &mut buf), 3);
    assert_eq!(&buf, b"abc");
    p.close(fd);
}

#[test]
fn unlink_of_unknown_name_is_ignored() {
    let mut p = Proc::new();
    p.unlink("nothing");
    assert_eq!(p.open("nothing", 0), -2);
}

#[test]
fn two_files_do_not_share_storage() {
    let mut p = Proc::new();
    let fa = p.open("a", O_CREAT);
    let fb = p.open("b", O_CREAT);
    assert_eq!(p.write(fa, b"AAAA"), 4);
    assert_eq!(p.write(fb, b"BB"), 2);

    assert_eq!(p.seek(fa, 0, Whence::SeekSet), 0);
    let mut buf = vec![0u8; 8];
    assert_eq!(p.read(fa, &mut buf), 4);
    assert_eq!(&buf[..4], b"AAAA");

    assert_eq!(p.seek(fb, 0, Whence::SeekSet), 0);
    assert_eq!(p.read(fb, &mut buf), 2);
    assert_eq!(&buf[..2], b"BB");
    p.close(fa);
    p.close(fb);
}

#[test]
fn many_files_grow_the_arena() {
    let mut p = Proc::new();
    // more files than the arena's initial slot count
    let mut fds = Vec::new();
    for k in 0..20u8 {
        let name = format!("file{}", k);
        let fd = p.open(&name, O_CREAT);
        assert!(fd >= 3);
        assert_eq!(p.write(fd, &[k]), 1);
        fds.push((fd, k));
    }
    for (fd, k) in fds {
        assert_eq!(p.seek(fd, 0, Whence::SeekSet), 0);
        let mut buf = vec![0u8; 1];
        assert_eq!(p.read(fd, &mut buf), 1);
        assert_eq!(buf[0], k);
        p.close(fd);
    }
}
