use paxos::memfs::compare;
use paxos::memfs::find_from;
use paxos::memfs::ioutil::read_buf_str;
use paxos::memfs::ioutil::read_buf_u32;
use paxos::memfs::ioutil::read_string;
use paxos::memfs::ioutil::read_u32;
use paxos::memfs::ioutil::read_u64;
use paxos::memfs::ioutil::read_u8;
use paxos::memfs::ioutil::write_str;
use paxos::memfs::ioutil::write_u32;
use paxos::memfs::ioutil::write_u64;
use paxos::memfs::ioutil::write_u8;
use paxos::memfs::starts_with;
use paxos::memfs::Fs;
use paxos::memfs::FsImpl;
use paxos::memfs::Order;
use paxos::memfs::Whence;

#[test]
fn test_create_open() {
    let mut fs = FsImpl::new();
    {
        fs.create("hello.txt", false).unwrap();
        assert!(fs.create("hello.txt", false).is_err());
        assert!(fs.create("hello.txt", true).is_ok());
    }
    assert!(fs.open("hello.txt", false).is_ok());
    assert!(fs.open("hello.log", false).is_err());
}

#[test]
fn test_read_write() {
    let mut fs = FsImpl::new();
    let mut f = fs.create("hello.txt", false).unwrap();
    f.write(&mut fs, b"hello");
    f.seek(&fs, Whence::Start(0));
    let mut rd = vec![0; 5];
    assert_eq!(f.read(&fs, &mut rd), 5);
    assert_eq!(&rd, b"hello");
    f.seek(&fs, Whence::Start(0));
    f.truncate(&mut fs, 0);
    f.write(&mut fs, b"hola");
    f.seek(&fs, Whence::Start(0));
    assert_eq!(f.read(&fs, &mut rd), 4);
    assert_eq!(&rd[..4], b"hola");
}

#[test]
fn test_append() {
    let mut fs = FsImpl::new();
    {
        let mut f = fs.create("hello.txt", false).unwrap();
        f.write(&mut fs, b"hello");
    }
    let mut f2 = fs.open("hello.txt", true).unwrap();
    f2.write(&mut fs, b"world");
    f2.seek(&fs, Whence::Start(0));
    let mut rd = vec![0; 10];
    assert_eq!(f2.read(&fs, &mut rd), 10);
    assert_eq!(&rd, b"helloworld");
}

#[test]
fn test_ls() {
    let mut fs = FsImpl::new();
    fs.create("/a", false).unwrap();
    fs.create("/a/a.txt", false).unwrap();
    fs.create("/a/b.txt", false).unwrap();
    fs.create("/b/hello.txt", false).unwrap();
    assert_eq!(fs.ls("/", false).len(), 3);
    assert_eq!(fs.ls("/a/", false).len(), 2);
    assert_eq!(fs.ls("/", true).len(), 4);
}

#[test]
fn ls_gives_sorted_entries() {
    let mut fs = FsImpl::new();
    for name in ["/b/hello.txt", "/a/b.txt", "/a", "/a/a.txt", "/a/sub/x", "/a/sub/y", "other"] {
        fs.create(name, false).unwrap();
    }
    assert_eq!(fs.ls("/", false), vec!["/a".to_string(), "/a/".to_string(), "/b/".to_string()]);
    assert_eq!(
        fs.ls("/a/", false),
        vec!["/a/a.txt".to_string(), "/a/b.txt".to_string(), "/a/sub/".to_string()]
    );
    assert_eq!(
        fs.ls("/a", true),
        vec![
            "/a".to_string(),
            "/a/a.txt".to_string(),
            "/a/b.txt".to_string(),
            "/a/sub/x".to_string(),
            "/a/sub/y".to_string()
        ]
    );
    assert_eq!(fs.ls("", false), vec!["/".to_string(), "other".to_string()]);
    assert!(fs.ls("/zzz", true).is_empty());
}

#[test]
fn ls_handles_names_outside_ascii() {
    let mut fs = FsImpl::new();
    fs.create("dir\u{e9}/f\u{fc}r/x", false).unwrap();
    fs.create("dir\u{e9}/\u{4e2d}", false).unwrap();
    assert_eq!(
        fs.ls("dir\u{e9}/", false),
        vec!["dir\u{e9}/f\u{fc}r/".to_string(), "dir\u{e9}/\u{4e2d}".to_string()]
    );
}

#[test]
fn error_texts_are_kept() {
    let mut fs = FsImpl::new();
    assert_eq!(fs.open("nope", false).err(), Some("no such file".to_string()));
    fs.create("a", false).unwrap();
    assert_eq!(fs.create("a", false).err(), Some("file existed".to_string()));
    let mut f = fs.open("a", false).unwrap();
    let mut one = [0u8; 1];
    assert_eq!(f.read_exact(&fs, &mut one), Err("EOF".to_string()));
    f.write(&mut fs, b"x");
    f.seek(&fs, Whence::Start(0));
    let mut two = [0u8; 2];
    assert_eq!(f.read_exact(&fs, &mut two), Err("unexpected EOF".to_string()));
    f.seek(&fs, Whence::Start(0));
    assert_eq!(f.read_exact(&fs, &mut one), Ok(()));
    assert_eq!(one[0], b'x');
    let mut none = [0u8; 0];
    assert_eq!(f.read_exact(&fs, &mut none), Ok(()));
}

#[test]
fn overwrite_and_rm_unlink_but_keep_open_files() {
    let mut fs = FsImpl::new();
    let mut old = fs.create("f", false).unwrap();
    old.write(&mut fs, b"old");
    let mut new = fs.create("f", true).unwrap();
    new.write(&mut fs, b"newer");
    assert_eq!(old.size(&fs), 3);
    assert_eq!(fs.open("f", false).unwrap().size(&fs), 5);
    assert!(fs.exist("f"));
    fs.rm("f");
    assert!(!fs.exist("f"));
    fs.rm("f");
    assert_eq!(new.size(&fs), 5);
    assert!(fs.ls("", true).is_empty());
}

#[test]
fn seek_clamps_into_the_file() {
    let mut fs = FsImpl::new();
    let mut f = fs.create("f", false).unwrap();
    f.write(&mut fs, b"0123456789");
    assert_eq!(f.seek(&fs, Whence::Start(3)), 3);
    assert_eq!(f.seek(&fs, Whence::Cur(4)), 7);
    assert_eq!(f.seek(&fs, Whence::Cur(-100)), 0);
    assert_eq!(f.seek(&fs, Whence::Cur(100)), 10);
    assert_eq!(f.seek(&fs, Whence::End(-2)), 8);
    assert_eq!(f.seek(&fs, Whence::End(5)), 10);
    assert_eq!(f.seek(&fs, Whence::Start(-1)), 0);
    let mut rd = [0u8; 4];
    f.seek(&fs, Whence::End(-3));
    assert_eq!(f.read(&fs, &mut rd), 3);
    assert_eq!(&rd, b"789\0");
    assert_eq!(f.read(&fs, &mut rd), 0);
}

#[test]
fn write_replaces_the_tail_and_truncate_cuts() {
    let mut fs = FsImpl::new();
    let mut f = fs.create("f", false).unwrap();
    f.write(&mut fs, b"abcdef");
    f.seek(&fs, Whence::Start(4));
    f.write(&mut fs, b"XY");
    f.write(&mut fs, b"Z");
    f.write(&mut fs, b"");
    assert_eq!(f.size(&fs), 7);
    f.truncate(&mut fs, 100);
    assert_eq!(f.size(&fs), 7);
    f.truncate(&mut fs, 5);
    assert_eq!(f.size(&fs), 5);
    f.append(&mut fs, b"");
    f.seek(&fs, Whence::Start(0));
    let mut rd = [0u8; 5];
    assert_eq!(f.read(&fs, &mut rd), 5);
    assert_eq!(&rd, b"abcdX");
    f.append(&mut fs, b"!!");
    assert_eq!(f.size(&fs), 7);
}

#[test]
fn shared_fs_joins_paths() {
    assert_eq!(Fs::join("/lsm", "0.blk"), "/lsm/0.blk");
    assert_eq!(Fs::join("/lsm///", "//0.blk"), "/lsm/0.blk");
    assert_eq!(Fs::join("", ""), "/");
    assert_eq!(Fs::join("///", "/"), "/");
    assert_eq!(Fs::join("a/b", "c/d/"), "a/b/c/d/");
    assert_eq!(Fs::join("\u{e9}/", "/\u{4e2d}"), "\u{e9}/\u{4e2d}");
}

#[test]
fn shared_fs_forwards() {
    let mut fs = Fs::new();
    assert!(!fs.exist("/x"));
    let mut f = fs.create("/x", false).unwrap();
    f.write(&mut fs.shared, b"data");
    assert!(fs.exist("/x"));
    assert!(fs.create("/x", false).is_err());
    assert_eq!(fs.open("/x", false).unwrap().size(&fs.shared), 4);
    assert!(fs.open("/y", false).is_err());
    assert_eq!(fs.ls("/", true), vec!["/x".to_string()]);
}

#[test]
fn numbers_and_texts_round_trip() {
    let mut d = Vec::new();
    write_u8(&mut d, 0xab);
    write_u32(&mut d, 0x01020304);
    write_u64(&mut d, 0x0102030405060708);
    write_str(&mut d, "h\u{e9}llo");
    assert_eq!(
        d,
        vec![
            0xab, 4, 3, 2, 1, 8, 7, 6, 5, 4, 3, 2, 1, 6, 0, 0, 0, b'h', 0xc3, 0xa9, b'l', b'l',
            b'o'
        ]
    );
    let mut fs = FsImpl::new();
    let mut f = fs.create("n", false).unwrap();
    f.write(&mut fs, &d);
    f.seek(&fs, Whence::Start(0));
    assert_eq!(read_u8(&mut f, &fs), Ok(0xab));
    assert_eq!(read_u32(&mut f, &fs), Ok(0x01020304));
    assert_eq!(read_u64(&mut f, &fs), Ok(0x0102030405060708));
    assert_eq!(read_string(&mut f, &fs), Ok("h\u{e9}llo".to_string()));
    assert_eq!(read_u8(&mut f, &fs), Err("EOF".to_string()));
    assert_eq!(read_string(&mut f, &fs), Err("EOF".to_string()));
    assert_eq!(read_buf_u32(&d[1..]), 0x01020304);
    assert_eq!(read_buf_str(&d[13..]), "h\u{e9}llo");
}

#[test]
fn short_and_malformed_texts_fail() {
    let mut fs = FsImpl::new();
    let mut f = fs.create("s", false).unwrap();
    f.write(&mut fs, &[3, 0, 0, 0, b'a', b'b']);
    f.seek(&fs, Whence::Start(0));
    assert_eq!(read_string(&mut f, &fs), Err("unexpected EOF".to_string()));
    let mut g = fs.create("t", false).unwrap();
    g.write(&mut fs, &[2, 0]);
    g.seek(&fs, Whence::Start(0));
    assert_eq!(read_u32(&mut g, &fs), Err("unexpected EOF".to_string()));
    let mut h = fs.create("u", false).unwrap();
    h.write(&mut fs, &[2, 0, 0, 0, 0xff, 0xfe]);
    h.seek(&fs, Whence::Start(0));
    let expected = String::from_utf8(vec![0xff, 0xfe]).unwrap_err().to_string();
    assert_eq!(read_string(&mut h, &fs), Err(expected));
    let mut k = fs.create("v", false).unwrap();
    k.write(&mut fs, &[0, 0, 0, 0]);
    k.seek(&fs, Whence::Start(0));
    assert_eq!(read_string(&mut k, &fs), Ok(String::new()));
}

#[test]
fn byte_strings_compare_like_slices() {
    let samples: [&[u8]; 7] = [b"", b"a", b"ab", b"abc", b"b", b"a/", &[0xff]];
    for a in samples.iter() {
        for b in samples.iter() {
            let expected = a.cmp(b);
            let got = match compare(a, b) {
                Order::Less => std::cmp::Ordering::Less,
                Order::Equal => std::cmp::Ordering::Equal,
                Order::Greater => std::cmp::Ordering::Greater,
            };
            assert_eq!(got, expected);
            assert_eq!(starts_with(a, b), a.starts_with(b));
        }
    }
    assert_eq!(find_from(b"a/b/c", 0, b'/'), Some(1));
    assert_eq!(find_from(b"a/b/c", 2, b'/'), Some(3));
    assert_eq!(find_from(b"a/b/c", 4, b'/'), None);
    assert_eq!(find_from(b"a/b/c", 9, b'/'), None);
}

use paxos::memfs::ioutil::read_vec;
use paxos::memfs::ioutil::write_slice;

#[test]
fn lists_round_trip() {
    let mut d = Vec::new();
    let items = [7u32, 8, 9];
    write_slice(&mut d, &items, |x: &u32| {
        let mut v = Vec::new();
        write_u32(&mut v, *x);
        v
    });
    assert_eq!(d, vec![3, 0, 0, 0, 7, 0, 0, 0, 8, 0, 0, 0, 9, 0, 0, 0]);
    let mut fs = FsImpl::new();
    let mut f = fs.create("l", false).unwrap();
    f.write(&mut fs, &d);
    f.seek(&fs, Whence::Start(0));
    let back = read_vec(&mut f, &fs, |mut file, fs: &FsImpl| {
        let r = read_u32(&mut file, fs);
        (file, r)
    });
    assert_eq!(back, Ok(vec![7, 8, 9]));
    assert_eq!(read_u8(&mut f, &fs), Err("EOF".to_string()));
    let empty: [u32; 0] = [];
    let mut e = Vec::new();
    write_slice(&mut e, &empty, |_x: &u32| Vec::new());
    assert_eq!(e, vec![0, 0, 0, 0]);
}

#[test]
fn list_reading_stops_at_the_first_failure() {
    let mut fs = FsImpl::new();
    let mut f = fs.create("l", false).unwrap();
    f.write(&mut fs, &[3, 0, 0, 0, 7, 0, 0, 0, 8, 0]);
    f.seek(&fs, Whence::Start(0));
    let back = read_vec(&mut f, &fs, |mut file, fs: &FsImpl| {
        let r = read_u32(&mut file, fs);
        (file, r)
    });
    assert_eq!(back, Err("unexpected EOF".to_string()));
    assert_eq!(f.size(&fs), 10);
    let mut g = fs.create("m", false).unwrap();
    g.write(&mut fs, &[3, 0]);
    g.seek(&fs, Whence::Start(0));
    let back: Result<Vec<u8>, String> = read_vec(&mut g, &fs, |mut file, fs: &FsImpl| {
        let r = read_u8(&mut file, fs);
        (file, r)
    });
    assert_eq!(back, Err("unexpected EOF".to_string()));
    let h = f.duplicate();
    assert_eq!(h.size(&fs), 10);
}
