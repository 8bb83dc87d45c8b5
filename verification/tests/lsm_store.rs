use paxos::lsm::LsmTree;
use paxos::memfs::Fs;
use paxos::memfs::Whence;

#[test]
fn test_new_table() {
    let mut fs = Fs::new();
    let mut tree = LsmTree::load(&mut fs).expect("load failed");
    tree.insert(&mut fs, "a".to_string(), "0".to_string()).unwrap();
    tree.insert(&mut fs, "b".to_string(), "1".to_string()).unwrap();

    assert_eq!(tree.search(&fs, "a").unwrap(), Some("0".to_string()));
    assert_eq!(tree.search(&fs, "c").unwrap(), None);
}

#[test]
fn load_makes_the_listing_file() {
    let mut fs = Fs::new();
    assert!(!fs.exist("/lsm/metadata"));
    let tree = LsmTree::load(&mut fs).unwrap();
    assert!(fs.exist("/lsm/metadata"));
    assert!(tree.can_search("x"));
    assert_eq!(tree.search(&fs, "x"), Ok(None));
    assert!(LsmTree::load(&mut fs).is_ok());
    assert_eq!(fs.ls("/lsm/", true), vec!["/lsm/metadata".to_string()]);
}

#[test]
fn table_in_memory_overrides_and_removes() {
    let mut fs = Fs::new();
    let mut tree = LsmTree::load(&mut fs).unwrap();
    assert_eq!(tree.insert(&mut fs, "k".to_string(), "1".to_string()), Ok(false));
    assert_eq!(tree.insert(&mut fs, "k".to_string(), "2".to_string()), Ok(true));
    assert_eq!(tree.search(&fs, "k"), Ok(Some("2".to_string())));
    assert_eq!(tree.remove(&mut fs, "k"), Ok(true));
    assert_eq!(tree.search(&fs, "k"), Ok(None));
    assert_eq!(tree.remove(&mut fs, "other"), Ok(false));
    assert_eq!(tree.search(&fs, "other"), Ok(None));
}

fn read_all(fs: &Fs, name: &str) -> Vec<u8> {
    let mut f = fs.open(name, false).unwrap();
    let mut buf = vec![0u8; f.size(&fs.shared)];
    f.seek(&fs.shared, Whence::Start(0));
    f.read(&fs.shared, &mut buf);
    buf
}

fn text(s: &str) -> Vec<u8> {
    let mut v = (s.len() as u32).to_le_bytes().to_vec();
    v.extend_from_slice(s.as_bytes());
    v
}

#[test]
fn full_table_is_written_out_in_blocks() {
    let mut fs = Fs::new();
    let mut tree = LsmTree::load(&mut fs).unwrap();
    for (k, v) in [("d", "4"), ("b", "2"), ("a", "1"), ("c", "3")] {
        assert_eq!(tree.insert(&mut fs, k.to_string(), v.to_string()), Ok(false));
    }
    assert!(!fs.exist("/lsm/0.blk"));
    assert_eq!(tree.insert(&mut fs, "e".to_string(), "5".to_string()), Ok(false));
    assert!(fs.exist("/lsm/0.blk"));
    let mut expected = Vec::new();
    for s in ["a", "1", "b", "2", "c", "3", "d", "4"] {
        expected.extend(text(s));
    }
    assert_eq!(read_all(&fs, "/lsm/0.blk"), expected);
    assert_eq!(read_all(&fs, "/lsm/metadata"), Vec::<u8>::new());
    assert_eq!(tree.search(&fs, "e"), Ok(Some("5".to_string())));
    // The block written is not listed, so what it holds is not found.
    assert!(tree.can_search("a"));
    assert_eq!(tree.search(&fs, "a"), Ok(None));
}

#[test]
fn removed_keys_are_left_out_of_blocks() {
    let mut fs = Fs::new();
    let mut tree = LsmTree::load(&mut fs).unwrap();
    tree.insert(&mut fs, "a".to_string(), "1".to_string()).unwrap();
    tree.remove(&mut fs, "b").unwrap();
    tree.insert(&mut fs, "c".to_string(), "3".to_string()).unwrap();
    tree.remove(&mut fs, "d").unwrap();
    tree.insert(&mut fs, "e".to_string(), "5".to_string()).unwrap();
    let mut expected = Vec::new();
    for s in ["a", "1", "c", "3"] {
        expected.extend(text(s));
    }
    assert_eq!(read_all(&fs, "/lsm/0.blk"), expected);
}

#[test]
fn listed_blocks_are_searched() {
    let mut fs = Fs::new();
    let mut block0 = Vec::new();
    for s in ["a", "1", "b", "2"] {
        block0.extend(text(s));
    }
    let mut block7 = Vec::new();
    for s in ["m", "13", "n", "14"] {
        block7.extend(text(s));
    }
    let mut f = fs.create("/lsm/0.blk", true).unwrap();
    f.write(&mut fs.shared, &block0);
    let mut f = fs.create("/lsm/7.blk", true).unwrap();
    f.write(&mut fs.shared, &block7);
    let mut ids = 0u64.to_le_bytes().to_vec();
    ids.extend_from_slice(&7u64.to_le_bytes());
    let mut f = fs.create("/lsm/metadata", true).unwrap();
    f.write(&mut fs.shared, &ids);

    let tree = LsmTree::load(&mut fs).unwrap();
    assert_eq!(tree.search(&fs, "a"), Ok(Some("1".to_string())));
    assert_eq!(tree.search(&fs, "b"), Ok(Some("2".to_string())));
    assert_eq!(tree.search(&fs, "c"), Ok(None));
    assert_eq!(tree.search(&fs, "m"), Ok(Some("13".to_string())));
    assert_eq!(tree.search(&fs, "n"), Ok(Some("14".to_string())));
    assert_eq!(tree.search(&fs, "z"), Ok(None));
}

#[test]
fn missing_and_broken_blocks_are_errors() {
    let mut fs = Fs::new();
    let mut ids = 3u64.to_le_bytes().to_vec();
    ids.extend_from_slice(&4u64.to_le_bytes());
    let mut f = fs.create("/lsm/metadata", true).unwrap();
    f.write(&mut fs.shared, &ids);
    assert_eq!(LsmTree::load(&mut fs).err(), Some("no such file".to_string()));

    let mut f = fs.create("/lsm/4.blk", true).unwrap();
    f.write(&mut fs.shared, &text("k"));
    let tree = LsmTree::load(&mut fs).unwrap();
    assert_eq!(tree.search(&fs, "a"), Err("no such file".to_string()));
    assert_eq!(tree.search(&fs, "k"), Err("EOF".to_string()));

    let mut g = Fs::new();
    let mut f = g.create("/lsm/metadata", true).unwrap();
    f.write(&mut g.shared, &[1, 2, 3]);
    assert_eq!(LsmTree::load(&mut g).err(), Some("unexpected EOF".to_string()));
}
