//! A log-structured store of texts under text keys: a small table in
//! memory, and blocks of entries in the files of a file system, with a
//! file that lists the blocks.

use crate::memfs::bytes_of;
use crate::memfs::compare;
use crate::memfs::ioutil::bytes_read;
use crate::memfs::ioutil::after_read;
use crate::memfs::ioutil::read_error;
use crate::memfs::ioutil::read_string;
use crate::memfs::ioutil::read_u64;
use crate::memfs::ioutil::string_at;
use crate::memfs::ioutil::write_str;
use crate::memfs::ioutil::write_u64;
use crate::memfs::lemma_bytes_of_injective;
use crate::memfs::lemma_lex_asymmetric;
use crate::memfs::lex_lt;
use crate::memfs::File;
use crate::memfs::FileView;
use crate::memfs::Fs;
use crate::memfs::FsView;
use crate::memfs::Order;
use vstd::bytes::spec_u32_to_le_bytes;
use vstd::bytes::spec_u64_from_le_bytes;
use vstd::bytes::spec_u64_to_le_bytes;
use vstd::bytes::lemma_auto_spec_u32_to_from_le_bytes;
use vstd::bytes::spec_u32_from_le_bytes;
use vstd::prelude::*;
use vstd::string::*;
use vstd::utf8::valid_utf8;

verus! {

/// The most entries the table in memory takes before it is written out.
pub const MAX_MEM_KV_NUM: usize = 4;

/// The most entries a block holds.
pub const MAX_BLOCK_KV_NUM: usize = 4;

/// The decimal text of `n`.
pub open spec fn decimal(n: nat) -> Seq<char>
    decreases n,
{
    if n < 10 {
        seq![(48 + n) as char]
    } else {
        decimal(n / 10).push((48 + n % 10) as char)
    }
}

/// `u64::to_string`: the number in decimal, without sign or leading zeros.
#[verifier::external_body]
fn u64_to_string(n: u64) -> (s: String)
    ensures
        s@ == decimal(n as nat),
{
    n.to_string()
}

/// The name of the file that lists the blocks.
pub open spec fn metadata_name() -> Seq<char> {
    "/lsm"@ + "/metadata"@
}

/// The name of the file that holds block `id`.
pub open spec fn block_name(id: u64) -> Seq<char> {
    (("/lsm"@ + "/"@) + decimal(id as nat)) + ".blk"@
}

/// Makes the name of the file that lists the blocks.
fn metadata_path() -> (s: String)
    ensures
        s@ == metadata_name(),
{
    let mut s = "/lsm".to_owned();
    s.append("/metadata");
    s
}

/// Makes the name of the file that holds block `id`.
fn block_path(id: u64) -> (s: String)
    ensures
        s@ == block_name(id),
{
    let mut s = "/lsm".to_owned();
    s.append("/");
    let digits = u64_to_string(id);
    s.append(digits.as_str());
    s.append(".blk");
    s
}

/// What the file named `name` holds, if there is one.
pub open spec fn file_of(fs: FsView, name: Seq<char>) -> Option<Seq<u8>> {
    if fs.files.contains_key(name) && fs.files[name] < fs.data.len() {
        Some(fs.data[fs.files[name] as int])
    } else {
        None
    }
}

/// The file system with a new file under `name` that holds `bytes`.
pub open spec fn with_file(fs: FsView, name: Seq<char>, bytes: Seq<u8>) -> FsView {
    FsView { files: fs.files.insert(name, fs.data.len() as usize), data: fs.data.push(bytes) }
}

/// A handle at the start of a file.
pub open spec fn at_start(inode: usize) -> FileView {
    FileView { inode, p: 0, append_only: false }
}

/// A key and its value, as bytes.
pub type Entry = (Seq<u8>, Seq<u8>);

/// The entries that a block file holds from handle `f` on: texts in
/// pairs, key and value, up to the end of the file. A file that ends
/// between a key and its value, or within a text, is in error.
pub open spec fn block_at(f: FileView, data: Seq<u8>) -> Result<Seq<Entry>, Seq<char>>
    decreases data.len() - f.start(data.len() as int),
{
    let (f1, key) = string_at(f, data);
    match key {
        Err(e) => if e == "EOF"@ {
            Ok(Seq::empty())
        } else {
            Err(e)
        },
        Ok(k) => {
            let (f2, val) = string_at(f1, data);
            match val {
                Err(e) => Err(e),
                Ok(v) => if f2.start(data.len() as int) > f.start(data.len() as int) {
                    match block_at(f2, data) {
                        Ok(rest) => Ok(seq![(k, v)] + rest),
                        Err(e) => Err(e),
                    }
                } else {
                    Err("EOF"@)
                },
            }
        },
    }
}

/// A text that was read moves the handle on.
pub proof fn lemma_string_moves(f: FileView, data: Seq<u8>)
    requires
        data.len() <= usize::MAX,
        string_at(f, data).1 is Ok,
    ensures
        string_at(f, data).0.start(data.len() as int) >= f.start(data.len() as int) + 4,
        string_at(f, data).0.p == string_at(f, data).0.start(data.len() as int),
{
}

/// The bytes of a block file: each key and each value as its length in
/// four bytes and its bytes.
pub open spec fn encode_block(entries: Seq<Entry>) -> Seq<u8>
    decreases entries.len(),
{
    if entries.len() == 0 {
        Seq::empty()
    } else {
        encode_block(entries.drop_last()) + spec_u32_to_le_bytes(entries.last().0.len() as u32)
            + entries.last().0 + spec_u32_to_le_bytes(entries.last().1.len() as u32)
            + entries.last().1
    }
}

/// The value of the first entry of `entries` under `key`, if there is
/// one.
pub open spec fn first_under(entries: Seq<Entry>, key: Seq<u8>) -> Option<Seq<u8>>
    decreases entries.len(),
{
    if entries.len() == 0 {
        None
    } else if entries[0].0 == key {
        Some(entries[0].1)
    } else {
        first_under(entries.drop_first(), key)
    }
}

/// The entries of one block.
pub struct Block {
    entries: Vec<(String, String)>,
}

/// The entries as bytes.
pub open spec fn entries_view(entries: Seq<(String, String)>) -> Seq<Entry> {
    entries.map_values(|e: (String, String)| (bytes_of(e.0@), bytes_of(e.1@)))
}

impl View for Block {
    type V = Seq<Entry>;

    closed spec fn view(&self) -> Seq<Entry> {
        entries_view(self.entries@)
    }
}

/// Tells whether `a` comes before `b` in dictionary order.
fn comes_before(a: &str, b: &str) -> (r: bool)
    ensures
        r == lex_lt(bytes_of(a@), bytes_of(b@)),
{
    match compare(a.as_bytes(), b.as_bytes()) {
        Order::Less => true,
        _ => false,
    }
}

/// Tells whether two texts are the same.
fn same_text(a: &str, b: &str) -> (r: bool)
    ensures
        r == (a@ == b@),
{
    match compare(a.as_bytes(), b.as_bytes()) {
        Order::Equal => {
            proof {
                lemma_bytes_of_injective(a@, b@);
            }
            true
        },
        _ => false,
    }
}

impl Block {
    /// A block without entries.
    fn new() -> (b: Self)
        ensures
            b@ == Seq::<Entry>::empty(),
    {
        let b = Self { entries: Vec::new() };
        assert(b@ =~= Seq::<Entry>::empty());
        b
    }

    /// Reads the block that the file named `name` holds.
    fn load(fs: &Fs, name: &str) -> (r: Result<Self, String>)
        requires
            fs.shared.wf(),
        ensures
            match r {
                Ok(b) => fs@.files.contains_key(name@) && block_at(
                    at_start(fs@.files[name@]),
                    file_of(fs@, name@).unwrap(),
                ) == Ok::<Seq<Entry>, Seq<char>>(b@),
                Err(e) => if fs@.files.contains_key(name@) {
                    block_at(at_start(fs@.files[name@]), file_of(fs@, name@).unwrap()) == Err::<
                        Seq<Entry>,
                        Seq<char>,
                    >(e@)
                } else {
                    e@ == "no such file"@
                },
            },
    {
        let mut f = match fs.open(name, false) {
            Ok(f) => f,
            Err(e) => {
                return Err(e);
            },
        };
        let ghost data = file_of(fs@, name@).unwrap();
        let ghost f0 = f@;
        let mut entries: Vec<(String, String)> = Vec::new();
        let len = f.size(&fs.shared);
        proof {
            assert(entries_view(entries@) =~= Seq::<Entry>::empty());
            match block_at(f@, data) {
                Ok(rest) => {
                    assert(entries_view(entries@) + rest =~= rest);
                },
                Err(_) => {},
            }
        }
        loop
            invariant
                fs.shared.wf(),
                fs@.holds(f@),
                fs@.files.contains_key(name@),
                f0 == at_start(fs@.files[name@]),
                data == file_of(fs@, name@).unwrap(),
                data == fs@.contents(f@),
                data.len() == len,
                f@.inode == f0.inode,
                match block_at(f@, data) {
                    Ok(rest) => block_at(f0, data) == Ok::<Seq<Entry>, Seq<char>>(
                        entries_view(entries@) + rest,
                    ),
                    Err(e) => block_at(f0, data) == Err::<Seq<Entry>, Seq<char>>(e),
                },
            decreases data.len() - f@.start(data.len() as int),
        {
            let ghost f1 = f@;
            let key = match read_string(&mut f, &fs.shared) {
                Ok(k) => k,
                Err(e) => {
                    proof {
                        assert(string_at(f1, data).1 == Err::<Seq<u8>, Seq<char>>(e@));
                    }
                    if same_text(e.as_str(), "EOF") {
                        proof {
                            assert(block_at(f1, data) == Ok::<Seq<Entry>, Seq<char>>(Seq::empty()));
                            assert(entries_view(entries@) + Seq::<Entry>::empty() =~= entries_view(
                                entries@,
                            ));
                        }
                        return Ok(Block { entries });
                    }
                    proof {
                        assert(block_at(f1, data) == Err::<Seq<Entry>, Seq<char>>(e@));
                    }
                    return Err(e);
                },
            };
            let ghost f2 = f@;
            let val = match read_string(&mut f, &fs.shared) {
                Ok(v) => v,
                Err(e) => {
                    proof {
                        assert(string_at(f1, data).1 == Ok::<Seq<u8>, Seq<char>>(bytes_of(key@)));
                        assert(f2 == string_at(f1, data).0);
                        assert(string_at(f2, data).1 == Err::<Seq<u8>, Seq<char>>(e@));
                        assert(block_at(f1, data) == Err::<Seq<Entry>, Seq<char>>(e@));
                    }
                    return Err(e);
                },
            };
            proof {
                lemma_string_moves(f1, data);
                lemma_string_moves(string_at(f1, data).0, data);
                assert(f2 == string_at(f1, data).0);
                assert(f@ == string_at(f2, data).0);
                assert(string_at(f1, data).1 == Ok::<Seq<u8>, Seq<char>>(bytes_of(key@)));
                assert(string_at(f2, data).1 == Ok::<Seq<u8>, Seq<char>>(bytes_of(val@)));
                let grown = entries@.push((key, val));
                let e = (bytes_of(key@), bytes_of(val@));
                assert(entries_view(grown) =~= entries_view(entries@).push(e));
                match block_at(f@, data) {
                    Ok(rest) => {
                        assert(entries_view(entries@) + (seq![e] + rest) =~= entries_view(grown)
                            + rest);
                    },
                    Err(_) => {},
                }
            }
            entries.push((key, val));
        }
    }

    /// Reads the first key of the block that the file named `name` holds.
    fn load_first_key(fs: &Fs, name: &str) -> (r: Result<String, String>)
        requires
            fs.shared.wf(),
        ensures
            match r {
                Ok(k) => fs@.files.contains_key(name@) && string_at(
                    at_start(fs@.files[name@]),
                    file_of(fs@, name@).unwrap(),
                ).1 == Ok::<Seq<u8>, Seq<char>>(bytes_of(k@)),
                Err(e) => if fs@.files.contains_key(name@) {
                    string_at(at_start(fs@.files[name@]), file_of(fs@, name@).unwrap()).1 == Err::<
                        Seq<u8>,
                        Seq<char>,
                    >(e@)
                } else {
                    e@ == "no such file"@
                },
            },
    {
        let mut f = match fs.open(name, false) {
            Ok(f) => f,
            Err(e) => {
                return Err(e);
            },
        };
        read_string(&mut f, &fs.shared)
    }

    /// Writes the block into a new file under `name`.
    fn write_into(self, fs: &mut Fs, name: &str) -> (r: Result<(), String>)
        requires
            old(fs).shared.wf(),
        ensures
            final(fs).shared.wf(),
            r is Ok,
            final(fs)@ == with_file(old(fs)@, name@, encode_block(self@)),
    {
        let mut d: Vec<u8> = Vec::new();
        let mut i: usize = 0;
        while i < self.entries.len()
            invariant
                i <= self.entries@.len(),
                d@ == encode_block(entries_view(self.entries@).subrange(0, i as int)),
            decreases self.entries@.len() - i,
        {
            let ghost upto = entries_view(self.entries@).subrange(0, i + 1);
            proof {
                assert(upto.drop_last() =~= entries_view(self.entries@).subrange(0, i as int));
                assert(upto.last() == (
                    bytes_of(self.entries@[i as int].0@),
                    bytes_of(self.entries@[i as int].1@),
                ));
            }
            write_str(&mut d, self.entries[i].0.as_str());
            write_str(&mut d, self.entries[i].1.as_str());
            i += 1;
        }
        proof {
            assert(entries_view(self.entries@).subrange(0, i as int) =~= self@);
        }
        let mut f = match fs.create(name, true) {
            Ok(f) => f,
            Err(e) => {
                return Err(e);
            },
        };
        proof {
            fs.shared.lemma_view_wf();
            assert(fs@.data == old(fs)@.data.push(Seq::empty()));
            assert(fs@.contents(f@) =~= Seq::<u8>::empty());
        }
        let ghost mid = fs@;
        f.write(&mut fs.shared, d.as_slice());
        proof {
            let before = old(fs)@;
            assert(Seq::<u8>::empty().subrange(0, 0) + d@ =~= d@);
            assert(fs@.data =~= before.data.push(d@));
        }
        Ok(())
    }

    /// The value of the first entry under `key`.
    fn search(&self, key: &str) -> (r: Option<&str>)
        ensures
            match r {
                Some(v) => first_under(self@, bytes_of(key@)) == Some(bytes_of(v@)),
                None => first_under(self@, bytes_of(key@)) is None,
            },
    {
        let mut i: usize = 0;
        proof {
            assert(self@.subrange(0, self@.len() as int) =~= self@);
        }
        while i < self.entries.len()
            invariant
                i <= self.entries@.len(),
                first_under(self@, bytes_of(key@)) == first_under(
                    self@.subrange(i as int, self@.len() as int),
                    bytes_of(key@),
                ),
            decreases self.entries@.len() - i,
        {
            let ghost rest = self@.subrange(i as int, self@.len() as int);
            proof {
                assert(rest.drop_first() =~= self@.subrange(i + 1, self@.len() as int));
                assert(rest[0] == (
                    bytes_of(self.entries@[i as int].0@),
                    bytes_of(self.entries@[i as int].1@),
                ));
            }
            if same_text(self.entries[i].0.as_str(), key) {
                return Some(self.entries[i].1.as_str());
            }
            proof {
                if bytes_of(self.entries@[i as int].0@) == bytes_of(key@) {
                    lemma_bytes_of_injective(self.entries@[i as int].0@, key@);
                }
            }
            i += 1;
        }
        None
    }
}

/// A key and what the table in memory holds under it: a value, or the
/// mark that the key is removed.
pub type MemEntry = (Seq<u8>, Option<Seq<u8>>);

/// The bytes of an optional text.
pub open spec fn value_view(v: Option<String>) -> Option<Seq<u8>> {
    match v {
        Some(s) => Some(bytes_of(s@)),
        None => None,
    }
}

/// Whether the keys of `entries` stand in strict dictionary order.
pub open spec fn sorted_keys(entries: Seq<MemEntry>) -> bool {
    forall|i: int, j: int| 0 <= i < j < entries.len() ==> lex_lt(entries[i].0, entries[j].0)
}

/// What stands under `key` in `entries`, if anything.
pub open spec fn mem_get(entries: Seq<MemEntry>, key: Seq<u8>) -> Option<Option<Seq<u8>>>
    decreases entries.len(),
{
    if entries.len() == 0 {
        None
    } else if entries[0].0 == key {
        Some(entries[0].1)
    } else {
        mem_get(entries.drop_first(), key)
    }
}

/// Where `key` stands in `entries`, or would have to be put: the number
/// of keys that come before it.
pub open spec fn rank(entries: Seq<MemEntry>, key: Seq<u8>) -> int
    decreases entries.len(),
{
    if entries.len() == 0 {
        0
    } else if lex_lt(entries[0].0, key) {
        1 + rank(entries.drop_first(), key)
    } else {
        0
    }
}

/// `entries` with `value` put under `key`: in the place of what stood
/// there, or else at the place that keeps the keys in order.
pub open spec fn put(entries: Seq<MemEntry>, key: Seq<u8>, value: Option<Seq<u8>>) -> Seq<MemEntry> {
    let p = rank(entries, key);
    if p < entries.len() && entries[p].0 == key {
        entries.update(p, (key, value))
    } else {
        entries.insert(p, (key, value))
    }
}

/// The rank lies within the list.
pub proof fn lemma_rank_range(entries: Seq<MemEntry>, key: Seq<u8>)
    ensures
        0 <= rank(entries, key) <= entries.len(),
    decreases entries.len(),
{
    if entries.len() > 0 {
        lemma_rank_range(entries.drop_first(), key);
    }
}

/// The table in memory: entries in the order of their keys.
struct MemTable {
    keys: Vec<String>,
    vals: Vec<Option<String>>,
}

impl View for MemTable {
    type V = Seq<MemEntry>;

    closed spec fn view(&self) -> Seq<MemEntry> {
        Seq::new(self.keys@.len(), |i: int| (bytes_of(self.keys@[i]@), value_view(self.vals@[i])))
    }
}

impl MemTable {
    /// There is a value for each key, and the keys stand in order.
    spec fn wf(&self) -> bool {
        self.keys@.len() == self.vals@.len() && sorted_keys(self@)
    }

    /// An empty table.
    fn new() -> (t: Self)
        ensures
            t.wf(),
            t@ == Seq::<MemEntry>::empty(),
    {
        let t = MemTable { keys: Vec::new(), vals: Vec::new() };
        assert(t@ =~= Seq::<MemEntry>::empty());
        t
    }

    /// The number of entries.
    fn len(&self) -> (n: usize)
        requires
            self.wf(),
        ensures
            n == self@.len(),
    {
        self.keys.len()
    }

    /// Empties the table.
    fn clear(&mut self)
        ensures
            final(self).wf(),
            final(self)@ == Seq::<MemEntry>::empty(),
    {
        self.keys.clear();
        self.vals.clear();
        assert(self@ =~= Seq::<MemEntry>::empty());
    }

    /// Finds the rank of `key`, and whether `key` stands there.
    fn locate(&self, key: &str) -> (r: (usize, bool))
        requires
            self.wf(),
        ensures
            r.0 == rank(self@, bytes_of(key@)),
            r.0 <= self@.len(),
            r.1 == (r.0 < self@.len() && self@[r.0 as int].0 == bytes_of(key@)),
            r.1 ==> mem_get(self@, bytes_of(key@)) == Some(self@[r.0 as int].1),
            !r.1 ==> mem_get(self@, bytes_of(key@)) is None,
            forall|j: int| 0 <= j < r.0 ==> lex_lt(self@[j].0, bytes_of(key@)),
            !r.1 ==> forall|j: int| r.0 <= j < self@.len() ==> lex_lt(bytes_of(key@), self@[j].0),
    {
        let ghost all = self@;
        let ghost k = bytes_of(key@);
        let mut i: usize = 0;
        proof {
            assert(all.subrange(0, all.len() as int) =~= all);
        }
        while i < self.keys.len()
            invariant
                self.wf(),
                all == self@,
                k == bytes_of(key@),
                i <= all.len(),
                rank(all, k) == i + rank(all.subrange(i as int, all.len() as int), k),
                mem_get(all, k) == mem_get(all.subrange(i as int, all.len() as int), k),
                forall|j: int| 0 <= j < i ==> lex_lt(all[j].0, k),
            decreases all.len() - i,
        {
            let ghost rest = all.subrange(i as int, all.len() as int);
            proof {
                assert(rest.drop_first() =~= all.subrange(i + 1, all.len() as int));
                assert(rest[0] == all[i as int]);
            }
            match compare(self.keys[i].as_str().as_bytes(), key.as_bytes()) {
                Order::Less => {
                    proof {
                        lemma_lex_asymmetric(all[i as int].0, k);
                    }
                },
                Order::Equal => {
                    proof {
                        if lex_lt(all[i as int].0, k) {
                            lemma_lex_asymmetric(all[i as int].0, k);
                        }
                    }
                    return (i, true);
                },
                Order::Greater => {
                    proof {
                        lemma_lex_asymmetric(k, all[i as int].0);
                        lemma_absent(rest, k);
                        assert forall|j: int| i <= j < all.len() implies lex_lt(k, all[j].0) by {
                            if j > i {
                                assert(lex_lt(all[i as int].0, all[j].0));
                                crate::memfs::lemma_lex_transitive(k, all[i as int].0, all[j].0);
                            }
                        }
                    }
                    return (i, false);
                },
            }
            i += 1;
        }
        (i, false)
    }

    /// What the table holds under `key`.
    fn get(&self, key: &str) -> (r: Option<&Option<String>>)
        requires
            self.wf(),
        ensures
            match r {
                Some(v) => mem_get(self@, bytes_of(key@)) == Some(value_view(*v)),
                None => mem_get(self@, bytes_of(key@)) is None,
            },
    {
        let (i, found) = self.locate(key);
        if found {
            Some(&self.vals[i])
        } else {
            None
        }
    }

    /// Puts `value` under `key`. Returns whether the key was there.
    fn insert(&mut self, key: String, value: Option<String>) -> (had: bool)
        requires
            old(self).wf(),
        ensures
            final(self).wf(),
            final(self)@ == put(old(self)@, bytes_of(key@), value_view(value)),
            had == (mem_get(old(self)@, bytes_of(key@)) is Some),
    {
        let ghost before = self@;
        let ghost k = bytes_of(key@);
        let (i, found) = self.locate(key.as_str());
        if found {
            self.vals[i] = value;
            proof {
                assert(self@ =~= before.update(i as int, (k, value_view(value))));
                assert forall|a: int, b: int| 0 <= a < b < self@.len() implies lex_lt(
                    self@[a].0,
                    self@[b].0,
                ) by {
                    assert(lex_lt(before[a].0, before[b].0));
                }
            }
            true
        } else {
            self.keys.insert(i, key);
            self.vals.insert(i, value);
            proof {
                assert(self@ =~= before.insert(i as int, (k, value_view(value))));
                lemma_rank_splits(before, k, i as int);
                assert forall|a: int, b: int| 0 <= a < b < self@.len() implies lex_lt(
                    self@[a].0,
                    self@[b].0,
                ) by {
                    let a0 = if a < i { a } else { a - 1 };
                    let b0 = if b < i { b } else { b - 1 };
                    if a != i && b != i {
                        assert(lex_lt(before[a0].0, before[b0].0));
                    } else if a == i {
                        assert(self@[b] == before[b0]);
                        assert(lex_lt(k, before[b0].0));
                    } else {
                        assert(self@[a] == before[a0]);
                        assert(lex_lt(before[a0].0, k));
                    }
                }
            }
            false
        }
    }
}

/// In a list in order whose first key comes after `key`, nothing stands
/// under `key`.
proof fn lemma_absent(entries: Seq<MemEntry>, key: Seq<u8>)
    requires
        sorted_keys(entries) || entries.len() <= 1,
        entries.len() > 0 ==> lex_lt(key, entries[0].0),
        forall|i: int, j: int| 0 <= i < j < entries.len() ==> lex_lt(entries[i].0, entries[j].0),
    ensures
        mem_get(entries, key) is None,
        rank(entries, key) == 0,
    decreases entries.len(),
{
    if entries.len() > 0 {
        lemma_lex_asymmetric(key, entries[0].0);
        let rest = entries.drop_first();
        if rest.len() > 0 {
            assert(lex_lt(entries[0].0, entries[1].0));
            crate::memfs::lemma_lex_transitive(key, entries[0].0, entries[1].0);
            assert(rest[0] == entries[1]);
        }
        assert forall|i: int, j: int| 0 <= i < j < rest.len() implies lex_lt(rest[i].0, rest[j].0) by {
            assert(lex_lt(entries[i + 1].0, entries[j + 1].0));
        }
        lemma_absent(rest, key);
    }
}

/// In a list in order, the keys before the rank come before `key` and the
/// keys from the rank on do not.
proof fn lemma_rank_splits(entries: Seq<MemEntry>, key: Seq<u8>, p: int)
    requires
        sorted_keys(entries),
        p == rank(entries, key),
    ensures
        0 <= p <= entries.len(),
        forall|j: int| 0 <= j < p ==> lex_lt(entries[j].0, key),
        forall|j: int| p <= j < entries.len() ==> !lex_lt(entries[j].0, key),
    decreases entries.len(),
{
    if entries.len() > 0 {
        let rest = entries.drop_first();
        assert forall|i: int, j: int| 0 <= i < j < rest.len() implies lex_lt(rest[i].0, rest[j].0) by {
            assert(lex_lt(entries[i + 1].0, entries[j + 1].0));
        }
        if lex_lt(entries[0].0, key) {
            lemma_rank_splits(rest, key, p - 1);
            assert forall|j: int| 0 <= j < p implies lex_lt(entries[j].0, key) by {
                if j > 0 {
                    assert(rest[j - 1] == entries[j]);
                }
            }
            assert forall|j: int| p <= j < entries.len() implies !lex_lt(entries[j].0, key) by {
                assert(rest[j - 1] == entries[j]);
            }
        } else {
            assert forall|j: int| 0 <= j < entries.len() implies !lex_lt(entries[j].0, key) by {
                if j > 0 && lex_lt(entries[j].0, key) {
                    assert(lex_lt(entries[0].0, entries[j].0));
                    crate::memfs::lemma_lex_transitive(entries[0].0, entries[j].0, key);
                }
            }
        }
    }
}

/// The entries of the block file named `name`, or the error of reading
/// them.
pub open spec fn loaded(fs: FsView, name: Seq<char>) -> Result<Seq<Entry>, Seq<char>> {
    if fs.files.contains_key(name) {
        block_at(at_start(fs.files[name]), file_of(fs, name).unwrap())
    } else {
        Err("no such file"@)
    }
}

/// The first key of the block file named `name`, or the error of reading
/// it.
pub open spec fn first_key(fs: FsView, name: Seq<char>) -> Result<Seq<u8>, Seq<char>> {
    if fs.files.contains_key(name) {
        string_at(at_start(fs.files[name]), file_of(fs, name).unwrap()).1
    } else {
        Err("no such file"@)
    }
}

/// The place of the first of `keys` that comes after `key`, or their
/// number when none does.
pub open spec fn first_greater(keys: Seq<Seq<u8>>, key: Seq<u8>) -> int
    decreases keys.len(),
{
    if keys.len() == 0 {
        0
    } else if lex_lt(key, keys[0]) {
        0
    } else {
        1 + first_greater(keys.drop_first(), key)
    }
}

/// The place found lies within the list, or right after it.
pub proof fn lemma_first_greater_range(keys: Seq<Seq<u8>>, key: Seq<u8>)
    ensures
        0 <= first_greater(keys, key) <= keys.len(),
    decreases keys.len(),
{
    if keys.len() > 0 {
        lemma_first_greater_range(keys.drop_first(), key);
    }
}

/// The bytes of the file that lists the blocks: each block's number in
/// eight bytes.
pub open spec fn encode_ids(ids: Seq<u64>) -> Seq<u8>
    decreases ids.len(),
{
    if ids.len() == 0 {
        Seq::empty()
    } else {
        encode_ids(ids.drop_last()) + spec_u64_to_le_bytes(ids.last())
    }
}

/// The greatest of `ids`; zero when there are none.
pub open spec fn greatest(ids: Seq<u64>) -> u64
    decreases ids.len(),
{
    if ids.len() == 0 {
        0
    } else if ids.last() >= greatest(ids.drop_last()) {
        ids.last()
    } else {
        greatest(ids.drop_last())
    }
}

/// The number for the next block: one more than the greatest in use,
/// counting on from zero after the greatest number there is.
pub open spec fn next_after(ids: Seq<u64>) -> u64 {
    if ids.len() == 0 {
        0
    } else {
        greatest(ids).wrapping_add(1)
    }
}

/// The store on disk, as a mathematical value.
pub struct Disk {
    /// The number for the next block.
    pub next_id: u64,
    /// The first keys of the blocks.
    pub indexes: Seq<Seq<u8>>,
    /// The numbers of the blocks, in the order of their keys.
    pub block_ids: Seq<u64>,
}

/// The block numbers and first keys that the listing file holds from
/// handle `f` on, after the `ids` and `indexes` read so far. The first key
/// of every block but the first is read from the block's own file.
pub open spec fn ids_at(
    fs: FsView,
    f: FileView,
    data: Seq<u8>,
    ids: Seq<u64>,
    indexes: Seq<Seq<u8>>,
) -> Result<(Seq<u64>, Seq<Seq<u8>>), Seq<char>>
    decreases data.len() - f.start(data.len() as int),
{
    match read_error(f, data, 8) {
        Some(e) => if e == "EOF"@ {
            Ok((ids, indexes))
        } else {
            Err(e)
        },
        None => {
            let id = spec_u64_from_le_bytes(bytes_read(f, data, 8));
            let f1 = after_read(f, data, 8);
            if f1.start(data.len() as int) <= f.start(data.len() as int) {
                Err("EOF"@)
            } else if ids.len() > 0 {
                match first_key(fs, block_name(id)) {
                    Err(e) => Err(e),
                    Ok(k) => ids_at(fs, f1, data, ids.push(id), indexes.push(k)),
                }
            } else {
                ids_at(fs, f1, data, ids.push(id), indexes)
            }
        },
    }
}

/// What searching the store on disk for `key` gives: the value of the
/// first entry under `key` in the block that the first keys point to, or
/// the error of reading that block.
pub open spec fn disk_search(fs: FsView, d: Disk, key: Seq<u8>) -> Result<Option<Seq<u8>>, Seq<char>> {
    if d.block_ids.len() == 0 {
        Ok(None)
    } else {
        match loaded(fs, block_name(d.block_ids[first_greater(d.indexes, key)])) {
            Ok(entries) => Ok(first_under(entries, key)),
            Err(e) => Err(e),
        }
    }
}

/// The store on disk: which blocks there are, in the order of their keys,
/// and the first keys that tell which block a key belongs to.
struct DiskComponent {
    next_id: u64,
    indexes: Vec<String>,
    block_ids: Vec<u64>,
}

/// The bytes of each text.
pub open spec fn texts_view(texts: Seq<String>) -> Seq<Seq<u8>> {
    texts.map_values(|t: String| bytes_of(t@))
}

impl View for DiskComponent {
    type V = Disk;

    closed spec fn view(&self) -> Disk {
        Disk { next_id: self.next_id, indexes: texts_view(self.indexes@), block_ids: self.block_ids@ }
    }
}

impl Disk {
    /// There are no more first keys than blocks.
    pub open spec fn wf(self) -> bool {
        self.indexes.len() <= self.block_ids.len()
    }

    /// Whether a search for `key` finds a block to look into.
    pub open spec fn can_search(self, key: Seq<u8>) -> bool {
        self.block_ids.len() == 0 || first_greater(self.indexes, key) < self.block_ids.len()
    }
}

impl DiskComponent {
    /// Reads the block numbers and first keys from the file named `name`.
    fn load_block_ids(fs: &Fs, name: &str) -> (r: Result<(Vec<u64>, Vec<String>), String>)
        requires
            fs.shared.wf(),
        ensures
            match r {
                Ok(p) => fs@.files.contains_key(name@) && ids_at(
                    fs@,
                    at_start(fs@.files[name@]),
                    file_of(fs@, name@).unwrap(),
                    Seq::empty(),
                    Seq::empty(),
                ) == Ok::<(Seq<u64>, Seq<Seq<u8>>), Seq<char>>((p.0@, texts_view(p.1@))),
                Err(e) => if fs@.files.contains_key(name@) {
                    ids_at(
                        fs@,
                        at_start(fs@.files[name@]),
                        file_of(fs@, name@).unwrap(),
                        Seq::empty(),
                        Seq::empty(),
                    ) == Err::<(Seq<u64>, Seq<Seq<u8>>), Seq<char>>(e@)
                } else {
                    e@ == "no such file"@
                },
            },
    {
        let mut block_ids: Vec<u64> = Vec::new();
        let mut indexes: Vec<String> = Vec::new();
        let mut f = match fs.open(name, false) {
            Ok(f) => f,
            Err(e) => {
                return Err(e);
            },
        };
        let ghost data = file_of(fs@, name@).unwrap();
        let ghost f0 = f@;
        let len = f.size(&fs.shared);
        proof {
            assert(texts_view(indexes@) =~= Seq::<Seq<u8>>::empty());
        }
        loop
            invariant
                fs.shared.wf(),
                fs@.holds(f@),
                fs@.files.contains_key(name@),
                f0 == at_start(fs@.files[name@]),
                data == file_of(fs@, name@).unwrap(),
                data == fs@.contents(f@),
                data.len() == len,
                ids_at(fs@, f0, data, Seq::empty(), Seq::empty()) == ids_at(
                    fs@,
                    f@,
                    data,
                    block_ids@,
                    texts_view(indexes@),
                ),
            decreases data.len() - f@.start(data.len() as int),
        {
            let ghost f1 = f@;
            match read_u64(&mut f, &fs.shared) {
                Ok(id) => {
                    if block_ids.len() > 0 {
                        let path = block_path(id);
                        match Block::load_first_key(fs, path.as_str()) {
                            Ok(k) => {
                                proof {
                                    assert(texts_view(indexes@.push(k)) =~= texts_view(
                                        indexes@,
                                    ).push(bytes_of(k@)));
                                }
                                indexes.push(k);
                            },
                            Err(e) => {
                                return Err(e);
                            },
                        }
                    }
                    block_ids.push(id);
                },
                Err(e) => {
                    if same_text(e.as_str(), "EOF") {
                        return Ok((block_ids, indexes));
                    }
                    return Err(e);
                },
            }
        }
    }

    /// Writes the block numbers into a new file under `name`.
    fn store_block_ids(fs: &mut Fs, name: &str, block_ids: &Vec<u64>) -> (r: Result<(), String>)
        requires
            old(fs).shared.wf(),
        ensures
            final(fs).shared.wf(),
            r is Ok,
            final(fs)@ == with_file(old(fs)@, name@, encode_ids(block_ids@)),
    {
        let mut d: Vec<u8> = Vec::new();
        let mut i: usize = 0;
        while i < block_ids.len()
            invariant
                i <= block_ids@.len(),
                d@ == encode_ids(block_ids@.subrange(0, i as int)),
            decreases block_ids@.len() - i,
        {
            proof {
                let upto = block_ids@.subrange(0, i + 1);
                assert(upto.drop_last() =~= block_ids@.subrange(0, i as int));
            }
            write_u64(&mut d, block_ids[i]);
            i += 1;
        }
        proof {
            assert(block_ids@.subrange(0, i as int) =~= block_ids@);
        }
        let mut f = match fs.create(name, true) {
            Ok(f) => f,
            Err(e) => {
                return Err(e);
            },
        };
        let ghost mid = fs@;
        let ghost handle = f@;
        proof {
            fs.shared.lemma_view_wf();
            assert(mid.data == old(fs)@.data.push(Seq::empty()));
            assert(handle.inode == old(fs)@.data.len());
            assert(mid.contents(handle) =~= Seq::<u8>::empty());
        }
        f.write(&mut fs.shared, d.as_slice());
        proof {
            assert(Seq::<u8>::empty().subrange(0, 0) + d@ =~= d@);
            assert(handle.written(Seq::<u8>::empty(), d@) =~= d@);
            assert(fs@ == mid.with_contents(handle, d@));
            assert(fs@.data =~= old(fs)@.data.push(d@));
        }
        Ok(())
    }

    /// Finds the greatest of `ids`.
    fn max_id(ids: &Vec<u64>) -> (m: u64)
        ensures
            m == greatest(ids@),
    {
        let mut m: u64 = 0;
        let mut i: usize = 0;
        while i < ids.len()
            invariant
                i <= ids@.len(),
                m == greatest(ids@.subrange(0, i as int)),
            decreases ids@.len() - i,
        {
            proof {
                assert(ids@.subrange(0, i + 1).drop_last() =~= ids@.subrange(0, i as int));
            }
            if ids[i] >= m {
                m = ids[i];
            }
            i += 1;
        }
        proof {
            assert(ids@.subrange(0, i as int) =~= ids@);
        }
        m
    }

    /// Opens the store on disk, making an empty listing file if there is
    /// none.
    fn load(fs: &mut Fs) -> (r: Result<Self, String>)
        requires
            old(fs).shared.wf(),
        ensures
            final(fs).shared.wf(),
            final(fs)@ == (if old(fs)@.files.contains_key(metadata_name()) {
                old(fs)@
            } else {
                with_file(old(fs)@, metadata_name(), Seq::empty())
            }),
            match r {
                Ok(d) => {
                    &&& ids_at(
                        final(fs)@,
                        at_start(final(fs)@.files[metadata_name()]),
                        file_of(final(fs)@, metadata_name()).unwrap(),
                        Seq::empty(),
                        Seq::empty(),
                    ) == Ok::<(Seq<u64>, Seq<Seq<u8>>), Seq<char>>((d@.block_ids, d@.indexes))
                    &&& d@.next_id == next_after(d@.block_ids)
                },
                Err(e) => ids_at(
                    final(fs)@,
                    at_start(final(fs)@.files[metadata_name()]),
                    file_of(final(fs)@, metadata_name()).unwrap(),
                    Seq::empty(),
                    Seq::empty(),
                ) == Err::<(Seq<u64>, Seq<Seq<u8>>), Seq<char>>(e@),
            },
    {
        let metadata = metadata_path();
        if !fs.exist(metadata.as_str()) {
            match fs.create(metadata.as_str(), true) {
                Ok(_) => {},
                Err(e) => {
                    return Err(e);
                },
            }
        }
        let (block_ids, indexes) = match Self::load_block_ids(fs, metadata.as_str()) {
            Ok(p) => p,
            Err(e) => {
                return Err(e);
            },
        };
        let next_id = if block_ids.len() == 0 {
            0
        } else {
            Self::max_id(&block_ids).wrapping_add(1)
        };
        Ok(Self { next_id, indexes, block_ids })
    }

    /// Finds the place of the first of the first keys that comes after
    /// `k`.
    fn find_block(&self, k: &str) -> (i: usize)
        ensures
            i == first_greater(self@.indexes, bytes_of(k@)),
            i <= self@.indexes.len(),
    {
        let ghost keys = texts_view(self.indexes@);
        let ghost key = bytes_of(k@);
        let mut i: usize = 0;
        proof {
            assert(keys.subrange(0, keys.len() as int) =~= keys);
        }
        while i < self.indexes.len()
            invariant
                i <= self.indexes@.len(),
                keys == texts_view(self.indexes@),
                key == bytes_of(k@),
                first_greater(keys, key) == i + first_greater(
                    keys.subrange(i as int, keys.len() as int),
                    key,
                ),
            decreases self.indexes@.len() - i,
        {
            let ghost rest = keys.subrange(i as int, keys.len() as int);
            proof {
                assert(rest.drop_first() =~= keys.subrange(i + 1, keys.len() as int));
                assert(rest[0] == bytes_of(self.indexes@[i as int]@));
            }
            match compare(k.as_bytes(), self.indexes[i].as_str().as_bytes()) {
                Order::Less => {
                    return i;
                },
                _ => {},
            }
            i += 1;
        }
        i
    }

    /// Searches the store on disk for `k`.
    fn search(&self, fs: &Fs, k: &str) -> (r: Result<Option<String>, String>)
        requires
            fs.shared.wf(),
            self@.can_search(bytes_of(k@)),
        ensures
            match r {
                Ok(Some(v)) => disk_search(fs@, self@, bytes_of(k@)) == Ok::<
                    Option<Seq<u8>>,
                    Seq<char>,
                >(Some(bytes_of(v@))),
                Ok(None) => disk_search(fs@, self@, bytes_of(k@)) == Ok::<
                    Option<Seq<u8>>,
                    Seq<char>,
                >(None),
                Err(e) => disk_search(fs@, self@, bytes_of(k@)) == Err::<
                    Option<Seq<u8>>,
                    Seq<char>,
                >(e@),
            },
    {
        if self.block_ids.len() == 0 {
            return Ok(None);
        }
        let i = self.find_block(k);
        let path = block_path(self.block_ids[i]);
        match Block::load(fs, path.as_str()) {
            Ok(blk) => match blk.search(k) {
                Some(s) => Ok(Some(s.to_owned())),
                None => Ok(None),
            },
            Err(e) => Err(e),
        }
    }
}

/// The state of a rewrite of the store on disk: the file system, the
/// entries gathered for the next block, the number for that block, and
/// the blocks taken over as they are.
pub struct Build {
    pub fs: FsView,
    pub fill: Seq<Entry>,
    pub next_id: u64,
    pub indexes: Seq<Seq<u8>>,
    pub block_ids: Seq<u64>,
}

/// Writes the gathered entries out as the next block.
pub open spec fn write_fill(b: Build) -> Build {
    Build {
        fs: with_file(b.fs, block_name(b.next_id), encode_block(b.fill)),
        fill: Seq::empty(),
        next_id: b.next_id.wrapping_add(1),
        ..b
    }
}

/// Gathers one more entry, and writes the gathered entries out when there
/// are as many as a block holds.
pub open spec fn put_entry(b: Build, e: Entry) -> Build {
    let more = Build { fill: b.fill.push(e), ..b };
    if more.fill.len() >= MAX_BLOCK_KV_NUM {
        write_fill(more)
    } else {
        more
    }
}

/// Takes a block over as it is.
pub open spec fn add_block(b: Build, id: u64, first_key: Seq<u8>) -> Build {
    Build { indexes: b.indexes.push(first_key), block_ids: b.block_ids.push(id), ..b }
}

/// Takes over, from block `i` on, the blocks that the least new key does
/// not come before; returns the state and the number of the first block
/// not taken over.
pub open spec fn keep_blocks(b: Build, d: Disk, first: Seq<u8>, i: int) -> (Build, int)
    decreases d.indexes.len() - i,
{
    if 0 <= i < d.indexes.len() && !lex_lt(first, d.indexes[i]) {
        keep_blocks(
            add_block(
                b,
                d.block_ids[i],
                if i > 0 {
                    d.indexes[i]
                } else {
                    Seq::empty()
                },
            ),
            d,
            first,
            i + 1,
        )
    } else {
        (b, i)
    }
}

/// Gathers, from entry `j` of a block on, the entries whose keys come
/// before `key`, and passes over those under `key` itself; returns the
/// state and the place of the first entry that comes after `key`.
pub open spec fn scan(b: Build, entries: Seq<Entry>, j: int, key: Seq<u8>) -> (Build, int)
    decreases entries.len() - j,
{
    if 0 <= j < entries.len() {
        if lex_lt(entries[j].0, key) {
            scan(put_entry(b, entries[j]), entries, j + 1, key)
        } else if entries[j].0 == key {
            scan(b, entries, j + 1, key)
        } else {
            (b, j)
        }
    } else {
        (b, j)
    }
}

/// Gathers what a new entry brings: its value, or nothing when it marks
/// its key as removed.
pub open spec fn put_new(b: Build, e: MemEntry) -> Build {
    match e.1 {
        Some(v) => put_entry(b, (e.0, v)),
        None => b,
    }
}

/// Merges a block, from its entry `j` on, with the new entries from
/// entry `c` on, up to the end of the block; returns the state and the
/// number of the first new entry not merged. When the new entries run
/// out first, the rest of the block is left out.
pub open spec fn merge_block(b: Build, entries: Seq<Entry>, j: int, mem: Seq<MemEntry>, c: int) -> (
    Build,
    int,
)
    decreases mem.len() - c,
{
    if 0 <= c < mem.len() {
        let (b1, j1) = scan(b, entries, j, mem[c].0);
        if j1 >= entries.len() {
            (b1, c)
        } else {
            merge_block(put_new(b1, mem[c]), entries, j1, mem, c + 1)
        }
    } else {
        (b, c)
    }
}

/// Merges the blocks from block `i` on with the new entries from entry
/// `c` on. A block that cannot be read ends the merge in error, with the
/// file system as it is by then.
pub open spec fn merge_blocks(b: Build, d: Disk, i: int, mem: Seq<MemEntry>, c: int) -> Result<
    (Build, int),
    (Seq<char>, FsView),
>
    decreases d.block_ids.len() - i,
{
    if 0 <= i < d.block_ids.len() {
        match loaded(b.fs, block_name(d.block_ids[i])) {
            Err(e) => Err((e, b.fs)),
            Ok(entries) => {
                let (b1, c1) = merge_block(b, entries, 0, mem, c);
                merge_blocks(b1, d, i + 1, mem, c1)
            },
        }
    } else {
        Ok((b, c))
    }
}

/// Gathers the new entries from entry `c` on.
pub open spec fn put_rest(b: Build, mem: Seq<MemEntry>, c: int) -> Build
    decreases mem.len() - c,
{
    if 0 <= c < mem.len() {
        put_rest(put_new(b, mem[c]), mem, c + 1)
    } else {
        b
    }
}

/// Writes out what is gathered, if anything.
pub open spec fn flush(b: Build) -> Build {
    if b.fill.len() > 0 {
        write_fill(b)
    } else {
        b
    }
}

/// What is left to do once the blocks are merged: the new entries from
/// entry `c` on are gathered, what is gathered is written out, and the
/// listing file is written.
pub open spec fn finish(b: Build, mem: Seq<MemEntry>, c: int) -> (FsView, Disk) {
    let b3 = flush(put_rest(b, mem, c));
    (
        with_file(b3.fs, metadata_name(), encode_ids(b3.block_ids)),
        Disk { next_id: b3.next_id, indexes: b3.indexes, block_ids: b3.block_ids },
    )
}

/// The outcome of a rewrite whose merge of the blocks came out as
/// `merged`.
pub open spec fn settle(merged: Result<(Build, int), (Seq<char>, FsView)>, mem: Seq<MemEntry>) -> Result<
    (FsView, Disk),
    (Seq<char>, FsView),
> {
    match merged {
        Err(x) => Err(x),
        Ok(p) => Ok(finish(p.0, mem, p.1)),
    }
}

/// What writing the new entries `mem` out into the store `d` makes of the
/// file system and the store, or the error that ends it and the file
/// system as it is by then. The blocks written are not listed: the store
/// afterwards knows the blocks taken over as they were, and no others.
pub open spec fn compaction(fs: FsView, d: Disk, mem: Seq<MemEntry>) -> Result<
    (FsView, Disk),
    (Seq<char>, FsView),
> {
    if mem.len() == 0 {
        Ok((fs, d))
    } else {
        let b0 = Build {
            fs,
            fill: Seq::empty(),
            next_id: d.next_id,
            indexes: Seq::empty(),
            block_ids: Seq::empty(),
        };
        let (b1, i) = keep_blocks(b0, d, mem[0].0, 0);
        settle(merge_blocks(b1, d, i, mem, 0), mem)
    }
}

/// What a rewrite of the store on disk holds while it is under way.
struct DiskComponentBuilder {
    fill: Block,
    next_id: u64,
    indexes: Vec<String>,
    block_ids: Vec<u64>,
}

impl DiskComponentBuilder {
    /// The state of the rewrite, with the file system as `fs`.
    spec fn built(&self, fs: FsView) -> Build {
        Build {
            fs,
            fill: self.fill@,
            next_id: self.next_id,
            indexes: texts_view(self.indexes@),
            block_ids: self.block_ids@,
        }
    }

    /// Starts a rewrite whose first new block gets the number `next_id`.
    fn new(next_id: u64) -> (b: Self)
        ensures
            b.fill@ == Seq::<Entry>::empty(),
            b.next_id == next_id,
            texts_view(b.indexes@) == Seq::<Seq<u8>>::empty(),
            b.block_ids@ == Seq::<u64>::empty(),
    {
        let b = Self { fill: Block::new(), next_id, indexes: Vec::new(), block_ids: Vec::new() };
        assert(texts_view(b.indexes@) =~= Seq::<Seq<u8>>::empty());
        b
    }

    /// Takes a block over as it is.
    fn add_block(&mut self, block_id: u64, first_key: &str)
        ensures
            forall|fs: FsView| #[trigger]
                final(self).built(fs) == add_block(old(self).built(fs), block_id, bytes_of(first_key@)),
    {
        self.block_ids.push(block_id);
        self.indexes.push(first_key.to_owned());
        assert(texts_view(self.indexes@) =~= texts_view(old(self).indexes@).push(bytes_of(first_key@)));
    }

    /// Writes the gathered entries out as the next block.
    fn write_fill_block(&mut self, fs: &mut Fs) -> (r: Result<(), String>)
        requires
            old(fs).shared.wf(),
        ensures
            final(fs).shared.wf(),
            r is Ok,
            final(self).built(final(fs)@) == write_fill(old(self).built(old(fs)@)),
    {
        let mut filled = Block::new();
        core::mem::swap(&mut filled, &mut self.fill);
        let path = block_path(self.next_id);
        match filled.write_into(fs, path.as_str()) {
            Ok(_) => {},
            Err(e) => {
                return Err(e);
            },
        }
        self.next_id = self.next_id.wrapping_add(1);
        Ok(())
    }

    /// Gathers one more entry, and writes the gathered entries out when
    /// there are as many as a block holds.
    fn write_entry(&mut self, fs: &mut Fs, k: &str, v: &str) -> (r: Result<(), String>)
        requires
            old(fs).shared.wf(),
        ensures
            final(fs).shared.wf(),
            r is Ok,
            final(self).built(final(fs)@) == put_entry(
                old(self).built(old(fs)@),
                (bytes_of(k@), bytes_of(v@)),
            ),
    {
        self.fill.entries.push((k.to_owned(), v.to_owned()));
        proof {
            assert(self.fill@ =~= old(self).fill@.push((bytes_of(k@), bytes_of(v@))));
        }
        if self.fill.entries.len() >= MAX_BLOCK_KV_NUM {
            return self.write_fill_block(fs);
        }
        Ok(())
    }

    /// Writes out what is gathered, if anything, and hands out the first
    /// keys and numbers of the blocks taken over, and the number for the
    /// next block.
    fn flush(self, fs: &mut Fs) -> (r: Result<(Vec<String>, Vec<u64>, u64), String>)
        requires
            old(fs).shared.wf(),
        ensures
            final(fs).shared.wf(),
            match r {
                Ok(p) => {
                    let b = flush(self.built(old(fs)@));
                    &&& final(fs)@ == b.fs
                    &&& texts_view(p.0@) == b.indexes
                    &&& p.1@ == b.block_ids
                    &&& p.2 == b.next_id
                },
                Err(_) => false,
            },
    {
        let mut b = self;
        if b.fill.entries.len() > 0 {
            match b.write_fill_block(fs) {
                Ok(_) => {},
                Err(e) => {
                    return Err(e);
                },
            }
        }
        Ok((b.indexes, b.block_ids, b.next_id))
    }
}

impl DiskComponent {
    /// Writes the new entries of `c0` out into the store: takes over the
    /// blocks that lie before the least new key, merges the others with
    /// the new entries into new blocks, and writes a new listing file.
    fn compact_mem(&mut self, fs: &mut Fs, c0: &MemTable) -> (r: Result<(), String>)
        requires
            old(fs).shared.wf(),
            old(self)@.wf(),
            c0.wf(),
        ensures
            final(fs).shared.wf(),
            match compaction(old(fs)@, old(self)@, c0@) {
                Ok(done) => r is Ok && final(fs)@ == done.0 && final(self)@ == done.1,
                Err(failed) => r is Err && r->Err_0@ == failed.0 && final(fs)@ == failed.1
                    && final(self)@ == old(self)@,
            },
            r is Ok ==> final(self)@.wf(),
    {
        let n = c0.len();
        if n == 0 {
            return Ok(());
        }
        let ghost d = self@;
        let ghost mem = c0@;
        let ghost fs0 = fs@;
        let ghost goal = compaction(fs0, d, mem);
        let mut b = DiskComponentBuilder::new(self.next_id);
        let ghost b0 = b.built(fs0);
        let mut i: usize = 0;
        proof {
            assert(mem[0].0 == bytes_of(c0.keys@[0]@));
        }
        while i < self.indexes.len() && !comes_before(
            c0.keys[0].as_str(),
            self.indexes[i].as_str(),
        )
            invariant
                d == self@,
                d.wf(),
                mem == c0@,
                c0.wf(),
                mem.len() == n,
                n > 0,
                mem[0].0 == bytes_of(c0.keys@[0]@),
                i <= self.indexes@.len(),
                fs@ == fs0,
                keep_blocks(b0, d, mem[0].0, 0) == keep_blocks(b.built(fs0), d, mem[0].0, i as int),
                b.built(fs0).block_ids.len() == b.built(fs0).indexes.len(),
            decreases self.indexes@.len() - i,
        {
            let ghost before = b.built(fs0);
            proof {
                assert(d.indexes[i as int] == bytes_of(self.indexes@[i as int]@));
            }
            if i > 0 {
                b.add_block(self.block_ids[i], self.indexes[i].as_str());
            } else {
                b.add_block(self.block_ids[i], "");
            }
            proof {
                reveal_strlit("");
                assert(bytes_of(""@) =~= Seq::<u8>::empty());
                assert(b.built(fs0) == add_block(
                    before,
                    d.block_ids[i as int],
                    if i > 0 {
                        d.indexes[i as int]
                    } else {
                        Seq::empty()
                    },
                ));
            }
            i += 1;
        }
        proof {
            if i < self.indexes@.len() {
                assert(d.indexes[i as int] == bytes_of(self.indexes@[i as int]@));
            }
            assert(keep_blocks(b.built(fs0), d, mem[0].0, i as int) == (b.built(fs0), i as int));
            assert(goal == settle(merge_blocks(b.built(fs0), d, i as int, mem, 0), mem));
        }
        let mut c: usize = 0;
        while i < self.block_ids.len()
            invariant
                fs.shared.wf(),
                d == self@,
                d.wf(),
                mem == c0@,
                c0.wf(),
                mem.len() == n,
                c <= n,
                goal == settle(merge_blocks(b.built(fs@), d, i as int, mem, c as int), mem),
                goal == compaction(old(fs)@, old(self)@, c0@),
                d == old(self)@,
                b.built(fs@).block_ids.len() == b.built(fs@).indexes.len(),
            decreases self.block_ids@.len() - i,
        {
            let path = block_path(self.block_ids[i]);
            let ghost at_load = b.built(fs@);
            let empty = match Block::load(fs, path.as_str()) {
                Ok(blk) => blk,
                Err(e) => {
                    proof {
                        assert(loaded(fs@, block_name(d.block_ids[i as int])) == Err::<
                            Seq<Entry>,
                            Seq<char>,
                        >(e@));
                        assert(merge_blocks(at_load, d, i as int, mem, c as int) == Err::<
                            (Build, int),
                            (Seq<char>, FsView),
                        >((e@, fs@)));
                    }
                    return Err(e);
                },
            };
            let ghost entries = empty@;
            let ghost c_start = c as int;
            proof {
                assert(loaded(fs@, block_name(d.block_ids[i as int])) == Ok::<
                    Seq<Entry>,
                    Seq<char>,
                >(entries));
            }
            let mut j: usize = 0;
            let mut stop = false;
            while !stop && c < n
                invariant
                    fs.shared.wf(),
                    mem == c0@,
                    c0.wf(),
                    mem.len() == n,
                    c <= n,
                    entries == empty@,
                    j <= entries.len(),
                    !stop ==> merge_block(at_load, entries, 0, mem, c_start) == merge_block(
                        b.built(fs@),
                        entries,
                        j as int,
                        mem,
                        c as int,
                    ),
                    stop ==> merge_block(at_load, entries, 0, mem, c_start) == (
                        b.built(fs@),
                        c as int,
                    ),
                    b.built(fs@).block_ids.len() == b.built(fs@).indexes.len(),
                decreases n - c,
                    (if stop {
                        0nat
                    } else {
                        1nat
                    }),
            {
                let ghost scan_start = b.built(fs@);
                let ghost j_start = j as int;
                let ghost key = mem[c as int].0;
                let mut greater = false;
                while !greater && j < empty.entries.len()
                    invariant
                        fs.shared.wf(),
                        mem == c0@,
                        c0.wf(),
                        c < n,
                        mem.len() == n,
                        key == mem[c as int].0,
                        entries == empty@,
                        j <= entries.len(),
                        !greater ==> scan(scan_start, entries, j_start, key) == scan(
                            b.built(fs@),
                            entries,
                            j as int,
                            key,
                        ),
                        greater ==> scan(scan_start, entries, j_start, key) == (
                            b.built(fs@),
                            j as int,
                        ) && j < entries.len(),
                        b.built(fs@).block_ids.len() == b.built(fs@).indexes.len(),
                    decreases entries.len() - j,
                        (if greater {
                            0nat
                        } else {
                            1nat
                        }),
                {
                    proof {
                        assert(entries[j as int] == (
                            bytes_of(empty.entries@[j as int].0@),
                            bytes_of(empty.entries@[j as int].1@),
                        ));
                        assert(key == bytes_of(c0.keys@[c as int]@));
                    }
                    match compare(
                        empty.entries[j].0.as_str().as_bytes(),
                        c0.keys[c].as_str().as_bytes(),
                    ) {
                        Order::Less => {
                            match b.write_entry(
                                fs,
                                empty.entries[j].0.as_str(),
                                empty.entries[j].1.as_str(),
                            ) {
                                Ok(_) => {},
                                Err(e) => {
                                    return Err(e);
                                },
                            }
                            j += 1;
                        },
                        Order::Equal => {
                            proof {
                                if lex_lt(entries[j as int].0, key) {
                                    lemma_lex_asymmetric(entries[j as int].0, key);
                                }
                            }
                            j += 1;
                        },
                        Order::Greater => {
                            proof {
                                lemma_lex_asymmetric(key, entries[j as int].0);
                            }
                            greater = true;
                        },
                    }
                }
                proof {
                    assert(scan(scan_start, entries, j_start, key) == (b.built(fs@), j as int));
                }
                if j >= empty.entries.len() {
                    stop = true;
                } else {
                    proof {
                        assert(mem[c as int] == (
                            bytes_of(c0.keys@[c as int]@),
                            value_view(c0.vals@[c as int]),
                        ));
                    }
                    match &c0.vals[c] {
                        Some(v) => {
                            match b.write_entry(fs, c0.keys[c].as_str(), v.as_str()) {
                                Ok(_) => {},
                                Err(e) => {
                                    return Err(e);
                                },
                            }
                        },
                        None => {},
                    }
                    c += 1;
                }
            }
            proof {
                assert(merge_block(at_load, entries, 0, mem, c_start) == (b.built(fs@), c as int));
            }
            i += 1;
        }
        proof {
            assert(merge_blocks(b.built(fs@), d, i as int, mem, c as int) == Ok::<
                (Build, int),
                (Seq<char>, FsView),
            >((b.built(fs@), c as int)));
        }
        while c < n
            invariant
                fs.shared.wf(),
                d == self@,
                mem == c0@,
                c0.wf(),
                mem.len() == n,
                c <= n,
                goal == Ok::<(FsView, Disk), (Seq<char>, FsView)>(
                    finish(b.built(fs@), mem, c as int),
                ),
                b.built(fs@).block_ids.len() == b.built(fs@).indexes.len(),
            decreases n - c,
        {
            proof {
                assert(mem[c as int] == (
                    bytes_of(c0.keys@[c as int]@),
                    value_view(c0.vals@[c as int]),
                ));
            }
            match &c0.vals[c] {
                Some(v) => {
                    match b.write_entry(fs, c0.keys[c].as_str(), v.as_str()) {
                        Ok(_) => {},
                        Err(e) => {
                            return Err(e);
                        },
                    }
                },
                None => {},
            }
            c += 1;
        }
        let ghost last = b.built(fs@);
        let (indexes, block_ids, next_id) = match b.flush(fs) {
            Ok(p) => p,
            Err(e) => {
                return Err(e);
            },
        };
        let metadata = metadata_path();
        match Self::store_block_ids(fs, metadata.as_str(), &block_ids) {
            Ok(_) => {},
            Err(e) => {
                return Err(e);
            },
        }
        self.block_ids = block_ids;
        self.indexes = indexes;
        self.next_id = next_id;
        proof {
            assert(put_rest(last, mem, n as int) == last);
        }
        Ok(())
    }
}

/// A store of texts under text keys.
pub struct LsmTree {
    c0: MemTable,
    c1: DiskComponent,
}

impl LsmTree {
    /// What the table in memory holds.
    pub closed spec fn mem(&self) -> Seq<MemEntry> {
        self.c0@
    }

    /// What the store knows of its blocks on disk.
    pub closed spec fn disk(&self) -> Disk {
        self.c1@
    }

    /// The table in memory is in order and the store on disk well-formed.
    pub closed spec fn wf(&self) -> bool {
        self.c0.wf() && self.c1@.wf()
    }

    /// Opens the store that the file system holds, with an empty table in
    /// memory; makes an empty listing file if there is none.
    pub fn load(fs: &mut Fs) -> (r: Result<Self, String>)
        requires
            old(fs).shared.wf(),
        ensures
            final(fs).shared.wf(),
            final(fs)@ == (if old(fs)@.files.contains_key(metadata_name()) {
                old(fs)@
            } else {
                with_file(old(fs)@, metadata_name(), Seq::empty())
            }),
            match r {
                Ok(t) => {
                    &&& ids_at(
                        final(fs)@,
                        at_start(final(fs)@.files[metadata_name()]),
                        file_of(final(fs)@, metadata_name()).unwrap(),
                        Seq::empty(),
                        Seq::empty(),
                    ) == Ok::<(Seq<u64>, Seq<Seq<u8>>), Seq<char>>(
                        (t.disk().block_ids, t.disk().indexes),
                    )
                    &&& t.disk().next_id == next_after(t.disk().block_ids)
                    &&& t.mem() == Seq::<MemEntry>::empty()
                },
                Err(e) => ids_at(
                    final(fs)@,
                    at_start(final(fs)@.files[metadata_name()]),
                    file_of(final(fs)@, metadata_name()).unwrap(),
                    Seq::empty(),
                    Seq::empty(),
                ) == Err::<(Seq<u64>, Seq<Seq<u8>>), Seq<char>>(e@),
            },
    {
        match DiskComponent::load(fs) {
            Ok(c1) => Ok(Self { c0: MemTable::new(), c1 }),
            Err(e) => Err(e),
        }
    }

    /// Puts `v` under `k` in the table in memory, after writing the table
    /// out when it is full.
    fn insert_kv(&mut self, fs: &mut Fs, k: String, v: Option<String>) -> (r: Result<bool, String>)
        requires
            old(fs).shared.wf(),
            old(self).wf(),
        ensures
            final(fs).shared.wf(),
            final(self).wf(),
            old(self).mem().len() < MAX_MEM_KV_NUM ==> {
                &&& r == Ok::<bool, String>(mem_get(old(self).mem(), bytes_of(k@)) is Some)
                &&& final(self).mem() == put(old(self).mem(), bytes_of(k@), value_view(v))
                &&& final(self).disk() == old(self).disk()
                &&& final(fs)@ == old(fs)@
            },
            old(self).mem().len() >= MAX_MEM_KV_NUM ==> match compaction(
                old(fs)@,
                old(self).disk(),
                old(self).mem(),
            ) {
                Ok(done) => {
                    &&& r == Ok::<bool, String>(false)
                    &&& final(self).mem() == put(
                        Seq::<MemEntry>::empty(),
                        bytes_of(k@),
                        value_view(v),
                    )
                    &&& final(self).disk() == done.1
                    &&& final(fs)@ == done.0
                },
                Err(failed) => {
                    &&& r is Err
                    &&& r->Err_0@ == failed.0
                    &&& final(self).mem() == old(self).mem()
                    &&& final(self).disk() == old(self).disk()
                    &&& final(fs)@ == failed.1
                },
            },
    {
        if self.c0.len() >= MAX_MEM_KV_NUM {
            match self.c1.compact_mem(fs, &self.c0) {
                Ok(_) => {},
                Err(e) => {
                    return Err(e);
                },
            }
            self.c0.clear();
        }
        Ok(self.c0.insert(k, v))
    }

    /// Puts `v` under `k`. Returns whether the table in memory held the
    /// key. A full table is first written out to disk; see
    /// [`compaction`].
    pub fn insert(&mut self, fs: &mut Fs, k: String, v: String) -> (r: Result<bool, String>)
        requires
            old(fs).shared.wf(),
            old(self).wf(),
        ensures
            final(fs).shared.wf(),
            final(self).wf(),
            old(self).mem().len() < MAX_MEM_KV_NUM ==> {
                &&& r == Ok::<bool, String>(mem_get(old(self).mem(), bytes_of(k@)) is Some)
                &&& final(self).mem() == put(old(self).mem(), bytes_of(k@), Some(bytes_of(v@)))
                &&& final(self).disk() == old(self).disk()
                &&& final(fs)@ == old(fs)@
            },
            old(self).mem().len() >= MAX_MEM_KV_NUM ==> match compaction(
                old(fs)@,
                old(self).disk(),
                old(self).mem(),
            ) {
                Ok(done) => {
                    &&& r == Ok::<bool, String>(false)
                    &&& final(self).mem() == put(
                        Seq::<MemEntry>::empty(),
                        bytes_of(k@),
                        Some(bytes_of(v@)),
                    )
                    &&& final(self).disk() == done.1
                    &&& final(fs)@ == done.0
                },
                Err(failed) => {
                    &&& r is Err
                    &&& r->Err_0@ == failed.0
                    &&& final(self).mem() == old(self).mem()
                    &&& final(self).disk() == old(self).disk()
                    &&& final(fs)@ == failed.1
                },
            },
    {
        self.insert_kv(fs, k, Some(v))
    }

    /// Marks `k` as removed. Returns whether the table in memory held the
    /// key. A full table is first written out to disk; see
    /// [`compaction`].
    pub fn remove(&mut self, fs: &mut Fs, k: &str) -> (r: Result<bool, String>)
        requires
            old(fs).shared.wf(),
            old(self).wf(),
        ensures
            final(fs).shared.wf(),
            final(self).wf(),
            old(self).mem().len() < MAX_MEM_KV_NUM ==> {
                &&& r == Ok::<bool, String>(mem_get(old(self).mem(), bytes_of(k@)) is Some)
                &&& final(self).mem() == put(old(self).mem(), bytes_of(k@), None)
                &&& final(self).disk() == old(self).disk()
                &&& final(fs)@ == old(fs)@
            },
            old(self).mem().len() >= MAX_MEM_KV_NUM ==> match compaction(
                old(fs)@,
                old(self).disk(),
                old(self).mem(),
            ) {
                Ok(done) => {
                    &&& r == Ok::<bool, String>(false)
                    &&& final(self).mem() == put(Seq::<MemEntry>::empty(), bytes_of(k@), None)
                    &&& final(self).disk() == done.1
                    &&& final(fs)@ == done.0
                },
                Err(failed) => {
                    &&& r is Err
                    &&& r->Err_0@ == failed.0
                    &&& final(self).mem() == old(self).mem()
                    &&& final(self).disk() == old(self).disk()
                    &&& final(fs)@ == failed.1
                },
            },
    {
        self.insert_kv(fs, k.to_owned(), None)
    }

    /// Tells whether a search for `k` may be made: the table in memory
    /// holds `k`, or the store on disk has a block to look into.
    pub fn can_search(&self, k: &str) -> (r: bool)
        requires
            self.wf(),
        ensures
            r == (mem_get(self.mem(), bytes_of(k@)) is Some || self.disk().can_search(bytes_of(k@))),
    {
        match self.c0.get(k) {
            Some(_) => true,
            None => self.c1.block_ids.len() == 0 || self.c1.find_block(k) < self.c1.block_ids.len(),
        }
    }

    /// Looks `k` up: in the table in memory, where a key marked as
    /// removed gives `None`, and else in the store on disk.
    pub fn search(&self, fs: &Fs, k: &str) -> (r: Result<Option<String>, String>)
        requires
            fs.shared.wf(),
            self.wf(),
            mem_get(self.mem(), bytes_of(k@)) is Some || self.disk().can_search(bytes_of(k@)),
        ensures
            ({
                let found = match mem_get(self.mem(), bytes_of(k@)) {
                    Some(v) => Ok::<Option<Seq<u8>>, Seq<char>>(v),
                    None => disk_search(fs@, self.disk(), bytes_of(k@)),
                };
                match r {
                    Ok(Some(v)) => found == Ok::<Option<Seq<u8>>, Seq<char>>(Some(bytes_of(v@))),
                    Ok(None) => found == Ok::<Option<Seq<u8>>, Seq<char>>(None),
                    Err(e) => found == Err::<Option<Seq<u8>>, Seq<char>>(e@),
                }
            }),
    {
        match self.c0.get(k) {
            Some(v) => match v {
                Some(s) => Ok(Some(s.clone())),
                None => Ok(None),
            },
            None => self.c1.search(fs, k),
        }
    }
}

/// The bytes of one text in a file: its length in four bytes, then its
/// bytes.
pub open spec fn encode_text(t: Seq<u8>) -> Seq<u8> {
    spec_u32_to_le_bytes(t.len() as u32) + t
}

/// Whether a text can be written and read back: it is well-formed and its
/// length fits four bytes.
pub open spec fn fits(t: Seq<u8>) -> bool {
    valid_utf8(t) && t.len() <= u32::MAX
}

/// A text that was written is read back as it was, from a handle that
/// stands where the text begins, and the handle comes to stand where the
/// text ends.
pub proof fn lemma_text_round_trip(f: FileView, pre: Seq<u8>, t: Seq<u8>, post: Seq<u8>)
    requires
        fits(t),
        f.p == pre.len(),
        pre.len() + 4 + t.len() + post.len() <= usize::MAX,
    ensures
        encode_text(t).len() == 4 + t.len(),
        string_at(f, pre + encode_text(t) + post) == (
            FileView { p: (pre.len() + 4 + t.len()) as usize, ..f },
            Ok::<Seq<u8>, Seq<char>>(t),
        ),
{
    lemma_auto_spec_u32_to_from_le_bytes();
    let data = pre + encode_text(t) + post;
    let head = spec_u32_to_le_bytes(t.len() as u32);
    assert(head.len() == 4);
    assert(data.len() == pre.len() + 4 + t.len() + post.len());
    assert(bytes_read(f, data, 4) =~= head);
    let f1 = after_read(f, data, 4);
    assert(f1.p == pre.len() + 4);
    assert(spec_u32_from_le_bytes(head) == t.len() as u32);
    assert(bytes_read(f1, data, t.len() as int) =~= t);
}

/// A text takes four bytes more in a file than it has itself.
pub proof fn lemma_encode_text_len(t: Seq<u8>)
    ensures
        encode_text(t).len() == 4 + t.len(),
{
    lemma_auto_spec_u32_to_from_le_bytes();
}

/// At the end of a file there is no text to read.
pub proof fn lemma_text_at_end(f: FileView, data: Seq<u8>)
    requires
        f.p >= data.len(),
    ensures
        string_at(f, data).1 == Err::<Seq<u8>, Seq<char>>("EOF"@),
{
}

/// The bytes of a block are the bytes of its first entry followed by the
/// bytes of the rest.
pub proof fn lemma_encode_block_front(entries: Seq<Entry>)
    requires
        entries.len() > 0,
    ensures
        encode_block(entries) == encode_text(entries[0].0) + encode_text(entries[0].1)
            + encode_block(entries.drop_first()),
    decreases entries.len(),
{
    if entries.len() == 1 {
        assert(entries.drop_last() =~= Seq::<Entry>::empty());
        assert(entries.drop_first() =~= Seq::<Entry>::empty());
        assert(encode_block(entries) =~= encode_text(entries[0].0) + encode_text(entries[0].1)
            + encode_block(entries.drop_first()));
    } else {
        lemma_encode_block_front(entries.drop_last());
        assert(entries.drop_last().drop_first() =~= entries.drop_first().drop_last());
        assert(entries.drop_last()[0] == entries[0]);
        assert(entries.drop_first().last() == entries.last());
        assert(encode_block(entries) =~= encode_text(entries[0].0) + encode_text(entries[0].1)
            + encode_block(entries.drop_first()));
    }
}

/// Whether every key and value of `entries` can be written and read
/// back.
pub open spec fn all_fit(entries: Seq<Entry>) -> bool {
    forall|i: int| 0 <= i < entries.len() ==> fits(#[trigger] entries[i].0) && fits(entries[i].1)
}

/// Reading a block that begins with the entry `(k, v)` gives that entry
/// and then what reading on gives.
#[verifier::rlimit(80)]
#[verifier::spinoff_prover]
proof fn lemma_block_step(f: FileView, pre: Seq<u8>, k: Seq<u8>, v: Seq<u8>, tail: Seq<u8>)
    requires
        fits(k),
        fits(v),
        f.p == pre.len(),
        pre.len() + 8 + k.len() + v.len() + tail.len() <= usize::MAX,
    ensures
        ({
            let data = pre + (encode_text(k) + encode_text(v)) + tail;
            let f2 = FileView { p: (pre.len() + 8 + k.len() + v.len()) as usize, ..f };
            block_at(f, data) == match block_at(f2, data) {
                Ok(rest) => Ok::<Seq<Entry>, Seq<char>>(seq![(k, v)] + rest),
                Err(e) => Err::<Seq<Entry>, Seq<char>>(e),
            }
        }),
{
    let data = pre + (encode_text(k) + encode_text(v)) + tail;
    lemma_encode_text_len(k);
    lemma_encode_text_len(v);
    lemma_text_round_trip(f, pre, k, encode_text(v) + tail);
    assert(data =~= pre + encode_text(k) + (encode_text(v) + tail));
    let f1 = FileView { p: (pre.len() + 4 + k.len()) as usize, ..f };
    let pre1 = pre + encode_text(k);
    lemma_text_round_trip(f1, pre1, v, tail);
    assert(data =~= pre1 + encode_text(v) + tail);
    let f2 = FileView { p: (pre.len() + 8 + k.len() + v.len()) as usize, ..f };
    assert(string_at(f, data) == (f1, Ok::<Seq<u8>, Seq<char>>(k)));
    assert(string_at(f1, data) == (f2, Ok::<Seq<u8>, Seq<char>>(v)));
}

/// A block that was written is read back as it was.
pub proof fn lemma_block_round_trip(f: FileView, pre: Seq<u8>, entries: Seq<Entry>)
    requires
        all_fit(entries),
        f.p == pre.len(),
        pre.len() + encode_block(entries).len() <= usize::MAX,
    ensures
        block_at(f, pre + encode_block(entries)) == Ok::<Seq<Entry>, Seq<char>>(entries),
    decreases entries.len(),
{
    let data = pre + encode_block(entries);
    if entries.len() == 0 {
        assert(data =~= pre);
        lemma_text_at_end(f, data);
        assert(entries =~= Seq::<Entry>::empty());
    } else {
        let k = entries[0].0;
        let v = entries[0].1;
        let rest = entries.drop_first();
        lemma_encode_block_front(entries);
        let tail = encode_block(rest);
        assert(fits(k) && fits(v));
        lemma_encode_text_len(k);
        lemma_encode_text_len(v);
        let pre2 = pre + (encode_text(k) + encode_text(v));
        assert(data =~= pre2 + tail);
        lemma_block_step(f, pre, k, v, tail);
        let f2 = FileView { p: (pre.len() + 8 + k.len() + v.len()) as usize, ..f };
        assert forall|i: int| 0 <= i < rest.len() implies fits(#[trigger] rest[i].0) && fits(
            rest[i].1,
        ) by {
            assert(rest[i] == entries[i + 1]);
        }
        lemma_block_round_trip(f2, pre2, rest);
        assert(seq![(k, v)] + rest =~= entries);
    }
}

/// A block written into a file is what loading that file gives.
pub proof fn lemma_written_block_loads(fs: FsView, name: Seq<char>, entries: Seq<Entry>)
    requires
        all_fit(entries),
        fs.data.len() < usize::MAX,
        encode_block(entries).len() <= usize::MAX,
    ensures
        loaded(with_file(fs, name, encode_block(entries)), name) == Ok::<Seq<Entry>, Seq<char>>(
            entries,
        ),
{
    let after = with_file(fs, name, encode_block(entries));
    assert(after.files.contains_key(name));
    assert(file_of(after, name) == Some(encode_block(entries)));
    assert(Seq::<u8>::empty() + encode_block(entries) =~= encode_block(entries));
    lemma_block_round_trip(at_start(after.files[name]), Seq::empty(), entries);
}

} // verus!
