//! A file system kept in memory: named files, each a run of bytes, reached
//! through handles that carry a read/write position.
//!
//! A file lives as long as the file system does. Creating over a name, or
//! removing it, unlinks the name; handles opened before keep working on the
//! file they were opened on.

pub mod ioutil;

use vstd::prelude::*;
use vstd::string::*;
use vstd::utf8::*;

verus! {

/// Where a seek counts from.
pub enum Whence {
    /// From the current position.
    Cur(isize),
    /// From the start of the file.
    Start(isize),
    /// From the end of the file.
    End(isize),
}

/// How two byte strings stand to each other in dictionary order.
pub enum Order {
    Less,
    Equal,
    Greater,
}

/// Whether `a` and `b` agree on their first `k` bytes and `a` is the lesser
/// from there: it ends at `k` while `b` goes on, or has the lesser byte.
pub open spec fn differs_at(a: Seq<u8>, b: Seq<u8>, k: int) -> bool {
    &&& 0 <= k <= a.len()
    &&& k < b.len()
    &&& a.subrange(0, k) == b.subrange(0, k)
    &&& (k == a.len() || a[k] < b[k])
}

/// Dictionary order on byte strings, strict.
pub open spec fn lex_lt(a: Seq<u8>, b: Seq<u8>) -> bool {
    exists|k: int| differs_at(a, b, k)
}

/// Whether `s` begins with `p`.
pub open spec fn is_prefix(p: Seq<u8>, s: Seq<u8>) -> bool {
    p.len() <= s.len() && s.subrange(0, p.len() as int) == p
}

/// Of two byte strings at most one comes before the other, and then they
/// differ.
pub proof fn lemma_lex_asymmetric(a: Seq<u8>, b: Seq<u8>)
    requires
        lex_lt(a, b),
    ensures
        !lex_lt(b, a),
        a != b,
{
    let k = choose|k: int| differs_at(a, b, k);
    if a == b {
        assert(a[k] < b[k] || k == a.len());
    }
    if lex_lt(b, a) {
        let m = choose|m: int| differs_at(b, a, m);
        if k < m {
            assert(b.subrange(0, m)[k] == a.subrange(0, m)[k]);
        } else if m < k {
            assert(a.subrange(0, k)[m] == b.subrange(0, k)[m]);
        }
    }
}

/// Dictionary order is transitive.
pub proof fn lemma_lex_transitive(a: Seq<u8>, b: Seq<u8>, c: Seq<u8>)
    requires
        lex_lt(a, b),
        lex_lt(b, c),
    ensures
        lex_lt(a, c),
{
    let k = choose|k: int| differs_at(a, b, k);
    let m = choose|m: int| differs_at(b, c, m);
    if k <= m {
        assert(a.subrange(0, k) =~= c.subrange(0, k)) by {
            assert forall|i: int| 0 <= i < k implies a[i] == c[i] by {
                assert(a.subrange(0, k)[i] == b.subrange(0, k)[i]);
                assert(b.subrange(0, m)[i] == c.subrange(0, m)[i]);
            }
        }
        if k < m {
            assert(b.subrange(0, m)[k] == c.subrange(0, m)[k]);
        }
        assert(differs_at(a, c, k));
    } else {
        assert(a.subrange(0, m) =~= c.subrange(0, m)) by {
            assert forall|i: int| 0 <= i < m implies a[i] == c[i] by {
                assert(a.subrange(0, k)[i] == b.subrange(0, k)[i]);
                assert(b.subrange(0, m)[i] == c.subrange(0, m)[i]);
            }
        }
        assert(a.subrange(0, k)[m] == b.subrange(0, k)[m]);
        assert(differs_at(a, c, m));
    }
}

/// Compares two byte strings in dictionary order.
pub fn compare(a: &[u8], b: &[u8]) -> (r: Order)
    ensures
        (r is Less) == lex_lt(a@, b@),
        (r is Equal) == (a@ == b@),
        (r is Greater) == lex_lt(b@, a@),
{
    let mut i: usize = 0;
    while i < a.len() && i < b.len()
        invariant
            i <= a@.len(),
            i <= b@.len(),
            a@.subrange(0, i as int) == b@.subrange(0, i as int),
        decreases a@.len() - i,
    {
        if a[i] < b[i] {
            proof {
                assert(differs_at(a@, b@, i as int));
                lemma_lex_asymmetric(a@, b@);
            }
            return Order::Less;
        }
        if a[i] > b[i] {
            proof {
                assert(differs_at(b@, a@, i as int));
                lemma_lex_asymmetric(b@, a@);
            }
            return Order::Greater;
        }
        assert(a@.subrange(0, i + 1) =~= a@.subrange(0, i as int).push(a@[i as int]));
        assert(b@.subrange(0, i + 1) =~= b@.subrange(0, i as int).push(b@[i as int]));
        i += 1;
    }
    if i < b.len() {
        proof {
            assert(differs_at(a@, b@, i as int));
            lemma_lex_asymmetric(a@, b@);
        }
        Order::Less
    } else if i < a.len() {
        proof {
            assert(differs_at(b@, a@, i as int));
            lemma_lex_asymmetric(b@, a@);
        }
        Order::Greater
    } else {
        proof {
            assert(a@ =~= a@.subrange(0, i as int));
            assert(b@ =~= b@.subrange(0, i as int));
            if lex_lt(a@, b@) {
                lemma_lex_asymmetric(a@, b@);
            }
            if lex_lt(b@, a@) {
                lemma_lex_asymmetric(b@, a@);
            }
        }
        Order::Equal
    }
}

/// Tells whether `s` begins with `p`.
pub fn starts_with(s: &[u8], p: &[u8]) -> (r: bool)
    ensures
        r == is_prefix(p@, s@),
{
    if p.len() > s.len() {
        return false;
    }
    let mut i: usize = 0;
    while i < p.len()
        invariant
            i <= p@.len() <= s@.len(),
            s@.subrange(0, i as int) == p@.subrange(0, i as int),
        decreases p@.len() - i,
    {
        if s[i] != p[i] {
            assert(s@.subrange(0, p@.len() as int)[i as int] != p@[i as int]);
            return false;
        }
        assert(s@.subrange(0, i + 1) =~= s@.subrange(0, i as int).push(s@[i as int]));
        assert(p@.subrange(0, i + 1) =~= p@.subrange(0, i as int).push(p@[i as int]));
        i += 1;
    }
    assert(p@.subrange(0, i as int) =~= p@);
    true
}

/// Whether `i` is the first place at or after `from` where `s` holds `b`.
pub open spec fn first_from(s: Seq<u8>, from: int, b: u8, i: int) -> bool {
    &&& from <= i < s.len()
    &&& s[i] == b
    &&& forall|j: int| from <= j < i ==> s[j] != b
}

/// Whether `s` holds no `b` at or after `from`.
pub open spec fn none_from(s: Seq<u8>, from: int, b: u8) -> bool {
    forall|j: int| from <= j < s.len() ==> s[j] != b
}

/// Finds the first `b` in `s` at or after `from`.
pub fn find_from(s: &[u8], from: usize, b: u8) -> (r: Option<usize>)
    ensures
        match r {
            Some(i) => first_from(s@, from as int, b, i as int),
            None => none_from(s@, from as int, b),
        },
{
    let mut i = from;
    while i < s.len()
        invariant
            from <= i,
            forall|j: int| from <= j < i && j < s@.len() ==> s@[j] != b,
        decreases s@.len() - i,
    {
        if s[i] == b {
            return Some(i);
        }
        i += 1;
    }
    None
}

/// The bytes of a name.
pub open spec fn bytes_of(name: Seq<char>) -> Seq<u8> {
    encode_utf8(name)
}

/// Names with the same bytes are the same name.
pub proof fn lemma_bytes_of_injective(a: Seq<char>, b: Seq<char>)
    requires
        bytes_of(a) == bytes_of(b),
    ensures
        a == b,
{
    encode_utf8_decode_utf8(a);
    encode_utf8_decode_utf8(b);
}

/// The contents of one file.
pub struct FileInner {
    data: Vec<u8>,
}

/// A handle on a file: which file, the position of the next read or write,
/// and whether every write goes to the end.
pub struct File {
    inode: usize,
    p: usize,
    append_only: bool,
}

/// A [`File`] as a mathematical value.
pub struct FileView {
    pub inode: usize,
    pub p: usize,
    pub append_only: bool,
}

impl View for File {
    type V = FileView;

    closed spec fn view(&self) -> FileView {
        FileView { inode: self.inode, p: self.p, append_only: self.append_only }
    }
}

/// The file system: which name leads to which file, and what every file
/// ever created holds.
pub struct FsImpl {
    names: Vec<String>,
    links: Vec<usize>,
    inodes: Vec<FileInner>,
}

/// A [`FsImpl`] as a mathematical value.
pub struct FsView {
    /// The file that each name leads to.
    pub files: Map<Seq<char>, usize>,
    /// The contents of every file ever created, by file number.
    pub data: Seq<Seq<u8>>,
}

/// Whether `names` holds `name` at place `i`.
pub open spec fn named_at(names: Seq<String>, name: Seq<char>, i: int) -> bool {
    0 <= i < names.len() && names[i]@ == name
}

/// The map from the names in `names` to the file numbers in `links`.
pub open spec fn links_of(names: Seq<String>, links: Seq<usize>) -> Map<Seq<char>, usize> {
    Map::new(
        |name: Seq<char>| exists|i: int| named_at(names, name, i),
        |name: Seq<char>| links[choose|i: int| named_at(names, name, i)],
    )
}

/// Whether `names` stands in strict dictionary order of its bytes.
pub open spec fn sorted_names(names: Seq<String>) -> bool {
    forall|i: int, j: int|
        0 <= i < j < names.len() ==> lex_lt(bytes_of(names[i]@), bytes_of(names[j]@))
}

/// In a sorted list a name stands at one place only.
pub proof fn lemma_sorted_names_distinct(names: Seq<String>, i: int, j: int)
    requires
        sorted_names(names),
        0 <= i < names.len(),
        0 <= j < names.len(),
        names[i]@ == names[j]@,
    ensures
        i == j,
{
    if i < j {
        lemma_lex_asymmetric(bytes_of(names[i]@), bytes_of(names[j]@));
    } else if j < i {
        lemma_lex_asymmetric(bytes_of(names[j]@), bytes_of(names[i]@));
    }
}

/// Finds where `name` stands in the sorted list `names`, or where it would
/// have to be put.
pub(crate) fn locate(names: &Vec<String>, name: &str) -> (r: (usize, bool))
    requires
        sorted_names(names@),
    ensures
        r.0 <= names@.len(),
        r.1 ==> named_at(names@, name@, r.0 as int),
        !r.1 ==> forall|i: int| !named_at(names@, name@, i),
        forall|i: int| 0 <= i < r.0 ==> lex_lt(bytes_of(names@[i]@), bytes_of(name@)),
        forall|i: int|
            r.0 <= i < names@.len() && !named_at(names@, name@, i) ==> lex_lt(
                bytes_of(name@),
                bytes_of(names@[i]@),
            ),
{
    let key = name.as_bytes();
    let mut i: usize = 0;
    while i < names.len()
        invariant
            i <= names@.len(),
            key@ == bytes_of(name@),
            sorted_names(names@),
            forall|k: int| 0 <= k < i ==> lex_lt(bytes_of(names@[k]@), bytes_of(name@)),
        decreases names@.len() - i,
    {
        match compare(names[i].as_str().as_bytes(), key) {
            Order::Less => {},
            Order::Equal => {
                proof {
                    lemma_bytes_of_injective(names@[i as int]@, name@);
                    assert forall|k: int|
                        i <= k < names@.len() && !named_at(names@, name@, k) implies lex_lt(
                        bytes_of(name@),
                        bytes_of(names@[k]@),
                    ) by {
                        assert(k > i);
                    }
                }
                return (i, true);
            },
            Order::Greater => {
                proof {
                    assert forall|k: int| i <= k < names@.len() implies lex_lt(
                        bytes_of(name@),
                        bytes_of(names@[k]@),
                    ) by {
                        if k > i {
                            lemma_lex_transitive(
                                bytes_of(name@),
                                bytes_of(names@[i as int]@),
                                bytes_of(names@[k]@),
                            );
                        }
                    }
                    assert forall|k: int| !named_at(names@, name@, k) by {
                        if named_at(names@, name@, k) {
                            if k < i {
                                lemma_lex_asymmetric(bytes_of(names@[k]@), bytes_of(name@));
                            } else {
                                lemma_lex_asymmetric(bytes_of(name@), bytes_of(names@[k]@));
                            }
                        }
                    }
                }
                return (i, false);
            },
        }
        i += 1;
    }
    proof {
        assert forall|k: int| !named_at(names@, name@, k) by {
            if named_at(names@, name@, k) {
                lemma_lex_asymmetric(bytes_of(names@[k]@), bytes_of(name@));
            }
        }
    }
    (i, false)
}

impl View for FsImpl {
    type V = FsView;

    closed spec fn view(&self) -> FsView {
        FsView {
            files: links_of(self.names@, self.links@),
            data: self.inodes@.map_values(|f: FileInner| f.data@),
        }
    }
}

impl FsView {
    /// Every name leads to a file that exists.
    pub open spec fn wf(self) -> bool {
        forall|name: Seq<char>| #[trigger]
            self.files.contains_key(name) ==> self.files[name] < self.data.len()
    }

    /// Whether `f` is a handle on a file of this file system.
    pub open spec fn holds(self, f: FileView) -> bool {
        f.inode < self.data.len()
    }

    /// The contents of the file that `f` is a handle on.
    pub open spec fn contents(self, f: FileView) -> Seq<u8> {
        self.data[f.inode as int]
    }

    /// This file system with the contents of file `f` replaced.
    pub open spec fn with_contents(self, f: FileView, bytes: Seq<u8>) -> FsView {
        FsView { files: self.files, data: self.data.update(f.inode as int, bytes) }
    }
}

impl FsImpl {
    /// The names are kept in order, each with its link, and every link
    /// leads to a file that exists.
    pub closed spec fn wf(&self) -> bool {
        &&& self.names@.len() == self.links@.len()
        &&& sorted_names(self.names@)
        &&& forall|i: int| 0 <= i < self.links@.len() ==> self.links@[i] < self.inodes@.len()
    }

    /// A well-formed file system has a well-formed view.
    pub proof fn lemma_view_wf(&self)
        requires
            self.wf(),
        ensures
            self@.wf(),
    {
        assert forall|name: Seq<char>| #[trigger]
            self@.files.contains_key(name) implies self@.files[name] < self@.data.len() by {
            let i = choose|i: int| named_at(self.names@, name, i);
            assert(named_at(self.names@, name, i));
        }
    }

    /// A file system without files.
    pub fn new() -> (fs: Self)
        ensures
            fs.wf(),
            fs@.files == Map::<Seq<char>, usize>::empty(),
            fs@.data == Seq::<Seq<u8>>::empty(),
    {
        let fs = FsImpl { names: Vec::new(), links: Vec::new(), inodes: Vec::new() };
        assert(fs@.files =~= Map::<Seq<char>, usize>::empty()) by {
            assert forall|name: Seq<char>| !fs@.files.contains_key(name) by {
                if fs@.files.contains_key(name) {
                    let i = choose|i: int| named_at(fs.names@, name, i);
                    assert(named_at(fs.names@, name, i));
                }
            }
        }
        assert(fs@.data =~= Seq::<Seq<u8>>::empty());
        fs
    }

    /// Opens the file that `name` leads to, at its start.
    pub fn open(&self, name: &str, append_only: bool) -> (r: Result<File, String>)
        requires
            self.wf(),
        ensures
            match r {
                Ok(f) => self@.files.contains_key(name@) && f@ == (FileView {
                    inode: self@.files[name@],
                    p: 0,
                    append_only,
                }) && self@.holds(f@),
                Err(e) => !self@.files.contains_key(name@) && e@ == "no such file"@,
            },
    {
        let (i, found) = locate(&self.names, name);
        if found {
            proof {
                let c = choose|c: int| named_at(self.names@, name@, c);
                lemma_sorted_names_distinct(self.names@, i as int, c);
            }
            Ok(File { inode: self.links[i], p: 0, append_only })
        } else {
            Err("no such file".to_owned())
        }
    }

    /// Makes `name` lead to a new, empty file and opens it. Refuses a name
    /// that is taken unless `overwrite` is set.
    pub fn create(&mut self, name: &str, overwrite: bool) -> (r: Result<File, String>)
        requires
            old(self).wf(),
        ensures
            final(self).wf(),
            match r {
                Ok(f) => {
                    &&& !old(self)@.files.contains_key(name@) || overwrite
                    &&& f@ == (FileView {
                        inode: old(self)@.data.len() as usize,
                        p: 0,
                        append_only: false,
                    })
                    &&& f@.inode == old(self)@.data.len()
                    &&& final(self)@.files == old(self)@.files.insert(name@, f@.inode)
                    &&& final(self)@.data == old(self)@.data.push(Seq::empty())
                },
                Err(e) => {
                    &&& old(self)@.files.contains_key(name@) && !overwrite
                    &&& e@ == "file existed"@
                    &&& final(self)@ == old(self)@
                },
            },
    {
        let (i, found) = locate(&self.names, name);
        if found && !overwrite {
            return Err("file existed".to_owned());
        }
        let id = self.inodes.len();
        self.inodes.push(FileInner { data: Vec::new() });
        if found {
            self.links[i] = id;
        } else {
            self.names.insert(i, name.to_owned());
            self.links.insert(i, id);
        }
        proof {
            let old_names = old(self).names@;
            let old_links = old(self).links@;
            assert(sorted_names(self.names@)) by {
                assert forall|a: int, b: int| 0 <= a < b < self.names@.len() implies lex_lt(
                    bytes_of(self.names@[a]@),
                    bytes_of(self.names@[b]@),
                ) by {
                    if !found {
                        let a0 = if a < i { a } else { a - 1 };
                        let b0 = if b < i { b } else { b - 1 };
                        if a != i && b != i {
                            assert(self.names@[a] == old_names[a0]);
                            assert(self.names@[b] == old_names[b0]);
                        } else if a == i {
                            assert(self.names@[b] == old_names[b0]);
                            assert(!named_at(old_names, name@, b0));
                        } else {
                            assert(self.names@[a] == old_names[a0]);
                        }
                    }
                }
            }
            assert(self@.data =~= old(self)@.data.push(Seq::empty()));
            assert(self@.files =~= old(self)@.files.insert(name@, id)) by {
                assert forall|k: Seq<char>|
                    self@.files.contains_key(k) == old(self)@.files.insert(
                        name@,
                        id,
                    ).contains_key(k) by {
                    if self@.files.contains_key(k) {
                        let c = choose|c: int| named_at(self.names@, k, c);
                        if k != name@ {
                            if found {
                                assert(named_at(old_names, k, c));
                            } else {
                                assert(c != i);
                                let c0 = if c < i { c } else { c - 1 };
                                assert(named_at(old_names, k, c0));
                            }
                        }
                    }
                    if old(self)@.files.insert(name@, id).contains_key(k) {
                        if k == name@ {
                            assert(named_at(self.names@, k, i as int));
                        } else {
                            let c = choose|c: int| named_at(old_names, k, c);
                            if found {
                                assert(named_at(self.names@, k, c));
                            } else {
                                let c1 = if c < i { c } else { c + 1 };
                                assert(named_at(self.names@, k, c1));
                            }
                        }
                    }
                }
                assert forall|k: Seq<char>| self@.files.contains_key(k) implies self@.files[k]
                    == old(self)@.files.insert(name@, id)[k] by {
                    let c = choose|c: int| named_at(self.names@, k, c);
                    if k == name@ {
                        lemma_sorted_names_distinct(self.names@, c, i as int);
                    } else {
                        let d = choose|d: int| named_at(old_names, k, d);
                        if found {
                            assert(named_at(old_names, k, c));
                            lemma_sorted_names_distinct(old_names, c, d);
                        } else {
                            assert(c != i);
                            let c0 = if c < i { c } else { c - 1 };
                            assert(named_at(old_names, k, c0));
                            lemma_sorted_names_distinct(old_names, c0, d);
                        }
                    }
                }
            }
        }
        Ok(File { inode: id, p: 0, append_only: false })
    }

    /// Tells whether `name` leads to a file.
    pub fn exist(&self, name: &str) -> (r: bool)
        requires
            self.wf(),
        ensures
            r == self@.files.contains_key(name@),
    {
        let (i, found) = locate(&self.names, name);
        found
    }

    /// Unlinks `name`. The file it led to stays reachable through the
    /// handles opened on it.
    pub fn rm(&mut self, name: &str)
        requires
            old(self).wf(),
        ensures
            final(self).wf(),
            final(self)@.files == old(self)@.files.remove(name@),
            final(self)@.data == old(self)@.data,
    {
        let (i, found) = locate(&self.names, name);
        if found {
            self.names.remove(i);
            self.links.remove(i);
        }
        proof {
            let old_names = old(self).names@;
            assert(sorted_names(self.names@)) by {
                assert forall|a: int, b: int| 0 <= a < b < self.names@.len() implies lex_lt(
                    bytes_of(self.names@[a]@),
                    bytes_of(self.names@[b]@),
                ) by {
                    if found {
                        let a0 = if a < i { a } else { a + 1 };
                        let b0 = if b < i { b } else { b + 1 };
                        assert(self.names@[a] == old_names[a0]);
                        assert(self.names@[b] == old_names[b0]);
                    }
                }
            }
            assert(self@.data =~= old(self)@.data);
            assert(self@.files =~= old(self)@.files.remove(name@)) by {
                assert forall|k: Seq<char>|
                    self@.files.contains_key(k) == old(self)@.files.remove(name@).contains_key(
                        k,
                    ) by {
                    if self@.files.contains_key(k) {
                        let c = choose|c: int| named_at(self.names@, k, c);
                        if found {
                            let c0 = if c < i { c } else { c + 1 };
                            assert(named_at(old_names, k, c0));
                            if k == name@ {
                                lemma_sorted_names_distinct(old_names, c0, i as int);
                            }
                        } else {
                            assert(named_at(old_names, k, c));
                        }
                    }
                    if old(self)@.files.remove(name@).contains_key(k) {
                        let c = choose|c: int| named_at(old_names, k, c);
                        if found {
                            assert(c != i);
                            let c1 = if c < i { c } else { c - 1 };
                            assert(named_at(self.names@, k, c1));
                        } else {
                            assert(named_at(self.names@, k, c));
                        }
                    }
                }
                assert forall|k: Seq<char>| self@.files.contains_key(k) implies self@.files[k]
                    == old(self)@.files.remove(name@)[k] by {
                    let c = choose|c: int| named_at(self.names@, k, c);
                    let d = choose|d: int| named_at(old_names, k, d);
                    if found {
                        let c0 = if c < i { c } else { c + 1 };
                        assert(named_at(old_names, k, c0));
                        lemma_sorted_names_distinct(old_names, c0, d);
                    } else {
                        assert(named_at(old_names, k, c));
                        lemma_sorted_names_distinct(old_names, c, d);
                    }
                }
            }
        }
    }
}

/// The lesser of two numbers.
pub open spec fn min_of(a: int, b: int) -> int {
    if a <= b {
        a
    } else {
        b
    }
}

/// `x` brought into the range from `lo` to `hi`.
pub open spec fn clamp(x: int, lo: int, hi: int) -> int {
    if x < lo {
        lo
    } else if x > hi {
        hi
    } else {
        x
    }
}

/// Appends `buf` to `v`.
fn append_bytes(v: &mut Vec<u8>, buf: &[u8])
    ensures
        final(v)@ == old(v)@ + buf@,
{
    let mut i: usize = 0;
    while i < buf.len()
        invariant
            i <= buf@.len(),
            v@ == old(v)@ + buf@.subrange(0, i as int),
        decreases buf@.len() - i,
    {
        v.push(buf[i]);
        assert(buf@.subrange(0, i + 1) =~= buf@.subrange(0, i as int).push(buf@[i as int]));
        i += 1;
    }
    assert(buf@.subrange(0, i as int) =~= buf@);
}

impl FileView {
    /// Where a read or write starts in a file of `len` bytes: at the
    /// position, or at the end when the position lies past it.
    pub open spec fn start(self, len: int) -> int {
        min_of(self.p as int, len)
    }

    /// The place that a seek aims at in a file of `len` bytes, before it is
    /// brought into the file.
    pub open spec fn target(self, len: int, whence: Whence) -> int {
        match whence {
            Whence::Cur(offs) => self.start(len) + offs,
            Whence::Start(offs) => offs as int,
            Whence::End(offs) => len + offs,
        }
    }

    /// What a write of `buf` at this handle makes of the contents `data`.
    pub open spec fn written(self, data: Seq<u8>, buf: Seq<u8>) -> Seq<u8> {
        if self.append_only {
            data + buf
        } else if buf.len() == 0 {
            data
        } else {
            data.subrange(0, self.start(data.len() as int)) + buf
        }
    }

    /// Whether a write of `len` bytes at this handle is one that the file
    /// takes: it goes to the end, or it replaces exactly what follows the
    /// position.
    pub open spec fn can_write(self, data: Seq<u8>, len: int) -> bool {
        self.append_only || len == 0 || self.start(data.len() as int) == data.len() || len
            == data.len() - self.start(data.len() as int)
    }
}

impl File {
    /// Reads into `buf` from the position on, as far as the file and `buf`
    /// go, and moves the position past what was read. Returns the number of
    /// bytes read.
    pub fn read(&mut self, fs: &FsImpl, buf: &mut [u8]) -> (n: usize)
        requires
            fs@.holds(old(self)@),
        ensures
            ({
                let data = fs@.contents(old(self)@);
                let start = old(self)@.start(data.len() as int);
                &&& n == min_of(old(buf)@.len() as int, data.len() - start)
                &&& final(self)@ == (FileView { p: (start + n) as usize, ..old(self)@ })
                &&& final(buf)@ == data.subrange(start, start + n) + old(buf)@.subrange(
                    n as int,
                    old(buf)@.len() as int,
                )
            }),
    {
        let data = &fs.inodes[self.inode].data;
        let start = if self.p < data.len() {
            self.p
        } else {
            data.len()
        };
        self.p = start;
        let room = data.len() - start;
        let n = if buf.len() < room {
            buf.len()
        } else {
            room
        };
        let mut k: usize = 0;
        while k < n
            invariant
                k <= n,
                start + n <= data@.len() <= usize::MAX,
                n <= buf@.len(),
                buf@.len() == old(buf)@.len(),
                buf@ == data@.subrange(start as int, start + k) + old(buf)@.subrange(
                    k as int,
                    old(buf)@.len() as int,
                ),
            decreases n - k,
        {
            buf[k] = data[start + k];
            assert(buf@ =~= data@.subrange(start as int, start + k + 1) + old(buf)@.subrange(
                k + 1,
                old(buf)@.len() as int,
            ));
            k += 1;
        }
        self.p = start + n;
        n
    }

    /// Reads exactly as many bytes as `buf` holds, or fails: with `"EOF"`
    /// when nothing could be read, with `"unexpected EOF"` when the file
    /// ended part of the way. The position moves as in [`File::read`].
    pub fn read_exact(&mut self, fs: &FsImpl, buf: &mut [u8]) -> (r: Result<(), String>)
        requires
            fs@.holds(old(self)@),
        ensures
            ({
                let data = fs@.contents(old(self)@);
                let start = old(self)@.start(data.len() as int);
                let n = min_of(old(buf)@.len() as int, data.len() - start);
                &&& final(self)@ == (FileView { p: (start + n) as usize, ..old(self)@ })
                &&& final(buf)@ == data.subrange(start, start + n) + old(buf)@.subrange(
                    n,
                    old(buf)@.len() as int,
                )
                &&& match r {
                    Ok(_) => n == old(buf)@.len(),
                    Err(e) => n != old(buf)@.len() && e@ == (if n == 0 {
                        "EOF"@
                    } else {
                        "unexpected EOF"@
                    }),
                }
            }),
    {
        let want = buf.len();
        let n = self.read(fs, buf);
        if n == want {
            Ok(())
        } else {
            if n == 0 {
                Err("EOF".to_owned())
            } else {
                Err("unexpected EOF".to_owned())
            }
        }
    }

    /// Adds `buf` to the end of the file. The position stays.
    pub fn append(&self, fs: &mut FsImpl, buf: &[u8])
        requires
            old(fs).wf(),
            old(fs)@.holds(self@),
        ensures
            final(fs).wf(),
            final(fs)@ == old(fs)@.with_contents(self@, old(fs)@.contents(self@) + buf@),
    {
        append_bytes(&mut fs.inodes[self.inode].data, buf);
        proof {
            assert(fs@.data =~= old(fs)@.data.update(
                self.inode as int,
                old(fs)@.contents(self@) + buf@,
            ));
        }
    }

    /// Writes `buf`. On a handle opened for appending it goes to the end
    /// and the position stays. Otherwise it goes to the position (the end,
    /// when the position lies past it), takes the place of what followed,
    /// and the position moves past it.
    pub fn write(&mut self, fs: &mut FsImpl, buf: &[u8])
        requires
            old(fs).wf(),
            old(fs)@.holds(old(self)@),
            old(self)@.can_write(old(fs)@.contents(old(self)@), buf@.len() as int),
        ensures
            final(fs).wf(),
            final(fs)@ == old(fs)@.with_contents(
                old(self)@,
                old(self)@.written(old(fs)@.contents(old(self)@), buf@),
            ),
            final(self)@ == (if old(self)@.append_only {
                old(self)@
            } else {
                FileView {
                    p: (old(self)@.start(old(fs)@.contents(old(self)@).len() as int)
                        + buf@.len()) as usize,
                    ..old(self)@
                }
            }),
    {
        if self.append_only {
            self.append(fs, buf);
        } else {
            let len = fs.inodes[self.inode].data.len();
            let start = if self.p < len {
                self.p
            } else {
                len
            };
            self.p = start;
            if buf.len() > 0 {
                fs.inodes[self.inode].data.truncate(start);
                append_bytes(&mut fs.inodes[self.inode].data, buf);
            }
            proof {
                assert(fs@.data =~= old(fs)@.data.update(
                    self.inode as int,
                    old(self)@.written(old(fs)@.contents(old(self)@), buf@),
                ));
            }
            let end = fs.inodes[self.inode].data.len();
            self.p = if buf.len() > 0 {
                end
            } else {
                start
            };
        }
    }

    /// Moves the position to the place that `whence` names, brought into
    /// the file, and returns it.
    pub fn seek(&mut self, fs: &FsImpl, whence: Whence) -> (p: usize)
        requires
            fs@.holds(old(self)@),
            fs@.contents(old(self)@).len() <= isize::MAX,
            isize::MIN <= old(self)@.target(fs@.contents(old(self)@).len() as int, whence)
                <= isize::MAX,
        ensures
            p == clamp(
                old(self)@.target(fs@.contents(old(self)@).len() as int, whence),
                0,
                fs@.contents(old(self)@).len() as int,
            ),
            final(self)@ == (FileView { p, ..old(self)@ }),
    {
        let len = fs.inodes[self.inode].data.len();
        let start = if self.p < len {
            self.p
        } else {
            len
        };
        let mut p: isize = start as isize;
        match whence {
            Whence::Cur(offs) => {
                p = p + offs;
            },
            Whence::Start(offs) => {
                p = offs;
            },
            Whence::End(offs) => {
                p = len as isize + offs;
            },
        }
        if p < 0 {
            p = 0;
        } else if p > len as isize {
            p = len as isize;
        }
        self.p = p as usize;
        self.p
    }

    /// Cuts the file down to `n` bytes, if it is longer, and moves the
    /// position to its end.
    pub fn truncate(&mut self, fs: &mut FsImpl, n: usize)
        requires
            old(fs).wf(),
            old(fs)@.holds(old(self)@),
        ensures
            final(fs).wf(),
            ({
                let data = old(fs)@.contents(old(self)@);
                let m = min_of(data.len() as int, n as int);
                &&& final(fs)@ == old(fs)@.with_contents(old(self)@, data.subrange(0, m))
                &&& final(self)@ == (FileView { p: m as usize, ..old(self)@ })
            }),
    {
        let len = fs.inodes[self.inode].data.len();
        let m = if len < n {
            len
        } else {
            n
        };
        fs.inodes[self.inode].data.truncate(m);
        self.p = m;
        proof {
            let data = old(fs)@.contents(old(self)@);
            assert(fs@.data =~= old(fs)@.data.update(self.inode as int, data.subrange(0, m as int)));
        }
    }

    /// A second handle on the same file, at the same position.
    pub fn duplicate(&self) -> (f: File)
        ensures
            f == *self,
    {
        File { inode: self.inode, p: self.p, append_only: self.append_only }
    }

    /// The length of the file.
    pub fn size(&self, fs: &FsImpl) -> (n: usize)
        requires
            fs@.holds(self@),
        ensures
            n == fs@.contents(self@).len(),
    {
        fs.inodes[self.inode].data.len()
    }
}

/// The byte `'/'`, which parts the components of a path.
pub const SLASH: u8 = 47;

/// In well-formed text the place after an ASCII byte starts a character.
pub proof fn lemma_boundary_after_ascii(bytes: Seq<u8>, i: int)
    requires
        valid_utf8(bytes),
        0 <= i < bytes.len(),
        bytes[i] <= 0x7f,
    ensures
        is_char_boundary(bytes, i + 1),
    decreases bytes.len(),
{
    reveal_with_fuel(is_char_boundary, 2);
    reveal_with_fuel(valid_utf8, 2);
    let n = length_of_first_scalar(bytes);
    let rest = pop_first_scalar(bytes);
    if i < n {
        assert(i == 0 && n == 1);
        assert(is_char_boundary(rest, 0));
    } else {
        assert(rest[i - n] == bytes[i]);
        lemma_boundary_after_ascii(rest, i - n);
    }
}

/// The bytes of two texts put together are the bytes of the one followed
/// by the bytes of the other.
pub proof fn lemma_bytes_of_concat(a: Seq<char>, b: Seq<char>)
    ensures
        bytes_of(a + b) == bytes_of(a) + bytes_of(b),
    decreases a.len(),
{
    if a.len() == 0 {
        assert(a + b =~= b);
        assert(bytes_of(a) =~= Seq::<u8>::empty());
        assert(bytes_of(a) + bytes_of(b) =~= bytes_of(b));
    } else {
        lemma_bytes_of_concat(a.drop_first(), b);
        assert((a + b).drop_first() =~= a.drop_first() + b);
        assert((a + b)[0] == a[0]);
        assert(bytes_of(a + b) =~= bytes_of(a) + bytes_of(b));
    }
}

/// The first `k` bytes of `s` as a text of their own. The cut falls right
/// after an ASCII byte, so it parts no character.
fn prefix_of(s: &str, k: usize) -> (r: String)
    requires
        0 < k <= bytes_of(s@).len(),
        bytes_of(s@)[k - 1] <= 0x7f,
    ensures
        bytes_of(r@) == bytes_of(s@).subrange(0, k as int),
{
    proof {
        encode_utf8_valid_utf8(s@);
        lemma_boundary_after_ascii(bytes_of(s@), k - 1);
    }
    let (head, _) = s.split_at(k);
    head.to_owned()
}

/// The entry that a name yields in a listing of `path`: the name itself in
/// a listing of everything below, else the name up to and with the first
/// `'/'` after `path`, or the whole name when there is none.
pub open spec fn entry_of(name: Seq<u8>, path: Seq<u8>, rec: bool) -> Seq<u8> {
    if !rec && exists|i: int| first_from(name, path.len() as int, 47, i) {
        name.subrange(0, (choose|i: int| first_from(name, path.len() as int, 47, i)) + 1)
    } else {
        name
    }
}

/// Whether the entries hold `e`.
pub open spec fn lists(entries: Seq<String>, e: Seq<u8>) -> bool {
    exists|k: int| 0 <= k < entries.len() && bytes_of(#[trigger] entries[k]@) == e
}

/// Whether one of the first `upto` names begins with `path` and yields the
/// entry `e`.
pub open spec fn yields(names: Seq<String>, upto: int, path: Seq<u8>, rec: bool, e: Seq<u8>) -> bool {
    exists|j: int|
        0 <= j < upto && is_prefix(path, bytes_of(#[trigger] names[j]@)) && entry_of(
            bytes_of(names[j]@),
            path,
            rec,
        ) == e
}

/// Puts `e` into the sorted list `entries` unless it is there already.
fn insert_sorted(entries: &mut Vec<String>, e: String)
    requires
        sorted_names(old(entries)@),
    ensures
        sorted_names(final(entries)@),
        forall|x: Seq<u8>|
            lists(final(entries)@, x) <==> (lists(old(entries)@, x) || x == bytes_of(e@)),
{
    let (i, found) = locate(entries, e.as_str());
    let ghost before = entries@;
    if !found {
        entries.insert(i, e);
        proof {
            assert forall|a: int, b: int| 0 <= a < b < entries@.len() implies lex_lt(
                bytes_of(entries@[a]@),
                bytes_of(entries@[b]@),
            ) by {
                let a0 = if a < i { a } else { a - 1 };
                let b0 = if b < i { b } else { b - 1 };
                if a != i && b != i {
                    assert(entries@[a] == before[a0]);
                    assert(entries@[b] == before[b0]);
                } else if a == i {
                    assert(entries@[b] == before[b0]);
                    assert(!named_at(before, e@, b0));
                } else {
                    assert(entries@[a] == before[a0]);
                }
            }
        }
    }
    proof {
        assert forall|x: Seq<u8>|
            lists(entries@, x) <==> (lists(before, x) || x == bytes_of(e@)) by {
            if lists(entries@, x) {
                let k = choose|k: int| 0 <= k < entries@.len() && bytes_of(entries@[k]@) == x;
                if !found && k != i {
                    let k0 = if k < i { k } else { k - 1 };
                    assert(bytes_of(before[k0]@) == x);
                }
            }
            if lists(before, x) {
                let k = choose|k: int| 0 <= k < before.len() && bytes_of(before[k]@) == x;
                if !found {
                    let k1 = if k < i { k } else { k + 1 };
                    assert(bytes_of(entries@[k1]@) == x);
                }
            }
            if x == bytes_of(e@) {
                assert(bytes_of(entries@[i as int]@) == x);
            }
        }
    }
}

impl FsImpl {
    /// Whether some name that begins with `path` yields the entry `e`.
    pub closed spec fn has_entry(&self, path: Seq<char>, rec: bool, e: Seq<u8>) -> bool {
        yields(self.names@, self.names@.len() as int, bytes_of(path), rec, e)
    }

    /// An entry is had exactly when a linked name that begins with `path`
    /// yields it.
    pub proof fn lemma_has_entry(&self, path: Seq<char>, rec: bool, e: Seq<u8>)
        ensures
            self.has_entry(path, rec, e) <==> exists|name: Seq<char>| #[trigger]
                self@.files.contains_key(name) && is_prefix(bytes_of(path), bytes_of(name))
                    && entry_of(bytes_of(name), bytes_of(path), rec) == e,
    {
        let names = self.names@;
        if self.has_entry(path, rec, e) {
            let j = choose|j: int|
                0 <= j < names.len() && is_prefix(bytes_of(path), bytes_of(#[trigger] names[j]@))
                    && entry_of(bytes_of(names[j]@), bytes_of(path), rec) == e;
            assert(named_at(names, names[j]@, j));
            assert(self@.files.contains_key(names[j]@));
        }
        if exists|name: Seq<char>| #[trigger]
            self@.files.contains_key(name) && is_prefix(bytes_of(path), bytes_of(name))
                && entry_of(bytes_of(name), bytes_of(path), rec) == e {
            let name = choose|name: Seq<char>| #[trigger]
                self@.files.contains_key(name) && is_prefix(bytes_of(path), bytes_of(name))
                    && entry_of(bytes_of(name), bytes_of(path), rec) == e;
            let j = choose|j: int| named_at(names, name, j);
            assert(named_at(names, name, j));
            assert(is_prefix(bytes_of(path), bytes_of(names[j]@)));
        }
    }

    /// Lists what lies below `path`, in dictionary order, each entry once.
    /// With `rec` the entries are the names that begin with `path`. Without
    /// it a name that goes on past a `'/'` after `path` stands for the
    /// directory it lies in: the name up to and with that `'/'`.
    pub fn ls(&self, path: &str, rec: bool) -> (entries: Vec<String>)
        requires
            self.wf(),
        ensures
            sorted_names(entries@),
            forall|e: Seq<u8>| lists(entries@, e) <==> self.has_entry(path@, rec, e),
    {
        let mut entries: Vec<String> = Vec::new();
        let prefix = path.as_bytes();
        let mut i: usize = 0;
        while i < self.names.len()
            invariant
                i <= self.names@.len(),
                prefix@ == bytes_of(path@),
                sorted_names(entries@),
                forall|e: Seq<u8>|
                    lists(entries@, e) <==> yields(self.names@, i as int, prefix@, rec, e),
            decreases self.names@.len() - i,
        {
            let name = &self.names[i];
            let bytes = name.as_str().as_bytes();
            let len = bytes.len();
            let ghost before = entries@;
            if starts_with(bytes, prefix) {
                let entry = if rec {
                    name.clone()
                } else {
                    match find_from(bytes, prefix.len(), SLASH) {
                        Some(p) => {
                            proof {
                                let c = choose|c: int|
                                    first_from(bytes@, prefix@.len() as int, 47, c);
                                if c < p {
                                    assert(bytes@[c] != 47);
                                } else if p < c {
                                    assert(bytes@[p as int] != 47);
                                }
                            }
                            assert(p < len);
                            prefix_of(name.as_str(), p + 1)
                        },
                        None => {
                            proof {
                                if exists|c: int| first_from(bytes@, prefix@.len() as int, 47, c) {
                                    let c = choose|c: int|
                                        first_from(bytes@, prefix@.len() as int, 47, c);
                                    assert(bytes@[c] != 47);
                                }
                            }
                            name.clone()
                        },
                    }
                };
                assert(bytes_of(entry@) == entry_of(bytes@, prefix@, rec));
                insert_sorted(&mut entries, entry);
            }
            proof {
                let names = self.names@;
                assert forall|e: Seq<u8>|
                    lists(entries@, e) <==> yields(names, i + 1, prefix@, rec, e) by {
                    if yields(names, i + 1, prefix@, rec, e) {
                        let j = choose|j: int|
                            0 <= j < i + 1 && is_prefix(prefix@, bytes_of(#[trigger] names[j]@))
                                && entry_of(bytes_of(names[j]@), prefix@, rec) == e;
                        if j < i {
                            assert(yields(names, i as int, prefix@, rec, e));
                        }
                    }
                    if yields(names, i as int, prefix@, rec, e) {
                        let j = choose|j: int|
                            0 <= j < i && is_prefix(prefix@, bytes_of(#[trigger] names[j]@))
                                && entry_of(bytes_of(names[j]@), prefix@, rec) == e;
                        assert(0 <= j < i + 1);
                    }
                    if is_prefix(prefix@, bytes@) && e == entry_of(bytes@, prefix@, rec) {
                        assert(is_prefix(prefix@, bytes_of(names[i as int]@)));
                    }
                }
            }
            i += 1;
        }
        entries
    }
}

/// How many bytes of `s` are left once the `'/'` at its end are taken off.
pub open spec fn is_trimmed_end(s: Seq<u8>, e: int) -> bool {
    &&& 0 <= e <= s.len()
    &&& forall|j: int| e <= j < s.len() ==> s[j] == 47
    &&& (e == 0 || s[e - 1] != 47)
}

/// How many `'/'` stand at the start of `s`.
pub open spec fn is_trimmed_start(s: Seq<u8>, b: int) -> bool {
    &&& 0 <= b <= s.len()
    &&& forall|j: int| 0 <= j < b ==> s[j] == 47
    &&& (b == s.len() || s[b] != 47)
}

/// `s` without the `'/'` at its end.
pub open spec fn trim_end(s: Seq<u8>) -> Seq<u8> {
    s.subrange(0, choose|e: int| is_trimmed_end(s, e))
}

/// `s` without the `'/'` at its start.
pub open spec fn trim_start(s: Seq<u8>) -> Seq<u8> {
    s.subrange(choose|b: int| is_trimmed_start(s, b), s.len() as int)
}

/// There is one place only where the `'/'` at the end of `s` begin.
pub proof fn lemma_trim_end_unique(s: Seq<u8>, e: int)
    requires
        is_trimmed_end(s, e),
    ensures
        trim_end(s) == s.subrange(0, e),
{
    let c = choose|c: int| is_trimmed_end(s, c);
    if c < e {
        assert(s[e - 1] == 47);
    } else if e < c {
        assert(s[c - 1] == 47);
    }
}

/// There is one place only where the `'/'` at the start of `s` end.
pub proof fn lemma_trim_start_unique(s: Seq<u8>, b: int)
    requires
        is_trimmed_start(s, b),
    ensures
        trim_start(s) == s.subrange(b, s.len() as int),
{
    let c = choose|c: int| is_trimmed_start(s, c);
    if c < b {
        assert(s[c] == 47);
    } else if b < c {
        assert(s[b] == 47);
    }
}

/// The file system that a program's parts share.
pub struct Fs {
    pub shared: FsImpl,
}

impl View for Fs {
    type V = FsView;

    open spec fn view(&self) -> FsView {
        self.shared@
    }
}

impl Fs {
    /// A file system without files.
    pub fn new() -> (fs: Self)
        ensures
            fs.shared.wf(),
            fs@.files == Map::<Seq<char>, usize>::empty(),
            fs@.data == Seq::<Seq<u8>>::empty(),
    {
        Fs { shared: FsImpl::new() }
    }

    /// Opens the file that `name` leads to; see [`FsImpl::open`].
    pub fn open(&self, name: &str, append_only: bool) -> (r: Result<File, String>)
        requires
            self.shared.wf(),
        ensures
            match r {
                Ok(f) => self@.files.contains_key(name@) && f@ == (FileView {
                    inode: self@.files[name@],
                    p: 0,
                    append_only,
                }) && self@.holds(f@),
                Err(e) => !self@.files.contains_key(name@) && e@ == "no such file"@,
            },
    {
        self.shared.open(name, append_only)
    }

    /// Makes `name` lead to a new, empty file; see [`FsImpl::create`].
    pub fn create(&mut self, name: &str, overwrite: bool) -> (r: Result<File, String>)
        requires
            old(self).shared.wf(),
        ensures
            final(self).shared.wf(),
            match r {
                Ok(f) => {
                    &&& !old(self)@.files.contains_key(name@) || overwrite
                    &&& f@ == (FileView {
                        inode: old(self)@.data.len() as usize,
                        p: 0,
                        append_only: false,
                    })
                    &&& f@.inode == old(self)@.data.len()
                    &&& final(self)@.files == old(self)@.files.insert(name@, f@.inode)
                    &&& final(self)@.data == old(self)@.data.push(Seq::empty())
                },
                Err(e) => {
                    &&& old(self)@.files.contains_key(name@) && !overwrite
                    &&& e@ == "file existed"@
                    &&& final(self)@ == old(self)@
                },
            },
    {
        self.shared.create(name, overwrite)
    }

    /// Tells whether `name` leads to a file.
    pub fn exist(&self, name: &str) -> (r: bool)
        requires
            self.shared.wf(),
        ensures
            r == self@.files.contains_key(name@),
    {
        self.shared.exist(name)
    }

    /// Lists what lies below `path`; see [`FsImpl::ls`].
    pub fn ls(&self, path: &str, rec: bool) -> (entries: Vec<String>)
        requires
            self.shared.wf(),
        ensures
            sorted_names(entries@),
            forall|e: Seq<u8>| lists(entries@, e) <==> self.shared.has_entry(path@, rec, e),
    {
        self.shared.ls(path, rec)
    }

    /// Joins two parts of a path with exactly one `'/'` between them: `a`
    /// without the `'/'` at its end, a `'/'`, and `b` without the `'/'` at
    /// its start.
    pub fn join(a: &str, b: &str) -> (p: String)
        ensures
            bytes_of(p@) == trim_end(bytes_of(a@)) + seq![47u8] + trim_start(bytes_of(b@)),
    {
        let head_bytes = a.as_bytes();
        let mut e: usize = head_bytes.len();
        while e > 0 && head_bytes[e - 1] == SLASH
            invariant
                e <= head_bytes@.len(),
                forall|j: int| e <= j < head_bytes@.len() ==> head_bytes@[j] == 47,
            decreases e,
        {
            e -= 1;
        }
        let tail_bytes = b.as_bytes();
        let mut s: usize = 0;
        while s < tail_bytes.len() && tail_bytes[s] == SLASH
            invariant
                s <= tail_bytes@.len(),
                forall|j: int| 0 <= j < s ==> tail_bytes@[j] == 47,
            decreases tail_bytes@.len() - s,
        {
            s += 1;
        }
        proof {
            encode_utf8_valid_utf8(a@);
            encode_utf8_valid_utf8(b@);
            is_char_boundary_start_end_of_seq(bytes_of(a@));
            is_char_boundary_start_end_of_seq(bytes_of(b@));
            if e < head_bytes@.len() {
                is_char_boundary_iff_is_leading_byte(bytes_of(a@), e as int);
            }
            if 0 < s {
                lemma_boundary_after_ascii(bytes_of(b@), s - 1);
            }
            lemma_trim_end_unique(bytes_of(a@), e as int);
            lemma_trim_start_unique(bytes_of(b@), s as int);
        }
        let (head, _) = a.split_at(e);
        let (_, tail) = b.split_at(s);
        let mut p = String::new();
        p.append(head);
        p.append("/");
        p.append(tail);
        proof {
            reveal_strlit("/");
            let slash = "/"@;
            assert(slash.len() == 1 && slash[0] == '/');
            assert(bytes_of(slash) =~= seq![47u8]) by {
                assert(is_ascii_chars(slash));
                is_ascii_chars_encode_utf8(slash);
            }
            assert(p@ =~= (head@ + slash) + tail@);
            lemma_bytes_of_concat(head@ + slash, tail@);
            lemma_bytes_of_concat(head@, slash);
        }
        p
    }
}

} // verus!
