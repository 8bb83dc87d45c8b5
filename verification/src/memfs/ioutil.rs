//! Reading and writing numbers and texts, as they are laid out in files:
//! numbers little-endian, a text as its length in four bytes followed by
//! its bytes.

use crate::memfs::bytes_of;
use crate::memfs::min_of;
use crate::memfs::File;
use crate::memfs::FileView;
use crate::memfs::FsImpl;
use vstd::bytes::spec_u32_from_le_bytes;
use vstd::bytes::spec_u32_to_le_bytes;
use vstd::bytes::spec_u64_from_le_bytes;
use vstd::bytes::spec_u64_to_le_bytes;
use vstd::bytes::u32_from_le_bytes;
use vstd::bytes::u32_to_le_bytes;
use vstd::bytes::u64_from_le_bytes;
use vstd::bytes::u64_to_le_bytes;
use vstd::prelude::*;
use vstd::slice::slice_subrange;
use vstd::string::*;
use vstd::utf8::*;

verus! {

/// How many bytes a read of `want` bytes gets at handle `f` from a file
/// that holds `data`.
pub open spec fn got(f: FileView, data: Seq<u8>, want: int) -> int {
    min_of(want, data.len() - f.start(data.len() as int))
}

/// The handle after a read of `want` bytes.
pub open spec fn after_read(f: FileView, data: Seq<u8>, want: int) -> FileView {
    FileView { p: (f.start(data.len() as int) + got(f, data, want)) as usize, ..f }
}

/// The bytes that a read of `want` bytes gets.
pub open spec fn bytes_read(f: FileView, data: Seq<u8>, want: int) -> Seq<u8> {
    data.subrange(f.start(data.len() as int), f.start(data.len() as int) + got(f, data, want))
}

/// The error of a read that has to get exactly `want` bytes, if it fails:
/// `"EOF"` when it gets nothing, `"unexpected EOF"` when it gets too little.
pub open spec fn read_error(f: FileView, data: Seq<u8>, want: int) -> Option<Seq<char>> {
    if got(f, data, want) == want {
        None
    } else if got(f, data, want) == 0 {
        Some("EOF"@)
    } else {
        Some("unexpected EOF"@)
    }
}

/// The message that the standard library gives for bytes that are no
/// well-formed text.
pub uninterp spec fn utf8_error_text(bytes: Seq<u8>) -> Seq<char>;

/// `String::from_utf8`, with its error turned into the error's message.
/// Bytes that are well-formed UTF-8 give the text with exactly those bytes;
/// any others give the message that the standard library has for them.
#[verifier::external_body]
fn string_from_utf8(bytes: Vec<u8>) -> (r: Result<String, String>)
    ensures
        match r {
            Ok(s) => valid_utf8(bytes@) && bytes_of(s@) == bytes@,
            Err(e) => !valid_utf8(bytes@) && e@ == utf8_error_text(bytes@),
        },
{
    match String::from_utf8(bytes) {
        Ok(s) => Ok(s),
        Err(e) => Err(e.to_string()),
    }
}

/// `core::str::from_utf8`: the bytes as a text, when they are well-formed
/// UTF-8, else nothing.
#[verifier::external_body]
fn str_from_utf8(bytes: &[u8]) -> (r: Option<&str>)
    ensures
        match r {
            Some(s) => valid_utf8(bytes@) && bytes_of(s@) == bytes@,
            None => !valid_utf8(bytes@),
        },
{
    core::str::from_utf8(bytes).ok()
}

/// A buffer of `n` zero bytes.
fn zeros(n: usize) -> (v: Vec<u8>)
    ensures
        v@.len() == n,
{
    let mut v: Vec<u8> = Vec::new();
    let mut i: usize = 0;
    while i < n
        invariant
            i <= n,
            v@.len() == i,
        decreases n - i,
    {
        v.push(0u8);
        i += 1;
    }
    v
}

/// Reads one byte.
pub fn read_u8(f: &mut File, fs: &FsImpl) -> (r: Result<u8, String>)
    requires
        fs@.holds(old(f)@),
    ensures
        final(f)@ == after_read(old(f)@, fs@.contents(old(f)@), 1),
        match r {
            Ok(x) => read_error(old(f)@, fs@.contents(old(f)@), 1) is None && x == bytes_read(
                old(f)@,
                fs@.contents(old(f)@),
                1,
            )[0],
            Err(e) => read_error(old(f)@, fs@.contents(old(f)@), 1) == Some(e@),
        },
{
    let mut fixed = zeros(1);
    match f.read_exact(fs, fixed.as_mut_slice()) {
        Ok(_) => {
            assert(fixed@ =~= bytes_read(old(f)@, fs@.contents(old(f)@), 1));
            Ok(fixed[0])
        },
        Err(e) => Err(e),
    }
}

/// Reads a little-endian `u32`.
pub fn read_u32(f: &mut File, fs: &FsImpl) -> (r: Result<u32, String>)
    requires
        fs@.holds(old(f)@),
    ensures
        final(f)@ == after_read(old(f)@, fs@.contents(old(f)@), 4),
        match r {
            Ok(x) => read_error(old(f)@, fs@.contents(old(f)@), 4) is None && x
                == spec_u32_from_le_bytes(bytes_read(old(f)@, fs@.contents(old(f)@), 4)),
            Err(e) => read_error(old(f)@, fs@.contents(old(f)@), 4) == Some(e@),
        },
{
    let mut fixed = zeros(4);
    match f.read_exact(fs, fixed.as_mut_slice()) {
        Ok(_) => {
            assert(fixed@ =~= bytes_read(old(f)@, fs@.contents(old(f)@), 4));
            Ok(u32_from_le_bytes(fixed.as_slice()))
        },
        Err(e) => Err(e),
    }
}

/// Reads a little-endian `u64`.
pub fn read_u64(f: &mut File, fs: &FsImpl) -> (r: Result<u64, String>)
    requires
        fs@.holds(old(f)@),
    ensures
        final(f)@ == after_read(old(f)@, fs@.contents(old(f)@), 8),
        match r {
            Ok(x) => read_error(old(f)@, fs@.contents(old(f)@), 8) is None && x
                == spec_u64_from_le_bytes(bytes_read(old(f)@, fs@.contents(old(f)@), 8)),
            Err(e) => read_error(old(f)@, fs@.contents(old(f)@), 8) == Some(e@),
        },
{
    let mut fixed = zeros(8);
    match f.read_exact(fs, fixed.as_mut_slice()) {
        Ok(_) => {
            assert(fixed@ =~= bytes_read(old(f)@, fs@.contents(old(f)@), 8));
            Ok(u64_from_le_bytes(fixed.as_slice()))
        },
        Err(e) => Err(e),
    }
}

/// What reading a text at handle `f` gives: the handle afterwards, and the
/// bytes of the text or the error. The length is read first; when that
/// fails nothing more is read. Then as many bytes as the length says are
/// read; they must all be there and be well-formed UTF-8.
pub open spec fn string_at(f: FileView, data: Seq<u8>) -> (FileView, Result<Seq<u8>, Seq<char>>) {
    let f1 = after_read(f, data, 4);
    match read_error(f, data, 4) {
        Some(e) => (f1, Err(e)),
        None => {
            let n = spec_u32_from_le_bytes(bytes_read(f, data, 4)) as int;
            let f2 = after_read(f1, data, n);
            match read_error(f1, data, n) {
                Some(e) => (f2, Err(e)),
                None => {
                    let bytes = bytes_read(f1, data, n);
                    if valid_utf8(bytes) {
                        (f2, Ok(bytes))
                    } else {
                        (f2, Err(utf8_error_text(bytes)))
                    }
                },
            }
        },
    }
}

/// Reads a text: its length as a `u32`, then its bytes.
pub fn read_string(f: &mut File, fs: &FsImpl) -> (r: Result<String, String>)
    requires
        fs@.holds(old(f)@),
    ensures
        final(f)@ == string_at(old(f)@, fs@.contents(old(f)@)).0,
        match r {
            Ok(s) => string_at(old(f)@, fs@.contents(old(f)@)).1 == Ok::<Seq<u8>, Seq<char>>(
                bytes_of(s@),
            ),
            Err(e) => string_at(old(f)@, fs@.contents(old(f)@)).1 == Err::<Seq<u8>, Seq<char>>(
                e@,
            ),
        },
{
    let n = match read_u32(f, fs) {
        Ok(n) => n as usize,
        Err(e) => {
            return Err(e);
        },
    };
    let ghost f1 = f@;
    let mut buf = zeros(n);
    match f.read_exact(fs, buf.as_mut_slice()) {
        Ok(_) => {},
        Err(e) => {
            return Err(e);
        },
    }
    assert(buf@ =~= bytes_read(f1, fs@.contents(old(f)@), n as int));
    string_from_utf8(buf)
}

/// Appends one byte.
pub fn write_u8(d: &mut Vec<u8>, x: u8)
    ensures
        final(d)@ == old(d)@.push(x),
{
    d.push(x);
}

/// Appends the bytes of `buf`.
fn write_bytes(d: &mut Vec<u8>, buf: &[u8])
    ensures
        final(d)@ == old(d)@ + buf@,
{
    let mut i: usize = 0;
    while i < buf.len()
        invariant
            i <= buf@.len(),
            d@ == old(d)@ + buf@.subrange(0, i as int),
        decreases buf@.len() - i,
    {
        d.push(buf[i]);
        assert(buf@.subrange(0, i + 1) =~= buf@.subrange(0, i as int).push(buf@[i as int]));
        i += 1;
    }
    assert(buf@.subrange(0, i as int) =~= buf@);
}

/// Appends a `u32`, little-endian.
pub fn write_u32(d: &mut Vec<u8>, x: u32)
    ensures
        final(d)@ == old(d)@ + spec_u32_to_le_bytes(x),
{
    let buf = u32_to_le_bytes(x);
    write_bytes(d, buf.as_slice());
}

/// Appends a `u64`, little-endian.
pub fn write_u64(d: &mut Vec<u8>, x: u64)
    ensures
        final(d)@ == old(d)@ + spec_u64_to_le_bytes(x),
{
    let buf = u64_to_le_bytes(x);
    write_bytes(d, buf.as_slice());
}

/// Appends a text: its length in bytes as a `u32` (the low 32 bits of it,
/// should it be longer), then its bytes.
pub fn write_str(d: &mut Vec<u8>, s: &str)
    ensures
        final(d)@ == old(d)@ + spec_u32_to_le_bytes(bytes_of(s@).len() as u32) + bytes_of(s@),
{
    let bytes = s.as_bytes();
    let n = bytes.len();
    write_u32(d, #[verifier::truncate] (n as u32));
    write_bytes(d, bytes);
}

/// Reads the little-endian `u32` at the start of `d`.
pub fn read_buf_u32(d: &[u8]) -> (x: u32)
    requires
        d@.len() >= 4,
    ensures
        x == spec_u32_from_le_bytes(d@.subrange(0, 4)),
{
    u32_from_le_bytes(slice_subrange(d, 0, 4))
}

/// Reads the text at the start of `d`: its length as a `u32`, then its
/// bytes, which must all be there and be well-formed UTF-8.
pub fn read_buf_str(d: &[u8]) -> (s: &str)
    requires
        d@.len() >= 4,
        4 + spec_u32_from_le_bytes(d@.subrange(0, 4)) <= d@.len(),
        valid_utf8(d@.subrange(4, 4 + spec_u32_from_le_bytes(d@.subrange(0, 4)))),
    ensures
        bytes_of(s@) == d@.subrange(4, 4 + spec_u32_from_le_bytes(d@.subrange(0, 4))),
{
    let len = d.len();
    let n = read_buf_u32(d) as usize;
    str_from_utf8(slice_subrange(d, 4, 4 + n)).unwrap()
}

} // verus!

verus! {

/// The parts put together, first to last.
pub open spec fn joined(parts: Seq<Seq<u8>>) -> Seq<u8>
    decreases parts.len(),
{
    if parts.len() == 0 {
        Seq::empty()
    } else {
        joined(parts.drop_last()) + parts.last()
    }
}

/// Whether `parts` holds, for each item of `a`, bytes that `w` may give
/// for it.
pub open spec fn written_by<T, W: Fn(&T) -> Vec<u8>>(w: W, a: Seq<T>, parts: Seq<Seq<u8>>) -> bool {
    &&& parts.len() == a.len()
    &&& forall|i: int|
        0 <= i < a.len() ==> exists|v: Vec<u8>|
            v@ == #[trigger] parts[i] && call_ensures(w, (&a[i],), v)
}

/// Appends a list: its length as a `u32` (the low 32 bits of it, should it
/// be longer), then what `w` gives for each item, in order.
pub fn write_slice<T, W>(d: &mut Vec<u8>, a: &[T], w: W) where W: Fn(&T) -> Vec<u8>
    requires
        forall|i: int| 0 <= i < a@.len() ==> call_requires(w, (&#[trigger] a@[i],)),
    ensures
        exists|parts: Seq<Seq<u8>>|
            written_by(w, a@, parts) && final(d)@ == old(d)@ + spec_u32_to_le_bytes(
                a@.len() as u32,
            ) + #[trigger] joined(parts),
{
    let len = a.len();
    write_u32(d, #[verifier::truncate] (len as u32));
    let ghost head = d@;
    let ghost mut parts: Seq<Seq<u8>> = Seq::empty();
    let mut i: usize = 0;
    while i < len
        invariant
            i <= len,
            len == a@.len(),
            forall|j: int| 0 <= j < a@.len() ==> call_requires(w, (&#[trigger] a@[j],)),
            head == old(d)@ + spec_u32_to_le_bytes(a@.len() as u32),
            parts.len() == i,
            forall|j: int|
                0 <= j < i ==> exists|v: Vec<u8>|
                    v@ == #[trigger] parts[j] && call_ensures(w, (&a@[j],), v),
            d@ == head + joined(parts),
        decreases len - i,
    {
        let bytes = w(&a[i]);
        write_bytes(d, bytes.as_slice());
        proof {
            let grown = parts.push(bytes@);
            assert(grown.drop_last() =~= parts);
            assert forall|j: int| 0 <= j < i + 1 implies exists|v: Vec<u8>|
                v@ == #[trigger] grown[j] && call_ensures(w, (&a@[j],), v) by {
                if j < i {
                    let v = choose|v: Vec<u8>| v@ == parts[j] && call_ensures(w, (&a@[j],), v);
                    assert(v@ == grown[j]);
                } else {
                    assert(bytes@ == grown[j]);
                }
            }
            assert(d@ =~= head + joined(grown));
            parts = grown;
        }
        i += 1;
    }
    proof {
        assert(written_by(w, a@, parts));
    }
}

/// Whether reading on from handle `start` with `r` may give the items of
/// `items` from place `i` on, one after the other, and leave the handle
/// as `end`.
pub open spec fn reads_on<T, R: Fn(File, &FsImpl) -> (File, Result<T, String>)>(
    r: R,
    fs: &FsImpl,
    start: File,
    items: Seq<T>,
    i: int,
    end: FileView,
) -> bool
    decreases items.len() - i,
{
    if i >= items.len() {
        start@ == end
    } else {
        exists|mid: File| #[trigger]
            call_ensures(r, (start, fs), (mid, Ok::<T, String>(items[i]))) && reads_on(
                r,
                fs,
                mid,
                items,
                i + 1,
                end,
            )
    }
}

/// Reads a list: its length as a `u32`, then that many items, each read by
/// `r`, which is handed the handle and hands it back. The first failure,
/// of reading the length or of `r`, ends the reading and is returned.
pub fn read_vec<T, R>(f: &mut File, fs: &FsImpl, r: R) -> (res: Result<Vec<T>, String>) where
    R: Fn(File, &FsImpl) -> (File, Result<T, String>),

    requires
        fs@.holds(old(f)@),
        forall|file: File| fs@.holds(file@) ==> call_requires(r, (file, fs)),
        forall|file: File, out: (File, Result<T, String>)|
            fs@.holds(file@) && #[trigger] call_ensures(r, (file, fs), out) ==> fs@.holds(out.0@),
    ensures
        match res {
            Ok(items) => {
                &&& read_error(old(f)@, fs@.contents(old(f)@), 4) is None
                &&& items@.len() == spec_u32_from_le_bytes(
                    bytes_read(old(f)@, fs@.contents(old(f)@), 4),
                )
                &&& exists|start: File|
                    start@ == after_read(old(f)@, fs@.contents(old(f)@), 4) && #[trigger] reads_on(
                        r,
                        fs,
                        start,
                        items@,
                        0,
                        final(f)@,
                    )
            },
            Err(e) => {
                ||| read_error(old(f)@, fs@.contents(old(f)@), 4) == Some(e@) && final(f)@
                    == after_read(old(f)@, fs@.contents(old(f)@), 4)
                ||| read_error(old(f)@, fs@.contents(old(f)@), 4) is None && exists|
                    start: File,
                    items: Seq<T>,
                    last: File,
                    end: File,
                |
                    {
                        &&& start@ == after_read(old(f)@, fs@.contents(old(f)@), 4)
                        &&& items.len() < spec_u32_from_le_bytes(
                            bytes_read(old(f)@, fs@.contents(old(f)@), 4),
                        )
                        &&& #[trigger] reads_on(r, fs, start, items, 0, last@)
                        &&& #[trigger] call_ensures(r, (last, fs), (end, Err::<T, String>(e)))
                        &&& end@ == final(f)@
                    }
            },
        },
{
    let n = match read_u32(f, fs) {
        Ok(n) => n as usize,
        Err(e) => {
            return Err(e);
        },
    };
    let ghost start = *f;
    let mut a: Vec<T> = Vec::new();
    let mut i: usize = 0;
    while i < n
        invariant
            i <= n,
            a@.len() == i,
            fs@.holds(f@),
            start@ == after_read(old(f)@, fs@.contents(old(f)@), 4),
            read_error(old(f)@, fs@.contents(old(f)@), 4) is None,
            n == spec_u32_from_le_bytes(bytes_read(old(f)@, fs@.contents(old(f)@), 4)),
            forall|file: File| fs@.holds(file@) ==> call_requires(r, (file, fs)),
            forall|file: File, out: (File, Result<T, String>)|
                fs@.holds(file@) && #[trigger] call_ensures(r, (file, fs), out) ==> fs@.holds(
                    out.0@,
                ),
            forall|items: Seq<T>, end: FileView|
                i <= items.len() && a@ == items.subrange(0, i as int) && #[trigger] reads_on(
                    r,
                    fs,
                    *f,
                    items,
                    i as int,
                    end,
                ) ==> reads_on(r, fs, start, items, 0, end),
        decreases n - i,
    {
        let ghost before = *f;
        let ghost had = a@;
        let (next, item) = r(f.duplicate(), fs);
        let ghost got = item;
        *f = next;
        match item {
            Ok(x) => {
                a.push(x);
                proof {
                    assert(call_ensures(r, (before, fs), (*f, Ok::<T, String>(x))));
                    assert forall|items: Seq<T>, end: FileView|
                        i + 1 <= items.len() && a@ == items.subrange(0, i + 1)
                            && #[trigger] reads_on(r, fs, *f, items, i + 1, end) implies reads_on(
                        r,
                        fs,
                        start,
                        items,
                        0,
                        end,
                    ) by {
                        assert(items.subrange(0, i + 1)[i as int] == items[i as int]);
                        assert(items[i as int] == x);
                        assert(had =~= items.subrange(0, i as int));
                        assert(reads_on(r, fs, before, items, i as int, end));
                    }
                }
            },
            Err(e) => {
                proof {
                    assert(had =~= had.subrange(0, i as int));
                    assert(reads_on(r, fs, before, had, i as int, before@));
                    assert(reads_on(r, fs, start, had, 0, before@));
                    assert(call_ensures(r, (before, fs), (*f, Err::<T, String>(e))));
                }
                return Err(e);
            },
        }
        i += 1;
    }
    proof {
        assert(a@ =~= a@.subrange(0, i as int));
        assert(reads_on(r, fs, *f, a@, i as int, f@));
        assert(reads_on(r, fs, start, a@, 0, f@));
        assert(start@ == after_read(old(f)@, fs@.contents(old(f)@), 4));
    }
    Ok(a)
}

} // verus!
