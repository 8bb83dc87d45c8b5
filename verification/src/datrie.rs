//! Lookup in a double-array trie.
//!
//! A state is a place in the arrays. From state `s` the byte `c` leads to
//! place `s + c + 1`, if the check array names `s` there, and the state to
//! go on from is what the base array holds at that place. A key ends in
//! state `s` when place `s` itself is checked by `s` and holds a negative
//! base.

use vstd::prelude::*;
use vstd::string::*;

verus! {

/// A double-array trie.
pub struct DATrie {
    pub base: Vec<isize>,
    pub check: Vec<isize>,
}

/// Whether place `t` is one that a byte leads to: it is checked by a state
/// before it.
pub open spec fn is_child(check: Seq<isize>, t: int) -> bool {
    0 <= check[t] < t
}

/// Whether the arrays can be walked without leaving them: they are equally
/// long, not empty, and short enough for a place plus a byte to be a
/// number; the start state and every state that a byte leads to is a place
/// in them.
pub open spec fn well_formed(base: Seq<isize>, check: Seq<isize>) -> bool {
    &&& base.len() == check.len()
    &&& 0 < base.len()
    &&& base.len() + 256 <= isize::MAX
    &&& 0 <= base[0] < base.len()
    &&& forall|t: int|
        0 <= t < base.len() && is_child(check, t) ==> 0 <= #[trigger] base[t] < base.len()
}

/// The state that byte `c` leads to from state `s`, if any.
pub open spec fn step(base: Seq<isize>, check: Seq<isize>, s: int, c: u8) -> Option<int> {
    let t = s + c + 1;
    if t < check.len() && check[t] == s {
        Some(base[t] as int)
    } else {
        None
    }
}

/// The state that the bytes `key` lead to from state `s`, if they all lead
/// somewhere.
pub open spec fn walk(base: Seq<isize>, check: Seq<isize>, s: int, key: Seq<u8>) -> Option<int>
    decreases key.len(),
{
    if key.len() == 0 {
        Some(s)
    } else {
        match walk(base, check, s, key.drop_last()) {
            Some(m) => step(base, check, m, key.last()),
            None => None,
        }
    }
}

/// Whether a key ends in state `s`.
pub open spec fn ends(base: Seq<isize>, check: Seq<isize>, s: int) -> bool {
    check[s] == s && base[s] < 0
}

/// Whether the trie holds `key`.
pub open spec fn holds(base: Seq<isize>, check: Seq<isize>, key: Seq<u8>) -> bool {
    match walk(base, check, base[0] as int, key) {
        Some(s) => ends(base, check, s),
        None => false,
    }
}

/// A walk that leads somewhere leads to a place in the arrays.
pub proof fn lemma_walk_in_range(base: Seq<isize>, check: Seq<isize>, key: Seq<u8>)
    requires
        well_formed(base, check),
    ensures
        match walk(base, check, base[0] as int, key) {
            Some(s) => 0 <= s < base.len(),
            None => true,
        },
    decreases key.len(),
{
    if key.len() > 0 {
        lemma_walk_in_range(base, check, key.drop_last());
        match walk(base, check, base[0] as int, key.drop_last()) {
            Some(m) => {
                let t = m + key.last() + 1;
                if t < check.len() && check[t] == m {
                    assert(is_child(check, t));
                }
            },
            None => {},
        }
    }
}

impl DATrie {
    /// Whether the arrays can be walked without leaving them.
    pub open spec fn wf(&self) -> bool {
        well_formed(self.base@, self.check@)
    }

    /// Tells whether the arrays can be walked without leaving them.
    pub fn is_wf(&self) -> (r: bool)
        ensures
            r == self.wf(),
    {
        let n = self.base.len();
        if n != self.check.len() || n == 0 || n > (isize::MAX as usize) - 256 {
            return false;
        }
        if self.base[0] < 0 || self.base[0] >= n as isize {
            return false;
        }
        let mut t: usize = 0;
        while t < n
            invariant
                t <= n,
                n == self.base@.len(),
                n == self.check@.len(),
                n + 256 <= isize::MAX,
                forall|j: int|
                    0 <= j < t && is_child(self.check@, j) ==> 0 <= #[trigger] self.base@[j] < n,
            decreases n - t,
        {
            if 0 <= self.check[t] && self.check[t] < t as isize {
                if self.base[t] < 0 || self.base[t] >= n as isize {
                    assert(is_child(self.check@, t as int));
                    return false;
                }
            }
            t += 1;
        }
        true
    }

    /// Tells whether the trie holds `key`.
    pub fn contains(&self, key: &str) -> (r: bool)
        requires
            self.wf(),
        ensures
            r == holds(self.base@, self.check@, key.spec_bytes()),
    {
        let bytes = key.as_bytes();
        let ghost base = self.base@;
        let ghost check = self.check@;
        let mut s: isize = self.base[0];
        let mut i: usize = 0;
        while i < bytes.len()
            invariant
                i <= bytes@.len(),
                bytes@ == key.spec_bytes(),
                base == self.base@,
                check == self.check@,
                well_formed(base, check),
                walk(base, check, base[0] as int, bytes@.subrange(0, i as int)) == Some(s as int),
                0 <= s < base.len(),
            decreases bytes@.len() - i,
        {
            let c = bytes[i];
            let t: isize = s + c as isize + 1;
            proof {
                let upto = bytes@.subrange(0, i + 1);
                assert(upto.drop_last() =~= bytes@.subrange(0, i as int));
                assert(upto.last() == c);
                lemma_walk_in_range(base, check, upto);
            }
            if t < self.check.len() as isize && self.check[t as usize] == s {
                s = self.base[t as usize];
            } else {
                proof {
                    let upto = bytes@.subrange(0, i + 1);
                    assert(step(base, check, s as int, c) is None);
                    assert(walk(base, check, base[0] as int, upto) is None);
                    lemma_walk_none(base, check, bytes@, i + 1);
                }
                return false;
            }
            i += 1;
        }
        assert(bytes@.subrange(0, i as int) =~= bytes@);
        let end = self.base[s as usize];
        self.check[s as usize] == s && end < 0
    }
}

/// A walk that is stuck after some of the bytes is stuck after all of
/// them.
pub proof fn lemma_walk_none(base: Seq<isize>, check: Seq<isize>, key: Seq<u8>, i: int)
    requires
        0 <= i <= key.len(),
        walk(base, check, base[0] as int, key.subrange(0, i)) is None,
    ensures
        walk(base, check, base[0] as int, key) is None,
    decreases key.len() - i,
{
    if i < key.len() {
        assert(key.subrange(0, i + 1).drop_last() =~= key.subrange(0, i));
        lemma_walk_none(base, check, key, i + 1);
    } else {
        assert(key.subrange(0, i) =~= key);
    }
}

} // verus!
