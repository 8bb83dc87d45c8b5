//! Unsigned integers as decimal text, the form in which ballot counters are
//! kept on stable storage.

use vstd::prelude::*;

verus! {

/// The byte `'0'`.
pub const ZERO: u8 = 48;

/// The byte `'+'`.
pub const PLUS: u8 = 43;

/// Whether `b` is one of the bytes `'0'` to `'9'`.
pub open spec fn is_digit(b: u8) -> bool {
    48 <= b <= 57
}

/// Whether every byte of `s` is a decimal digit.
pub open spec fn all_digits(s: Seq<u8>) -> bool {
    forall|i: int| 0 <= i < s.len() ==> is_digit(#[trigger] s[i])
}

/// The shortest decimal text of `n`: no sign, no leading zero but for zero
/// itself.
pub open spec fn digits_of(n: nat) -> Seq<u8>
    decreases n,
{
    if n < 10 {
        seq![(48 + n) as u8]
    } else {
        digits_of(n / 10).push((48 + n % 10) as u8)
    }
}

/// The number that a run of decimal digits denotes, most significant first.
pub open spec fn value_of(s: Seq<u8>) -> nat
    decreases s.len(),
{
    if s.len() == 0 {
        0
    } else {
        value_of(s.drop_last()) * 10 + (s.last() - 48) as nat
    }
}

/// The text left once one leading `'+'` is taken off.
pub open spec fn unsigned_part(s: Seq<u8>) -> Seq<u8> {
    if s.len() > 0 && s[0] == 43 {
        s.subrange(1, s.len() as int)
    } else {
        s
    }
}

/// What reading `s` as a `u64` gives: an optional `'+'`, then one or more
/// digits and nothing else, denoting a number that fits. Anything else is
/// `None`.
pub open spec fn parsed(s: Seq<u8>) -> Option<u64> {
    let body = unsigned_part(s);
    if body.len() > 0 && all_digits(body) && value_of(body) <= u64::MAX {
        Some(value_of(body) as u64)
    } else {
        None
    }
}

/// What reading `s` gives when unreadable text counts as zero.
pub open spec fn parsed_or_zero(s: Seq<u8>) -> u64 {
    match parsed(s) {
        Some(n) => n,
        None => 0,
    }
}

/// A run of digits denotes at least as much as any of its prefixes.
pub proof fn lemma_value_of_prefix(s: Seq<u8>, k: int)
    requires
        all_digits(s),
        0 <= k <= s.len(),
    ensures
        value_of(s.subrange(0, k)) <= value_of(s),
    decreases s.len(),
{
    if k == s.len() {
        assert(s.subrange(0, k) =~= s);
    } else {
        lemma_value_of_prefix(s.drop_last(), k);
        assert(s.drop_last().subrange(0, k) =~= s.subrange(0, k));
    }
}

/// The decimal text of a number is made of digits only, and denotes that
/// number.
pub proof fn lemma_digits_of(n: nat)
    ensures
        digits_of(n).len() > 0,
        all_digits(digits_of(n)),
        value_of(digits_of(n)) == n,
    decreases n,
{
    if n < 10 {
        let s = digits_of(n);
        assert(s.drop_last() =~= Seq::<u8>::empty());
        assert(value_of(s.drop_last()) == 0);
    } else {
        lemma_digits_of(n / 10);
        let s = digits_of(n);
        assert(s.drop_last() =~= digits_of(n / 10));
        assert(s.last() == (48 + n % 10) as u8);
    }
}

/// Writing a `u64` and reading the text back gives the same number.
pub proof fn lemma_parse_format(n: u64)
    ensures
        parsed(digits_of(n as nat)) == Some(n),
        parsed_or_zero(digits_of(n as nat)) == n,
{
    lemma_digits_of(n as nat);
    let s = digits_of(n as nat);
    assert(is_digit(s[0]));
    assert(unsigned_part(s) == s);
}

/// Writes `n` in decimal.
pub fn format_u64(n: u64) -> (text: Vec<u8>)
    ensures
        text@ == digits_of(n as nat),
    decreases n,
{
    if n < 10 {
        let mut text: Vec<u8> = Vec::new();
        text.push(ZERO + n as u8);
        assert(text@ =~= seq![(48 + n) as u8]);
        text
    } else {
        let mut text = format_u64(n / 10);
        text.push(ZERO + (n % 10) as u8);
        text
    }
}

/// Reads decimal text as a `u64`.
pub fn parse_u64(text: &[u8]) -> (r: Option<u64>)
    ensures
        r == parsed(text@),
{
    let n = text.len();
    let start: usize = if n > 0 && text[0] == PLUS { 1 } else { 0 };
    if start == n {
        return None;
    }
    let ghost body = unsigned_part(text@);
    assert(body =~= text@.subrange(start as int, n as int));
    let mut acc: u64 = 0;
    let mut i: usize = start;
    while i < n
        invariant
            start <= i <= n,
            n == text@.len(),
            body == unsigned_part(text@),
            body == text@.subrange(start as int, n as int),
            all_digits(body.subrange(0, i - start)),
            acc == value_of(body.subrange(0, i - start)),
        decreases n - i,
    {
        let b = text[i];
        let ghost before = body.subrange(0, i - start);
        let ghost after = body.subrange(0, i + 1 - start);
        assert(after.drop_last() =~= before);
        assert(after.last() == b);
        if b < ZERO || b > 57 {
            assert(!is_digit(body[i - start]));
            return None;
        }
        assert(all_digits(after)) by {
            assert forall|j: int| 0 <= j < after.len() implies is_digit(#[trigger] after[j]) by {
                if j < before.len() {
                    assert(after[j] == before[j]);
                }
            }
        }
        let d: u64 = (b - ZERO) as u64;
        let next = match acc.checked_mul(10) {
            Some(m) => m.checked_add(d),
            None => None,
        };
        match next {
            Some(v) => {
                acc = v;
            },
            None => {
                proof {
                    assert(value_of(after) == acc * 10 + d);
                    assert(value_of(after) > u64::MAX);
                    if all_digits(body) {
                        lemma_value_of_prefix(body, i + 1 - start);
                    }
                }
                return None;
            },
        }
        i += 1;
    }
    assert(body.subrange(0, n - start) =~= body);
    Some(acc)
}

} // verus!
