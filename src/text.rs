//! Text helpers: characters of a string and back, and UTF-8 byte offsets.
use vstd::prelude::*;

verus! {

/// The characters of `s`, in order.
pub(crate) fn chars_of(s: &str) -> (r: Vec<char>)
    ensures
        r@ == s@,
{
    let mut r: Vec<char> = Vec::new();
    for c in it: s.chars()
        invariant
            r@ == it.seq().take(it.index() as int),
            it.seq() == s@,
    {
        r.push(c);
    }
    r
}

/// Relies on `FromIterator<char> for String` (std): the string holds the
/// given characters in order.
#[verifier::external_body]
pub(crate) fn string_from_chars(v: &Vec<char>) -> (r: String)
    ensures
        r@ == v@,
{
    v.iter().collect()
}

/// The characters of `s` from `from` up to `to`, as a string.
pub(crate) fn string_from_range(s: &Vec<char>, from: usize, to: usize) -> (r: String)
    requires
        from <= to <= s.len(),
    ensures
        r@ == s@.subrange(from as int, to as int),
{
    let mut v: Vec<char> = Vec::new();
    let mut k = from;
    while k < to
        invariant
            from <= k <= to <= s.len(),
            v@ == s@.subrange(from as int, k as int),
        decreases to - k,
    {
        v.push(s[k]);
        proof {
            assert(v@ =~= s@.subrange(from as int, k + 1));
        }
        k = k + 1;
    }
    string_from_chars(&v)
}

/// The number of bytes of `c` in UTF-8.
pub open spec fn utf8_len(c: char) -> nat {
    if (c as u32) < 0x80 {
        1
    } else if (c as u32) < 0x800 {
        2
    } else if (c as u32) < 0x10000 {
        3
    } else {
        4
    }
}

/// The byte offset, in UTF-8, of the character at index `i` of `s`.
pub open spec fn byte_offset(s: Seq<char>, i: int) -> nat
    decreases i,
{
    if i <= 0 || i > s.len() {
        0
    } else {
        byte_offset(s, i - 1) + utf8_len(s[i - 1])
    }
}

/// `n`, or `u32::MAX` where `n` is larger.
pub open spec fn clamp_to_u32(n: nat) -> u32 {
    if n > u32::MAX {
        u32::MAX
    } else {
        n as u32
    }
}

fn char_utf8_len(c: char) -> (r: u64)
    ensures
        r == utf8_len(c),
{
    let v = c as u32;
    if v < 0x80 {
        1
    } else if v < 0x800 {
        2
    } else if v < 0x10000 {
        3
    } else {
        4
    }
}

/// The byte offset of the character at index `i` of `s`, or `u32::MAX` where
/// it is larger.
pub(crate) fn utf8_offset(s: &Vec<char>, i: usize) -> (r: u64)
    requires
        i <= s.len(),
    ensures
        r == clamp_to_u32(byte_offset(s@, i as int)),
{
    let mut acc: u64 = 0;
    let mut k: usize = 0;
    while k < i
        invariant
            k <= i <= s.len(),
            acc == clamp_to_u32(byte_offset(s@, k as int)),
        decreases i - k,
    {
        let n = char_utf8_len(s[k]);
        acc = if acc + n > u32::MAX as u64 {
            u32::MAX as u64
        } else {
            acc + n
        };
        k = k + 1;
    }
    acc
}

/// `n` as a `u32`, or `u32::MAX` where it is larger.
pub(crate) fn clamp_u32(n: u64) -> (r: u32)
    ensures
        r == clamp_to_u32(n as nat),
{
    if n > u32::MAX as u64 {
        u32::MAX
    } else {
        n as u32
    }
}

} // verus!
