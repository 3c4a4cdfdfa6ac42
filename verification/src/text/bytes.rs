//! Positions that are counted in bytes of UTF-8.
use vstd::prelude::*;

use crate::text;
use crate::text::chars;
use crate::text::edit;

verus! {

/// The number of characters in the first `pos` bytes; `None` where a character
/// stands across that position.
pub open spec fn chars_before(s: Seq<char>, pos: nat, i: int) -> Option<int>
    decreases s.len() - i,
{
    if i < 0 || i > s.len() {
        None
    } else if chars::utf8_len(s.take(i)) == pos {
        Some(i)
    } else if i == s.len() {
        None
    } else {
        chars_before(s, pos, i + 1)
    }
}

/// The number of characters in the first `pos` bytes of `s`.
pub fn count_chars_before(s: &str, pos: usize) -> (r: Option<usize>)
    ensures
        match r {
            Some(n) => chars_before(s@, pos as nat, 0) == Some(n as int) && n <= s@.len(),
            None => chars_before(s@, pos as nat, 0) is None,
        },
{
    let v: Vec<char> = chars::to_chars(s);
    let total: usize = chars::byte_len(s);
    let mut bytes: usize = 0;
    let mut i: usize = 0;
    assert(s@.take(0) =~= Seq::empty());
    assert(s@.take(s@.len() as int) =~= s@);
    while i < v.len()
        invariant
            i <= v@.len(),
            v@ == s@,
            s@.take(s@.len() as int) == s@,
            total == chars::utf8_len(s@),
            bytes == chars::utf8_len(s@.take(i as int)),
            chars_before(s@, pos as nat, 0) == chars_before(s@, pos as nat, i as int),
        decreases v@.len() - i,
    {
        if bytes == pos {
            return Some(i);
        }
        proof {
            chars::lemma_utf8_len_step(s@, i as int);
            chars::lemma_utf8_len_take(s@, i + 1, s@.len() as int);
        }
        bytes += chars::char_width(v[i]);
        i += 1;
    }
    if bytes == pos {
        Some(i)
    } else {
        None
    }
}

/// The first `n` bytes of a text; `None` where a character stands across that
/// position.
pub fn byte_prefix(s: &str, n: usize) -> (r: Option<String>)
    ensures
        text::option_view(r) == {
            let end = if n < chars::utf8_len(s@) {
                n as nat
            } else {
                chars::utf8_len(s@)
            };
            match chars_before(s@, end, 0) {
                Some(k) => Some(s@.take(k)),
                None => None,
            }
        },
{
    let len: usize = chars::byte_len(s);
    let end: usize = if n < len {
        n
    } else {
        len
    };
    match count_chars_before(s, end) {
        Some(k) => {
            let head: String = edit::slice(s, 0, k);
            assert(head@ =~= s@.take(k as int));
            Some(head)
        },
        None => None,
    }
}

} // verus!
