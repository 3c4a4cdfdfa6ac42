//! Masking of personal data: mail addresses and phone numbers.
use vstd::prelude::*;

use crate::text::chars;

verus! {

/// Characters of the local part of a mail address.
pub open spec fn is_local_char(c: char) -> bool {
    chars::is_alnum(c) || c == '.' || c == '_' || c == '-' || c == '+'
}

/// Characters of the domain of a mail address.
pub open spec fn is_domain_char(c: char) -> bool {
    chars::is_alnum(c) || c == '.' || c == '-'
}

/// Characters of a phone number: digits and separators.
pub open spec fn is_phone_char(c: char) -> bool {
    chars::is_digit(c) || c == '-' || c == '(' || c == ')'
}

/// Where the local part that ends before `i` starts.
pub open spec fn local_start(t: Seq<char>, i: int) -> int
    decreases i,
{
    if i > 0 && is_local_char(t[i - 1]) {
        local_start(t, i - 1)
    } else {
        i
    }
}

/// Where the local part that goes on at `i` ends.
pub open spec fn local_end(t: Seq<char>, i: int) -> int
    decreases t.len() - i,
{
    if i < t.len() && is_local_char(t[i]) {
        local_end(t, i + 1)
    } else {
        i
    }
}

/// Where the domain that goes on at `i` ends.
pub open spec fn domain_end(t: Seq<char>, i: int) -> int
    decreases t.len() - i,
{
    if i < t.len() && is_domain_char(t[i]) {
        domain_end(t, i + 1)
    } else {
        i
    }
}

/// Where the phone number that goes on at `i` ends.
pub open spec fn phone_end(t: Seq<char>, i: int) -> int
    decreases t.len() - i,
{
    if i < t.len() && is_phone_char(t[i]) {
        phone_end(t, i + 1)
    } else {
        i
    }
}

/// The digits of the phone number that goes on at `i`.
pub open spec fn phone_digits(t: Seq<char>, i: int) -> nat
    decreases t.len() - i,
{
    if i < t.len() && is_phone_char(t[i]) {
        phone_digits(t, i + 1) + if chars::is_digit(t[i]) {
            1nat
        } else {
            0nat
        }
    } else {
        0
    }
}

/// The sign of a mail address stands at `i`: something before it, and three
/// characters or more of domain behind it.
pub open spec fn address_at(t: Seq<char>, i: int) -> bool {
    &&& 0 < i < t.len()
    &&& t[i] == '@'
    &&& is_local_char(t[i - 1])
    &&& domain_end(t, i + 1) - i - 1 >= 3
}

/// A phone number starts at `i`: a digit, and ten digits or more in the run of
/// digits and separators.
pub open spec fn number_at(t: Seq<char>, i: int) -> bool {
    &&& 0 <= i < t.len()
    &&& chars::is_digit(t[i])
    &&& phone_digits(t, i) >= 10
}

/// A mail address starts at `i`.
pub open spec fn address_starts(t: Seq<char>, i: int) -> bool {
    i < local_end(t, i) && address_at(t, local_end(t, i))
}

/// Where reading goes on behind what ends before `m`: at the start of the mail
/// address whose local part reaches back before `m`, else at `m`.
pub open spec fn resume(t: Seq<char>, m: int) -> int {
    if address_at(t, local_end(t, m)) {
        local_start(t, local_end(t, m))
    } else {
        m
    }
}

/// The mask of a mail address: its first character and the first character of
/// its domain.
pub open spec fn address_mask(first: char, domain: char) -> Seq<char> {
    seq![first] + "***@"@ + seq![domain] + "***"@
}

/// What is written from `i` on: a mail address as its mask, a phone number as
/// one, and every other character as it is. Where the domain of an address is
/// in the local part of the next one, it is written once, as that local part.
pub open spec fn masked_from(t: Seq<char>, i: int) -> Seq<char>
    decreases t.len() - i,
{
    proof {
        lemma_steps(t, i);
    }
    if i < 0 || i >= t.len() {
        Seq::empty()
    } else if address_starts(t, i) {
        let e = local_end(t, i);
        let end = domain_end(t, e + 1);
        if resume(t, end) < end {
            seq![t[i]] + "***@"@ + masked_from(t, e + 1)
        } else {
            address_mask(t[i], t[e + 1]) + masked_from(t, end)
        }
    } else if number_at(t, i) {
        "[***]"@ + masked_from(t, resume(t, phone_end(t, i)))
    } else {
        seq![t[i]] + masked_from(t, i + 1)
    }
}

/// The text with mail addresses and phone numbers masked.
pub open spec fn masked(t: Seq<char>) -> Seq<char> {
    masked_from(t, 0)
}

pub proof fn lemma_local_end(t: Seq<char>, i: int)
    ensures
        i <= local_end(t, i),
        i <= t.len() ==> local_end(t, i) <= t.len(),
        forall|k: int| i <= k < local_end(t, i) ==> is_local_char(#[trigger] t[k]),
        local_end(t, i) < t.len() ==> !is_local_char(t[local_end(t, i)]),
    decreases t.len() - i,
{
    if i < t.len() && is_local_char(t[i]) {
        lemma_local_end(t, i + 1);
    }
}

/// A run of local characters that ends at `e` starts at or before `i`, where
/// all from `i` on are in it.
proof fn lemma_run_start(t: Seq<char>, i: int, e: int)
    requires
        0 <= i <= e <= t.len(),
        forall|k: int| i <= k < e ==> is_local_char(#[trigger] t[k]),
    ensures
        local_start(t, e) == local_start(t, i),
    decreases e - i,
{
    if i < e {
        lemma_run_start(t, i, e - 1);
    }
}

/// From the start of a run its end is found again.
proof fn lemma_run(t: Seq<char>, e: int)
    requires
        0 <= e <= t.len(),
        e < t.len() ==> !is_local_char(t[e]),
    ensures
        local_end(t, local_start(t, e)) == e,
    decreases e,
{
    lemma_local_start(t, e);
    lemma_run_goes(t, local_start(t, e), e);
}

proof fn lemma_run_goes(t: Seq<char>, i: int, e: int)
    requires
        local_start(t, e) <= i <= e <= t.len(),
        0 <= i,
        e < t.len() ==> !is_local_char(t[e]),
    ensures
        local_end(t, i) == e,
    decreases e - i,
{
    if i < e {
        lemma_in_run(t, e, i);
        lemma_run_goes(t, i + 1, e);
    }
}

proof fn lemma_in_run(t: Seq<char>, e: int, k: int)
    requires
        local_start(t, e) <= k < e,
        0 <= k,
    ensures
        is_local_char(t[k]),
    decreases e,
{
    if k < e - 1 {
        lemma_in_run(t, e - 1, k);
    }
}

/// Each step of masking goes forward.
pub proof fn lemma_steps(t: Seq<char>, i: int)
    ensures
        0 <= i < t.len() && address_starts(t, i) ==> i < local_end(t, i) && local_end(t, i) + 4
            <= domain_end(t, local_end(t, i) + 1) <= t.len(),
        0 <= i < t.len() && number_at(t, i) ==> i < phone_end(t, i) <= t.len(),
        0 <= i < t.len() && number_at(t, i) && !address_starts(t, i) ==> i < resume(
            t,
            phone_end(t, i),
        ) <= t.len(),
{
    if 0 <= i < t.len() {
        lemma_local_end(t, i);
        lemma_domain_end(t, local_end(t, i) + 1);
        lemma_phone_end(t, i);
        if number_at(t, i) && !address_starts(t, i) {
            let m = phone_end(t, i);
            lemma_local_end(t, m);
            let e = local_end(t, m);
            lemma_local_start(t, e);
            if address_at(t, e) && local_start(t, e) <= i {
                lemma_run_goes(t, i, e);
            }
        }
    }
}

pub proof fn lemma_domain_end(t: Seq<char>, i: int)
    ensures
        i <= t.len() ==> i <= domain_end(t, i) <= t.len(),
        i > t.len() ==> domain_end(t, i) == i,
    decreases t.len() - i,
{
    if i < t.len() && is_domain_char(t[i]) {
        lemma_domain_end(t, i + 1);
    }
}

pub proof fn lemma_phone_end(t: Seq<char>, i: int)
    ensures
        i <= t.len() ==> i <= phone_end(t, i) <= t.len(),
        i < t.len() && is_phone_char(t[i]) ==> i < phone_end(t, i),
    decreases t.len() - i,
{
    if i < t.len() && is_phone_char(t[i]) {
        lemma_phone_end(t, i + 1);
    }
}

pub proof fn lemma_local_start(t: Seq<char>, i: int)
    requires
        0 <= i,
    ensures
        0 <= local_start(t, i) <= i,
        i > 0 && is_local_char(t[i - 1]) ==> local_start(t, i) < i,
        local_start(t, i) < i ==> is_local_char(t[local_start(t, i)]),
    decreases i,
{
    if i > 0 && is_local_char(t[i - 1]) {
        lemma_local_start(t, i - 1);
    }
}

fn local_char(c: char) -> (r: bool)
    ensures
        r == is_local_char(c),
{
    chars::alnum(c) || c == '.' || c == '_' || c == '-' || c == '+'
}

fn domain_char(c: char) -> (r: bool)
    ensures
        r == is_domain_char(c),
{
    chars::alnum(c) || c == '.' || c == '-'
}

fn phone_char(c: char) -> (r: bool)
    ensures
        r == is_phone_char(c),
{
    chars::digit(c) || c == '-' || c == '(' || c == ')'
}

fn find_local_start(v: &Vec<char>, i: usize) -> (r: usize)
    requires
        i <= v@.len(),
    ensures
        r == local_start(v@, i as int),
        r <= i,
{
    let mut s: usize = i;
    while s > 0 && local_char(v[s - 1])
        invariant
            s <= i <= v@.len(),
            local_start(v@, i as int) == local_start(v@, s as int),
        decreases s,
    {
        s -= 1;
    }
    s
}

fn find_local_end(v: &Vec<char>, i: usize) -> (r: usize)
    requires
        i <= v@.len(),
    ensures
        r == local_end(v@, i as int),
        i <= r <= v@.len(),
{
    let mut e: usize = i;
    while e < v.len() && local_char(v[e])
        invariant
            i <= e <= v@.len(),
            local_end(v@, i as int) == local_end(v@, e as int),
        decreases v@.len() - e,
    {
        e += 1;
    }
    e
}

fn find_domain_end(v: &Vec<char>, i: usize) -> (r: usize)
    requires
        i <= v@.len(),
    ensures
        r == domain_end(v@, i as int),
        i <= r <= v@.len(),
{
    let mut e: usize = i;
    while e < v.len() && domain_char(v[e])
        invariant
            i <= e <= v@.len(),
            domain_end(v@, i as int) == domain_end(v@, e as int),
        decreases v@.len() - e,
    {
        e += 1;
    }
    e
}

fn scan_phone(v: &Vec<char>, i: usize) -> (r: (usize, usize))
    requires
        i <= v@.len(),
    ensures
        r.0 == phone_end(v@, i as int),
        i <= r.0 <= v@.len(),
        r.1 == phone_digits(v@, i as int),
{
    let mut e: usize = i;
    let mut digits: usize = 0;
    while e < v.len() && phone_char(v[e])
        invariant
            i <= e <= v@.len(),
            digits <= e - i,
            phone_end(v@, i as int) == phone_end(v@, e as int),
            phone_digits(v@, i as int) == digits + phone_digits(v@, e as int),
        decreases v@.len() - e,
    {
        if chars::digit(v[e]) {
            digits += 1;
        }
        e += 1;
    }
    (e, digits)
}

fn push_text(out: &mut Vec<char>, s: &str)
    ensures
        final(out)@ == old(out)@ + s@,
{
    let ghost before = out@;
    let mut v: Vec<char> = chars::to_chars(s);
    out.append(&mut v);
    assert(out@ =~= before + s@);
}

fn is_address(v: &Vec<char>, i: usize) -> (r: bool)
    requires
        i <= v@.len(),
    ensures
        r == address_at(v@, i as int),
{
    if i == 0 || i >= v.len() || v[i] != '@' || !local_char(v[i - 1]) {
        return false;
    }
    find_domain_end(v, i + 1) - i - 1 >= 3
}

fn find_resume(v: &Vec<char>, m: usize) -> (r: usize)
    requires
        m <= v@.len(),
    ensures
        r == resume(v@, m as int),
        r <= v@.len(),
{
    let e: usize = find_local_end(v, m);
    if is_address(v, e) {
        find_local_start(v, e)
    } else {
        m
    }
}

/// Masks the mail addresses and phone numbers of `text`.
pub fn sanitize_pii(text: &str) -> (r: String)
    ensures
        r@ == masked(text@),
{
    let v: Vec<char> = chars::to_chars(text);
    let ghost t = text@;
    let len: usize = v.len();
    let mut out: Vec<char> = Vec::new();
    let mut i: usize = 0;
    // Up to here no address starts.
    let mut quiet: usize = 0;
    assert(out@ + masked_from(t, 0) =~= masked(t));
    while i < len
        invariant
            i <= len == v@.len(),
            v@ == t,
            i < quiet ==> !address_starts(t, i as int) && local_end(t, i as int) == quiet,
            out@ + masked_from(t, i as int) == masked(t),
        decreases len - i,
    {
        let ghost before = out@;
        let ghost from = i as int;
        proof {
            lemma_steps(t, i as int);
            lemma_local_end(t, i as int);
        }
        if i >= quiet {
            let e: usize = find_local_end(&v, i);
            if e > i && is_address(&v, e) {
                let end: usize = find_domain_end(&v, e + 1);
                out.push(v[i]);
                push_text(&mut out, "***@");
                if find_resume(&v, end) < end {
                    assert(out@ + masked_from(t, e + 1) =~= before + masked_from(t, from));
                    i = e + 1;
                } else {
                    out.push(v[e + 1]);
                    push_text(&mut out, "***");
                    assert(out@ + masked_from(t, end as int) =~= before + masked_from(t, from));
                    i = end;
                }
                continue ;
            }
            quiet = e;
        }
        if chars::digit(v[i]) {
            let (end, digits) = scan_phone(&v, i);
            if digits >= 10 {
                push_text(&mut out, "[***]");
                i = find_resume(&v, end);
                quiet = 0;
                assert(out@ + masked_from(t, i as int) =~= before + masked_from(t, from));
                continue ;
            }
        }
        out.push(v[i]);
        assert(out@ + masked_from(t, i + 1) =~= before + masked_from(t, from));
        i += 1;
    }
    assert(out@ =~= out@ + masked_from(t, i as int));
    chars::from_chars(out.as_slice())
}

/// A mail address or a phone number stands at `i`.
pub open spec fn personal_at(t: Seq<char>, i: int) -> bool {
    address_at(t, i) || number_at(t, i)
}

/// No mail address and no phone number stands in the text.
pub open spec fn clean(t: Seq<char>) -> bool {
    forall|i: int| !#[trigger] personal_at(t, i)
}

/// Masking leaves no mail address and no phone number in a text.
pub proof fn law_masked_is_clean(t: Seq<char>)
    ensures
        clean(masked(t)),
{
    let none = Seq::<char>::empty();
    assert forall|i: int| !#[trigger] personal_at(none, i) by {}
    assert(none =~= none + t.subrange(0, 0));
    lemma_local_end(t, 0);
    lemma_run_start(t, 0, local_end(t, 0));
    lemma_masked_clean(t, 0, none, none, 0);
    assert(none + masked_from(t, 0) =~= masked(t));
}

/// A text with no mail address and no phone number is left as it is.
pub proof fn law_clean_is_kept(t: Seq<char>)
    requires
        clean(t),
    ensures
        masked(t) == t,
{
    lemma_clean_kept(t, 0);
    assert(t.skip(0) =~= t);
}

/// Masking a second time changes nothing.
pub proof fn law_masked_twice(t: Seq<char>)
    ensures
        masked(masked(t)) == masked(t),
{
    law_masked_is_clean(t);
    law_clean_is_kept(masked(t));
}

proof fn lemma_clean_kept(t: Seq<char>, i: int)
    requires
        clean(t),
        0 <= i <= t.len(),
    ensures
        masked_from(t, i) == t.skip(i),
    decreases t.len() - i,
{
    if i < t.len() {
        assert(!personal_at(t, i));
        assert(!personal_at(t, local_end(t, i)));
        lemma_clean_kept(t, i + 1);
        assert(seq![t[i]] + t.skip(i + 1) =~= t.skip(i));
    } else {
        assert(t.skip(i) =~= Seq::empty());
    }
}

/// Nothing personal goes on behind the text.
spec fn closed(s: Seq<char>) -> bool {
    s.len() > 0 ==> s.last() == ']' || s.last() == '*' || (s.last() == '@' && s.len() > 1 && s[s.len()
        - 2] == '*')
}

/// The run at `i + d` in `s` is no longer than the run at `i` in `t`, where
/// both texts agree up to `e` and the run in `s` cannot go on there.
proof fn lemma_window(s: Seq<char>, t: Seq<char>, i: int, e: int, d: int)
    requires
        0 <= i <= e <= t.len(),
        0 <= i + d,
        e + d <= s.len(),
        forall|k: int| i <= k < e ==> s[k + d] == #[trigger] t[k],
        e + d == s.len() || (!is_phone_char(s[e + d]) && !is_domain_char(s[e + d])),
    ensures
        phone_digits(s, i + d) <= phone_digits(t, i),
        domain_end(s, i + d) - d <= domain_end(t, i),
    decreases e - i,
{
    lemma_domain_end(t, i);
    if i < e {
        lemma_window(s, t, i + 1, e, d);
        assert(s[i + d] == t[i]);
    }
}

/// A clean closed text, then a stretch of `t` in which nothing personal
/// starts, save that its last character may start a number, then a mask.
proof fn lemma_clean_concat(
    s: Seq<char>,
    head: Seq<char>,
    t: Seq<char>,
    m: int,
    e: int,
    tail: Seq<char>,
)
    requires
        0 <= m <= e <= t.len(),
        s == head + t.subrange(m, e) + tail,
        closed(head),
        clean(head),
        forall|k: int| m <= k < e - 1 ==> !#[trigger] personal_at(t, k),
        m < e ==> !address_at(t, e - 1) && (tail.len() == 0 ==> !number_at(t, e - 1)),
        tail.len() > 0 ==> !is_phone_char(tail[0]) && !is_domain_char(tail[0]) && !is_local_char(
            tail[0],
        ),
        forall|k: int|
            0 <= k < tail.len() && #[trigger] tail[k] == '@' ==> k > 0 && !is_local_char(
                tail[k - 1],
            ),
        forall|k: int|
            0 <= k < tail.len() && chars::is_digit(#[trigger] tail[k]) ==> k + 1 < tail.len()
                && !is_phone_char(tail[k + 1]),
    ensures
        clean(s),
{
    let h = head.len() as int;
    let d = h - m;
    let base = h + (e - m);
    assert forall|k: int| !#[trigger] personal_at(s, k) by {
        if 0 <= k < h {
            assert(s[k] == head[k]);
            assert(!personal_at(head, k));
            if k < h - 1 {
                assert(forall|x: int| k <= x < h - 1 ==> s[x + 0] == #[trigger] head[x]);
                lemma_window(s, head, k, h - 1, 0);
                lemma_window(s, head, k + 1, h - 1, 0);
                if k > 0 {
                    assert(s[k - 1] == head[k - 1]);
                }
            }
        } else if h <= k < base {
            let j = k - d;
            assert(s[k] == t[j]);
            if j < e - 1 {
                assert(!personal_at(t, j));
            } else if tail.len() > 0 {
                assert(s[k + 1] == tail[0]);
                assert(phone_digits(s, k + 1) == 0);
                assert(phone_digits(s, k) <= 1);
            }
            assert(forall|x: int| j <= x < e ==> s[x + d] == #[trigger] t[x]);
            assert(e + d < s.len() ==> s[e + d] == tail[0]);
            lemma_window(s, t, j, e, d);
            lemma_window(s, t, j + 1, e, d);
            if j > m {
                assert(s[k - 1] == t[j - 1]);
            } else if k > 0 {
                assert(s[k - 1] == head.last());
            }
        } else if base <= k < s.len() {
            let x = k - base;
            assert(s[k] == tail[x]);
            if x > 0 {
                assert(s[k - 1] == tail[x - 1]);
            }
            if chars::is_digit(tail[x]) {
                assert(s[k + 1] == tail[x + 1]);
                assert(phone_digits(s, k + 1) == 0);
                assert(phone_digits(s, k) <= 1);
            }
        }
    }
}

proof fn lemma_masked_clean(t: Seq<char>, i: int, out: Seq<char>, head: Seq<char>, m: int)
    requires
        0 <= m <= i <= t.len(),
        out == head + t.subrange(m, i),
        closed(head),
        clean(head),
        forall|k: int| m <= k < i ==> !#[trigger] personal_at(t, k),
        resume(t, i) == i,
    ensures
        clean(out + masked_from(t, i)),
    decreases t.len() - i,
{
    lemma_steps(t, i);
    lemma_local_end(t, i);
    if i >= t.len() {
        if m < i {
            assert(!personal_at(t, i - 1));
        }
        assert(out + masked_from(t, i) =~= head + t.subrange(m, i) + Seq::<char>::empty());
        lemma_clean_concat(out + masked_from(t, i), head, t, m, i, Seq::empty());
    } else if address_starts(t, i) {
        let e = local_end(t, i);
        let end = domain_end(t, e + 1);
        lemma_local_end(t, end);
        reveal_strlit("***@");
        reveal_strlit("***");
        assert(is_local_char(t[i]));
        if resume(t, end) < end {
            let next = out + seq![t[i]] + "***@"@;
            assert(next =~= head + t.subrange(m, i + 1) + "***@"@);
            lemma_clean_concat(next, head, t, m, i + 1, "***@"@);
            assert(next.last() == '@' && next[next.len() - 2] == '*');
            assert(next =~= next + t.subrange(e + 1, e + 1));
            assert(resume(t, e + 1) == e + 1) by {
                lemma_local_end(t, e + 1);
                let f = local_end(t, e + 1);
                lemma_run_start(t, e + 1, f);
                assert(local_start(t, e + 1) == e + 1);
            }
            lemma_masked_clean(t, e + 1, next, next, e + 1);
            assert(next + masked_from(t, e + 1) =~= out + masked_from(t, i));
        } else {
            let tail = "***@"@ + seq![t[e + 1]] + "***"@;
            let next = out + address_mask(t[i], t[e + 1]);
            assert(domain_end(t, e + 1) >= e + 4);
            assert(is_domain_char(t[e + 1]));
            assert(tail[0] == '*' && tail[1] == '*' && tail[2] == '*' && tail[3] == '@' && tail[4]
                == t[e + 1] && tail[5] == '*' && tail[6] == '*' && tail[7] == '*' && tail.len()
                == 8);
            assert(next =~= head + t.subrange(m, i + 1) + tail);
            lemma_clean_concat(next, head, t, m, i + 1, tail);
            assert(next.last() == '*');
            assert(next =~= next + t.subrange(end, end));
            lemma_run_start(t, end, local_end(t, end));
            lemma_local_start(t, end);
            lemma_masked_clean(t, end, next, next, end);
            assert(next + masked_from(t, end) =~= out + masked_from(t, i));
        }
    } else if number_at(t, i) {
        let end = resume(t, phone_end(t, i));
        reveal_strlit("[***]");
        let next = out + "[***]"@;
        if m < i {
            assert(!personal_at(t, i - 1));
        }
        assert(next =~= head + t.subrange(m, i) + "[***]"@);
        lemma_clean_concat(next, head, t, m, i, "[***]"@);
        assert(next.last() == ']');
        assert(next =~= next + t.subrange(end, end));
        lemma_resumed(t, phone_end(t, i));
        lemma_masked_clean(t, end, next, next, end);
        assert(next + masked_from(t, end) =~= out + masked_from(t, i));
    } else {
        let next = out.push(t[i]);
        assert(next =~= head + t.subrange(m, i + 1));
        assert(!address_at(t, i)) by {
            if address_at(t, i) {
                assert(local_end(t, i) == i);
                assert(local_start(t, i) < i) by {
                    lemma_local_start(t, i);
                }
            }
        }
        assert(!personal_at(t, i));
        lemma_local_end(t, i + 1);
        let f = local_end(t, i + 1);
        assert(resume(t, i + 1) == i + 1) by {
            if address_at(t, f) {
                lemma_run_start(t, i + 1, f);
                if is_local_char(t[i]) {
                    assert(local_end(t, i) == f);
                }
            }
        }
        lemma_masked_clean(t, i + 1, next, head, m);
        assert(next + masked_from(t, i + 1) =~= out + masked_from(t, i));
    }
}

/// Where reading goes on, nothing reaches back any more.
proof fn lemma_resumed(t: Seq<char>, m: int)
    requires
        0 <= m <= t.len(),
    ensures
        0 <= resume(t, m) <= t.len(),
        resume(t, resume(t, m)) == resume(t, m),
{
    lemma_local_end(t, m);
    let e = local_end(t, m);
    lemma_local_start(t, e);
    if address_at(t, e) {
        lemma_run(t, e);
    }
}

/// Taking out a character behind one that can be part of neither an address
/// nor a number leaves a clean text clean.
pub proof fn lemma_clean_remove(s: Seq<char>, q: int)
    requires
        0 < q < s.len(),
        clean(s),
        !is_local_char(s[q - 1]) && !is_phone_char(s[q - 1]),
        s[q - 1] != '@',
    ensures
        clean(s.remove(q)),
{
    let r = s.remove(q);
    assert forall|k: int| !#[trigger] personal_at(r, k) by {
        if 0 <= k < q {
            assert(r[k] == s[k]);
            assert(!personal_at(s, k));
            if k < q - 1 {
                assert(forall|x: int| k <= x < q - 1 ==> r[x + 0] == #[trigger] s[x]);
                lemma_window(r, s, k, q - 1, 0);
                lemma_window(r, s, k + 1, q - 1, 0);
            } else {
                assert(r[k] == s[q - 1]);
            }
        } else if q <= k < r.len() {
            assert(r[k] == s[k + 1]);
            assert(!personal_at(s, k + 1));
            assert(forall|x: int| k + 1 <= x < s.len() ==> r[x + (-1)] == #[trigger] s[x]);
            lemma_window(r, s, k + 1, s.len() as int, -1);
            lemma_window(r, s, k + 2, s.len() as int, -1);
            if k > q {
                assert(r[k - 1] == s[k]);
            } else {
                assert(r[k - 1] == s[q - 1]);
            }
        }
    }
}

/// Masking writes no character but those of the text and of the masks.
pub proof fn lemma_masked_chars(t: Seq<char>, i: int, c: char)
    requires
        !t.contains(c),
        c != '*' && c != '@' && c != '[' && c != ']',
        0 <= i,
    ensures
        !masked_from(t, i).contains(c),
    decreases t.len() - i,
{
    lemma_steps(t, i);
    let all = masked_from(t, i);
    if i < t.len() {
        reveal_strlit("***@");
        reveal_strlit("***");
        reveal_strlit("[***]");
        assert(t[i] != c);
        let e = local_end(t, i);
        let end = domain_end(t, e + 1);
        let (piece, next) = if address_starts(t, i) {
            if resume(t, end) < end {
                (seq![t[i]] + "***@"@, e + 1)
            } else {
                (address_mask(t[i], t[e + 1]), end)
            }
        } else if number_at(t, i) {
            ("[***]"@, resume(t, phone_end(t, i)))
        } else {
            (seq![t[i]], i + 1)
        };
        if address_starts(t, i) {
            assert(t[e + 1] != c);
        }
        lemma_masked_chars(t, next, c);
        assert(all =~= piece + masked_from(t, next));
        assert forall|k: int| 0 <= k < all.len() implies all[k] != c by {
            if k >= piece.len() {
                assert(masked_from(t, next)[k - piece.len()] == all[k]);
            }
        }
    }
}

/// A character that parts what stands before it from what stands behind it: it
/// belongs to no address and to no number.
pub open spec fn parts_texts(c: char) -> bool {
    !is_local_char(c) && !is_phone_char(c) && c != '@'
}

proof fn lemma_same_runs(t: Seq<char>, a: Seq<char>, i: int)
    requires
        a.len() < t.len(),
        t.take(a.len() as int) == a,
        parts_texts(t[a.len() as int]),
        0 <= i <= a.len(),
    ensures
        local_end(t, i) == local_end(a, i) <= a.len(),
        domain_end(t, i) == domain_end(a, i) <= a.len(),
        phone_end(t, i) == phone_end(a, i) <= a.len(),
        phone_digits(t, i) == phone_digits(a, i),
    decreases a.len() - i,
{
    if i < a.len() {
        assert(t.take(a.len() as int)[i] == t[i]);
        lemma_same_runs(t, a, i + 1);
    }
}

proof fn lemma_same_start(t: Seq<char>, a: Seq<char>, i: int)
    requires
        a.len() < t.len(),
        t.take(a.len() as int) == a,
        0 <= i <= a.len(),
    ensures
        local_start(t, i) == local_start(a, i),
    decreases i,
{
    if i > 0 {
        assert(t.take(a.len() as int)[i - 1] == t[i - 1]);
        lemma_same_start(t, a, i - 1);
    }
}

proof fn lemma_same_address(t: Seq<char>, a: Seq<char>, i: int)
    requires
        a.len() < t.len(),
        t.take(a.len() as int) == a,
        parts_texts(t[a.len() as int]),
        0 <= i <= a.len(),
    ensures
        address_at(t, i) == address_at(a, i),
{
    if i < a.len() {
        assert(t.take(a.len() as int)[i] == t[i]);
        if i > 0 {
            assert(t.take(a.len() as int)[i - 1] == t[i - 1]);
        }
        lemma_same_runs(t, a, i + 1);
    }
}

/// What is written before a character that parts texts does not depend on what
/// stands behind it.
proof fn lemma_masked_front(t: Seq<char>, a: Seq<char>, i: int)
    requires
        a.len() < t.len(),
        t.take(a.len() as int) == a,
        parts_texts(t[a.len() as int]),
        0 <= i <= a.len(),
    ensures
        masked_from(t, i) == masked_from(a, i) + masked_from(t, a.len() as int),
    decreases a.len() - i,
{
    let n = a.len() as int;
    let rest = masked_from(t, n);
    if i == n {
        assert(masked_from(a, i) + rest =~= rest);
    } else {
        lemma_steps(t, i);
        lemma_steps(a, i);
        lemma_same_runs(t, a, i);
        lemma_local_end(a, i);
        assert(t.take(n)[i] == t[i]);
        let e = local_end(a, i);
        lemma_same_address(t, a, e);
        if address_starts(a, i) {
            lemma_same_runs(t, a, e + 1);
            let end = domain_end(a, e + 1);
            lemma_same_resume(t, a, end);
            assert(t.take(n)[e + 1] == t[e + 1]);
            if resume(a, end) < end {
                lemma_masked_front(t, a, e + 1);
                assert(seq![a[i]] + "***@"@ + (masked_from(a, e + 1) + rest) =~= (seq![a[i]]
                    + "***@"@ + masked_from(a, e + 1)) + rest);
            } else {
                lemma_masked_front(t, a, end);
                assert(address_mask(a[i], a[e + 1]) + (masked_from(a, end) + rest) =~= (
                address_mask(a[i], a[e + 1]) + masked_from(a, end)) + rest);
            }
        } else if number_at(a, i) {
            let m = phone_end(a, i);
            lemma_same_resume(t, a, m);
            let next = resume(a, m);
            lemma_masked_front(t, a, next);
            assert("[***]"@ + (masked_from(a, next) + rest) =~= ("[***]"@ + masked_from(a, next))
                + rest);
        } else {
            lemma_masked_front(t, a, i + 1);
            assert(seq![a[i]] + (masked_from(a, i + 1) + rest) =~= (seq![a[i]] + masked_from(
                a,
                i + 1,
            )) + rest);
        }
    }
}

proof fn lemma_same_resume(t: Seq<char>, a: Seq<char>, m: int)
    requires
        a.len() < t.len(),
        t.take(a.len() as int) == a,
        parts_texts(t[a.len() as int]),
        0 <= m <= a.len(),
    ensures
        resume(t, m) == resume(a, m),
{
    lemma_same_runs(t, a, m);
    lemma_local_end(a, m);
    lemma_same_address(t, a, local_end(a, m));
    lemma_same_start(t, a, local_end(a, m));
}

proof fn lemma_shifted_runs(t: Seq<char>, b: Seq<char>, d: int, i: int)
    requires
        0 <= d,
        t.len() == d + b.len(),
        t.skip(d) == b,
        0 <= i <= b.len(),
    ensures
        local_end(t, d + i) == d + local_end(b, i),
        domain_end(t, d + i) == d + domain_end(b, i),
        phone_end(t, d + i) == d + phone_end(b, i),
        phone_digits(t, d + i) == phone_digits(b, i),
    decreases b.len() - i,
{
    if i < b.len() {
        assert(t.skip(d)[i] == t[d + i]);
        lemma_shifted_runs(t, b, d, i + 1);
    }
}

proof fn lemma_shifted_start(t: Seq<char>, b: Seq<char>, d: int, i: int)
    requires
        0 < d,
        t.len() == d + b.len(),
        t.skip(d) == b,
        !is_local_char(t[d - 1]),
        0 <= i <= b.len(),
    ensures
        local_start(t, d + i) == d + local_start(b, i),
    decreases i,
{
    if i > 0 {
        assert(t.skip(d)[i - 1] == t[d + i - 1]);
        lemma_shifted_start(t, b, d, i - 1);
    }
}

proof fn lemma_shifted_address(t: Seq<char>, b: Seq<char>, d: int, i: int)
    requires
        0 < d,
        t.len() == d + b.len(),
        t.skip(d) == b,
        !is_local_char(t[d - 1]),
        0 <= i <= b.len(),
    ensures
        address_at(t, d + i) == address_at(b, i),
{
    if i < b.len() {
        assert(t.skip(d)[i] == t[d + i]);
        if i > 0 {
            assert(t.skip(d)[i - 1] == t[d + i - 1]);
        }
        lemma_shifted_runs(t, b, d, i + 1);
    }
}

/// What is written behind a character that parts texts does not depend on what
/// stands before it.
proof fn lemma_masked_back(t: Seq<char>, b: Seq<char>, d: int, i: int)
    requires
        0 < d,
        t.len() == d + b.len(),
        t.skip(d) == b,
        !is_local_char(t[d - 1]),
        0 <= i <= b.len(),
    ensures
        masked_from(t, d + i) == masked_from(b, i),
    decreases b.len() - i,
{
    if i < b.len() {
        lemma_steps(t, d + i);
        lemma_steps(b, i);
        lemma_shifted_runs(t, b, d, i);
        lemma_local_end(b, i);
        assert(t.skip(d)[i] == t[d + i]);
        let e = local_end(b, i);
        lemma_shifted_address(t, b, d, e);
        if address_starts(b, i) {
            lemma_shifted_runs(t, b, d, e + 1);
            let end = domain_end(b, e + 1);
            lemma_shifted_resume(t, b, d, end);
            assert(t.skip(d)[e + 1] == t[d + e + 1]);
            if resume(b, end) < end {
                lemma_masked_back(t, b, d, e + 1);
            } else {
                lemma_masked_back(t, b, d, end);
            }
        } else if number_at(b, i) {
            let m = phone_end(b, i);
            lemma_shifted_resume(t, b, d, m);
            lemma_masked_back(t, b, d, resume(b, m));
        } else {
            lemma_masked_back(t, b, d, i + 1);
        }
    }
}

proof fn lemma_shifted_resume(t: Seq<char>, b: Seq<char>, d: int, m: int)
    requires
        0 < d,
        t.len() == d + b.len(),
        t.skip(d) == b,
        !is_local_char(t[d - 1]),
        0 <= m <= b.len(),
    ensures
        resume(t, d + m) == d + resume(b, m),
{
    lemma_shifted_runs(t, b, d, m);
    lemma_local_end(b, m);
    lemma_shifted_address(t, b, d, local_end(b, m));
    lemma_shifted_start(t, b, d, local_end(b, m));
}

/// White space, and any other character that belongs to no address and to no
/// number, parts a text: it is left as it is, and what stands before it and
/// behind it is masked by itself.
pub proof fn law_masking_is_local(a: Seq<char>, c: char, b: Seq<char>)
    requires
        !chars::is_alnum(c),
        c != '.' && c != '_' && c != '-' && c != '+' && c != '(' && c != ')' && c != '@',
        !chars::is_digit(c),
    ensures
        masked(a.push(c) + b) == masked(a).push(c) + masked(b),
{
    let t = a.push(c) + b;
    let n = a.len() as int;
    assert(t.take(n) =~= a);
    lemma_masked_front(t, a, 0);
    assert(t.skip(n + 1) =~= b);
    lemma_masked_back(t, b, n + 1, 0);
    lemma_local_end(t, n);
    assert(masked_from(t, n) == seq![c] + masked_from(t, n + 1));
    assert(masked(a) + (seq![c] + masked(b)) =~= masked(a).push(c) + masked(b));
}

/// A phone number by itself, ten digits or more with any hyphens and brackets
/// behind the first of them, is masked as a whole.
pub proof fn law_number_is_masked(s: Seq<char>)
    requires
        s.len() > 0,
        '0' <= s[0] <= '9',
        forall|i: int|
            0 <= i < s.len() ==> '0' <= #[trigger] s[i] <= '9' || s[i] == '-' || s[i] == '('
                || s[i] == ')',
        phone_digits(s, 0) >= 10,
    ensures
        masked(s) == "[***]"@,
{
    lemma_steps(s, 0);
    lemma_local_end(s, 0);
    let e = local_end(s, 0);
    assert(e < s.len() ==> s[e] != '@');
    assert(!address_starts(s, 0));
    lemma_all_phone(s, 0);
    let n = s.len() as int;
    lemma_local_end(s, n);
    assert(resume(s, n) == n);
    reveal_with_fuel(masked_from, 2);
    assert("[***]"@ + Seq::<char>::empty() =~= "[***]"@);
}

proof fn lemma_all_phone(s: Seq<char>, i: int)
    requires
        0 <= i <= s.len(),
        forall|k: int|
            0 <= k < s.len() ==> '0' <= #[trigger] s[k] <= '9' || s[k] == '-' || s[k] == '('
                || s[k] == ')',
    ensures
        phone_end(s, i) == s.len(),
    decreases s.len() - i,
{
    if i < s.len() {
        assert(is_phone_char(s[i]));
        lemma_all_phone(s, i + 1);
    }
}

/// The digits of a text are counted one by one; what counts for a number is all
/// of them, as far as digits, hyphens and brackets go.
pub proof fn law_phone_digits(s: Seq<char>, i: int)
    requires
        0 <= i < s.len(),
    ensures
        '0' <= s[i] <= '9' ==> phone_digits(s, i) == phone_digits(s, i + 1) + 1,
        s[i] == '-' || s[i] == '(' || s[i] == ')' ==> phone_digits(s, i) == phone_digits(s, i + 1),
{
}

/// A mail address by itself is masked: of the local part and of the domain the
/// first character stays.
pub proof fn law_address_is_masked(local: Seq<char>, domain: Seq<char>)
    requires
        local.len() >= 1,
        domain.len() >= 3,
        forall|i: int|
            0 <= i < local.len() ==> chars::is_alnum(#[trigger] local[i]) || local[i] == '.'
                || local[i] == '_' || local[i] == '-' || local[i] == '+',
        forall|i: int|
            0 <= i < domain.len() ==> chars::is_alnum(#[trigger] domain[i]) || domain[i] == '.'
                || domain[i] == '-',
    ensures
        masked(local.push('@') + domain) == seq![local[0]] + "***@"@ + seq![domain[0]] + "***"@,
{
    let s = local.push('@') + domain;
    let e = local.len() as int;
    let n = s.len() as int;
    lemma_steps(s, 0);
    lemma_local_start(s, e);
    assert forall|k: int| 0 <= k < e implies is_local_char(#[trigger] s[k]) by {
        assert(s[k] == local[k]);
    }
    lemma_run_start(s, 0, e);
    lemma_run_goes(s, 0, e);
    lemma_all_domain(s, e + 1);
    assert(is_local_char(s[e - 1]));
    assert(address_at(s, e));
    lemma_local_end(s, n);
    assert(resume(s, n) == n);
    reveal_with_fuel(masked_from, 2);
    assert(s[e + 1] == domain[0]);
    assert(address_mask(s[0], s[e + 1]) + Seq::<char>::empty() =~= address_mask(s[0], s[e + 1]));
}

proof fn lemma_all_domain(s: Seq<char>, i: int)
    requires
        0 <= i <= s.len(),
        forall|k: int| i <= k < s.len() ==> is_domain_char(#[trigger] s[k]),
    ensures
        domain_end(s, i) == s.len(),
    decreases s.len() - i,
{
    if i < s.len() {
        lemma_all_domain(s, i + 1);
    }
}

/// A text of digits alone that has fewer than ten of them is no phone number, and
/// a text without digits and without an at sign has nothing to mask: both are left
/// as they are.
pub proof fn law_other_text_is_kept(s: Seq<char>)
    requires
        (s.len() < 10 && forall|i: int| 0 <= i < s.len() ==> '0' <= #[trigger] s[i] <= '9')
            || forall|i: int|
            0 <= i < s.len() ==> !('0' <= #[trigger] s[i] <= '9') && s[i] != '@',
    ensures
        masked(s) == s,
{
    assert forall|i: int| !#[trigger] personal_at(s, i) by {
        if 0 <= i < s.len() {
            lemma_few_digits(s, i);
            assert('0' <= s[i] <= '9' || s[i] != '@');
        }
    }
    law_clean_is_kept(s);
}

proof fn lemma_few_digits(s: Seq<char>, i: int)
    requires
        0 <= i <= s.len(),
    ensures
        phone_digits(s, i) <= s.len() - i,
    decreases s.len() - i,
{
    if i < s.len() {
        lemma_few_digits(s, i + 1);
    }
}

} // verus!
