//! Cutting a text into pieces: trimming, words and lines.
use vstd::prelude::*;

use crate::select;
use crate::text::chars;
use crate::text::chars::CharClass;
use crate::text::edit;
use crate::text::find;
use crate::text;

verus! {

/// The pieces between the characters of the class, empty ones kept: a text
/// with `n` such characters has `n + 1` pieces.
pub open spec fn pieces(s: Seq<char>, k: CharClass) -> Seq<Seq<char>>
    decreases s.len(),
{
    if s.len() == 0 {
        seq![Seq::<char>::empty()]
    } else {
        let before = pieces(s.drop_last(), k);
        if k.has(s.last()) {
            before.push(Seq::<char>::empty())
        } else {
            before.drop_last().push(before.last().push(s.last()))
        }
    }
}

pub proof fn lemma_pieces_nonempty(s: Seq<char>, k: CharClass)
    ensures
        pieces(s, k).len() > 0,
    decreases s.len(),
{
    if s.len() > 0 {
        lemma_pieces_nonempty(s.drop_last(), k);
    }
}

/// The list without its empty texts.
pub open spec fn nonempty(v: Seq<Seq<char>>) -> Seq<Seq<char>>
    decreases v.len(),
{
    if v.len() == 0 {
        v
    } else if v.last().len() == 0 {
        nonempty(v.drop_last())
    } else {
        nonempty(v.drop_last()).push(v.last())
    }
}

/// The runs of characters outside the class.
pub open spec fn runs(s: Seq<char>, k: CharClass) -> Seq<Seq<char>> {
    nonempty(pieces(s, k))
}

/// The words of a text: its runs of characters that are not white space.
pub open spec fn words(s: Seq<char>) -> Seq<Seq<char>> {
    runs(s, CharClass::White)
}

proof fn lemma_pieces_chars(s: Seq<char>, k: CharClass, p: int, i: int)
    requires
        0 <= p < pieces(s, k).len(),
        0 <= i < pieces(s, k)[p].len(),
    ensures
        s.contains(pieces(s, k)[p][i]),
    decreases s.len(),
{
    if s.len() > 0 {
        let before = pieces(s.drop_last(), k);
        let c = pieces(s, k)[p][i];
        lemma_pieces_nonempty(s.drop_last(), k);
        if p < before.len() && i < before[p].len() {
            lemma_pieces_chars(s.drop_last(), k, p, i);
            let j = choose|j: int| 0 <= j < s.drop_last().len() && s.drop_last()[j] == c;
            assert(s[j] == c);
        } else {
            assert(s[s.len() - 1] == c);
        }
    }
}

proof fn lemma_nonempty_among(v: Seq<Seq<char>>, p: int)
    requires
        0 <= p < nonempty(v).len(),
    ensures
        v.contains(nonempty(v)[p]),
    decreases v.len(),
{
    let before = nonempty(v.drop_last());
    let x = nonempty(v)[p];
    if p < before.len() {
        lemma_nonempty_among(v.drop_last(), p);
        let j = choose|j: int| 0 <= j < v.drop_last().len() && v.drop_last()[j] == x;
        assert(v[j] == x);
    } else {
        assert(v[v.len() - 1] == x);
    }
}

/// The words of a text are made of its characters.
pub proof fn lemma_words_chars(s: Seq<char>)
    ensures
        forall|p: int, i: int|
            0 <= p < words(s).len() && 0 <= i < words(s)[p].len() ==> s.contains(
                #[trigger] words(s)[p][i],
            ),
{
    assert forall|p: int, i: int| 0 <= p < words(s).len() && 0 <= i < words(s)[p].len() implies
        s.contains(#[trigger] words(s)[p][i]) by {
        let all = pieces(s, CharClass::White);
        lemma_nonempty_among(all, p);
        let q = choose|q: int| 0 <= q < all.len() && all[q] == words(s)[p];
        lemma_pieces_chars(s, CharClass::White, q, i);
    }
}

/// The pieces of `s` between the characters of the class.
pub fn split(s: &str, k: CharClass) -> (r: Vec<String>)
    ensures
        text::views(r@) == pieces(s@, k),
        r@.len() > 0,
{
    let v: Vec<char> = chars::to_chars(s);
    let mut out: Vec<String> = Vec::new();
    let mut cur: String = String::new();
    let mut i: usize = 0;
    assert(pieces(s@.take(0), k) =~= seq![Seq::<char>::empty()]);
    while i < v.len()
        invariant
            i <= v@.len(),
            v@ == s@,
            text::views(out@).push(cur@) == pieces(s@.take(i as int), k),
        decreases v@.len() - i,
    {
        proof {
            assert(s@.take(i + 1).drop_last() =~= s@.take(i as int));
        }
        let ghost before = text::views(out@);
        assert(before.push(cur@).drop_last() =~= before);
        if k.test(v[i]) {
            out.push(cur);
            cur = String::new();
            assert(text::views(out@) =~= before.push(text::views(out@).last()));
            assert(text::views(out@).push(cur@) =~= pieces(s@.take(i + 1), k));
        } else {
            cur.push(v[i]);
        }
        i += 1;
    }
    assert(s@.take(s@.len() as int) =~= s@);
    let ghost before = text::views(out@);
    out.push(cur);
    assert(text::views(out@) =~= before.push(out@.last()@));
    out
}

/// The non-empty strings of the list, in order.
pub fn keep_nonempty(v: Vec<String>) -> (r: Vec<String>)
    ensures
        text::views(r@) == nonempty(text::views(v@)),
{
    let mut out: Vec<String> = Vec::new();
    let mut i: usize = 0;
    while i < v.len()
        invariant
            i <= v@.len(),
            text::views(out@) == nonempty(text::views(v@).take(i as int)),
        decreases v@.len() - i,
    {
        assert(text::views(v@).take(i + 1).drop_last() =~= text::views(v@).take(i as int));
        let ghost before = text::views(out@);
        if !v[i].as_str().is_empty() {
            out.push(v[i].clone());
            assert(text::views(out@) =~= before.push(v@[i as int]@));
        }
        i += 1;
    }
    assert(text::views(v@).take(v@.len() as int) =~= text::views(v@));
    out
}

/// The runs of characters of `s` outside the class.
pub fn split_runs(s: &str, k: CharClass) -> (r: Vec<String>)
    ensures
        text::views(r@) == runs(s@, k),
{
    keep_nonempty(split(s, k))
}

/// The words of `s`.
pub fn split_words(s: &str) -> (r: Vec<String>)
    ensures
        text::views(r@) == words(s@),
{
    split_runs(s, CharClass::White)
}

/// `s` without the characters of the class at its front.
pub open spec fn trim_start(s: Seq<char>, k: CharClass) -> Seq<char>
    decreases s.len(),
{
    if s.len() > 0 && k.has(s[0]) {
        trim_start(s.drop_first(), k)
    } else {
        s
    }
}

/// `s` without the characters of the class at its back.
pub open spec fn trim_end(s: Seq<char>, k: CharClass) -> Seq<char>
    decreases s.len(),
{
    if s.len() > 0 && k.has(s.last()) {
        trim_end(s.drop_last(), k)
    } else {
        s
    }
}

/// `s` without the characters of the class at either end.
pub open spec fn trim(s: Seq<char>, k: CharClass) -> Seq<char> {
    trim_end(trim_start(s, k), k)
}

/// `s` without white space at either end.
pub open spec fn stripped(s: Seq<char>) -> Seq<char> {
    trim(s, CharClass::White)
}

fn front(v: &[char], k: CharClass) -> (i: usize)
    ensures
        i <= v@.len(),
        v@.skip(i as int) == trim_start(v@, k),
{
    let mut i: usize = 0;
    assert(v@.skip(0) =~= v@);
    while i < v.len() && k.test(v[i])
        invariant
            i <= v@.len(),
            trim_start(v@.skip(i as int), k) == trim_start(v@, k),
        decreases v@.len() - i,
    {
        assert(v@.skip(i as int).drop_first() =~= v@.skip(i + 1));
        i += 1;
    }
    i
}

fn back(v: &[char], k: CharClass) -> (n: usize)
    ensures
        n <= v@.len(),
        v@.take(n as int) == trim_end(v@, k),
{
    let mut n: usize = v.len();
    assert(v@.take(v@.len() as int) =~= v@);
    while n > 0 && k.test(v[n - 1])
        invariant
            n <= v@.len(),
            trim_end(v@.take(n as int), k) == trim_end(v@, k),
        decreases n,
    {
        assert(v@.take(n as int).drop_last() =~= v@.take(n - 1));
        n -= 1;
    }
    n
}

/// `s` without the characters of the class at its back.
pub fn trimmed_end(s: &str, k: CharClass) -> (r: String)
    ensures
        r@ == trim_end(s@, k),
{
    let v: Vec<char> = chars::to_chars(s);
    let n: usize = back(v.as_slice(), k);
    chars::from_chars(vstd::slice::slice_subrange(v.as_slice(), 0, n))
}

/// `s` without the characters of the class at either end.
pub fn trimmed(s: &str, k: CharClass) -> (r: String)
    ensures
        r@ == trim(s@, k),
{
    let v: Vec<char> = chars::to_chars(s);
    let i: usize = front(v.as_slice(), k);
    let rest: &[char] = vstd::slice::slice_subrange(v.as_slice(), i, v.len());
    assert(rest@ =~= v@.skip(i as int));
    let n: usize = back(rest, k);
    assert(rest@.subrange(0, n as int) =~= rest@.take(n as int));
    chars::from_chars(vstd::slice::slice_subrange(rest, 0, n))
}

/// `s` without white space at either end.
pub fn strip(s: &str) -> (r: String)
    ensures
        r@ == stripped(s@),
{
    trimmed(s, CharClass::White)
}

/// A line without the carriage return that ends it.
pub open spec fn without_cr(line: Seq<char>) -> Seq<char> {
    if line.len() > 0 && line.last() == '\r' {
        line.drop_last()
    } else {
        line
    }
}

/// The lines of a text: the pieces between the newlines, each that a newline
/// ends without its carriage return, and nothing after a final newline.
pub open spec fn lines(s: Seq<char>) -> Seq<Seq<char>> {
    let all = pieces(s, CharClass::Is('\n'));
    let ended = Seq::new((all.len() - 1) as nat, |i: int| without_cr(all[i]));
    if all.last().len() == 0 {
        ended
    } else {
        ended.push(all.last())
    }
}

fn cut_cr(s: &str) -> (r: String)
    ensures
        r@ == without_cr(s@),
{
    let v: Vec<char> = chars::to_chars(s);
    let n: usize = if v.len() > 0 && v[v.len() - 1] == '\r' {
        v.len() - 1
    } else {
        v.len()
    };
    assert(v@.subrange(0, n as int) =~= without_cr(s@));
    chars::from_chars(vstd::slice::slice_subrange(v.as_slice(), 0, n))
}

/// The lines of `s`.
pub fn split_lines(s: &str) -> (r: Vec<String>)
    ensures
        text::views(r@) == lines(s@),
{
    let all: Vec<String> = split(s, CharClass::Is('\n'));
    let ghost av = text::views(all@);
    let n: usize = all.len() - 1;
    let mut out: Vec<String> = Vec::new();
    let mut i: usize = 0;
    while i < n
        invariant
            i <= n,
            n == all@.len() - 1,
            av == text::views(all@),
            text::views(out@) == Seq::new(i as nat, |j: int| without_cr(av[j])),
        decreases n - i,
    {
        let line: String = cut_cr(all[i].as_str());
        let ghost before = text::views(out@);
        out.push(line);
        assert(text::views(out@) =~= before.push(line@));
        i += 1;
    }
    let ghost before = text::views(out@);
    if !all[n].as_str().is_empty() {
        out.push(all[n].clone());
        assert(text::views(out@) =~= before.push(all@[n as int]@));
    }
    out
}

/// The parts of `s` from `from` on between the occurrences of `pat`, taken
/// left to right and without overlap.
pub open spec fn parts_from(s: Seq<char>, pat: Seq<char>, from: int) -> Seq<Seq<char>>
    decreases s.len() - from,
{
    match find::index_from(s, pat, from) {
        Some(i) => if pat.len() > 0 && from <= i && i + pat.len() <= s.len() {
            seq![s.subrange(from, i)] + parts_from(s, pat, (i + pat.len()) as int)
        } else {
            seq![s.skip(from)]
        },
        None => seq![s.skip(from)],
    }
}

/// The parts of `s` between the occurrences of `pat`, empty ones kept.
pub open spec fn parts(s: Seq<char>, pat: Seq<char>) -> Seq<Seq<char>> {
    parts_from(s, pat, 0)
}

/// The parts of `s` between the occurrences of `pat`.
pub fn split_at(s: &str, pat: &str) -> (r: Vec<String>)
    requires
        pat@.len() > 0,
    ensures
        text::views(r@) == parts(s@, pat@),
{
    let v: Vec<char> = chars::to_chars(s);
    let p: Vec<char> = chars::to_chars(pat);
    let len: usize = v.len();
    let mut out: Vec<String> = Vec::new();
    let mut from: usize = 0;
    assert(text::views(out@) + parts_from(s@, pat@, 0) =~= parts(s@, pat@));
    loop
        invariant
            v@ == s@,
            p@ == pat@,
            pat@.len() > 0,
            from <= len,
            len == v@.len(),
            text::views(out@) + parts_from(s@, pat@, from as int) == parts(s@, pat@),
        decreases v@.len() - from,
    {
        let ghost before = text::views(out@);
        let ghost rest = parts_from(s@, pat@, from as int);
        match find::find_from(v.as_slice(), p.as_slice(), from) {
            Some(i) => {
                let part: String = chars::from_chars(
                    vstd::slice::slice_subrange(v.as_slice(), from, i),
                );
                out.push(part);
                assert(text::views(out@) =~= before.push(part@));
                from = i + p.len();
                assert(before + rest =~= text::views(out@) + parts_from(s@, pat@, from as int));
            },
            None => {
                let part: String = chars::from_chars(
                    vstd::slice::slice_subrange(v.as_slice(), from, len),
                );
                assert(part@ =~= s@.skip(from as int));
                out.push(part);
                assert(text::views(out@) =~= before + rest);
                return out;
            },
        }
    }
}

/// The bytes of the parts, each with a separator of `sep` bytes.
pub open spec fn spread(ps: Seq<Seq<char>>, sep: nat) -> nat
    decreases ps.len(),
{
    if ps.len() == 0 {
        0
    } else {
        spread(ps.drop_last(), sep) + chars::utf8_len(ps.last()) + sep
    }
}

proof fn lemma_spread_front(a: Seq<char>, ps: Seq<Seq<char>>, sep: nat)
    ensures
        spread(seq![a] + ps, sep) == chars::utf8_len(a) + sep + spread(ps, sep),
    decreases ps.len(),
{
    let all = seq![a] + ps;
    if ps.len() == 0 {
        reveal_with_fuel(spread, 2);
        assert(all.drop_last() =~= Seq::empty());
        assert(all.last() == a);
    } else {
        lemma_spread_front(a, ps.drop_last(), sep);
        assert(all.drop_last() =~= seq![a] + ps.drop_last());
        assert(all.last() == ps.last());
    }
}

/// The first parts take no more than all of them.
pub proof fn lemma_spread_take(ps: Seq<Seq<char>>, sep: nat, i: int)
    requires
        0 <= i <= ps.len(),
    ensures
        spread(ps.take(i), sep) <= spread(ps, sep),
    decreases ps.len(),
{
    if i == ps.len() {
        assert(ps.take(i) =~= ps);
    } else {
        lemma_spread_take(ps.drop_last(), sep, i);
        assert(ps.drop_last().take(i) =~= ps.take(i));
    }
}

proof fn lemma_parts_from_spread(s: Seq<char>, pat: Seq<char>, from: int)
    requires
        0 <= from <= s.len(),
        pat.len() > 0,
    ensures
        spread(parts_from(s, pat, from), chars::utf8_len(pat)) == chars::utf8_len(s.skip(from))
            + chars::utf8_len(pat),
    decreases s.len() - from,
{
    find::lemma_index_from(s, pat, from);
    let sep = chars::utf8_len(pat);
    match find::index_from(s, pat, from) {
        Some(i) => {
            let next = i + pat.len();
            lemma_parts_from_spread(s, pat, next);
            lemma_spread_front(s.subrange(from, i), parts_from(s, pat, next), sep);
            chars::lemma_utf8_len_concat(s.subrange(from, i) + pat, s.skip(next));
            chars::lemma_utf8_len_concat(s.subrange(from, i), pat);
            assert(s.skip(from) =~= s.subrange(from, i) + pat + s.skip(next)) by {
                assert(s.subrange(i, next) =~= pat);
            }
        },
        None => {
            lemma_spread_front(s.skip(from), Seq::empty(), sep);
            assert(seq![s.skip(from)] + Seq::<Seq<char>>::empty() =~= seq![s.skip(from)]);
        },
    }
}

/// The parts with their separators take as many bytes as the text and one
/// separator more.
pub proof fn lemma_parts_spread(s: Seq<char>, pat: Seq<char>)
    requires
        pat.len() > 0,
    ensures
        spread(parts(s, pat), chars::utf8_len(pat)) == chars::utf8_len(s) + chars::utf8_len(pat),
{
    lemma_parts_from_spread(s, pat, 0);
    assert(s.skip(0) =~= s);
}

proof fn lemma_trim_start_shorter(s: Seq<char>, k: CharClass)
    ensures
        chars::utf8_len(trim_start(s, k)) <= chars::utf8_len(s),
    decreases s.len(),
{
    if s.len() > 0 && k.has(s[0]) {
        lemma_trim_start_shorter(s.drop_first(), k);
        assert(s =~= seq![s[0]] + s.drop_first());
        chars::lemma_utf8_len_concat(seq![s[0]], s.drop_first());
    }
}

proof fn lemma_trim_end_shorter(s: Seq<char>, k: CharClass)
    ensures
        chars::utf8_len(trim_end(s, k)) <= chars::utf8_len(s),
    decreases s.len(),
{
    if s.len() > 0 && k.has(s.last()) {
        lemma_trim_end_shorter(s.drop_last(), k);
    }
}

/// A text without white space at its ends takes no more bytes.
pub proof fn lemma_stripped_shorter(s: Seq<char>)
    ensures
        chars::utf8_len(stripped(s)) <= chars::utf8_len(s),
{
    lemma_trim_start_shorter(s, CharClass::White);
    lemma_trim_end_shorter(trim_start(s, CharClass::White), CharClass::White);
}

/// Trimming takes characters of the class off both ends and no other: what is
/// left has none of them at its ends.
pub proof fn law_trim(s: Seq<char>, k: CharClass) -> (r: (int, int))
    ensures
        0 <= r.0 <= r.1 <= s.len(),
        trim(s, k) == s.subrange(r.0, r.1),
        forall|i: int| 0 <= i < r.0 ==> k.has(#[trigger] s[i]),
        forall|i: int| r.1 <= i < s.len() ==> k.has(#[trigger] s[i]),
        r.0 < r.1 ==> !k.has(s[r.0]) && !k.has(s[r.1 - 1]),
{
    let a = lemma_trim_start(s, k);
    let t = trim_start(s, k);
    let n = lemma_trim_end(t, k);
    assert(trim(s, k) =~= s.subrange(a, a + n));
    assert forall|i: int| a + n <= i < s.len() implies k.has(#[trigger] s[i]) by {
        assert(t[i - a] == s[i]);
    }
    if n > 0 {
        assert(t[n - 1] == s[a + n - 1]);
    }
    (a, a + n)
}

proof fn lemma_trim_start(s: Seq<char>, k: CharClass) -> (a: int)
    ensures
        0 <= a <= s.len(),
        trim_start(s, k) == s.skip(a),
        forall|i: int| 0 <= i < a ==> k.has(#[trigger] s[i]),
        a < s.len() ==> !k.has(s[a]),
    decreases s.len(),
{
    if s.len() > 0 && k.has(s[0]) {
        let t = s.drop_first();
        let a = lemma_trim_start(t, k);
        assert(t.skip(a) =~= s.skip(a + 1));
        assert forall|i: int| 0 <= i < a + 1 implies k.has(#[trigger] s[i]) by {
            if i > 0 {
                assert(t[i - 1] == s[i]);
            }
        }
        a + 1
    } else {
        assert(s.skip(0) =~= s);
        0
    }
}

/// Trimming at the back takes characters of the class off it and no other.
pub proof fn lemma_trim_end(s: Seq<char>, k: CharClass) -> (n: int)
    ensures
        0 <= n <= s.len(),
        trim_end(s, k) == s.take(n),
        forall|i: int| n <= i < s.len() ==> k.has(#[trigger] s[i]),
        n > 0 ==> !k.has(s[n - 1]),
    decreases s.len(),
{
    if s.len() > 0 && k.has(s.last()) {
        let t = s.drop_last();
        let n = lemma_trim_end(t, k);
        assert(t.take(n) =~= s.take(n));
        assert forall|i: int| n <= i < s.len() implies k.has(#[trigger] s[i]) by {
            if i < t.len() {
                assert(t[i] == s[i]);
            }
        }
        n
    } else {
        assert(s.take(s.len() as int) =~= s);
        s.len() as int
    }
}

/// A text in which no character is of the class is one piece, and a character
/// of the class parts the pieces before it from those behind it.
pub proof fn law_pieces(a: Seq<char>, c: char, b: Seq<char>, k: CharClass)
    ensures
        k.has(c) ==> pieces(a.push(c) + b, k) == pieces(a, k) + pieces(b, k),
        (forall|i: int| 0 <= i < a.len() ==> !k.has(#[trigger] a[i])) ==> pieces(a, k) == seq![a],
{
    if k.has(c) {
        lemma_pieces_apart(a, c, b, k);
    }
    if forall|i: int| 0 <= i < a.len() ==> !k.has(#[trigger] a[i]) {
        lemma_one_piece(a, k);
    }
}

proof fn lemma_pieces_apart(a: Seq<char>, c: char, b: Seq<char>, k: CharClass)
    requires
        k.has(c),
    ensures
        pieces(a.push(c) + b, k) == pieces(a, k) + pieces(b, k),
    decreases b.len(),
{
    let s = a.push(c) + b;
    lemma_pieces_nonempty(b, k);
    if b.len() == 0 {
        assert(s.drop_last() =~= a);
        assert(pieces(s, k) =~= pieces(a, k) + pieces(b, k));
    } else {
        let front = b.drop_last();
        lemma_pieces_apart(a, c, front, k);
        lemma_pieces_nonempty(front, k);
        assert(s.drop_last() =~= a.push(c) + front);
        assert(s.last() == b.last());
        assert(pieces(s, k) =~= pieces(a, k) + pieces(b, k));
    }
}

proof fn lemma_one_piece(a: Seq<char>, k: CharClass)
    requires
        forall|i: int| 0 <= i < a.len() ==> !k.has(#[trigger] a[i]),
    ensures
        pieces(a, k) == seq![a],
    decreases a.len(),
{
    if a.len() > 0 {
        let front = a.drop_last();
        assert forall|i: int| 0 <= i < front.len() implies !k.has(#[trigger] front[i]) by {
            assert(front[i] == a[i]);
        }
        lemma_one_piece(front, k);
        assert(!k.has(a[a.len() - 1]));
        assert(front.push(a.last()) =~= a);
        assert(pieces(a, k) =~= seq![a]);
    } else {
        assert(a =~= Seq::empty());
    }
}

/// Dropping the empty texts of two lists is dropping those of each.
pub proof fn lemma_nonempty_concat(v: Seq<Seq<char>>, w: Seq<Seq<char>>)
    ensures
        nonempty(v + w) == nonempty(v) + nonempty(w),
    decreases w.len(),
{
    if w.len() == 0 {
        assert(v + w =~= v);
        assert(nonempty(v) + nonempty(w) =~= nonempty(v));
    } else {
        lemma_nonempty_concat(v, w.drop_last());
        assert((v + w).drop_last() =~= v + w.drop_last());
        assert(nonempty(v + w) =~= nonempty(v) + nonempty(w));
    }
}

/// A text of characters outside the class is one run, unless it is empty, and a
/// character of the class parts the runs before it from those behind it.
pub proof fn law_runs(a: Seq<char>, c: char, b: Seq<char>, k: CharClass)
    ensures
        k.has(c) ==> runs(a.push(c) + b, k) == runs(a, k) + runs(b, k),
        (forall|i: int| 0 <= i < a.len() ==> !k.has(#[trigger] a[i])) ==> runs(a, k)
            == if a.len() == 0 {
            Seq::empty()
        } else {
            seq![a]
        },
{
    law_pieces(a, c, b, k);
    lemma_nonempty_concat(pieces(a, k), pieces(b, k));
    if forall|i: int| 0 <= i < a.len() ==> !k.has(#[trigger] a[i]) {
        assert(seq![a].drop_last() =~= Seq::empty());
        reveal_with_fuel(nonempty, 2);
        assert(runs(a, k) =~= if a.len() == 0 {
            Seq::empty()
        } else {
            seq![a]
        });
    }
}

/// The words of a text: white space parts the words before it from those behind
/// it, and what has none is one word, unless it is empty.
pub proof fn law_words(a: Seq<char>, c: char, b: Seq<char>)
    ensures
        chars::is_white(c) ==> words(a.push(c) + b) == words(a) + words(b),
        (forall|i: int| 0 <= i < a.len() ==> !chars::is_white(#[trigger] a[i])) ==> words(a)
            == if a.len() == 0 {
            Seq::empty()
        } else {
            seq![a]
        },
{
    law_runs(a, c, b, CharClass::White);
}

/// The lines of a text: a newline ends the line before it, without a carriage
/// return, and the lines behind it follow; what has no newline is one line,
/// unless it is empty.
pub proof fn law_lines(a: Seq<char>, b: Seq<char>)
    requires
        forall|i: int| 0 <= i < a.len() ==> #[trigger] a[i] != '\n',
    ensures
        lines(a) == if a.len() == 0 {
            Seq::empty()
        } else {
            seq![a]
        },
        lines(a.push('\n') + b) == seq![
            if a.len() > 0 && a.last() == '\r' {
                a.drop_last()
            } else {
                a
            },
        ] + lines(b),
{
    let k = CharClass::Is('\n');
    law_pieces(a, '\n', b, k);
    lemma_pieces_nonempty(b, k);
    assert(lines(a) =~= if a.len() == 0 {
        Seq::empty()
    } else {
        seq![a]
    });
    let all = pieces(a.push('\n') + b, k);
    assert(all == seq![a] + pieces(b, k));
    assert(all.last() == pieces(b, k).last());
    assert(lines(a.push('\n') + b) =~= seq![without_cr(a)] + lines(b));
}

proof fn lemma_parts_from(s: Seq<char>, pat: Seq<char>, from: int)
    requires
        0 <= from <= s.len(),
        pat.len() > 0,
    ensures
        parts_from(s, pat, from).len() > 0,
        edit::joined(parts_from(s, pat, from), pat) == s.skip(from),
        forall|k: int|
            0 <= k < parts_from(s, pat, from).len() ==> !find::occurs(
                #[trigger] parts_from(s, pat, from)[k],
                pat,
            ),
    decreases s.len() - from,
{
    find::lemma_index_from(s, pat, from);
    let all = parts_from(s, pat, from);
    match find::index_from(s, pat, from) {
        Some(i) => {
            let next = (i + pat.len()) as int;
            lemma_parts_from(s, pat, next);
            let rest = parts_from(s, pat, next);
            let first = s.subrange(from, i);
            assert(all == seq![first] + rest);
            edit::law_joined(seq![first], rest, pat);
            assert(s.subrange(i, next) =~= pat);
            assert(s.skip(from) =~= first + pat + s.skip(next));
            assert forall|k: int| 0 <= k < all.len() implies !find::occurs(
                #[trigger] all[k],
                pat,
            ) by {
                if k == 0 {
                    assert forall|j: int| !find::occurs_at(first, pat, j) by {
                        if find::occurs_at(first, pat, j) {
                            assert(s.subrange(from + j, from + j + pat.len()) =~= first.subrange(
                                j,
                                j + pat.len(),
                            ));
                            assert(find::occurs_at(s, pat, from + j));
                        }
                    }
                } else {
                    assert(all[k] == rest[k - 1]);
                }
            }
        },
        None => {
            let first = s.skip(from);
            assert(all =~= seq![first]);
            assert forall|j: int| !find::occurs_at(first, pat, j) by {
                if find::occurs_at(first, pat, j) {
                    assert(s.subrange(from + j, from + j + pat.len()) =~= first.subrange(
                        j,
                        j + pat.len(),
                    ));
                    assert(find::occurs_at(s, pat, from + j));
                }
            }
            assert forall|k: int| 0 <= k < all.len() implies !find::occurs(
                #[trigger] all[k],
                pat,
            ) by {
                assert(all[k] == first);
            }
        },
    }
}

/// The parts of a text hold no separator, and put together again with it they are
/// the text.
pub proof fn law_parts(s: Seq<char>, pat: Seq<char>)
    requires
        pat.len() > 0,
    ensures
        edit::joined(parts(s, pat), pat) == s,
        forall|k: int|
            0 <= k < parts(s, pat).len() ==> !find::occurs(#[trigger] parts(s, pat)[k], pat),
{
    lemma_parts_from(s, pat, 0);
    assert(s.skip(0) =~= s);
}

/// No text of the list is empty once the empty ones are out.
pub proof fn lemma_nonempty_filled(v: Seq<Seq<char>>)
    ensures
        forall|i: int| 0 <= i < nonempty(v).len() ==> (#[trigger] nonempty(v)[i]).len() > 0,
    decreases v.len(),
{
    if v.len() > 0 {
        lemma_nonempty_filled(v.drop_last());
        let before = nonempty(v.drop_last());
        assert forall|i: int| 0 <= i < nonempty(v).len() implies (#[trigger] nonempty(v)[i]).len()
            > 0 by {
            if i < before.len() {
                assert(nonempty(v)[i] == before[i]);
            }
        }
    }
}

/// Exactly the texts that are not empty are kept, in order.
pub proof fn law_nonempty(v: Seq<Seq<char>>) -> (ps: Seq<int>)
    ensures
        select::exactly(ps, v.len() as int, |i: int| v[i].len() > 0),
        nonempty(v) == Seq::new(ps.len(), |k: int| v[ps[k]]),
{
    let p = |i: int| v[i].len() > 0;
    let f = |n: int| nonempty(v.take(n));
    assert forall|n: int| 0 < n <= v.len() implies #[trigger] f(n) == if p(n - 1) {
        f(n - 1).push(v[n - 1])
    } else {
        f(n - 1)
    } by {
        assert(v.take(n).drop_last() =~= v.take(n - 1));
    }
    assert(v.take(0) =~= Seq::empty());
    assert(v.take(v.len() as int) =~= v);
    select::lemma_exactly(v.len() as int, p, |i: int| v[i], f)
}

} // verus!
