//! Building texts: joining, replacing, cutting to length.
use vstd::prelude::*;

use crate::text::chars;
use crate::text::find;
use crate::text;

verus! {

/// The parts one after the other, with `sep` between them.
pub open spec fn joined(parts: Seq<Seq<char>>, sep: Seq<char>) -> Seq<char>
    decreases parts.len(),
{
    if parts.len() == 0 {
        Seq::empty()
    } else if parts.len() == 1 {
        parts[0]
    } else {
        joined(parts.drop_last(), sep) + sep + parts.last()
    }
}

/// The parts one after the other, with `sep` between them.
pub fn join(parts: &[String], sep: &str) -> (r: String)
    ensures
        r@ == joined(text::views(parts@), sep@),
{
    let mut out: String = String::new();
    let mut i: usize = 0;
    while i < parts.len()
        invariant
            i <= parts@.len(),
            out@ == joined(text::views(parts@).take(i as int), sep@),
        decreases parts@.len() - i,
    {
        assert(text::views(parts@).take(i + 1).drop_last() =~= text::views(parts@).take(i as int));
        if i > 0 {
            out.append(sep);
        }
        out.append(parts[i].as_str());
        i += 1;
    }
    assert(text::views(parts@).take(parts@.len() as int) =~= text::views(parts@));
    out
}

/// A joined text is made of the characters of its parts and of the separator.
pub proof fn lemma_joined_chars(parts: Seq<Seq<char>>, sep: Seq<char>, i: int)
    requires
        0 <= i < joined(parts, sep).len(),
    ensures
        ({
            let c = joined(parts, sep)[i];
            sep.contains(c) || exists|p: int|
                0 <= p < parts.len() && (#[trigger] parts[p]).contains(c)
        }),
    decreases parts.len(),
{
    let c = joined(parts, sep)[i];
    if parts.len() == 1 {
        assert(parts[0][i] == c);
        assert(parts[0].contains(c));
    } else {
        let front = joined(parts.drop_last(), sep);
        if i < front.len() {
            lemma_joined_chars(parts.drop_last(), sep, i);
            if !sep.contains(c) {
                let p = choose|p: int|
                    0 <= p < parts.drop_last().len() && (#[trigger] parts.drop_last()[p]).contains(
                        c,
                    );
                assert(parts[p] == parts.drop_last()[p]);
                assert(parts[p].contains(c));
            }
        } else if i < front.len() + sep.len() {
            assert(sep[i - front.len()] == c);
        } else {
            let last = parts[parts.len() - 1];
            assert(last[i - front.len() - sep.len()] == c);
            assert(last.contains(c));
        }
    }
}

/// `s` from `from` on, with every occurrence of `pat`, taken left to right
/// and without overlap, replaced by `to`.
pub open spec fn replaced_from(s: Seq<char>, pat: Seq<char>, to: Seq<char>, from: int) -> Seq<char>
    decreases s.len() - from,
{
    if from >= s.len() {
        Seq::empty()
    } else if pat.len() > 0 && find::occurs_at(s, pat, from) {
        to + replaced_from(s, pat, to, from + pat.len())
    } else {
        seq![s[from]] + replaced_from(s, pat, to, from + 1)
    }
}

/// `s` with every occurrence of `pat` replaced by `to`; an empty pattern
/// counts as standing nowhere.
pub open spec fn replaced(s: Seq<char>, pat: Seq<char>, to: Seq<char>) -> Seq<char> {
    replaced_from(s, pat, to, 0)
}

/// `s` with every occurrence of `pat` replaced by `to`.
pub fn replace(s: &str, pat: &str, to: &str) -> (r: String)
    ensures
        r@ == replaced(s@, pat@, to@),
{
    let sv: Vec<char> = chars::to_chars(s);
    let pv: Vec<char> = chars::to_chars(pat);
    let mut out: String = String::new();
    let mut i: usize = 0;
    while i < sv.len()
        invariant
            i <= sv@.len(),
            sv@ == s@,
            pv@ == pat@,
            out@ + replaced_from(s@, pat@, to@, i as int) == replaced(s@, pat@, to@),
        decreases sv@.len() - i,
    {
        let ghost before = out@;
        if pv.len() > 0 && find::matches_at(sv.as_slice(), pv.as_slice(), i) {
            out.append(to);
            assert(out@ + replaced_from(s@, pat@, to@, i + pat@.len()) =~= before + (to@
                + replaced_from(s@, pat@, to@, i + pat@.len())));
            i += pv.len();
        } else {
            out.push(sv[i]);
            assert(out@ + replaced_from(s@, pat@, to@, i + 1) =~= before + (seq![s@[i as int]]
                + replaced_from(s@, pat@, to@, i + 1)));
            i += 1;
        }
    }
    assert(out@ + Seq::<char>::empty() =~= out@);
    out
}

/// The first `n` characters of `s`, or all of it where it is shorter.
pub open spec fn first_chars(s: Seq<char>, n: int) -> Seq<char> {
    if n < s.len() {
        s.take(n)
    } else {
        s
    }
}

/// The first `n` characters of `s`.
pub fn take_chars(s: &str, n: usize) -> (r: String)
    ensures
        r@ == first_chars(s@, n as int),
{
    let v: Vec<char> = chars::to_chars(s);
    if n < v.len() {
        chars::from_chars(vstd::slice::slice_subrange(v.as_slice(), 0, n))
    } else {
        chars::from_chars(v.as_slice())
    }
}

/// The characters of `s` from `i` up to `j`.
pub fn slice(s: &str, i: usize, j: usize) -> (r: String)
    requires
        i <= j <= s@.len(),
    ensures
        r@ == s@.subrange(i as int, j as int),
{
    let v: Vec<char> = chars::to_chars(s);
    chars::from_chars(vstd::slice::slice_subrange(v.as_slice(), i, j))
}

/// The number of characters of `s`.
pub fn char_count(s: &str) -> (n: usize)
    ensures
        n == s@.len(),
{
    let v: Vec<char> = chars::to_chars(s);
    v.len()
}

/// A new string with the text of `s`.
pub fn owned(s: &str) -> (r: String)
    ensures
        r@ == s@,
{
    s.to_owned()
}

/// The texts of `a` and `b`, one after the other.
pub fn concat2(a: &str, b: &str) -> (r: String)
    ensures
        r@ == a@ + b@,
{
    let mut out: String = owned(a);
    out.append(b);
    out
}

/// The texts of `a`, `b` and `c`, one after the other.
pub fn concat3(a: &str, b: &str, c: &str) -> (r: String)
    ensures
        r@ == a@ + b@ + c@,
{
    let mut out: String = concat2(a, b);
    out.append(c);
    out
}

/// Joining lists and then joining these texts is joining all parts; one part is
/// left as it is, and no part is no text.
pub proof fn law_joined(ps: Seq<Seq<char>>, qs: Seq<Seq<char>>, sep: Seq<char>)
    ensures
        ps.len() > 0 && qs.len() > 0 ==> joined(ps + qs, sep) == joined(ps, sep) + sep + joined(
            qs,
            sep,
        ),
        ps.len() == 1 ==> joined(ps, sep) == ps[0],
        ps.len() == 0 ==> joined(ps, sep).len() == 0,
    decreases qs.len(),
{
    if ps.len() > 0 && qs.len() > 0 {
        let all = ps + qs;
        assert(all.drop_last() =~= ps + qs.drop_last());
        assert(all.last() == qs.last());
        if qs.len() == 1 {
            assert(all.drop_last() =~= ps);
        } else {
            law_joined(ps, qs.drop_last(), sep);
            assert(joined(all, sep) =~= joined(ps, sep) + sep + joined(qs, sep));
        }
    }
}

/// Every part stands in the joined text.
pub proof fn law_part_stands(parts: Seq<Seq<char>>, sep: Seq<char>, i: int) -> (at: int)
    requires
        0 <= i < parts.len(),
    ensures
        0 <= at,
        at + parts[i].len() <= joined(parts, sep).len(),
        joined(parts, sep).subrange(at, (at + parts[i].len()) as int) == parts[i],
    decreases parts.len(),
{
    let all = joined(parts, sep);
    if parts.len() == 1 {
        assert(all.subrange(0, all.len() as int) =~= parts[0]);
        0
    } else {
        let front = joined(parts.drop_last(), sep);
        if i < parts.len() - 1 {
            let at = law_part_stands(parts.drop_last(), sep, i);
            assert(all.subrange(at, (at + parts[i].len()) as int) =~= front.subrange(
                at,
                (at + parts[i].len()) as int,
            ));
            at
        } else {
            let at = (front.len() + sep.len()) as int;
            assert(all.subrange(at, all.len() as int) =~= parts[i]);
            at
        }
    }
}

proof fn lemma_replaced_from(s: Seq<char>, pat: Seq<char>, to: Seq<char>, from: int, i: int)
    requires
        0 <= from <= i,
        pat.len() > 0,
        find::first_at(s, pat, from, i),
    ensures
        replaced_from(s, pat, to, from) == s.subrange(from, i) + to + replaced_from(
            s,
            pat,
            to,
            (i + pat.len()) as int,
        ),
    decreases i - from,
{
    if from == i {
        assert(s.subrange(from, i) + to =~= to);
    } else {
        assert(!find::occurs_at(s, pat, from));
        lemma_replaced_from(s, pat, to, from + 1, i);
        assert(seq![s[from]] + (s.subrange(from + 1, i) + to + replaced_from(
            s,
            pat,
            to,
            (i + pat.len()) as int,
        )) =~= s.subrange(from, i) + to + replaced_from(s, pat, to, (i + pat.len()) as int));
    }
}

proof fn lemma_replaced_skip(s: Seq<char>, pat: Seq<char>, to: Seq<char>, from: int, n: int)
    requires
        0 <= n <= from,
        n <= s.len(),
    ensures
        replaced_from(s, pat, to, from) == replaced_from(s.skip(n), pat, to, from - n),
    decreases s.len() - from,
{
    if from < s.len() {
        let t = s.skip(n);
        assert(find::occurs_at(s, pat, from) == find::occurs_at(t, pat, from - n)) by {
            if from + pat.len() <= s.len() {
                assert(s.subrange(from, (from + pat.len()) as int) =~= t.subrange(
                    from - n,
                    (from - n + pat.len()) as int,
                ));
            }
        }
        if pat.len() > 0 && find::occurs_at(s, pat, from) {
            lemma_replaced_skip(s, pat, to, (from + pat.len()) as int, n);
        } else {
            lemma_replaced_skip(s, pat, to, from + 1, n);
        }
    }
}

proof fn lemma_nothing_replaced(s: Seq<char>, pat: Seq<char>, to: Seq<char>, from: int)
    requires
        0 <= from,
        forall|j: int| from <= j ==> !find::occurs_at(s, pat, j),
    ensures
        from <= s.len() ==> replaced_from(s, pat, to, from) == s.skip(from),
    decreases s.len() - from,
{
    if from < s.len() {
        lemma_nothing_replaced(s, pat, to, from + 1);
        assert(!find::occurs_at(s, pat, from));
        assert(seq![s[from]] + s.skip(from + 1) =~= s.skip(from));
    } else if from == s.len() {
        assert(s.skip(from) =~= Seq::empty());
    }
}

/// Replacing goes from one occurrence to the next: what stands before the first
/// is left as it is, the occurrence gives way, and the rest is treated alike.
pub proof fn law_replaced(s: Seq<char>, pat: Seq<char>, to: Seq<char>, i: int)
    requires
        pat.len() > 0,
    ensures
        find::first_at(s, pat, 0, i) ==> replaced(s, pat, to) == s.take(i) + to + replaced(
            s.skip((i + pat.len()) as int),
            pat,
            to,
        ),
        !find::occurs(s, pat) ==> replaced(s, pat, to) == s,
{
    if find::first_at(s, pat, 0, i) {
        lemma_replaced_from(s, pat, to, 0, i);
        lemma_replaced_skip(s, pat, to, (i + pat.len()) as int, (i + pat.len()) as int);
        assert(s.subrange(0, i) =~= s.take(i));
    }
    if !find::occurs(s, pat) {
        lemma_nothing_replaced(s, pat, to, 0);
        assert(s.skip(0) =~= s);
    }
}

} // verus!
