//! Searching for a pattern in a text.
use vstd::prelude::*;

use crate::text::chars;
use crate::text::chars::CharClass;

verus! {

/// `pat` stands in `s` at index `i`.
pub open spec fn occurs_at(s: Seq<char>, pat: Seq<char>, i: int) -> bool {
    &&& 0 <= i
    &&& i + pat.len() <= s.len()
    &&& s.subrange(i, i + pat.len()) == pat
}

/// `pat` stands somewhere in `s`.
pub open spec fn occurs(s: Seq<char>, pat: Seq<char>) -> bool {
    exists|i: int| occurs_at(s, pat, i)
}

/// `i` is the first place at or after `from` where `pat` stands in `s`.
pub open spec fn first_at(s: Seq<char>, pat: Seq<char>, from: int, i: int) -> bool {
    &&& from <= i
    &&& occurs_at(s, pat, i)
    &&& forall|j: int| from <= j < i ==> !occurs_at(s, pat, j)
}

/// The first place at or after `from` where `pat` stands in `s`.
pub open spec fn index_from(s: Seq<char>, pat: Seq<char>, from: int) -> Option<int>
    decreases s.len() + 1 - from,
{
    if from + pat.len() > s.len() {
        None
    } else if occurs_at(s, pat, from) {
        Some(from)
    } else {
        index_from(s, pat, from + 1)
    }
}

/// The first place where `pat` stands in `s`.
pub open spec fn index_of(s: Seq<char>, pat: Seq<char>) -> Option<int> {
    index_from(s, pat, 0)
}

pub proof fn lemma_index_from(s: Seq<char>, pat: Seq<char>, from: int)
    requires
        0 <= from,
    ensures
        match index_from(s, pat, from) {
            Some(i) => first_at(s, pat, from, i),
            None => forall|j: int| from <= j ==> !occurs_at(s, pat, j),
        },
    decreases s.len() + 1 - from,
{
    if from + pat.len() > s.len() {
    } else if occurs_at(s, pat, from) {
    } else {
        lemma_index_from(s, pat, from + 1);
    }
}

/// A pattern occurs exactly when it has a first place.
pub proof fn lemma_has_index(s: Seq<char>, pat: Seq<char>)
    ensures
        occurs(s, pat) <==> index_of(s, pat) is Some,
        index_of(s, pat) matches Some(i) ==> first_at(s, pat, 0, i),
{
    lemma_index_from(s, pat, 0);
    if occurs(s, pat) {
        let i = choose|i: int| occurs_at(s, pat, i);
        assert(occurs_at(s, pat, i));
    }
}

/// The first place determines `index_from`.
pub proof fn lemma_first_at_unique(s: Seq<char>, pat: Seq<char>, from: int, i: int)
    requires
        0 <= from,
        first_at(s, pat, from, i),
    ensures
        index_from(s, pat, from) == Some(i),
{
    lemma_index_from(s, pat, from);
    assert(occurs_at(s, pat, i));
}

/// Whether `pat` stands in `s` at `i`.
pub fn matches_at(s: &[char], pat: &[char], i: usize) -> (r: bool)
    ensures
        r == occurs_at(s@, pat@, i as int),
{
    let n: usize = s.len();
    if pat.len() > n || i > n - pat.len() {
        return false;
    }
    let mut k: usize = 0;
    while k < pat.len()
        invariant
            n == s@.len(),
            k <= pat@.len(),
            i + pat@.len() <= s@.len(),
            forall|j: int| 0 <= j < k ==> s@[i + j] == pat@[j],
        decreases pat@.len() - k,
    {
        if s[i + k] != pat[k] {
            assert(s@.subrange(i as int, i + pat@.len())[k as int] != pat@[k as int]);
            return false;
        }
        k += 1;
    }
    assert(s@.subrange(i as int, i + pat@.len()) =~= pat@);
    true
}

/// The first place at or after `from` where `pat` stands in `s`.
pub fn find_from(s: &[char], pat: &[char], from: usize) -> (r: Option<usize>)
    ensures
        match r {
            Some(i) => index_from(s@, pat@, from as int) == Some(i as int) && i + pat@.len()
                <= s@.len() && i >= from && occurs_at(s@, pat@, i as int),
            None => index_from(s@, pat@, from as int) is None,
        },
{
    if pat.len() > s.len() {
        return None;
    }
    let last: usize = s.len() - pat.len();
    let mut i: usize = from;
    while i < last
        invariant
            last == s@.len() - pat@.len(),
            from <= i,
            index_from(s@, pat@, from as int) == index_from(s@, pat@, i as int),
        decreases last - i,
    {
        if matches_at(s, pat, i) {
            return Some(i);
        }
        i += 1;
    }
    if i == last && matches_at(s, pat, i) {
        Some(i)
    } else {
        proof {
            reveal_with_fuel(index_from, 2);
        }
        None
    }
}

/// The first place where `pat` stands in `s`.
pub fn find(s: &[char], pat: &[char]) -> (r: Option<usize>)
    ensures
        match r {
            Some(i) => index_of(s@, pat@) == Some(i as int) && i + pat@.len() <= s@.len()
                && occurs_at(s@, pat@, i as int),
            None => index_of(s@, pat@) is None,
        },
{
    find_from(s, pat, 0)
}

/// Whether `pat` stands somewhere in `s`.
pub fn contains(s: &str, pat: &str) -> (r: bool)
    ensures
        r == occurs(s@, pat@),
{
    let sv: Vec<char> = chars::to_chars(s);
    let pv: Vec<char> = chars::to_chars(pat);
    proof {
        lemma_has_index(s@, pat@);
    }
    match find(sv.as_slice(), pv.as_slice()) {
        Some(_) => true,
        None => false,
    }
}

/// One of the patterns of a table stands somewhere in `s`.
pub open spec fn occurs_any(s: Seq<char>, table: Seq<&str>) -> bool {
    exists|k: int| 0 <= k < table.len() && occurs(s, #[trigger] table[k]@)
}

/// Whether one of the patterns stands somewhere in `s`.
pub fn contains_any(s: &str, table: &[&str]) -> (r: bool)
    ensures
        r == occurs_any(s@, table@),
{
    let mut k: usize = 0;
    while k < table.len()
        invariant
            k <= table@.len(),
            forall|j: int| 0 <= j < k ==> !occurs(s@, #[trigger] table@[j]@),
        decreases table@.len() - k,
    {
        let word: &str = table[k];
        assert(word@ == table@[k as int]@);
        if contains(s, word) {
            return true;
        }
        k += 1;
    }
    false
}

/// `s` begins with `pat`.
pub open spec fn begins(s: Seq<char>, pat: Seq<char>) -> bool {
    occurs_at(s, pat, 0)
}

/// Whether `s` begins with `pat`.
pub fn starts_with(s: &str, pat: &str) -> (r: bool)
    ensures
        r == begins(s@, pat@),
{
    let sv: Vec<char> = chars::to_chars(s);
    let pv: Vec<char> = chars::to_chars(pat);
    matches_at(sv.as_slice(), pv.as_slice(), 0)
}

/// `s` ends with `pat`.
pub open spec fn ends(s: Seq<char>, pat: Seq<char>) -> bool {
    occurs_at(s, pat, s.len() - pat.len())
}

/// Whether `s` ends with `pat`.
pub fn ends_with(s: &str, pat: &str) -> (r: bool)
    ensures
        r == ends(s@, pat@),
{
    let sv: Vec<char> = chars::to_chars(s);
    let pv: Vec<char> = chars::to_chars(pat);
    if pv.len() > sv.len() {
        return false;
    }
    matches_at(sv.as_slice(), pv.as_slice(), sv.len() - pv.len())
}

/// The last index of a character of the class, if there is one.
pub open spec fn last_index(s: Seq<char>, k: CharClass) -> Option<int>
    decreases s.len(),
{
    if s.len() == 0 {
        None
    } else if k.has(s.last()) {
        Some(s.len() - 1)
    } else {
        last_index(s.drop_last(), k)
    }
}

/// The last index of a character of the class.
pub fn rfind(s: &[char], k: CharClass) -> (r: Option<usize>)
    ensures
        match r {
            Some(i) => last_index(s@, k) == Some(i as int) && i < s@.len() && k.has(s@[i as int]),
            None => last_index(s@, k) is None,
        },
{
    let mut n: usize = s.len();
    assert(s@.take(s@.len() as int) =~= s@);
    while n > 0
        invariant
            n <= s@.len(),
            last_index(s@, k) == last_index(s@.take(n as int), k),
        decreases n,
    {
        assert(s@.take(n as int).drop_last() =~= s@.take(n - 1));
        n -= 1;
        if k.test(s[n]) {
            return Some(n);
        }
    }
    None
}

/// The first index of a character of the class, at or after `from`.
pub open spec fn first_index(s: Seq<char>, k: CharClass, from: int) -> Option<int>
    decreases s.len() - from,
{
    if from >= s.len() {
        None
    } else if k.has(s[from]) {
        Some(from)
    } else {
        first_index(s, k, from + 1)
    }
}

/// The first index of a character of the class, at or after `from`.
pub fn find_class(s: &[char], k: CharClass, from: usize) -> (r: Option<usize>)
    ensures
        match r {
            Some(i) => first_index(s@, k, from as int) == Some(i as int) && from <= i < s@.len()
                && k.has(s@[i as int]),
            None => first_index(s@, k, from as int) is None,
        },
{
    let mut i: usize = from;
    while i < s.len()
        invariant
            from <= i,
            first_index(s@, k, from as int) == first_index(s@, k, i as int),
        decreases s@.len() - i,
    {
        if k.test(s[i]) {
            return Some(i);
        }
        i += 1;
    }
    None
}

/// Some character of `s` is in the class.
pub open spec fn any_in(s: Seq<char>, k: CharClass) -> bool {
    exists|i: int| 0 <= i < s.len() && k.has(#[trigger] s[i])
}

/// Whether some character of `s` is in the class.
pub fn contains_class(s: &str, k: CharClass) -> (r: bool)
    ensures
        r == any_in(s@, k),
{
    let v: Vec<char> = chars::to_chars(s);
    let mut i: usize = 0;
    while i < v.len()
        invariant
            i <= v@.len(),
            v@ == s@,
            forall|j: int| 0 <= j < i ==> !k.has(#[trigger] v@[j]),
        decreases v@.len() - i,
    {
        if k.test(v[i]) {
            return true;
        }
        i += 1;
    }
    false
}

/// How many characters of `s` are in the class.
pub open spec fn count_in(s: Seq<char>, k: CharClass) -> nat
    decreases s.len(),
{
    if s.len() == 0 {
        0
    } else {
        count_in(s.drop_last(), k) + if k.has(s.last()) {
            1nat
        } else {
            0nat
        }
    }
}

/// How many characters of `s` are in the class.
pub fn count_class(s: &[char], k: CharClass) -> (n: usize)
    ensures
        n == count_in(s@, k),
        n <= s@.len(),
{
    let mut n: usize = 0;
    let mut i: usize = 0;
    while i < s.len()
        invariant
            i <= s@.len(),
            n <= i,
            n == count_in(s@.take(i as int), k),
        decreases s@.len() - i,
    {
        assert(s@.take(i + 1).drop_last() =~= s@.take(i as int));
        if k.test(s[i]) {
            n += 1;
        }
        i += 1;
    }
    assert(s@.take(s@.len() as int) =~= s@);
    n
}

/// How often `pat` stands in `s` from `from` on, left to right and without
/// overlap.
pub open spec fn count_from(s: Seq<char>, pat: Seq<char>, from: int) -> nat
    decreases s.len() - from,
{
    if pat.len() == 0 || from + pat.len() > s.len() {
        0
    } else if occurs_at(s, pat, from) {
        1 + count_from(s, pat, from + pat.len())
    } else {
        count_from(s, pat, from + 1)
    }
}

/// How often `pat` stands in `s`, left to right and without overlap.
pub fn count_matches(s: &[char], pat: &[char]) -> (n: usize)
    ensures
        n == count_from(s@, pat@, 0),
{
    if pat.len() == 0 || pat.len() > s.len() {
        return 0;
    }
    let end: usize = s.len();
    let last: usize = end - pat.len();
    let mut n: usize = 0;
    let mut i: usize = 0;
    while i <= last
        invariant
            end == s@.len(),
            0 < pat@.len() <= s@.len(),
            last == s@.len() - pat@.len(),
            n <= i <= s@.len(),
            count_from(s@, pat@, 0) == n + count_from(s@, pat@, i as int),
        decreases s@.len() + 1 - i,
    {
        if matches_at(s, pat, i) {
            n += 1;
            i += pat.len();
        } else {
            i += 1;
        }
    }
    n
}

/// Whether two strings hold the same text.
pub fn same(a: &str, b: &str) -> (r: bool)
    ensures
        r == (a@ == b@),
{
    let av: Vec<char> = chars::to_chars(a);
    let bv: Vec<char> = chars::to_chars(b);
    if av.len() != bv.len() {
        return false;
    }
    let mut i: usize = 0;
    while i < av.len()
        invariant
            i <= av@.len(),
            av@.len() == bv@.len(),
            av@ == a@,
            bv@ == b@,
            forall|j: int| 0 <= j < i ==> av@[j] == bv@[j],
        decreases av@.len() - i,
    {
        if av[i] != bv[i] {
            return false;
        }
        i += 1;
    }
    assert(av@ =~= bv@);
    true
}

/// One of the entries of a table is `s`.
pub open spec fn is_any(s: Seq<char>, table: Seq<&str>) -> bool {
    exists|k: int| 0 <= k < table.len() && s == #[trigger] table[k]@
}

/// Whether `s` is one of the entries of a table.
pub fn same_as_any(s: &str, table: &[&str]) -> (r: bool)
    ensures
        r == is_any(s@, table@),
{
    let mut k: usize = 0;
    while k < table.len()
        invariant
            k <= table@.len(),
            forall|j: int| 0 <= j < k ==> s@ != #[trigger] table@[j]@,
        decreases table@.len() - k,
    {
        let word: &str = table[k];
        assert(word@ == table@[k as int]@);
        if same(s, word) {
            return true;
        }
        k += 1;
    }
    false
}

/// Occurrences are counted from one to the next: one for the first, and those
/// behind it; none where there is none.
pub proof fn law_count(s: Seq<char>, pat: Seq<char>, i: int)
    requires
        pat.len() > 0,
    ensures
        first_at(s, pat, 0, i) ==> count_from(s, pat, 0) == 1 + count_from(
            s.skip((i + pat.len()) as int),
            pat,
            0,
        ),
        !occurs(s, pat) ==> count_from(s, pat, 0) == 0,
{
    if first_at(s, pat, 0, i) {
        lemma_count_first(s, pat, 0, i);
        lemma_count_skip(s, pat, (i + pat.len()) as int, (i + pat.len()) as int);
    }
    if !occurs(s, pat) {
        lemma_count_none(s, pat, 0);
    }
}

proof fn lemma_count_first(s: Seq<char>, pat: Seq<char>, from: int, i: int)
    requires
        0 <= from <= i,
        pat.len() > 0,
        first_at(s, pat, from, i),
    ensures
        count_from(s, pat, from) == 1 + count_from(s, pat, (i + pat.len()) as int),
    decreases i - from,
{
    if from < i {
        assert(!occurs_at(s, pat, from));
        lemma_count_first(s, pat, from + 1, i);
    }
}

proof fn lemma_count_skip(s: Seq<char>, pat: Seq<char>, from: int, n: int)
    requires
        0 <= n <= from,
        n <= s.len(),
        pat.len() > 0,
    ensures
        count_from(s, pat, from) == count_from(s.skip(n), pat, from - n),
    decreases s.len() - from,
{
    if from + pat.len() <= s.len() {
        let t = s.skip(n);
        assert(s.subrange(from, (from + pat.len()) as int) =~= t.subrange(
            from - n,
            (from - n + pat.len()) as int,
        ));
        if occurs_at(s, pat, from) {
            lemma_count_skip(s, pat, (from + pat.len()) as int, n);
        } else {
            lemma_count_skip(s, pat, from + 1, n);
        }
    }
}

proof fn lemma_count_none(s: Seq<char>, pat: Seq<char>, from: int)
    requires
        0 <= from,
        forall|j: int| !occurs_at(s, pat, j),
    ensures
        count_from(s, pat, from) == 0,
    decreases s.len() - from,
{
    if pat.len() > 0 && from + pat.len() <= s.len() {
        lemma_count_none(s, pat, from + 1);
    }
}

/// The first index from a place on: a character of the class, with none before it;
/// there is none only where no character is of the class.
pub proof fn law_first_index(s: Seq<char>, k: CharClass, from: int)
    requires
        0 <= from,
    ensures
        match first_index(s, k, from) {
            Some(i) => from <= i < s.len() && k.has(s[i]) && forall|j: int|
                from <= j < i ==> !k.has(#[trigger] s[j]),
            None => forall|j: int| from <= j < s.len() ==> !k.has(#[trigger] s[j]),
        },
    decreases s.len() - from,
{
    if from < s.len() {
        law_first_index(s, k, from + 1);
    }
}

/// The last index: a character of the class, with none behind it; there is none only
/// where no character is of the class.
pub proof fn law_last_index(s: Seq<char>, k: CharClass)
    ensures
        match last_index(s, k) {
            Some(i) => 0 <= i < s.len() && k.has(s[i]) && forall|j: int|
                i < j < s.len() ==> !k.has(#[trigger] s[j]),
            None => forall|j: int| 0 <= j < s.len() ==> !k.has(#[trigger] s[j]),
        },
    decreases s.len(),
{
    if s.len() > 0 {
        law_last_index(s.drop_last(), k);
        assert(forall|j: int| 0 <= j < s.len() - 1 ==> s.drop_last()[j] == #[trigger] s[j]);
    }
}

/// The characters of a class are counted one by one.
pub proof fn law_count_in(s: Seq<char>, c: char, k: CharClass)
    ensures
        count_in(Seq::empty(), k) == 0,
        k.has(c) ==> count_in(s.push(c), k) == count_in(s, k) + 1,
        !k.has(c) ==> count_in(s.push(c), k) == count_in(s, k),
{
    assert(s.push(c).drop_last() =~= s);
}

} // verus!
