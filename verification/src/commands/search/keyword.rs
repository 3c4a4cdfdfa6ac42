//! Keywords of a query: stop words, compound terms, n-grams of Chinese,
//! Japanese and Korean text, and the snippet around a match.
use vstd::prelude::*;

use crate::select;
use crate::text;
use crate::text::chars;
use crate::text::chars::CharClass;
use crate::text::edit;
use crate::text::find;
use crate::text::split;

verus! {

/// Words that say nothing about what is looked for: verbs of searching,
/// pronouns, prepositions, fillers, general nouns and comparisons.
pub const STOP_WORDS: [&'static str; 140] = [
    "tìm", "kiếm", "tìm kiếm", "cho", "giúp", "xem", "mở", "lấy", "tra", "tra cứu", "hiện",
    "hiển thị", "liệt kê", "show", "find", "search", "list", "tạo", "viết", "phân tích",
    "tổng hợp", "báo cáo", "report", "cần", "muốn", "nên", "tôi", "tao", "mình", "bạn", "nó",
    "chúng", "ta", "của", "và", "với", "để", "từ", "trong", "ở", "về", "cho", "đến", "bằng",
    "hay", "hoặc", "cùng", "nhưng", "mà", "vì", "nên", "do", "bởi", "này", "đó", "kia", "các",
    "những", "một", "mỗi", "mọi", "toàn bộ", "nào", "gì", "đâu", "sao", "bao nhiêu", "là", "có",
    "được", "bị", "đã", "đang", "sẽ", "rồi", "chưa", "thì", "cũng", "còn", "lại", "ra", "lên",
    "xuống", "file", "tài liệu", "tập tin", "văn bản", "document", "doc", "nội dung",
    "thông tin", "dữ liệu", "data", "liên quan", "chứa", "bao gồm", "thuộc", "quan", "theo",
    "tất cả", "hết", "nhiều", "ít", "mới", "cũ", "hãy", "vui lòng", "xin", "nhờ", "ơi",
    "lớn hơn", "nhỏ hơn", "cao hơn", "thấp hơn", "nhiều hơn", "ít hơn", "bằng hoặc lớn hơn",
    "bằng hoặc nhỏ hơn", "lớn", "nhỏ", "cao", "thấp", "hơn", "trên", "dưới", "khoảng", "gần",
    "xấp xỉ", "greater", "less", "than", "more", "equal", "giá trị", "giá", "số", "tổng",
    "trung bình", "at least", "at most",
];

/// The stop words that consist of several words, the longest in UTF-8 first.
pub const STOP_PHRASES: [&'static str; 32] = [
    "bằng hoặc lớn hơn", "bằng hoặc nhỏ hơn", "hiển thị", "tổng hợp", "nhiều hơn", "tìm kiếm",
    "phân tích", "tài liệu", "dữ liệu", "thấp hơn", "trung bình", "liệt kê", "toàn bộ",
    "bao nhiêu", "văn bản", "nội dung", "thông tin", "liên quan", "tất cả", "lớn hơn",
    "nhỏ hơn", "xấp xỉ", "giá trị", "tra cứu", "báo cáo", "tập tin", "bao gồm", "vui lòng",
    "cao hơn", "ít hơn", "at least", "at most",
];

/// The punctuation that is cut off a word at both ends.
pub const WORD_PUNCTUATION: &'static str = ",.;:!?";

/// Whether `c` is a Chinese, Japanese or Korean character.
pub fn is_cjk_char(c: char) -> (r: bool)
    ensures
        r == chars::is_cjk(c),
{
    chars::cjk(c)
}

/// Whether a Chinese, Japanese or Korean character stands in `s`.
pub fn contains_cjk(s: &str) -> (r: bool)
    ensures
        r == find::any_in(s@, CharClass::Cjk),
{
    find::contains_class(s, CharClass::Cjk)
}

/// A text of digits, points and commas, and of nothing else.
pub open spec fn standalone_number(s: Seq<char>) -> bool {
    s.len() > 0 && forall|i: int|
        0 <= i < s.len() ==> chars::is_digit(#[trigger] s[i]) || s[i] == '.' || s[i] == ','
}

/// Whether `s` is a plain number: "2000" is, "2000円" and "v3" are not.
pub fn is_standalone_number(s: &str) -> (r: bool)
    ensures
        r == standalone_number(s@),
{
    let v: Vec<char> = chars::to_chars(s);
    if v.len() == 0 {
        return false;
    }
    let mut i: usize = 0;
    while i < v.len()
        invariant
            i <= v@.len(),
            v@ == s@,
            forall|j: int|
                0 <= j < i ==> chars::is_digit(#[trigger] s@[j]) || s@[j] == '.' || s@[j] == ',',
        decreases v@.len() - i,
    {
        if !chars::digit(v[i]) && v[i] != '.' && v[i] != ',' {
            assert(!chars::is_digit(s@[i as int]));
            return false;
        }
        i += 1;
    }
    true
}

/// The characters of `s` that are in the class, in order.
pub open spec fn only(s: Seq<char>, k: CharClass) -> Seq<char>
    decreases s.len(),
{
    if s.len() == 0 {
        s
    } else if k.has(s.last()) {
        only(s.drop_last(), k).push(s.last())
    } else {
        only(s.drop_last(), k)
    }
}

/// The parts of `s` of length `n`, from left to right.
pub open spec fn windows(s: Seq<char>, n: int) -> Seq<Seq<char>> {
    Seq::new(
        if s.len() >= n {
            (s.len() - n + 1) as nat
        } else {
            0
        },
        |i: int| s.subrange(i, i + n),
    )
}

/// The n-grams of the Chinese, Japanese and Korean characters of a text: all
/// pairs, then all triples.
pub open spec fn ngrams(s: Seq<char>) -> Seq<Seq<char>> {
    let t = only(s, CharClass::Cjk);
    windows(t, 2) + windows(t, 3)
}

fn push_windows(v: &Vec<char>, n: usize, out: &mut Vec<String>)
    requires
        n > 0,
    ensures
        text::views(final(out)@) == text::views(old(out)@) + windows(v@, n as int),
{
    let ghost before = text::views(out@);
    if v.len() < n {
        assert(before + windows(v@, n as int) =~= before);
        return ;
    }
    let len: usize = v.len();
    let count: usize = len - n + 1;
    let mut i: usize = 0;
    while i < count
        invariant
            n > 0,
            len == v@.len(),
            i <= count,
            count == v@.len() - n + 1,
            text::views(out@) == before + windows(v@, n as int).take(i as int),
        decreases count - i,
    {
        let gram: String = chars::from_chars(
            vstd::slice::slice_subrange(v.as_slice(), i, i + n),
        );
        let ghost so_far = text::views(out@);
        out.push(gram);
        assert(text::views(out@) =~= so_far.push(gram@));
        assert(windows(v@, n as int).take(i + 1) =~= windows(v@, n as int).take(i as int).push(
            gram@,
        ));
        i += 1;
    }
    assert(windows(v@, n as int).take(count as int) =~= windows(v@, n as int));
}

/// The n-grams by which a part of a Chinese, Japanese or Korean term is
/// found: pairs and triples.
pub fn cjk_ngrams(text: &str) -> (r: Vec<String>)
    ensures
        text::views(r@) == ngrams(text@),
{
    let all: Vec<char> = chars::to_chars(text);
    let mut v: Vec<char> = Vec::new();
    let mut i: usize = 0;
    while i < all.len()
        invariant
            i <= all@.len(),
            all@ == text@,
            v@ == only(text@.take(i as int), CharClass::Cjk),
        decreases all@.len() - i,
    {
        assert(text@.take(i + 1).drop_last() =~= text@.take(i as int));
        if chars::cjk(all[i]) {
            v.push(all[i]);
        }
        i += 1;
    }
    assert(text@.take(text@.len() as int) =~= text@);
    let mut out: Vec<String> = Vec::new();
    push_windows(&v, 2, &mut out);
    push_windows(&v, 3, &mut out);
    assert(text::views(out@) =~= ngrams(text@));
    out
}

/// Some character of `s` is upper case.
pub open spec fn any_upper(s: Seq<char>) -> bool {
    exists|i: int| 0 <= i < s.len() && chars::is_upper(#[trigger] s[i])
}

/// Some character of `s` is a letter.
pub open spec fn any_letter(s: Seq<char>) -> bool {
    exists|i: int| 0 <= i < s.len() && chars::is_letter(#[trigger] s[i])
}

/// Every letter of `s` is upper case.
pub open spec fn letters_upper(s: Seq<char>) -> bool {
    forall|i: int|
        0 <= i < s.len() && chars::is_letter(#[trigger] s[i]) ==> chars::is_upper(s[i])
}

/// A point with something behind the first one.
pub open spec fn has_extension(s: Seq<char>) -> bool {
    match find::first_index(s, CharClass::Is('.'), 0) {
        Some(i) => i + 1 < s.len(),
        None => false,
    }
}

/// The word, without punctuation at its end, looks like a name, a code or a
/// file: it has an underscore, an extension, no letters but capitals, or a
/// digit beside a letter, or it starts with a capital. A plain number of five
/// bytes or more is noise.
pub open spec fn compound_word(w: Seq<char>) -> bool {
    let clean = split::trim_end(w, CharClass::AnyOf(",.;:"));
    let bytes = chars::utf8_len(clean);
    let digit = find::any_in(clean, CharClass::Digit);
    &&& clean.len() > 0
    &&& !(standalone_number(clean) && bytes >= 5)
    &&& {
        ||| find::any_in(clean, CharClass::Is('_')) && bytes >= 3
        ||| has_extension(clean) && bytes >= 3
        ||| letters_upper(clean) && bytes >= 2
        ||| any_upper(clean) && digit
        ||| digit && any_letter(clean)
        ||| chars::is_upper(clean[0]) && bytes >= 2
    }
}

/// Whether a word looks like a name, a code or a file.
pub fn is_compound_word(w: &str) -> (r: bool)
    ensures
        r == compound_word(w@),
{
    let clean: String = split::trimmed_end(w, CharClass::AnyOf(",.;:"));
    let v: Vec<char> = chars::to_chars(clean.as_str());
    if v.len() == 0 {
        return false;
    }
    let bytes: usize = chars::byte_len(clean.as_str());
    if bytes >= 5 && is_standalone_number(clean.as_str()) {
        return false;
    }
    let mut any_upper: bool = false;
    let mut any_letter: bool = false;
    let mut letters_upper: bool = true;
    let mut i: usize = 0;
    while i < v.len()
        invariant
            i <= v@.len(),
            v@ == clean@,
            any_upper == exists|j: int| 0 <= j < i && chars::is_upper(#[trigger] v@[j]),
            any_letter == exists|j: int| 0 <= j < i && chars::is_letter(#[trigger] v@[j]),
            letters_upper == forall|j: int|
                0 <= j < i && chars::is_letter(#[trigger] v@[j]) ==> chars::is_upper(v@[j]),
        decreases v@.len() - i,
    {
        let upper: bool = chars::upper(v[i]);
        let letter: bool = chars::letter(v[i]);
        any_upper = any_upper || upper;
        any_letter = any_letter || letter;
        letters_upper = letters_upper && (!letter || upper);
        i += 1;
    }
    let underscore: bool = find::contains_class(clean.as_str(), CharClass::Is('_'));
    let digit: bool = find::contains_class(clean.as_str(), CharClass::Digit);
    let extension: bool = match find::find_class(v.as_slice(), CharClass::Is('.'), 0) {
        Some(at) => at + 1 < v.len(),
        None => false,
    };
    (underscore && bytes >= 3) || (extension && bytes >= 3) || (letters_upper && bytes >= 2) || (any_upper && digit) || (digit && any_letter) || (chars::upper(v[0]) && bytes >= 2)
}

/// The word goes on a compound term: without punctuation at its end it is a
/// number, a compound word, or at most three bytes with a digit.
pub open spec fn goes_on(w: Seq<char>) -> bool {
    let next = split::trim_end(w, CharClass::AnyOf(",.;"));
    &&& next.len() > 0
    &&& {
        ||| standalone_number(next)
        ||| compound_word(next)
        ||| chars::utf8_len(next) <= 3 && find::any_in(next, CharClass::Digit)
    }
}

fn word_goes_on(w: &str) -> (r: bool)
    ensures
        r == goes_on(w@),
{
    let next: String = split::trimmed_end(w, CharClass::AnyOf(",.;"));
    let v: Vec<char> = chars::to_chars(next.as_str());
    if v.len() == 0 {
        return false;
    }
    is_standalone_number(next.as_str()) || is_compound_word(next.as_str()) || (chars::byte_len(next.as_str()) <= 3
        && find::contains_class(next.as_str(), CharClass::Digit))
}

/// Where the words that go on a compound term end.
pub open spec fn term_end(ws: Seq<Seq<char>>, j: int) -> int
    decreases ws.len() - j,
{
    if j < ws.len() && goes_on(ws[j]) {
        term_end(ws, j + 1)
    } else {
        j
    }
}

/// The compound term that begins with word `i` and ends before word `j`.
pub open spec fn term_at(ws: Seq<Seq<char>>, i: int, j: int) -> Seq<char> {
    edit::joined(
        Seq::new(
            (j - i) as nat,
            |k: int|
                if k == 0 {
                    ws[i]
                } else {
                    split::trim_end(ws[i + k], CharClass::AnyOf(",;"))
                },
        ),
        " "@,
    )
}

/// The compound terms among the words from `i` on.
pub open spec fn terms_from(ws: Seq<Seq<char>>, i: int) -> Seq<Seq<char>>
    decreases ws.len() - i,
{
    if i >= ws.len() {
        Seq::empty()
    } else if compound_word(ws[i]) {
        let j = term_end(ws, i + 1);
        let term = term_at(ws, i, j);
        proof {
            lemma_term_end(ws, i + 1);
        }
        if chars::utf8_len(term) >= 2 {
            seq![term] + terms_from(ws, j)
        } else {
            terms_from(ws, j)
        }
    } else {
        terms_from(ws, i + 1)
    }
}

/// The compound terms of a query: each begins with a compound word and takes
/// in the words that go on it.
pub open spec fn compound_terms(query: Seq<char>) -> Seq<Seq<char>> {
    terms_from(split::words(query), 0)
}

pub proof fn lemma_term_end(ws: Seq<Seq<char>>, j: int)
    requires
        j <= ws.len(),
    ensures
        j <= term_end(ws, j) <= ws.len(),
    decreases ws.len() - j,
{
    if j < ws.len() && goes_on(ws[j]) {
        lemma_term_end(ws, j + 1);
    }
}

/// The compound terms of a query: "AZV Test 3" is one, and so is
/// "TESTCASE_DETAIL.md" in "file TESTCASE_DETAIL.md".
pub fn extract_compound_terms(query: &str) -> (r: Vec<String>)
    ensures
        text::views(r@) == compound_terms(query@),
{
    let words: Vec<String> = split::split_words(query);
    let ghost ws = text::views(words@);
    let mut terms: Vec<String> = Vec::new();
    let mut i: usize = 0;
    while i < words.len()
        invariant
            i <= words@.len(),
            ws == text::views(words@),
            text::views(terms@) + terms_from(ws, i as int) == terms_from(ws, 0),
        decreases words@.len() - i,
    {
        if is_compound_word(words[i].as_str()) {
            let mut parts: Vec<String> = Vec::new();
            parts.push(words[i].clone());
            let mut j: usize = i + 1;
            let ghost full = |k: int|
                if k == 0 {
                    ws[i as int]
                } else {
                    split::trim_end(ws[i + k], CharClass::AnyOf(",;"))
                };
            assert(text::views(parts@) =~= Seq::new(1, full));
            while j < words.len() && word_goes_on(words[j].as_str())
                invariant
                    i < j <= words@.len(),
                    ws == text::views(words@),
                    term_end(ws, i + 1) == term_end(ws, j as int),
                    text::views(parts@) == Seq::new((j - i) as nat, full),
                    full == |k: int|
                        if k == 0 {
                            ws[i as int]
                        } else {
                            split::trim_end(ws[i + k], CharClass::AnyOf(",;"))
                        },
                decreases words@.len() - j,
            {
                let part: String = split::trimmed_end(words[j].as_str(), CharClass::AnyOf(",;"));
                let ghost before = text::views(parts@);
                parts.push(part);
                assert(text::views(parts@) =~= before.push(part@));
                j += 1;
            }
            let term: String = edit::join(parts.as_slice(), " ");
            assert(term@ == term_at(ws, i as int, j as int));
            let ghost before = text::views(terms@);
            if chars::byte_len(term.as_str()) >= 2 {
                terms.push(term);
                assert(text::views(terms@) =~= before.push(term@));
                assert(text::views(terms@) + terms_from(ws, j as int) =~= before + (seq![term@]
                    + terms_from(ws, j as int)));
            }
            i = j;
        } else {
            i += 1;
        }
    }
    assert(text::views(terms@) + terms_from(ws, i as int) =~= text::views(terms@));
    terms
}

/// A text with the first `n` stop phrases replaced by a space, one after the
/// other.
pub open spec fn without_phrases(s: Seq<char>, n: int) -> Seq<char>
    decreases n,
{
    if n <= 0 {
        s
    } else {
        edit::replaced(without_phrases(s, n - 1), STOP_PHRASES@[n - 1]@, " "@)
    }
}

/// A word worth searching for: two bytes or more, no stop word, and no plain
/// number of five bytes or more.
pub open spec fn keyword(w: Seq<char>) -> bool {
    &&& chars::utf8_len(w) >= 2
    &&& !find::is_any(w, STOP_WORDS@)
    &&& !(standalone_number(w) && chars::utf8_len(w) >= 5)
}

/// The words without the punctuation at their ends, as far as they are worth
/// searching for.
pub open spec fn keywords_among(ws: Seq<Seq<char>>) -> Seq<Seq<char>>
    decreases ws.len(),
{
    if ws.len() == 0 {
        ws
    } else {
        let w = split::trim(ws.last(), CharClass::AnyOf(WORD_PUNCTUATION));
        if keyword(w) {
            keywords_among(ws.drop_last()).push(w)
        } else {
            keywords_among(ws.drop_last())
        }
    }
}

/// The keywords of a text in lower case: stop phrases out, then the words.
pub open spec fn plain_keywords(lower: Seq<char>) -> Seq<Seq<char>> {
    keywords_among(split::words(without_phrases(lower, STOP_PHRASES@.len() as int)))
}

/// The keywords of a text in lower case.
pub fn latin_keywords(lower: &str) -> (r: Vec<String>)
    ensures
        text::views(r@) == plain_keywords(lower@),
{
    let mut cleaned: String = edit::owned(lower);
    let mut n: usize = 0;
    while n < STOP_PHRASES.len()
        invariant
            n <= STOP_PHRASES@.len(),
            cleaned@ == without_phrases(lower@, n as int),
        decreases STOP_PHRASES@.len() - n,
    {
        let phrase: &str = STOP_PHRASES[n];
        cleaned = edit::replace(cleaned.as_str(), phrase, " ");
        n += 1;
    }
    let words: Vec<String> = split::split_words(cleaned.as_str());
    let ghost ws = text::views(words@);
    let mut out: Vec<String> = Vec::new();
    let mut i: usize = 0;
    while i < words.len()
        invariant
            i <= words@.len(),
            ws == text::views(words@),
            text::views(out@) == keywords_among(ws.take(i as int)),
        decreases words@.len() - i,
    {
        assert(ws.take(i + 1).drop_last() =~= ws.take(i as int));
        let w: String = split::trimmed(words[i].as_str(), CharClass::AnyOf(WORD_PUNCTUATION));
        let bytes: usize = chars::byte_len(w.as_str());
        let ghost before = text::views(out@);
        if bytes >= 2 && !find::same_as_any(w.as_str(), STOP_WORDS.as_slice()) && !(bytes >= 5
            && is_standalone_number(w.as_str())) {
            out.push(w);
            assert(text::views(out@) =~= before.push(w@));
        }
        i += 1;
    }
    assert(ws.take(ws.len() as int) =~= ws);
    out
}

/// The terms that the Chinese, Japanese and Korean runs of a query give: each
/// run without white space at its ends, and its n-grams.
pub open spec fn cjk_terms(runs: Seq<Seq<char>>) -> Seq<Seq<char>>
    decreases runs.len(),
{
    if runs.len() == 0 {
        runs
    } else {
        let t = split::stripped(runs.last());
        if t.len() == 0 {
            cjk_terms(runs.drop_last())
        } else {
            cjk_terms(runs.drop_last()).push(t) + ngrams(t)
        }
    }
}

/// The words that stand in none of the texts.
pub open spec fn outside(ws: Seq<Seq<char>>, texts: Seq<Seq<char>>) -> Seq<Seq<char>>
    decreases ws.len(),
{
    if ws.len() == 0 {
        ws
    } else if exists|k: int| 0 <= k < texts.len() && find::occurs(#[trigger] texts[k], ws.last()) {
        outside(ws.drop_last(), texts)
    } else {
        outside(ws.drop_last(), texts).push(ws.last())
    }
}

/// All keywords before duplicates are dropped: compound terms first, then the
/// terms of the Chinese, Japanese and Korean runs, then the plain keywords
/// that no compound term has.
pub open spec fn gathered(
    compounds: Seq<Seq<char>>,
    compounds_lower: Seq<Seq<char>>,
    cjk_runs: Seq<Seq<char>>,
    plain: Seq<Seq<char>>,
) -> Seq<Seq<char>> {
    compounds + cjk_terms(cjk_runs) + outside(plain, compounds_lower)
}

/// All keywords before duplicates are dropped.
pub fn gather_keywords(
    compounds: &Vec<String>,
    compounds_lower: &Vec<String>,
    cjk_runs: &Vec<String>,
    plain: &Vec<String>,
) -> (r: Vec<String>)
    ensures
        text::views(r@) == gathered(
            text::views(compounds@),
            text::views(compounds_lower@),
            text::views(cjk_runs@),
            text::views(plain@),
        ),
{
    let ghost cs = text::views(compounds@);
    let ghost runs = text::views(cjk_runs@);
    let ghost ps = text::views(plain@);
    let mut out: Vec<String> = Vec::new();
    let mut i: usize = 0;
    while i < compounds.len()
        invariant
            i <= compounds@.len(),
            cs == text::views(compounds@),
            text::views(out@) == cs.take(i as int),
        decreases compounds@.len() - i,
    {
        let ghost before = text::views(out@);
        out.push(compounds[i].clone());
        assert(text::views(out@) =~= before.push(cs[i as int]));
        i += 1;
    }
    assert(text::views(out@) =~= cs + cjk_terms(runs.take(0)));
    let mut k: usize = 0;
    while k < cjk_runs.len()
        invariant
            k <= cjk_runs@.len(),
            runs == text::views(cjk_runs@),
            text::views(out@) == cs + cjk_terms(runs.take(k as int)),
        decreases cjk_runs@.len() - k,
    {
        assert(runs.take(k + 1).drop_last() =~= runs.take(k as int));
        let t: String = split::strip(cjk_runs[k].as_str());
        let ghost before = text::views(out@);
        if !t.as_str().is_empty() {
            let mut grams: Vec<String> = cjk_ngrams(t.as_str());
            let ghost gs = grams@;
            out.push(t);
            assert(text::views(out@) =~= before.push(t@));
            let ghost mid = out@;
            out.append(&mut grams);
            assert(text::views(out@) =~= text::views(mid) + text::views(gs));
            assert(text::views(out@) =~= cs + cjk_terms(runs.take(k + 1)));
        }
        k += 1;
    }
    assert(runs.take(runs.len() as int) =~= runs);
    let ghost base = text::views(out@);
    assert(base + outside(ps.take(0), text::views(compounds_lower@)) =~= base);
    let mut m: usize = 0;
    while m < plain.len()
        invariant
            m <= plain@.len(),
            ps == text::views(plain@),
            text::views(out@) == base + outside(
                ps.take(m as int),
                text::views(compounds_lower@),
            ),
        decreases plain@.len() - m,
    {
        assert(ps.take(m + 1).drop_last() =~= ps.take(m as int));
        let ghost before = text::views(out@);
        if !in_some(compounds_lower, plain[m].as_str()) {
            out.push(plain[m].clone());
            assert(text::views(out@) =~= before.push(ps[m as int]));
            assert(text::views(out@) =~= base + outside(
                ps.take(m + 1),
                text::views(compounds_lower@),
            ));
        }
        m += 1;
    }
    assert(ps.take(ps.len() as int) =~= ps);
    out
}

fn in_some(texts: &Vec<String>, w: &str) -> (r: bool)
    ensures
        r == exists|k: int|
            0 <= k < text::views(texts@).len() && find::occurs(
                #[trigger] text::views(texts@)[k],
                w@,
            ),
{
    let mut k: usize = 0;
    while k < texts.len()
        invariant
            k <= texts@.len(),
            forall|j: int| 0 <= j < k ==> !find::occurs(#[trigger] text::views(texts@)[j], w@),
        decreases texts@.len() - k,
    {
        if find::contains(texts[k].as_str(), w) {
            assert(find::occurs(text::views(texts@)[k as int], w@));
            return true;
        }
        k += 1;
    }
    false
}

/// The keywords joined by spaces, of several with the same key the first;
/// the query itself where there are none.
pub open spec fn keyword_line(
    query: Seq<char>,
    all: Seq<Seq<char>>,
    keys: Seq<Seq<char>>,
) -> Seq<char> {
    let kept = select::firsts(all, keys);
    if kept.len() == 0 {
        query
    } else {
        edit::joined(kept, " "@)
    }
}

/// The keywords joined by spaces, of several with the same key the first.
pub fn join_keywords(query: &str, all: &Vec<String>, keys: &Vec<String>) -> (r: String)
    requires
        all@.len() == keys@.len(),
    ensures
        r@ == keyword_line(query@, text::views(all@), text::views(keys@)),
{
    let kept: Vec<String> = select::keep_firsts(all, keys);
    if kept.len() == 0 {
        edit::owned(query)
    } else {
        edit::join(kept.as_slice(), " ")
    }
}

/// The texts in lower case.
pub open spec fn lowercase_all(v: Seq<Seq<char>>) -> Seq<Seq<char>> {
    Seq::new(v.len(), |i: int| chars::lowercase(v[i]))
}

/// The strings in lower case.
pub fn to_lowercase_all(v: &Vec<String>) -> (r: Vec<String>)
    ensures
        text::views(r@) == lowercase_all(text::views(v@)),
{
    let mut out: Vec<String> = Vec::new();
    let mut i: usize = 0;
    while i < v.len()
        invariant
            i <= v@.len(),
            text::views(out@) == lowercase_all(text::views(v@)).take(i as int),
        decreases v@.len() - i,
    {
        let s: String = v[i].as_str().to_lowercase();
        let ghost before = text::views(out@);
        out.push(s);
        assert(text::views(out@) =~= before.push(s@));
        i += 1;
    }
    assert(text::views(out@) =~= lowercase_all(text::views(v@)));
    out
}

/// The keywords of a query before duplicates are dropped.
pub open spec fn query_keywords(query: Seq<char>) -> Seq<Seq<char>> {
    let latin = edit::joined(split::runs(query, CharClass::Cjk), " "@);
    gathered(
        compound_terms(query),
        lowercase_all(compound_terms(query)),
        split::runs(query, CharClass::NotCjk),
        plain_keywords(chars::lowercase(latin)),
    )
}

/// The keywords of a query, joined by spaces.
pub open spec fn keywords_of(query: Seq<char>) -> Seq<char> {
    let all = query_keywords(query);
    keyword_line(query, all, lowercase_all(all))
}

/// No keyword of a query is searched for twice, whatever its case, and for
/// each keyword one of the same spelling is searched for, whatever its case.
pub proof fn law_keywords_once(query: Seq<char>)
    ensures
        ({
            let all = query_keywords(query);
            let once = select::firsts(all, lowercase_all(all));
            &&& forall|i: int, j: int|
                0 <= i < j < once.len() ==> chars::lowercase(#[trigger] once[i])
                    != chars::lowercase(#[trigger] once[j])
            &&& forall|i: int|
                0 <= i < all.len() ==> exists|k: int|
                    0 <= k < once.len() && chars::lowercase(once[k]) == chars::lowercase(
                        #[trigger] all[i],
                    )
        }),
{
    let all = query_keywords(query);
    let keys = lowercase_all(all);
    let once = select::firsts(all, keys);
    let places = select::first_places(keys, all.len() as int);
    select::lemma_firsts(all, keys);
    assert forall|i: int, j: int| 0 <= i < j < once.len() implies chars::lowercase(
        #[trigger] once[i],
    ) != chars::lowercase(#[trigger] once[j]) by {
        assert(keys[places[i]] != keys[places[j]]);
    }
    assert forall|i: int| 0 <= i < all.len() implies exists|k: int|
        0 <= k < once.len() && chars::lowercase(once[k]) == chars::lowercase(#[trigger] all[i]) by {
        let k = select::lemma_first_place(keys, all.len() as int, i);
        assert(once[k] == all[places[k]]);
    }
}

/// The keywords of a query: compound terms as they stand, the Chinese,
/// Japanese and Korean parts with their n-grams, and the rest in lower case
/// without stop words; each once, whatever its case.
pub fn extract_keywords(query: &str) -> (r: String)
    ensures
        r@ == keywords_of(query@),
{
    let compounds: Vec<String> = extract_compound_terms(query);
    let compounds_lower: Vec<String> = to_lowercase_all(&compounds);
    let cjk_runs: Vec<String> = split::split_runs(query, CharClass::NotCjk);
    let latin_runs: Vec<String> = split::split_runs(query, CharClass::Cjk);
    let latin: String = edit::join(latin_runs.as_slice(), " ");
    let plain: Vec<String> = latin_keywords(latin.as_str().to_lowercase().as_str());
    let all: Vec<String> = gather_keywords(&compounds, &compounds_lower, &cjk_runs, &plain);
    let keys: Vec<String> = to_lowercase_all(&all);
    assert(lowercase_all(text::views(all@)).len() == all@.len());
    join_keywords(query, &all, &keys)
}

/// Words that begin a request for files.
pub const FILE_SEARCH_PREFIXES: [&'static str; 6] = [
    "tìm file", "kiếm file", "file nào", "list file", "liệt kê file", "danh sách file",
];

/// Extensions that name a file.
pub const FILE_EXTENSIONS: [&'static str; 8] = [
    ".pdf", ".docx", ".xlsx", ".xls", ".pptx", ".csv", ".md", ".txt",
];

/// Words that make a query a question.
pub const QUESTION_MARKS: [&'static str; 6] = ["?", "bao", "sao", "gì", "nào", "thế"];

/// One of the entries begins the text.
pub open spec fn begins_any(s: Seq<char>, table: Seq<&str>) -> bool {
    exists|k: int| 0 <= k < table.len() && find::begins(s, #[trigger] table[k]@)
}

fn starts_with_any(s: &str, table: &[&str]) -> (r: bool)
    ensures
        r == begins_any(s@, table@),
{
    let mut k: usize = 0;
    while k < table.len()
        invariant
            k <= table@.len(),
            forall|j: int| 0 <= j < k ==> !find::begins(s@, #[trigger] table@[j]@),
        decreases table@.len() - k,
    {
        let word: &str = table[k];
        assert(word@ == table@[k as int]@);
        if find::starts_with(s, word) {
            return true;
        }
        k += 1;
    }
    false
}

/// A word of three bytes or more, of capitals, digits and underscores only.
pub open spec fn code_word(w: Seq<char>) -> bool {
    chars::utf8_len(w) >= 3 && forall|i: int|
        0 <= i < w.len() ==> chars::is_upper(#[trigger] w[i]) || chars::is_digit(w[i])
            || w[i] == '_'
}

fn is_code_word(w: &str) -> (r: bool)
    ensures
        r == code_word(w@),
{
    if chars::byte_len(w) < 3 {
        return false;
    }
    let v: Vec<char> = chars::to_chars(w);
    let mut i: usize = 0;
    while i < v.len()
        invariant
            i <= v@.len(),
            v@ == w@,
            forall|j: int|
                0 <= j < i ==> chars::is_upper(#[trigger] w@[j]) || chars::is_digit(w@[j])
                    || w@[j] == '_',
        decreases v@.len() - i,
    {
        if !chars::upper(v[i]) && !chars::digit(v[i]) && v[i] != '_' {
            assert(!chars::is_upper(w@[i as int]));
            return false;
        }
        i += 1;
    }
    true
}

/// A word of three bytes or more, of letters and digits, with both.
pub open spec fn mixed_word(w: Seq<char>) -> bool {
    &&& chars::utf8_len(w) >= 3
    &&& forall|i: int| 0 <= i < w.len() ==> chars::is_alnum(#[trigger] w[i])
    &&& exists|i: int| 0 <= i < w.len() && chars::is_digit(#[trigger] w[i])
    &&& exists|i: int| 0 <= i < w.len() && chars::is_letter(#[trigger] w[i])
}

fn is_mixed_word(w: &str) -> (r: bool)
    ensures
        r == mixed_word(w@),
{
    if chars::byte_len(w) < 3 {
        return false;
    }
    let v: Vec<char> = chars::to_chars(w);
    let mut digit: bool = false;
    let mut letter: bool = false;
    let mut i: usize = 0;
    while i < v.len()
        invariant
            i <= v@.len(),
            v@ == w@,
            forall|j: int| 0 <= j < i ==> chars::is_alnum(#[trigger] v@[j]),
            digit == exists|j: int| 0 <= j < i && chars::is_digit(#[trigger] v@[j]),
            letter == exists|j: int| 0 <= j < i && chars::is_letter(#[trigger] v@[j]),
        decreases v@.len() - i,
    {
        if !chars::alnum(v[i]) {
            assert(!chars::is_alnum(w@[i as int]));
            return false;
        }
        digit = digit || chars::digit(v[i]);
        letter = letter || chars::letter(v[i]);
        i += 1;
    }
    digit && letter
}

/// The query asks for files and not for an answer: one word that looks like a
/// file or a code, a request for files or for where a file is, or an extension
/// without a question.
pub open spec fn search_only(query: Seq<char>) -> bool {
    let q = split::stripped(query);
    let ws = split::words(q);
    ||| ws.len() == 1 && find::any_in(ws[0], CharClass::Is('.')) && chars::utf8_len(ws[0]) > 2
    ||| ws.len() == 1 && (code_word(ws[0]) || mixed_word(ws[0]))
    ||| begins_any(q, FILE_SEARCH_PREFIXES@)
    ||| find::begins(q, "file "@) && find::occurs(q, "ở đâu"@)
    ||| find::occurs_any(q, FILE_EXTENSIONS@) && !find::occurs_any(q, QUESTION_MARKS@)
}

/// Whether the query asks for files only, so that no model is consulted.
pub fn is_search_only(query: &str) -> (r: bool)
    ensures
        r == search_only(query@),
{
    let q: String = split::strip(query);
    let words: Vec<String> = split::split_words(q.as_str());
    let ghost ws = text::views(words@);
    if words.len() == 1 {
        let w: &str = words[0].as_str();
        assert(w@ == ws[0]);
        if find::contains_class(w, CharClass::Is('.')) && chars::byte_len(w) > 2 {
            return true;
        }
        if is_code_word(w) || is_mixed_word(w) {
            return true;
        }
    }
    if starts_with_any(q.as_str(), FILE_SEARCH_PREFIXES.as_slice()) {
        return true;
    }
    if find::starts_with(q.as_str(), "file ") && find::contains(q.as_str(), "ở đâu") {
        return true;
    }
    find::contains_any(q.as_str(), FILE_EXTENSIONS.as_slice()) && !find::contains_any(
        q.as_str(),
        QUESTION_MARKS.as_slice(),
    )
}

/// The texts without white space at their ends.
pub open spec fn stripped_all(v: Seq<Seq<char>>) -> Seq<Seq<char>> {
    Seq::new(v.len(), |i: int| split::stripped(v[i]))
}

/// The content on one line: its lines with a bar between them, and single
/// spaces between the words.
pub open spec fn flattened(content: Seq<char>) -> Seq<char> {
    let bars = edit::joined(split::nonempty(stripped_all(split::lines(content))), " | "@);
    edit::joined(split::words(bars), " "@)
}

/// The content on one line.
pub fn flatten(content: &str) -> (r: String)
    ensures
        r@ == flattened(content@),
{
    let lines: Vec<String> = split::split_lines(content);
    let ghost ls = text::views(lines@);
    let mut out: Vec<String> = Vec::new();
    let mut i: usize = 0;
    while i < lines.len()
        invariant
            i <= lines@.len(),
            ls == text::views(lines@),
            text::views(out@) == stripped_all(ls).take(i as int),
        decreases lines@.len() - i,
    {
        let s: String = split::strip(lines[i].as_str());
        let ghost before = text::views(out@);
        out.push(s);
        assert(text::views(out@) =~= before.push(s@));
        i += 1;
    }
    assert(text::views(out@) =~= stripped_all(ls));
    let kept: Vec<String> = split::keep_nonempty(out);
    let bars: String = edit::join(kept.as_slice(), " | ");
    let words: Vec<String> = split::split_words(bars.as_str());
    edit::join(words.as_slice(), " ")
}

/// The words of two bytes or more.
pub open spec fn long_words(ws: Seq<Seq<char>>) -> Seq<Seq<char>>
    decreases ws.len(),
{
    if ws.len() == 0 {
        ws
    } else if chars::utf8_len(ws.last()) >= 2 {
        long_words(ws.drop_last()).push(ws.last())
    } else {
        long_words(ws.drop_last())
    }
}

/// The words of `s` of two bytes or more.
pub fn split_long_words(s: &str) -> (r: Vec<String>)
    ensures
        text::views(r@) == long_words(split::words(s@)),
{
    let words: Vec<String> = split::split_words(s);
    let ghost ws = text::views(words@);
    let mut out: Vec<String> = Vec::new();
    let mut i: usize = 0;
    while i < words.len()
        invariant
            i <= words@.len(),
            ws == text::views(words@),
            text::views(out@) == long_words(ws.take(i as int)),
        decreases words@.len() - i,
    {
        assert(ws.take(i + 1).drop_last() =~= ws.take(i as int));
        let ghost before = text::views(out@);
        if chars::byte_len(words[i].as_str()) >= 2 {
            out.push(words[i].clone());
            assert(text::views(out@) =~= before.push(ws[i as int]));
        }
        i += 1;
    }
    assert(ws.take(ws.len() as int) =~= ws);
    out
}

/// The byte position of the first occurrence of a keyword: in the text itself
/// for Chinese, Japanese and Korean, else in the text in lower case.
pub open spec fn keyword_pos(cleaned: Seq<char>, lower: Seq<char>, kw: Seq<char>) -> Option<nat> {
    let s = if find::any_in(kw, CharClass::Cjk) {
        cleaned
    } else {
        lower
    };
    match find::index_of(s, kw) {
        Some(i) => Some(chars::utf8_len(s.take(i))),
        None => None,
    }
}

/// The keywords that are found.
pub open spec fn found_keywords(
    cleaned: Seq<char>,
    lower: Seq<char>,
    kws: Seq<Seq<char>>,
) -> Seq<Seq<char>>
    decreases kws.len(),
{
    if kws.len() == 0 {
        kws
    } else if keyword_pos(cleaned, lower, kws.last()) is Some {
        found_keywords(cleaned, lower, kws.drop_last()).push(kws.last())
    } else {
        found_keywords(cleaned, lower, kws.drop_last())
    }
}

/// The least byte position of a keyword; 0 where none is found.
pub open spec fn best_pos(cleaned: Seq<char>, lower: Seq<char>, kws: Seq<Seq<char>>) -> nat
    decreases kws.len(),
{
    if kws.len() == 0 {
        0
    } else {
        let before = best_pos(cleaned, lower, kws.drop_last());
        match keyword_pos(cleaned, lower, kws.last()) {
            Some(pos) => if found_keywords(cleaned, lower, kws.drop_last()).len() == 0 || pos
                < before {
                pos
            } else {
                before
            },
            None => before,
        }
    }
}

/// The first character from `i` on that begins at or after a byte position;
/// the front of the text where there is none.
pub open spec fn char_at_or_after(s: Seq<char>, pos: int, i: int) -> int
    decreases s.len() - i,
{
    if i >= s.len() {
        0
    } else if chars::utf8_len(s.take(i)) >= pos {
        i
    } else {
        char_at_or_after(s, pos, i + 1)
    }
}

/// Where the snippet starts: half its length before the match.
pub open spec fn snippet_start(cleaned: Seq<char>, pos: int, max_len: int) -> int {
    let half = max_len / 2;
    if pos > half {
        char_at_or_after(cleaned, pos - half, 0)
    } else {
        0
    }
}

/// The part of the text from the start on, with an ellipsis where something
/// is left out.
pub open spec fn snippet_text(cleaned: Seq<char>, start: int, max_len: int) -> Seq<char> {
    let end = if start + max_len < cleaned.len() {
        start + max_len
    } else {
        cleaned.len() as int
    };
    (if start > 0 {
        "..."@
    } else {
        Seq::empty()
    }) + split::stripped(cleaned.subrange(start, end)) + (if end < cleaned.len() {
        "..."@
    } else {
        Seq::empty()
    })
}

/// The snippet and the keywords found in it, from the cleaned content, the
/// same in lower case, and the keyword line in lower case.
pub open spec fn snippet(
    cleaned: Seq<char>,
    lower: Seq<char>,
    line: Seq<char>,
    max_len: int,
) -> (Seq<char>, Seq<Seq<char>>) {
    let kws = long_words(split::words(line));
    if kws.len() == 0 {
        (edit::first_chars(cleaned, max_len), Seq::empty())
    } else {
        let start = snippet_start(cleaned, best_pos(cleaned, lower, kws) as int, max_len);
        (snippet_text(cleaned, start, max_len), found_keywords(cleaned, lower, kws))
    }
}

fn find_keyword(cleaned: &str, lower: &str, kw: &str) -> (r: Option<usize>)
    ensures
        match r {
            Some(pos) => keyword_pos(cleaned@, lower@, kw@) == Some(pos as nat),
            None => keyword_pos(cleaned@, lower@, kw@) is None,
        },
{
    let s: &str = if contains_cjk(kw) {
        cleaned
    } else {
        lower
    };
    byte_index(s, kw)
}

/// The byte position of the first occurrence of `pat` in `s`.
pub open spec fn byte_index_of(s: Seq<char>, pat: Seq<char>) -> Option<nat> {
    match find::index_of(s, pat) {
        Some(i) => Some(chars::utf8_len(s.take(i))),
        None => None,
    }
}

/// The byte position of the first occurrence of `pat` in `s`.
pub fn byte_index(s: &str, pat: &str) -> (r: Option<usize>)
    ensures
        match r {
            Some(pos) => byte_index_of(s@, pat@) == Some(pos as nat) && pos <= chars::utf8_len(s@),
            None => byte_index_of(s@, pat@) is None,
        },
{
    let sv: Vec<char> = chars::to_chars(s);
    let pv: Vec<char> = chars::to_chars(pat);
    let total: usize = chars::byte_len(s);
    match find::find(sv.as_slice(), pv.as_slice()) {
        Some(i) => {
            let mut bytes: usize = 0;
            let mut k: usize = 0;
            assert(s@.take(s@.len() as int) =~= s@);
            while k < i
                invariant
                    k <= i <= sv@.len(),
                    sv@ == s@,
                    s@.take(s@.len() as int) == s@,
                    total == chars::utf8_len(s@),
                    bytes == chars::utf8_len(s@.take(k as int)),
                decreases i - k,
            {
                proof {
                    chars::lemma_utf8_len_step(s@, k as int);
                    chars::lemma_utf8_len_take(s@, k + 1, s@.len() as int);
                }
                bytes += chars::char_width(sv[k]);
                k += 1;
            }
            proof {
                chars::lemma_utf8_len_take(s@, i as int, s@.len() as int);
            }
            Some(bytes)
        },
        None => None,
    }
}

fn start_char(v: &Vec<char>, pos: usize, Ghost(s): Ghost<Seq<char>>) -> (r: usize)
    requires
        v@ == s,
        chars::utf8_len(s) <= usize::MAX,
    ensures
        r == char_at_or_after(s, pos as int, 0),
        r <= s.len(),
{
    let mut bytes: usize = 0;
    let mut i: usize = 0;
    assert(s.take(0) =~= Seq::empty());
    assert(s.take(s.len() as int) =~= s);
    while i < v.len()
        invariant
            i <= v@.len(),
            v@ == s,
            chars::utf8_len(s) <= usize::MAX,
            s.take(s.len() as int) == s,
            bytes == chars::utf8_len(s.take(i as int)),
            char_at_or_after(s, pos as int, 0) == char_at_or_after(s, pos as int, i as int),
        decreases v@.len() - i,
    {
        if bytes >= pos {
            return i;
        }
        proof {
            chars::lemma_utf8_len_step(s, i as int);
            chars::lemma_utf8_len_take(s, i + 1, s.len() as int);
        }
        bytes += chars::char_width(v[i]);
        i += 1;
    }
    0
}

/// The snippet around the first match, and the keywords found, from the
/// content on one line, the same in lower case, and the keyword line in lower
/// case.
pub fn snippet_around(cleaned: &str, lower: &str, line: &str, max_len: usize) -> (r: (
    String,
    Vec<String>,
))
    ensures
        r.0@ == snippet(cleaned@, lower@, line@, max_len as int).0,
        text::views(r.1@) == snippet(cleaned@, lower@, line@, max_len as int).1,
{
    let keywords: Vec<String> = split_long_words(line);
    let ghost kws = text::views(keywords@);
    if keywords.len() == 0 {
        let none: Vec<String> = Vec::new();
        assert(text::views(none@) =~= Seq::empty());
        return (edit::take_chars(cleaned, max_len), none);
    }
    let mut best: usize = 0;
    let mut found: Vec<String> = Vec::new();
    let mut i: usize = 0;
    while i < keywords.len()
        invariant
            i <= keywords@.len(),
            kws == text::views(keywords@),
            text::views(found@) == found_keywords(cleaned@, lower@, kws.take(i as int)),
            best == best_pos(cleaned@, lower@, kws.take(i as int)),
        decreases keywords@.len() - i,
    {
        assert(kws.take(i + 1).drop_last() =~= kws.take(i as int));
        assert(text::views(found@).len() == found@.len());
        let ghost before = text::views(found@);
        if let Some(pos) = find_keyword(cleaned, lower, keywords[i].as_str()) {
            if found.len() == 0 || pos < best {
                best = pos;
            }
            found.push(keywords[i].clone());
            assert(text::views(found@) =~= before.push(kws[i as int]));
        }
        i += 1;
    }
    assert(kws.take(kws.len() as int) =~= kws);
    let half: usize = max_len / 2;
    let v: Vec<char> = chars::to_chars(cleaned);
    let total: usize = chars::byte_len(cleaned);
    let start: usize = if best > half {
        start_char(&v, best - half, Ghost(cleaned@))
    } else {
        0
    };
    let end: usize = if max_len < v.len() - start {
        start + max_len
    } else {
        v.len()
    };
    let part: String = edit::slice(cleaned, start, end);
    let prefix: &str = if start > 0 {
        "..."
    } else {
        ""
    };
    let suffix: &str = if end < v.len() {
        "..."
    } else {
        ""
    };
    proof {
        reveal_strlit("");
        assert(""@ =~= Seq::<char>::empty());
    }
    (edit::concat3(prefix, split::strip(part.as_str()).as_str(), suffix), found)
}

/// The snippet of `content` around the first keyword of `query`, and the
/// keywords that were found. At most `max_len` characters of the content are in
/// it; three points stand for what is left out before and behind them.
pub fn extract_snippet(content: &str, query: &str, max_len: usize) -> (r: (String, Vec<String>))
    ensures
        r.0@ == snippet(
            flattened(content@),
            chars::lowercase(flattened(content@)),
            chars::lowercase(keywords_of(query@)),
            max_len as int,
        ).0,
        text::views(r.1@) == snippet(
            flattened(content@),
            chars::lowercase(flattened(content@)),
            chars::lowercase(keywords_of(query@)),
            max_len as int,
        ).1,
{
    let cleaned: String = flatten(content);
    let lower: String = cleaned.as_str().to_lowercase();
    let line: String = extract_keywords(query).as_str().to_lowercase();
    snippet_around(cleaned.as_str(), lower.as_str(), line.as_str(), max_len)
}

/// No keyword is lost: of the words that are left once the stop phrases are out,
/// without punctuation at their ends, exactly those are keywords that have two
/// bytes or more, are no stop word, and are no number of five bytes or more; and
/// they keep their order.
pub proof fn law_plain_keywords(lower: Seq<char>) -> (ps: Seq<int>)
    ensures
        ({
            let ws = split::words(without_phrases(lower, STOP_PHRASES@.len() as int));
            let bare = |i: int| split::trim(ws[i], CharClass::AnyOf(",.;:!?"));
            &&& select::exactly(
                ps,
                ws.len() as int,
                |i: int|
                    {
                        &&& chars::utf8_len(bare(i)) >= 2
                        &&& forall|k: int|
                            0 <= k < STOP_WORDS@.len() ==> #[trigger] STOP_WORDS@[k]@ != bare(i)
                        &&& chars::utf8_len(bare(i)) < 5 || exists|j: int|
                            0 <= j < bare(i).len() && !('0' <= #[trigger] bare(i)[j] <= '9')
                                && bare(i)[j] != '.' && bare(i)[j] != ','
                    },
            )
            &&& plain_keywords(lower) == Seq::new(ps.len(), |k: int| bare(ps[k]))
        }),
{
    let ws = split::words(without_phrases(lower, STOP_PHRASES@.len() as int));
    let bare = |i: int| split::trim(ws[i], CharClass::AnyOf(",.;:!?"));
    let p = |i: int|
        {
            &&& chars::utf8_len(bare(i)) >= 2
            &&& forall|k: int|
                0 <= k < STOP_WORDS@.len() ==> #[trigger] STOP_WORDS@[k]@ != bare(i)
            &&& chars::utf8_len(bare(i)) < 5 || exists|j: int|
                0 <= j < bare(i).len() && !('0' <= #[trigger] bare(i)[j] <= '9') && bare(i)[j]
                    != '.' && bare(i)[j] != ','
        };
    let f = |n: int| keywords_among(ws.take(n));
    assert forall|n: int| 0 < n <= ws.len() implies #[trigger] f(n) == if p(n - 1) {
        f(n - 1).push(bare(n - 1))
    } else {
        f(n - 1)
    } by {
        assert(ws.take(n).drop_last() =~= ws.take(n - 1));
        let w = bare(n - 1);
        assert(w == split::trim(ws.take(n).last(), CharClass::AnyOf(WORD_PUNCTUATION)));
        chars::lemma_utf8_len_bounds(w);
        if p(n - 1) && standalone_number(w) && chars::utf8_len(w) >= 5 {
            let j = choose|j: int|
                0 <= j < w.len() && !('0' <= #[trigger] w[j] <= '9') && w[j] != '.' && w[j] != ',';
            assert(chars::is_digit(w[j]) || w[j] == '.' || w[j] == ',');
        }
        assert(p(n - 1) == keyword(w));
    }
    assert(ws.take(0) =~= Seq::empty());
    assert(ws.take(ws.len() as int) =~= ws);
    select::lemma_exactly(ws.len() as int, p, bare, f)
}

/// A text in which no stop phrase stands is not changed before its words are
/// looked at.
pub proof fn law_no_phrase(s: Seq<char>, n: int)
    requires
        0 <= n <= STOP_PHRASES@.len(),
        forall|k: int| 0 <= k < n ==> !find::occurs(s, #[trigger] STOP_PHRASES@[k]@),
    ensures
        without_phrases(s, n) == s,
    decreases n,
{
    if n > 0 {
        law_no_phrase(s, n - 1);
        assert(!find::occurs(s, STOP_PHRASES@[n - 1]@));
        if STOP_PHRASES@[n - 1]@.len() > 0 {
            edit::law_replaced(s, STOP_PHRASES@[n - 1]@, " "@, 0);
        } else {
            assert(s.subrange(0, 0) =~= STOP_PHRASES@[n - 1]@);
            assert(find::occurs_at(s, STOP_PHRASES@[n - 1]@, 0));
        }
    }
}

/// Taking out a stop phrase takes out the first place where it stands, leaves a
/// space there, and goes on behind it; the phrases go one after the other.
pub proof fn law_phrase_is_taken_out(s: Seq<char>, n: int, i: int)
    requires
        0 < n <= STOP_PHRASES@.len(),
        find::first_at(without_phrases(s, n - 1), STOP_PHRASES@[n - 1]@, 0, i),
        STOP_PHRASES@[n - 1]@.len() > 0,
    ensures
        ({
            let before = without_phrases(s, n - 1);
            let phrase = STOP_PHRASES@[n - 1]@;
            without_phrases(s, n) == before.take(i) + " "@ + edit::replaced(
                before.skip((i + phrase.len()) as int),
                phrase,
                " "@,
            )
        }),
{
    edit::law_replaced(without_phrases(s, n - 1), STOP_PHRASES@[n - 1]@, " "@, i);
}

/// The keywords of a query: its compound terms, then the terms of its Chinese,
/// Japanese and Korean runs, then exactly those plain keywords that stand in no
/// compound term, whatever its case, in their order.
pub proof fn law_query_keywords(query: Seq<char>) -> (ps: Seq<int>)
    ensures
        ({
            let compounds = compound_terms(query);
            let plain = plain_keywords(
                chars::lowercase(edit::joined(split::runs(query, CharClass::Cjk), " "@)),
            );
            &&& select::exactly(
                ps,
                plain.len() as int,
                |i: int|
                    forall|k: int|
                        0 <= k < compounds.len() ==> !find::occurs(
                            chars::lowercase(#[trigger] compounds[k]),
                            plain[i],
                        ),
            )
            &&& query_keywords(query) == compounds + cjk_terms(
                split::runs(query, CharClass::NotCjk),
            ) + Seq::new(ps.len(), |k: int| plain[ps[k]])
        }),
{
    let compounds = compound_terms(query);
    let lowers = lowercase_all(compounds);
    let plain = plain_keywords(
        chars::lowercase(edit::joined(split::runs(query, CharClass::Cjk), " "@)),
    );
    let p = |i: int|
        forall|k: int|
            0 <= k < compounds.len() ==> !find::occurs(
                chars::lowercase(#[trigger] compounds[k]),
                plain[i],
            );
    let f = |n: int| outside(plain.take(n), lowers);
    assert forall|n: int| 0 < n <= plain.len() implies #[trigger] f(n) == if p(n - 1) {
        f(n - 1).push(plain[n - 1])
    } else {
        f(n - 1)
    } by {
        assert(plain.take(n).drop_last() =~= plain.take(n - 1));
        let w = plain[n - 1];
        if p(n - 1) {
            assert forall|k: int| 0 <= k < lowers.len() implies !find::occurs(
                #[trigger] lowers[k],
                w,
            ) by {
                assert(!find::occurs(chars::lowercase(compounds[k]), w));
            }
        } else {
            let k = choose|k: int|
                0 <= k < compounds.len() && find::occurs(
                    chars::lowercase(#[trigger] compounds[k]),
                    w,
                );
            assert(find::occurs(lowers[k], w));
        }
    }
    assert(plain.take(0) =~= Seq::empty());
    assert(plain.take(plain.len() as int) =~= plain);
    select::lemma_exactly(plain.len() as int, p, |i: int| plain[i], f)
}

/// The line of keywords: exactly those keywords that no earlier one equals,
/// whatever its case, in their order and with a space between them; the query
/// itself where it has none.
pub proof fn law_keyword_line(query: Seq<char>) -> (ps: Seq<int>)
    ensures
        ({
            let all = query_keywords(query);
            &&& select::exactly(
                ps,
                all.len() as int,
                |i: int|
                    forall|j: int|
                        0 <= j < i ==> chars::lowercase(#[trigger] all[j]) != chars::lowercase(
                            all[i],
                        ),
            )
            &&& keywords_of(query) == if all.len() == 0 {
                query
            } else {
                edit::joined(Seq::new(ps.len(), |k: int| all[ps[k]]), " "@)
            }
        }),
{
    let all = query_keywords(query);
    let keys = lowercase_all(all);
    let ps = select::law_firsts(all, keys);
    let p = |i: int| forall|j: int| 0 <= j < i ==> keys[j] != keys[i];
    let q = |i: int|
        forall|j: int|
            0 <= j < i ==> chars::lowercase(#[trigger] all[j]) != chars::lowercase(all[i]);
    assert forall|i: int| 0 <= i < all.len() implies p(i) == #[trigger] q(i) by {
        if p(i) {
            assert forall|j: int| 0 <= j < i implies chars::lowercase(#[trigger] all[j])
                != chars::lowercase(all[i]) by {
                assert(keys[j] != keys[i]);
            }
        }
        if q(i) {
            assert forall|j: int| 0 <= j < i implies keys[j] != keys[i] by {
                assert(chars::lowercase(all[j]) != chars::lowercase(all[i]));
            }
        }
    }
    assert forall|a: int| 0 <= a < ps.len() implies 0 <= #[trigger] ps[a] < all.len() && q(
        ps[a],
    ) by {
        assert(p(ps[a]));
        assert(q(ps[a]) == p(ps[a]));
    }
    assert forall|i: int| 0 <= i < all.len() && #[trigger] q(i) implies ps.contains(i) by {
        assert(p(i));
    }
    if all.len() > 0 {
        assert(q(0));
        assert(ps.contains(0));
    } else {
        if ps.len() > 0 {
            assert(ps[0] < all.len());
        }
    }
    ps
}

/// The terms of two lists of runs are those of the first and those of the
/// second; those of one run that is not blank are the run itself without white
/// space at its ends, and its n-grams.
pub proof fn law_cjk_terms(rs: Seq<Seq<char>>, ss: Seq<Seq<char>>)
    ensures
        cjk_terms(rs + ss) == cjk_terms(rs) + cjk_terms(ss),
        rs.len() == 1 ==> cjk_terms(rs) == if split::stripped(rs[0]).len() == 0 {
            Seq::empty()
        } else {
            seq![split::stripped(rs[0])] + ngrams(split::stripped(rs[0]))
        },
    decreases ss.len(),
{
    if ss.len() == 0 {
        assert(rs + ss =~= rs);
        assert(cjk_terms(rs) + cjk_terms(ss) =~= cjk_terms(rs));
    } else {
        law_cjk_terms(rs, ss.drop_last());
        assert((rs + ss).drop_last() =~= rs + ss.drop_last());
        assert(cjk_terms(rs + ss) =~= cjk_terms(rs) + cjk_terms(ss));
    }
    if rs.len() == 1 {
        assert(rs.drop_last() =~= Seq::empty());
        assert(cjk_terms(rs.drop_last()) =~= Seq::empty());
        let t = split::stripped(rs[0]);
        assert(cjk_terms(rs.drop_last()).push(t) + ngrams(t) =~= seq![t] + ngrams(t));
    }
}

proof fn lemma_only_all(s: Seq<char>, k: CharClass)
    requires
        forall|i: int| 0 <= i < s.len() ==> k.has(#[trigger] s[i]),
    ensures
        only(s, k) == s,
    decreases s.len(),
{
    if s.len() > 0 {
        let t = s.drop_last();
        assert forall|i: int| 0 <= i < t.len() implies k.has(#[trigger] t[i]) by {
            assert(t[i] == s[i]);
        }
        lemma_only_all(t, k);
        assert(k.has(s[s.len() - 1]));
        assert(t.push(s.last()) =~= s);
    }
}

/// The n-grams of a Chinese, Japanese or Korean term: every two characters side
/// by side, from left to right, and then every three.
pub proof fn law_ngrams(s: Seq<char>)
    requires
        forall|i: int| 0 <= i < s.len() ==> chars::is_cjk(#[trigger] s[i]),
    ensures
        ({
            let pairs = if s.len() < 2 {
                0
            } else {
                s.len() - 1
            };
            let triples = if s.len() < 3 {
                0
            } else {
                s.len() - 2
            };
            &&& ngrams(s).len() == pairs + triples
            &&& forall|i: int|
                0 <= i < pairs ==> #[trigger] ngrams(s)[i] == seq![s[i], s[i + 1]]
            &&& forall|i: int|
                pairs <= i < pairs + triples ==> #[trigger] ngrams(s)[i] == seq![
                    s[i - pairs],
                    s[i - pairs + 1],
                    s[i - pairs + 2],
                ]
        }),
{
    lemma_only_all(s, CharClass::Cjk);
    let pairs = if s.len() < 2 {
        0
    } else {
        s.len() - 1
    };
    let triples = if s.len() < 3 {
        0
    } else {
        s.len() - 2
    };
    assert forall|i: int| 0 <= i < pairs implies #[trigger] ngrams(s)[i] == seq![s[i], s[i + 1]] by {
        assert(ngrams(s)[i] =~= seq![s[i], s[i + 1]]);
    }
    assert forall|i: int| pairs <= i < pairs + triples implies #[trigger] ngrams(s)[i] == seq![
        s[i - pairs],
        s[i - pairs + 1],
        s[i - pairs + 2],
    ] by {
        assert(ngrams(s)[i] =~= seq![s[i - pairs], s[i - pairs + 1], s[i - pairs + 2]]);
    }
}

/// Other characters than Chinese, Japanese and Korean ones make no n-gram.
pub proof fn law_ngrams_of_others(a: Seq<char>, c: char, b: Seq<char>)
    requires
        !chars::is_cjk(c),
    ensures
        ngrams(a.push(c) + b) == ngrams(a + b),
{
    lemma_only_skips(a, c, b, CharClass::Cjk);
}

proof fn lemma_only_skips(a: Seq<char>, c: char, b: Seq<char>, k: CharClass)
    requires
        !k.has(c),
    ensures
        only(a.push(c) + b, k) == only(a + b, k),
    decreases b.len(),
{
    if b.len() == 0 {
        assert((a.push(c) + b).drop_last() =~= a);
        assert(a + b =~= a);
    } else {
        lemma_only_skips(a, c, b.drop_last(), k);
        assert((a.push(c) + b).drop_last() =~= a.push(c) + b.drop_last());
        assert((a + b).drop_last() =~= a + b.drop_last());
    }
}

/// The rows part the places from `i` up to `n`: each begins where `starts` holds,
/// goes on as long as `goes` does, and ends where it does not or at `n`; they
/// follow one another, and `starts` holds nowhere outside of them.
pub open spec fn in_rows(
    rows: Seq<(int, int)>,
    i: int,
    n: int,
    starts: spec_fn(int) -> bool,
    goes: spec_fn(int) -> bool,
) -> bool {
    &&& forall|k: int|
        0 <= k < rows.len() ==> i <= (#[trigger] rows[k]).0 < rows[k].1 <= n && starts(rows[k].0)
    &&& forall|k: int, m: int|
        0 <= k < rows.len() && (#[trigger] rows[k]).0 < m < rows[k].1 ==> #[trigger] goes(m)
    &&& forall|k: int|
        0 <= k < rows.len() && (#[trigger] rows[k]).1 < n ==> !goes(rows[k].1)
    &&& forall|j: int, k: int|
        0 <= j < k < rows.len() ==> (#[trigger] rows[j]).1 <= (#[trigger] rows[k]).0
    &&& forall|m: int| i <= m < n && #[trigger] starts(m) ==> in_some_row(rows, m)
}

/// One of the rows has the place.
pub open spec fn in_some_row(rows: Seq<(int, int)>, m: int) -> bool {
    exists|k: int| 0 <= k < rows.len() && (#[trigger] rows[k]).0 <= m < rows[k].1
}

proof fn lemma_row_before(
    rest: Seq<(int, int)>,
    i: int,
    j: int,
    n: int,
    starts: spec_fn(int) -> bool,
    goes: spec_fn(int) -> bool,
)
    requires
        in_rows(rest, j, n, starts, goes),
        i < j <= n,
        starts(i),
        forall|m: int| i < m < j ==> #[trigger] goes(m),
        j < n ==> !goes(j),
    ensures
        in_rows(seq![(i, j)] + rest, i, n, starts, goes),
{
    let rows = seq![(i, j)] + rest;
    assert forall|k: int| 0 < k < rows.len() implies #[trigger] rows[k] == rest[k - 1] by {}
    assert forall|m: int| i <= m < n && #[trigger] starts(m) implies in_some_row(rows, m) by {
        if m < j {
            assert(rows[0].0 <= m < rows[0].1);
        } else {
            assert(in_some_row(rest, m));
            let k = choose|k: int|
                0 <= k < rest.len() && (#[trigger] rest[k]).0 <= m < rest[k].1;
            assert(rows[k + 1] == rest[k]);
        }
    }
}

/// The words from `i` on are gone through once: each compound term takes a row of
/// them, which begins with a compound word, has behind it only words that go on
/// it, and ends before one that does not or with the last. The rows follow one
/// another, and no compound word stands outside of them.
pub proof fn law_compound_terms(ws: Seq<Seq<char>>, i: int) -> (rows: Seq<(int, int)>)
    requires
        0 <= i,
    ensures
        in_rows(
            rows,
            i,
            ws.len() as int,
            |m: int| compound_word(ws[m]),
            |m: int| goes_on(ws[m]),
        ),
        terms_from(ws, i) == Seq::new(rows.len(), |k: int| term_at(ws, rows[k].0, rows[k].1)),
    decreases ws.len() - i,
{
    let starts = |m: int| compound_word(ws[m]);
    let goes = |m: int| goes_on(ws[m]);
    let n = ws.len() as int;
    if i >= n {
        let none = Seq::<(int, int)>::empty();
        assert(terms_from(ws, i) =~= Seq::new(
            none.len(),
            |k: int| term_at(ws, none[k].0, none[k].1),
        ));
        none
    } else if compound_word(ws[i]) {
        let j = term_end(ws, i + 1);
        lemma_term_end(ws, i + 1);
        lemma_term_end_stops(ws, i + 1);
        lemma_term_long(ws, i, j);
        let rest = law_compound_terms(ws, j);
        assert forall|m: int| i < m < j implies #[trigger] goes(m) by {
            assert(goes_on(ws[m]));
        }
        assert(starts(i));
        lemma_row_before(rest, i, j, n, starts, goes);
        let rows = seq![(i, j)] + rest;
        assert(terms_from(ws, i) =~= Seq::new(
            rows.len(),
            |k: int| term_at(ws, rows[k].0, rows[k].1),
        ));
        rows
    } else {
        let rows = law_compound_terms(ws, i + 1);
        assert(!starts(i));
        rows
    }
}

proof fn lemma_term_end_stops(ws: Seq<Seq<char>>, j: int)
    requires
        0 <= j <= ws.len(),
    ensures
        forall|m: int| j <= m < term_end(ws, j) ==> goes_on(#[trigger] ws[m]),
        term_end(ws, j) < ws.len() ==> !goes_on(ws[term_end(ws, j)]),
    decreases ws.len() - j,
{
    if j < ws.len() && goes_on(ws[j]) {
        lemma_term_end_stops(ws, j + 1);
    }
}

/// A compound term has two bytes or more.
proof fn lemma_term_long(ws: Seq<Seq<char>>, i: int, j: int)
    requires
        0 <= i < j <= ws.len(),
        compound_word(ws[i]),
    ensures
        chars::utf8_len(term_at(ws, i, j)) >= 2,
{
    let parts = Seq::new(
        (j - i) as nat,
        |k: int|
            if k == 0 {
                ws[i]
            } else {
                split::trim_end(ws[i + k], CharClass::AnyOf(",;"))
            },
    );
    let at = edit::law_part_stands(parts, " "@, 0);
    let term = edit::joined(parts, " "@);
    let w = ws[i];
    assert(parts[0] == w);
    lemma_compound_long(w);
    chars::lemma_utf8_len_concat(term.take(at), w);
    chars::lemma_utf8_len_concat(term.take(at) + w, term.skip((at + w.len()) as int));
    assert(term =~= term.take(at) + w + term.skip((at + w.len()) as int));
}

/// A compound word has two bytes or more.
proof fn lemma_compound_long(w: Seq<char>)
    requires
        compound_word(w),
    ensures
        chars::utf8_len(w) >= 2,
{
    let k = CharClass::AnyOf(",.;:");
    let clean = split::trim_end(w, k);
    let n = split::lemma_trim_end(w, k);
    chars::lemma_utf8_len_take(w, n, w.len() as int);
    assert(w.take(w.len() as int) =~= w);
    chars::lemma_utf8_len_bounds(clean);
    if clean.len() == 1 && chars::utf8_len(clean) == 1 {
        let c = clean[0];
        assert(clean =~= seq![c]);
        assert(chars::utf8_len(clean) == chars::utf8_width(c)) by {
            assert(clean.drop_last() =~= Seq::empty());
            reveal_with_fuel(chars::utf8_len, 2);
        }
        if find::any_in(clean, CharClass::Digit) {
            let d = choose|d: int| 0 <= d < clean.len() && CharClass::Digit.has(#[trigger] clean[d]);
            assert(chars::is_digit(c));
            if any_upper(clean) {
                let u = choose|u: int| 0 <= u < clean.len() && chars::is_upper(#[trigger] clean[u]);
                assert(chars::is_upper(c));
            }
            if any_letter(clean) {
                let u = choose|u: int|
                    0 <= u < clean.len() && chars::is_letter(#[trigger] clean[u]);
                assert(chars::is_letter(c));
            }
        }
    }
}

/// What is a compound word: of a word that ends in no punctuation, one that
/// begins with a capital, one that has an underscore and is long enough, or one
/// that has a digit beside a letter. A word of small letters
/// is none, and neither is a number of five digits or more.
pub proof fn law_compound_word(w: Seq<char>)
    requires
        w.len() >= 2,
        w.last() != ',' && w.last() != '.' && w.last() != ';' && w.last() != ':',
    ensures
        chars::is_upper(w[0]) ==> compound_word(w),
        w.contains('_') && w.len() >= 3 ==> compound_word(w),
        forall|i: int, j: int|
            0 <= i < w.len() && 0 <= j < w.len() && 'a' <= #[trigger] w[i] <= 'z' && '0'
                <= #[trigger] w[j] <= '9' ==> compound_word(w),
        (forall|i: int| 0 <= i < w.len() ==> 'a' <= #[trigger] w[i] <= 'z') ==> !compound_word(w),
        w.len() >= 5 && (forall|i: int| 0 <= i < w.len() ==> '0' <= #[trigger] w[i] <= '9')
            ==> !compound_word(w),
{
    let k = CharClass::AnyOf(",.;:");
    reveal_strlit(",.;:");
    assert(!k.has(w.last()));
    assert(split::trim_end(w, k) == w);
    chars::lemma_utf8_len_bounds(w);
    if chars::is_upper(w[0]) {
        assert(!(chars::is_digit(w[0]) || w[0] == '.' || w[0] == ','));
    }
    if w.contains('_') {
        let i = choose|i: int| 0 <= i < w.len() && w[i] == '_';
        assert(CharClass::Is('_').has(w[i]));
        assert(find::any_in(w, CharClass::Is('_')));
        assert(!standalone_number(w)) by {
            assert(!(chars::is_digit(w[i]) || w[i] == '.' || w[i] == ','));
        }
    }
    assert forall|i: int, j: int|
        0 <= i < w.len() && 0 <= j < w.len() && 'a' <= #[trigger] w[i] <= 'z' && '0'
            <= #[trigger] w[j] <= '9' implies compound_word(w) by {
        assert(CharClass::Digit.has(w[j]));
        assert(find::any_in(w, CharClass::Digit));
        assert(chars::is_letter(w[i]));
        assert(any_letter(w));
        assert(!standalone_number(w)) by {
            assert(!(chars::is_digit(w[i]) || w[i] == '.' || w[i] == ','));
        }
    }
    if forall|i: int| 0 <= i < w.len() ==> 'a' <= #[trigger] w[i] <= 'z' {
        assert('a' <= w[0] <= 'z');
        assert(chars::is_letter(w[0]) && !chars::is_upper(w[0]));
        assert(!letters_upper(w));
        assert(!find::any_in(w, CharClass::Digit));
        assert(!find::any_in(w, CharClass::Is('_')));
        lemma_no_index(w, CharClass::Is('.'), 0);
    }
}

proof fn lemma_no_index(s: Seq<char>, k: CharClass, i: int)
    requires
        0 <= i,
        forall|j: int| 0 <= j < s.len() ==> !k.has(#[trigger] s[j]),
    ensures
        find::first_index(s, k, i) is None,
    decreases s.len() - i,
{
    if i < s.len() {
        assert(!k.has(s[i]));
        lemma_no_index(s, k, i + 1);
    }
}

/// Exactly the words of two bytes or more are looked at, in order.
pub proof fn law_long_words(ws: Seq<Seq<char>>) -> (ps: Seq<int>)
    ensures
        select::exactly(ps, ws.len() as int, |i: int| chars::utf8_len(ws[i]) >= 2),
        long_words(ws) == Seq::new(ps.len(), |k: int| ws[ps[k]]),
{
    let p = |i: int| chars::utf8_len(ws[i]) >= 2;
    let f = |n: int| long_words(ws.take(n));
    assert forall|n: int| 0 < n <= ws.len() implies #[trigger] f(n) == if p(n - 1) {
        f(n - 1).push(ws[n - 1])
    } else {
        f(n - 1)
    } by {
        assert(ws.take(n).drop_last() =~= ws.take(n - 1));
    }
    assert(ws.take(0) =~= Seq::empty());
    assert(ws.take(ws.len() as int) =~= ws);
    select::lemma_exactly(ws.len() as int, p, |i: int| ws[i], f)
}

/// The keywords that a snippet names are exactly those that are found in the
/// text, in order, and the snippet is laid around the first place of any of them.
pub proof fn law_found_keywords(
    cleaned: Seq<char>,
    lower: Seq<char>,
    kws: Seq<Seq<char>>,
) -> (ps: Seq<int>)
    ensures
        select::exactly(
            ps,
            kws.len() as int,
            |i: int|
                if exists|j: int| 0 <= j < kws[i].len() && chars::is_cjk(#[trigger] kws[i][j]) {
                    find::occurs(cleaned, kws[i])
                } else {
                    find::occurs(lower, kws[i])
                },
        ),
        found_keywords(cleaned, lower, kws) == Seq::new(ps.len(), |k: int| kws[ps[k]]),
        forall|i: int|
            0 <= i < kws.len() ==> (keyword_pos(cleaned, lower, #[trigger] kws[i]) matches Some(
                pos,
            ) ==> best_pos(cleaned, lower, kws) <= pos),
        ps.len() > 0 ==> exists|i: int|
            0 <= i < kws.len() && keyword_pos(cleaned, lower, #[trigger] kws[i]) == Some(
                best_pos(cleaned, lower, kws),
            ),
{
    let p = |i: int|
        if exists|j: int| 0 <= j < kws[i].len() && chars::is_cjk(#[trigger] kws[i][j]) {
            find::occurs(cleaned, kws[i])
        } else {
            find::occurs(lower, kws[i])
        };
    let f = |n: int| found_keywords(cleaned, lower, kws.take(n));
    assert forall|n: int| 0 < n <= kws.len() implies #[trigger] f(n) == if p(n - 1) {
        f(n - 1).push(kws[n - 1])
    } else {
        f(n - 1)
    } by {
        assert(kws.take(n).drop_last() =~= kws.take(n - 1));
        lemma_keyword_pos(cleaned, lower, kws[n - 1]);
    }
    assert(kws.take(0) =~= Seq::empty());
    assert(kws.take(kws.len() as int) =~= kws);
    let ps = select::lemma_exactly(kws.len() as int, p, |i: int| kws[i], f);
    lemma_best_pos(cleaned, lower, kws);
    ps
}

proof fn lemma_keyword_pos(cleaned: Seq<char>, lower: Seq<char>, w: Seq<char>)
    ensures
        keyword_pos(cleaned, lower, w) is Some <==> if exists|j: int|
            0 <= j < w.len() && chars::is_cjk(#[trigger] w[j]) {
            find::occurs(cleaned, w)
        } else {
            find::occurs(lower, w)
        },
{
    if exists|j: int| 0 <= j < w.len() && chars::is_cjk(#[trigger] w[j]) {
        let j = choose|j: int| 0 <= j < w.len() && chars::is_cjk(#[trigger] w[j]);
        assert(CharClass::Cjk.has(w[j]));
        assert(find::any_in(w, CharClass::Cjk));
        find::lemma_index_from(cleaned, w, 0);
    } else {
        assert(!find::any_in(w, CharClass::Cjk));
        find::lemma_index_from(lower, w, 0);
    }
}

proof fn lemma_best_pos(cleaned: Seq<char>, lower: Seq<char>, kws: Seq<Seq<char>>)
    ensures
        forall|i: int|
            0 <= i < kws.len() ==> (keyword_pos(cleaned, lower, #[trigger] kws[i]) matches Some(
                pos,
            ) ==> best_pos(cleaned, lower, kws) <= pos && found_keywords(
                cleaned,
                lower,
                kws,
            ).len() > 0),
        found_keywords(cleaned, lower, kws).len() > 0 ==> exists|i: int|
            0 <= i < kws.len() && keyword_pos(cleaned, lower, #[trigger] kws[i]) == Some(
                best_pos(cleaned, lower, kws),
            ),
    decreases kws.len(),
{
    if kws.len() > 0 {
        let front = kws.drop_last();
        let n = kws.len() - 1;
        lemma_best_pos(cleaned, lower, front);
        assert(forall|i: int| 0 <= i < n ==> front[i] == #[trigger] kws[i]);
        let best = best_pos(cleaned, lower, kws);
        if found_keywords(cleaned, lower, kws).len() > 0 && keyword_pos(cleaned, lower, kws[n])
            != Some(best) {
            let i = choose|i: int|
                0 <= i < front.len() && keyword_pos(cleaned, lower, #[trigger] front[i]) == Some(
                    best_pos(cleaned, lower, front),
                );
            assert(keyword_pos(cleaned, lower, kws[i]) == Some(best));
        }
    }
}

/// A snippet has the text from its start on: all of it where no more than the
/// limit is left, else as many characters as the limit allows; where something is
/// left out before or behind, three points stand for it. It starts at the front
/// where the first keyword stands within half the limit, else at the first
/// character that is no more than half the limit before it.
pub proof fn law_snippet(cleaned: Seq<char>, lower: Seq<char>, line: Seq<char>, max_len: int) -> (start:
    int)
    requires
        max_len >= 0,
        long_words(split::words(line)).len() > 0,
        cleaned.len() > 0,
    ensures
        ({
            let pos = best_pos(cleaned, lower, long_words(split::words(line))) as int;
            let end = if start + max_len < cleaned.len() {
                start + max_len
            } else {
                cleaned.len() as int
            };
            &&& 0 <= start < cleaned.len()
            &&& pos <= max_len / 2 ==> start == 0
            &&& pos > max_len / 2 && start > 0 ==> chars::utf8_len(cleaned.take(start)) >= pos
                - max_len / 2 > chars::utf8_len(cleaned.take(start - 1))
            &&& snippet(cleaned, lower, line, max_len).0 == (if start > 0 {
                "..."@
            } else {
                Seq::empty()
            }) + split::stripped(cleaned.subrange(start, end)) + (if end < cleaned.len() {
                "..."@
            } else {
                Seq::empty()
            })
        }),
{
    let pos = best_pos(cleaned, lower, long_words(split::words(line))) as int;
    if pos > max_len / 2 {
        lemma_char_at_or_after(cleaned, pos - max_len / 2, 0);
    }
    snippet_start(cleaned, pos, max_len)
}

proof fn lemma_char_at_or_after(s: Seq<char>, pos: int, i: int)
    requires
        0 <= i <= s.len(),
        s.len() > 0,
        i > 0 ==> chars::utf8_len(s.take(i - 1)) < pos,
    ensures
        ({
            let k = char_at_or_after(s, pos, i);
            &&& 0 <= k < s.len()
            &&& k > 0 ==> chars::utf8_len(s.take(k)) >= pos > chars::utf8_len(s.take(k - 1))
        }),
    decreases s.len() - i,
{
    if i < s.len() && chars::utf8_len(s.take(i)) < pos {
        lemma_char_at_or_after(s, pos, i + 1);
    }
}

/// A query of several words without a point asks for files only where it begins
/// with a request for files, or with "file " and asks where it is. One word asks for
/// files where it has a point or is made of capitals, digits and underscores, and is
/// long enough.
pub proof fn law_search_only(query: Seq<char>)
    ensures
        ({
            let q = split::stripped(query);
            let ws = split::words(q);
            &&& begins_any(q, FILE_SEARCH_PREFIXES@) ==> search_only(query)
            &&& find::begins(q, "file "@) && find::occurs(q, "ở đâu"@) ==> search_only(query)
            &&& ws.len() >= 2 && !q.contains('.') && !begins_any(q, FILE_SEARCH_PREFIXES@) && !(
            find::begins(q, "file "@) && find::occurs(q, "ở đâu"@)) ==> !search_only(query)
            &&& ws.len() == 1 && ws[0].contains('.') && chars::utf8_len(ws[0]) >= 3 ==> search_only(
                query,
            )
            &&& ws.len() == 1 && chars::utf8_len(ws[0]) >= 3 && (forall|i: int|
                0 <= i < ws[0].len() ==> 'A' <= #[trigger] ws[0][i] <= 'Z' || '0' <= ws[0][i] <= '9'
                    || ws[0][i] == '_') ==> search_only(query)
        }),
{
    let q = split::stripped(query);
    let ws = split::words(q);
    if !q.contains('.') {
        assert(!find::occurs_any(q, FILE_EXTENSIONS@)) by {
            if find::occurs_any(q, FILE_EXTENSIONS@) {
                let k = choose|k: int|
                    0 <= k < FILE_EXTENSIONS@.len() && find::occurs(
                        q,
                        #[trigger] FILE_EXTENSIONS@[k]@,
                    );
                let pat = FILE_EXTENSIONS@[k]@;
                lemma_extension_has_point(k);
                let i = choose|i: int| find::occurs_at(q, pat, i);
                assert(q.subrange(i, i + pat.len())[0] == pat[0]);
                assert(q[i] == '.');
            }
        }
    }
    if ws.len() == 1 && ws[0].contains('.') {
        let i = choose|i: int| 0 <= i < ws[0].len() && ws[0][i] == '.';
        assert(CharClass::Is('.').has(ws[0][i]));
        assert(find::any_in(ws[0], CharClass::Is('.')));
    }
}

proof fn lemma_extension_has_point(k: int)
    requires
        0 <= k < FILE_EXTENSIONS@.len(),
    ensures
        FILE_EXTENSIONS@[k]@.len() > 0,
        FILE_EXTENSIONS@[k]@[0] == '.',
{
    reveal_strlit(".pdf");
    reveal_strlit(".docx");
    reveal_strlit(".xlsx");
    reveal_strlit(".xls");
    reveal_strlit(".pptx");
    reveal_strlit(".csv");
    reveal_strlit(".md");
    reveal_strlit(".txt");
    assert(FILE_EXTENSIONS@.len() == 8);
    assert(FILE_EXTENSIONS@[0]@ == ".pdf"@ && FILE_EXTENSIONS@[1]@ == ".docx"@
        && FILE_EXTENSIONS@[2]@ == ".xlsx"@ && FILE_EXTENSIONS@[3]@ == ".xls"@
        && FILE_EXTENSIONS@[4]@ == ".pptx"@ && FILE_EXTENSIONS@[5]@ == ".csv"@
        && FILE_EXTENSIONS@[6]@ == ".md"@ && FILE_EXTENSIONS@[7]@ == ".txt"@);
}

/// What a snippet is cut out of: the lines of the content that are not blank, with a
/// bar between them; the lines are gone through one by one.
pub proof fn law_flattened(line: Seq<char>, rest: Seq<char>)
    requires
        forall|i: int| 0 <= i < line.len() ==> #[trigger] line[i] != '\n' && line[i] != '\r',
    ensures
        flattened(line) == edit::joined(split::words(split::stripped(line)), " "@),
        split::stripped(line).len() == 0 ==> flattened(line.push('\n') + rest) == flattened(rest),
{
    split::law_lines(line, rest);
    let bare = split::stripped(line);
    let none = Seq::<Seq<char>>::empty();
    let l = split::lines(line);
    let s = split::nonempty(stripped_all(l));
    reveal_with_fuel(split::nonempty, 2);
    if line.len() == 0 {
        assert(stripped_all(l) =~= none);
        assert(s =~= none);
        assert(bare =~= line) by {
            let ends = split::law_trim(line, CharClass::White);
        }
        edit::law_joined(s, none, " | "@);
        assert(edit::joined(s, " | "@) =~= bare);
    } else {
        assert(stripped_all(l) =~= seq![bare]);
        assert(seq![bare].drop_last() =~= none);
        if bare.len() == 0 {
            assert(s =~= none);
            assert(edit::joined(s, " | "@) =~= bare);
        } else {
            assert(s =~= seq![bare]);
            edit::law_joined(s, none, " | "@);
        }
    }
    if bare.len() == 0 {
        let all = split::lines(line.push('\n') + rest);
        assert(all == seq![line] + split::lines(rest)) by {
            if line.len() > 0 {
                assert(line[line.len() - 1] != '\r');
            }
        }
        assert(stripped_all(all) =~= seq![bare] + stripped_all(split::lines(rest)));
        split::lemma_nonempty_concat(seq![bare], stripped_all(split::lines(rest)));
        assert(seq![bare].drop_last() =~= none);
        assert(split::nonempty(seq![bare]) =~= none);
        assert(none + split::nonempty(stripped_all(split::lines(rest))) =~= split::nonempty(
            stripped_all(split::lines(rest)),
        ));
    }
}

/// One word of three bytes or more that has letters and digits, and nothing else,
/// asks for files.
pub proof fn law_mixed_word(query: Seq<char>, i: int, j: int)
    requires
        split::words(split::stripped(query)).len() == 1,
        ({
            let w = split::words(split::stripped(query))[0];
            &&& chars::utf8_len(w) >= 3
            &&& forall|k: int| 0 <= k < w.len() ==> chars::is_alnum(#[trigger] w[k])
            &&& 0 <= i < w.len() && '0' <= w[i] <= '9'
            &&& 0 <= j < w.len() && ('a' <= w[j] <= 'z' || 'A' <= w[j] <= 'Z')
        }),
    ensures
        search_only(query),
{
    let w = split::words(split::stripped(query))[0];
    assert(chars::is_digit(w[i]));
    assert(chars::is_letter(w[j]));
    assert(mixed_word(w));
}

/// More of what is a compound word: one with a point and something behind it, one
/// without small letters, and one that is one without the punctuation at its end.
pub proof fn law_compound_name(a: Seq<char>, b: Seq<char>, w: Seq<char>, c: char)
    requires
        a.len() > 0 && b.len() > 0 && chars::is_letter(b.last()),
    ensures
        compound_word(a + "."@ + b),
        w.len() >= 2 && (forall|i: int| 0 <= i < w.len() ==> 'A' <= #[trigger] w[i] <= 'Z')
            ==> compound_word(w),
        c == ',' || c == '.' || c == ';' || c == ':' ==> compound_word(w.push(c)) == compound_word(
            w,
        ),
{
    reveal_strlit(".");
    reveal_strlit(",.;:");
    let k = CharClass::AnyOf(",.;:");
    let s = a + "."@ + b;
    assert(s.last() == b.last());
    assert(!k.has(s.last()));
    assert(split::trim_end(s, k) == s);
    chars::lemma_utf8_len_bounds(s);
    let p = CharClass::Is('.');
    find::law_first_index(s, p, 0);
    assert(s[a.len() as int] == '.');
    assert(p.has(s[a.len() as int]));
    assert(!standalone_number(s)) by {
        let i = s.len() - 1;
        assert(chars::is_letter(s[i]));
        assert(!(chars::is_digit(s[i]) || s[i] == '.' || s[i] == ','));
    }
    if w.len() >= 2 && (forall|i: int| 0 <= i < w.len() ==> 'A' <= #[trigger] w[i] <= 'Z') {
        assert('A' <= w[0] <= 'Z' && 'A' <= w[w.len() - 1] <= 'Z');
        assert(!k.has(w.last()));
        assert(split::trim_end(w, k) == w);
        chars::lemma_utf8_len_bounds(w);
        assert(letters_upper(w));
        assert(!(chars::is_digit(w[0]) || w[0] == '.' || w[0] == ','));
    }
    if c == ',' || c == '.' || c == ';' || c == ':' {
        let set = ",.;:"@;
        assert(set[0] == ',' && set[1] == '.' && set[2] == ';' && set[3] == ':');
        assert(set.contains(set[0]) && set.contains(set[1]) && set.contains(set[2]) && set.contains(
            set[3],
        ));
        assert(k.has(c));
        assert(w.push(c).drop_last() =~= w);
    }
}

} // verus!
