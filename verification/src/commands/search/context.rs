//! Files for an answer: citations, versions of one file, the intent of a
//! query and its budget, and the ranking of files.
use vstd::prelude::*;

use crate::commands::search::keyword;
use crate::commands::search::AttachedFile;
use crate::commands::search::SearchResult;
use crate::order;
use crate::order::Reversed;
use crate::score::Score;
use crate::search::hybrid::HybridResult;
use crate::select;
use crate::text;
use crate::text::chars;
use crate::text::chars::CharClass;
use crate::text::edit;
use crate::text::find;
use crate::text::number;
use crate::text::split;

verus! {

/// Where the digits from `i` on end.
pub open spec fn digits_end(v: Seq<char>, i: int) -> int
    decreases v.len() - i,
{
    if i < v.len() && chars::is_digit(v[i]) {
        digits_end(v, i + 1)
    } else {
        i
    }
}

pub proof fn lemma_digits_end(v: Seq<char>, i: int)
    ensures
        i <= digits_end(v, i),
        i <= v.len() ==> digits_end(v, i) <= v.len(),
        forall|k: int| i <= k < digits_end(v, i) ==> chars::is_digit(#[trigger] v[k]),
    decreases v.len() - i,
{
    if i < v.len() && chars::is_digit(v[i]) {
        lemma_digits_end(v, i + 1);
    }
}

/// "[n]" stands at `i`.
pub open spec fn cites_at(v: Seq<char>, i: int, n: nat) -> bool {
    let e = digits_end(v, i + 1);
    &&& 0 <= i < v.len()
    &&& v[i] == '['
    &&& i + 1 < e < v.len()
    &&& v[e] == ']'
    &&& number::digits_value(v.subrange(i + 1, e)) == n
}

/// A text cites source `n`: "[n]" stands somewhere in it.
pub open spec fn cites(v: Seq<char>, n: nat) -> bool {
    exists|i: int| cites_at(v, i, n)
}

/// The files among the first that are cited; file `k` is source `k + 1`.
pub open spec fn cited_files(response: Seq<char>, files: Seq<AttachedFile>) -> Seq<AttachedFile>
    decreases files.len(),
{
    if files.len() == 0 {
        files
    } else if cites(response, files.len()) {
        cited_files(response, files.drop_last()).push(files.last())
    } else {
        cited_files(response, files.drop_last())
    }
}

/// The files that an answer rests on: those that it cites, or all where it
/// cites none of them.
pub open spec fn answer_files(response: Seq<char>, files: Seq<AttachedFile>) -> Seq<AttachedFile> {
    if cited_files(response, files).len() == 0 {
        files
    } else {
        cited_files(response, files)
    }
}

/// Source `n` is cited before `i`.
spec fn cited_before(v: Seq<char>, i: int, n: nat) -> bool {
    exists|k: int| k < i && cites_at(v, k, n)
}

/// The flag of source `n + 1` says whether it is cited before `i`.
spec fn flagged(v: Seq<char>, flags: Seq<bool>, i: int, n: int) -> bool {
    flags[n] <==> cited_before(v, i, (n + 1) as nat)
}

/// Keeps the files that the answer cites as "[1]", "[2]" and so on; all of
/// them where it cites none.
pub fn filter_cited_files(ai_response: &str, all_files: &[AttachedFile]) -> (r: Vec<AttachedFile>)
    ensures
        r@ == answer_files(ai_response@, all_files@),
{
    let v: Vec<char> = chars::to_chars(ai_response);
    let len: usize = v.len();
    let count: usize = all_files.len();
    let mut cited: Vec<bool> = Vec::new();
    let mut k: usize = 0;
    while k < count
        invariant
            k <= count,
            cited@ == Seq::new(k as nat, |j: int| false),
        decreases count - k,
    {
        cited.push(false);
        k += 1;
    }
    let mut i: usize = 0;
    while i < len
        invariant
            i <= len == v@.len(),
            cited@.len() == count,
            forall|n: int| 0 <= n < count ==> #[trigger] flagged(v@, cited@, i as int, n),
        decreases len - i,
    {
        let ghost from = i as int;
        let ghost before = cited@;
        if v[i] == '[' {
            let start: usize = i + 1;
            let mut e: usize = start;
            while e < len && chars::digit(v[e])
                invariant
                    start <= e <= len == v@.len(),
                    digits_end(v@, start as int) == digits_end(v@, e as int),
                decreases len - e,
            {
                e += 1;
            }
            proof {
                lemma_digits_end(v@, start as int);
            }
            if e < len && v[e] == ']' && e > start {
                let digits: &[char] = vstd::slice::slice_subrange(v.as_slice(), start, e);
                assert forall|j: int| 0 <= j < digits@.len() implies chars::is_digit(
                    #[trigger] digits@[j],
                ) by {
                    assert(digits@[j] == v@[start + j]);
                }
                if let Some(n) = number::value_upto(digits, count as u64) {
                    if n >= 1 {
                        cited.set((n - 1) as usize, true);
                    }
                }
            }
            i = e;
        } else {
            i += 1;
        }
        proof {
            assert forall|n: int| 0 <= n < count implies #[trigger] flagged(
                v@,
                cited@,
                i as int,
                n,
            ) by {
                let want = (n + 1) as nat;
                assert(flagged(v@, before, from, n));
                assert(cited@[n] <==> before[n] || cites_at(v@, from, want));
                assert forall|k: int| from < k < i implies !cites_at(v@, k, want) by {
                    assert(chars::is_digit(v@[k]));
                }
                if cited_before(v@, i as int, want) {
                    let k = choose|k: int| k < i && cites_at(v@, k, want);
                    assert(k <= from);
                }
                if cited_before(v@, from, want) {
                    let k = choose|k: int| k < from && cites_at(v@, k, want);
                    assert(k < i && cites_at(v@, k, want));
                }
            }
        }
    }
    assert forall|n: int| 0 <= n < count implies (cites(ai_response@, (n + 1) as nat)
        <==> #[trigger] cited@[n]) by {
        assert(flagged(v@, cited@, len as int, n));
        let want = (n + 1) as nat;
        if cites(v@, want) {
            let k = choose|k: int| cites_at(v@, k, want);
            assert(k < len);
        }
    }
    let mut out: Vec<AttachedFile> = Vec::new();
    let mut m: usize = 0;
    while m < count
        invariant
            m <= count,
            count == all_files@.len(),
            cited@.len() == count,
            forall|n: int|
                0 <= n < count ==> (cites(ai_response@, (n + 1) as nat)
                    <==> #[trigger] cited@[n]),
            out@ == cited_files(ai_response@, all_files@.take(m as int)),
        decreases count - m,
    {
        assert(all_files@.take(m + 1).drop_last() =~= all_files@.take(m as int));
        assert(cites(ai_response@, (m + 1) as nat) <==> cited@[m as int]);
        if cited[m] {
            out.push(all_files[m].clone());
        }
        m += 1;
    }
    assert(all_files@.take(count as int) =~= all_files@);
    if out.len() == 0 {
        let mut all: Vec<AttachedFile> = Vec::new();
        let mut j: usize = 0;
        while j < count
            invariant
                j <= count,
                count == all_files@.len(),
                all@ == all_files@.take(j as int),
            decreases count - j,
        {
            all.push(all_files[j].clone());
            j += 1;
        }
        assert(all_files@.take(count as int) =~= all_files@);
        all
    } else {
        out
    }
}

/// What is kept is a subsequence of the files, and it is not empty where there
/// are files.
pub proof fn law_answer_files(response: Seq<char>, files: Seq<AttachedFile>)
    ensures
        files.len() > 0 ==> answer_files(response, files).len() > 0,
        answer_files(response, files).len() <= files.len(),
        forall|f: AttachedFile|
            answer_files(response, files).contains(f) ==> #[trigger] files.contains(f),
{
    lemma_cited_files(response, files);
}

proof fn lemma_cited_files(response: Seq<char>, files: Seq<AttachedFile>)
    ensures
        cited_files(response, files).len() <= files.len(),
        forall|f: AttachedFile|
            cited_files(response, files).contains(f) ==> #[trigger] files.contains(f),
    decreases files.len(),
{
    if files.len() > 0 {
        lemma_cited_files(response, files.drop_last());
        let front = cited_files(response, files.drop_last());
        let all = cited_files(response, files);
        assert forall|f: AttachedFile| all.contains(f) implies #[trigger] files.contains(f) by {
            let i = choose|i: int| 0 <= i < all.len() && all[i] == f;
            if i < front.len() {
                assert(front[i] == f);
                assert(front.contains(f));
                assert(files.drop_last().contains(f));
                let j = choose|j: int| 0 <= j < files.len() - 1 && files.drop_last()[j] == f;
                assert(files[j] == f);
            } else {
                assert(files[files.len() - 1] == f);
            }
        }
    }
}

/// `s` without the copies of `pat` at its end.
pub open spec fn without_suffix(s: Seq<char>, pat: Seq<char>) -> Seq<char>
    decreases s.len(),
{
    if pat.len() > 0 && find::ends(s, pat) {
        without_suffix(s.take(s.len() - pat.len()), pat)
    } else {
        s
    }
}

fn trim_suffix(s: &str, pat: &str) -> (r: String)
    ensures
        r@ == without_suffix(s@, pat@),
{
    let v: Vec<char> = chars::to_chars(s);
    let p: Vec<char> = chars::to_chars(pat);
    let mut n: usize = v.len();
    assert(s@.take(s@.len() as int) =~= s@);
    if p.len() == 0 {
        return edit::owned(s);
    }
    while n >= p.len() && find::matches_at(
        vstd::slice::slice_subrange(v.as_slice(), 0, n),
        p.as_slice(),
        n - p.len(),
    )
        invariant
            n <= v@.len(),
            v@ == s@,
            p@ == pat@,
            p@.len() > 0,
            without_suffix(s@.take(n as int), pat@) == without_suffix(s@, pat@),
        decreases n,
    {
        assert(v@.subrange(0, n as int) =~= s@.take(n as int));
        assert(s@.take(n as int).take(n - p@.len()) =~= s@.take(n - p@.len()));
        n -= p.len();
    }
    assert(v@.subrange(0, n as int) =~= s@.take(n as int));
    chars::from_chars(vstd::slice::slice_subrange(v.as_slice(), 0, n))
}

/// A file name in lower case without the mark of its version: digits, "v" or
/// "copy" behind a separator, and a number in brackets with the spaces before
/// it, before the extension.
pub open spec fn unversioned(lower: Seq<char>) -> Seq<char> {
    let (stem, ext) = match find::last_index(lower, CharClass::Is('.')) {
        Some(i) => (lower.take(i), lower.skip(i)),
        None => (lower, Seq::empty()),
    };
    let a = split::trim_end(stem, CharClass::Digit);
    let b = without_suffix(without_suffix(without_suffix(a, "_v"@), "-v"@), " v"@);
    let c = without_suffix(without_suffix(without_suffix(b, "_copy"@), "-copy"@), " copy"@);
    let d = split::trim_end(split::trim_end(c, CharClass::Is(')')), CharClass::Digit);
    let f = split::trim_end(d, CharClass::Is('('));
    if find::ends(d, "("@) {
        split::trim_end(f, CharClass::Is(' ')) + ext
    } else {
        f + ext
    }
}

/// A file name in lower case without the mark of its version.
pub fn strip_version(lower: &str) -> (r: String)
    ensures
        r@ == unversioned(lower@),
{
    let v: Vec<char> = chars::to_chars(lower);
    let cut: usize = match find::rfind(v.as_slice(), CharClass::Is('.')) {
        Some(i) => i,
        None => v.len(),
    };
    let stem: String = edit::slice(lower, 0, cut);
    let ext: String = edit::slice(lower, cut, v.len());
    proof {
        match find::last_index(lower@, CharClass::Is('.')) {
            Some(i) => {
                assert(stem@ =~= lower@.take(i));
                assert(ext@ =~= lower@.skip(i));
            },
            None => {
                assert(stem@ =~= lower@);
                assert(ext@ =~= Seq::empty());
            },
        }
    }
    let s: String = split::trimmed_end(stem.as_str(), CharClass::Digit);
    let s: String = trim_suffix(s.as_str(), "_v");
    let s: String = trim_suffix(s.as_str(), "-v");
    let s: String = trim_suffix(s.as_str(), " v");
    let s: String = trim_suffix(s.as_str(), "_copy");
    let s: String = trim_suffix(s.as_str(), "-copy");
    let s: String = trim_suffix(s.as_str(), " copy");
    let s: String = split::trimmed_end(s.as_str(), CharClass::Is(')'));
    let s: String = split::trimmed_end(s.as_str(), CharClass::Digit);
    let bare: String = split::trimmed_end(s.as_str(), CharClass::Is('('));
    if find::ends_with(s.as_str(), "(") {
        let spaced: String = split::trimmed_end(bare.as_str(), CharClass::Is(' '));
        edit::concat2(spaced.as_str(), ext.as_str())
    } else {
        edit::concat2(bare.as_str(), ext.as_str())
    }
}

/// The name that all versions of a file share: "報告_v3.xlsx" has
/// "報告.xlsx", "report_v2.xlsx" has "report.xlsx".
pub fn normalize_filename(name: &str) -> (r: String)
    ensures
        r@ == unversioned(chars::lowercase(name@)),
{
    strip_version(name.to_lowercase().as_str())
}

/// What a query wants of the documents.
#[derive(Clone, Copy, Debug, PartialEq, Eq, Structural)]
pub enum QueryIntent {
    /// A value.
    Lookup,
    /// A comparison.
    Compare,
    /// The whole of a document.
    Summarize,
    /// All items of a kind.
    Aggregate,
    /// Anything else.
    General,
}

/// How much context an intent is given.
pub open spec fn budget(intent: QueryIntent) -> (usize, usize, usize) {
    match intent {
        QueryIntent::Lookup => (40_000, 40_000, 30),
        QueryIntent::Compare => (80_000, 80_000, 40),
        QueryIntent::Summarize => (120_000, 120_000, 60),
        QueryIntent::Aggregate => (120_000, 120_000, 40),
        QueryIntent::General => (40_000, 40_000, 30),
    }
}

/// The characters for a file, the characters for all, and the chunks for a
/// file that an intent is given.
pub fn context_budget(intent: &QueryIntent) -> (r: (usize, usize, usize))
    ensures
        r == budget(*intent),
{
    match intent {
        QueryIntent::Lookup => (40_000, 40_000, 30),
        QueryIntent::Compare => (80_000, 80_000, 40),
        QueryIntent::Summarize => (120_000, 120_000, 60),
        QueryIntent::Aggregate => (120_000, 120_000, 40),
        QueryIntent::General => (40_000, 40_000, 30),
    }
}

/// Clear phrases of the intent `Summarize`.
pub const SUMMARIZE_STRONG: [&'static str; 29] = [
    "tóm tắt", "tổng quan", "tổng hợp", "nội dung chính", "toàn bộ nội dung", "mô tả chi tiết",
    "phân tích chi tiết", "tạo tài liệu", "viết tài liệu", "tạo báo cáo", "viết báo cáo",
    "hướng dẫn sử dụng", "giải thích toàn bộ", "giải thích về", "summarize the", "summary of",
    "give me an overview", "create a document", "write a document", "generate a report",
    "explain how", "explain the", "full analysis", "detailed analysis", "training document",
    "training material", "要約して", "まとめて", "概要を",
];

/// Vague phrases of the intent `Summarize`.
pub const SUMMARIZE_WEAK: [&'static str; 7] = [
    "tóm tắt", "tổng quan", "báo cáo", "overview", "summarize", "summary", "training",
];

/// Clear phrases of the intent `Aggregate`.
pub const AGGREGATE_STRONG: [&'static str; 10] = [
    "liệt kê tất cả", "danh sách tất cả", "liệt kê các", "danh sách các", "tổng số lượng",
    "thống kê theo", "trích xuất tất cả", "list all", "how many", "count all",
];

/// Vague phrases of the intent `Aggregate`.
pub const AGGREGATE_WEAK: [&'static str; 9] = [
    "liệt kê", "danh sách", "thống kê", "trích xuất", "tổng số", "bao nhiêu", "list", "count",
    "total",
];

/// Clear phrases of the intent `Compare`.
pub const COMPARE_STRONG: [&'static str; 7] = [
    "so sánh giữa", "khác nhau giữa", "khác biệt giữa", "compare between", "difference between",
    "so sánh với", "giống và khác",
];

/// Vague phrases of the intent `Compare`.
pub const COMPARE_WEAK: [&'static str; 8] = [
    "so sánh", "đối chiếu", "khác nhau", "khác biệt", "giống nhau", "compare", "versus", "vs",
];

/// Clear phrases of the intent `Lookup`.
pub const LOOKUP_STRONG: [&'static str; 8] = [
    "là gì", "ở đâu", "khi nào", "giá trị của", "what is the", "where is the", "find the",
    "cho tôi biết",
];

/// Vague phrases of the intent `Lookup`.
pub const LOOKUP_WEAK: [&'static str; 6] = [
    "là gì", "ở đâu", "what is", "where is", "which", "find",
];

/// How many entries of a table occur in a text.
pub open spec fn matching(q: Seq<char>, table: Seq<&str>) -> nat
    decreases table.len(),
{
    if table.len() == 0 {
        0
    } else {
        matching(q, table.drop_last()) + if find::occurs(q, table.last()@) {
            1nat
        } else {
            0nat
        }
    }
}

fn count_matching(q: &str, table: &[&str]) -> (n: usize)
    requires
        table@.len() <= 1000,
    ensures
        n == matching(q@, table@),
        n <= 1000,
{
    let mut n: usize = 0;
    let mut k: usize = 0;
    while k < table.len()
        invariant
            k <= table@.len() <= 1000,
            n <= k,
            n == matching(q@, table@.take(k as int)),
        decreases table@.len() - k,
    {
        assert(table@.take(k + 1).drop_last() =~= table@.take(k as int));
        let word: &str = table[k];
        assert(word@ == table@[k as int]@);
        if find::contains(q, word) {
            n += 1;
        }
        k += 1;
    }
    assert(table@.take(table@.len() as int) =~= table@);
    n
}

/// The points of an intent: three for a clear phrase, one for a vague one.
pub open spec fn points(q: Seq<char>, strong: Seq<&str>, weak: Seq<&str>) -> nat {
    3 * matching(q, strong) + matching(q, weak)
}

/// What a comparison of two things begins with.
pub const COMPARISON: &'static str = "so sánh ";

/// What stands between the two things.
pub const BETWEEN: &'static str = " và ";

/// Two things are compared: "so sánh A và B".
pub open spec fn compares_two(q: Seq<char>) -> bool {
    exists|i: int, j: int|
        find::occurs_at(q, COMPARISON@, i) && find::occurs_at(q, BETWEEN@, j) && i
            + COMPARISON@.len() < j
}

fn is_comparison_of_two(q: &str) -> (r: bool)
    ensures
        r == compares_two(q@),
{
    let v: Vec<char> = chars::to_chars(q);
    let comparison: Vec<char> = chars::to_chars(COMPARISON);
    let between: Vec<char> = chars::to_chars(BETWEEN);
    let len: usize = v.len();
    proof {
        find::lemma_index_from(q@, COMPARISON@, 0);
    }
    match find::find(v.as_slice(), comparison.as_slice()) {
        Some(i) => {
            let from: usize = i + comparison.len();
            if from >= len {
                proof {
                    assert forall|a: int, b: int|
                        find::occurs_at(q@, COMPARISON@, a) && find::occurs_at(q@, BETWEEN@, b)
                            implies a + COMPARISON@.len() >= b by {
                        assert(i <= a);
                    }
                }
                return false;
            }
            proof {
                find::lemma_index_from(q@, BETWEEN@, from + 1);
            }
            match find::find_from(v.as_slice(), between.as_slice(), from + 1) {
                Some(j) => {
                    assert(find::occurs_at(q@, COMPARISON@, i as int));
                    assert(find::occurs_at(q@, BETWEEN@, j as int));
                    true
                },
                None => {
                    assert forall|a: int, b: int|
                        find::occurs_at(q@, COMPARISON@, a) && find::occurs_at(q@, BETWEEN@, b)
                            implies a + COMPARISON@.len() >= b by {
                        assert(i <= a);
                    }
                    false
                },
            }
        },
        None => false,
    }
}

/// The intent of a query in lower case: the one with the most points, of
/// several the first in order. Below two points it is `Compare` where two things
/// are compared, else `General`.
pub open spec fn intent_of(q: Seq<char>) -> QueryIntent {
    let s = points(q, SUMMARIZE_STRONG@, SUMMARIZE_WEAK@);
    let a = points(q, AGGREGATE_STRONG@, AGGREGATE_WEAK@);
    let c = points(q, COMPARE_STRONG@, COMPARE_WEAK@);
    let l = points(q, LOOKUP_STRONG@, LOOKUP_WEAK@);
    if s >= 2 && s >= a && s >= c && s >= l {
        QueryIntent::Summarize
    } else if a >= 2 && a >= c && a >= l {
        QueryIntent::Aggregate
    } else if c >= 2 && c >= l {
        QueryIntent::Compare
    } else if l >= 2 {
        QueryIntent::Lookup
    } else if compares_two(q) {
        QueryIntent::Compare
    } else {
        QueryIntent::General
    }
}

/// The intent of a query that is in lower case.
pub fn classify_intent(q: &str) -> (r: QueryIntent)
    ensures
        r == intent_of(q@),
{
    let s: usize = 3 * count_matching(q, SUMMARIZE_STRONG.as_slice()) + count_matching(
        q,
        SUMMARIZE_WEAK.as_slice(),
    );
    let a: usize = 3 * count_matching(q, AGGREGATE_STRONG.as_slice()) + count_matching(
        q,
        AGGREGATE_WEAK.as_slice(),
    );
    let c: usize = 3 * count_matching(q, COMPARE_STRONG.as_slice()) + count_matching(
        q,
        COMPARE_WEAK.as_slice(),
    );
    let l: usize = 3 * count_matching(q, LOOKUP_STRONG.as_slice()) + count_matching(
        q,
        LOOKUP_WEAK.as_slice(),
    );
    if s >= 2 && s >= a && s >= c && s >= l {
        QueryIntent::Summarize
    } else if a >= 2 && a >= c && a >= l {
        QueryIntent::Aggregate
    } else if c >= 2 && c >= l {
        QueryIntent::Compare
    } else if l >= 2 {
        QueryIntent::Lookup
    } else if is_comparison_of_two(q) {
        QueryIntent::Compare
    } else {
        QueryIntent::General
    }
}

/// The intent of a query, whatever its case.
pub fn detect_query_intent(query: &str) -> (r: QueryIntent)
    ensures
        r == intent_of(chars::lowercase(query@)),
{
    classify_intent(query.to_lowercase().as_str())
}

/// A file among the results, with its chunks.
#[derive(Debug)]
pub struct FileRankInfo {
    /// Its path.
    pub file_path: String,
    /// Its name.
    pub file_name: String,
    /// The scores of its chunks.
    pub bm25_scores: Vec<Score>,
    /// The texts of its chunks.
    pub chunk_contents: Vec<String>,
    /// The score by which it is ranked.
    pub composite_score: Score,
}

/// The paths of the results.
pub open spec fn result_paths(results: Seq<HybridResult>) -> Seq<Seq<char>> {
    Seq::new(results.len(), |i: int| results[i].file_path@)
}

/// The scores of the results of a file.
pub open spec fn scores_of(results: Seq<HybridResult>, path: Seq<char>) -> Seq<Score>
    decreases results.len(),
{
    if results.len() == 0 {
        Seq::empty()
    } else if results.last().file_path@ == path {
        scores_of(results.drop_last(), path).push(results.last().score)
    } else {
        scores_of(results.drop_last(), path)
    }
}

/// The texts of the results of a file.
pub open spec fn contents_of(results: Seq<HybridResult>, path: Seq<char>) -> Seq<Seq<char>>
    decreases results.len(),
{
    if results.len() == 0 {
        Seq::empty()
    } else if results.last().file_path@ == path {
        contents_of(results.drop_last(), path).push(results.last().content@)
    } else {
        contents_of(results.drop_last(), path)
    }
}

/// `file` collects the results of the file of `first`.
pub open spec fn collects(file: FileRankInfo, first: HybridResult, results: Seq<HybridResult>) -> bool {
    &&& file.file_path@ == first.file_path@
    &&& file.file_name@ == first.file_name@
    &&& file.bm25_scores@ == scores_of(results, first.file_path@)
    &&& text::views(file.chunk_contents@) == contents_of(results, first.file_path@)
    &&& file.composite_score.bits == 0
}

fn collect_file(first: &HybridResult, results: &[HybridResult]) -> (r: FileRankInfo)
    ensures
        collects(r, *first, results@),
{
    let mut scores: Vec<Score> = Vec::new();
    let mut contents: Vec<String> = Vec::new();
    let mut i: usize = 0;
    while i < results.len()
        invariant
            i <= results@.len(),
            scores@ == scores_of(results@.take(i as int), first.file_path@),
            text::views(contents@) == contents_of(results@.take(i as int), first.file_path@),
        decreases results@.len() - i,
    {
        assert(results@.take(i + 1).drop_last() =~= results@.take(i as int));
        let r: &HybridResult = &results[i];
        let ghost before = text::views(contents@);
        if r.file_path.eq(&first.file_path) {
            scores.push(r.score);
            contents.push(r.content.clone());
            assert(text::views(contents@) =~= before.push(r.content@));
        }
        i += 1;
    }
    assert(results@.take(results@.len() as int) =~= results@);
    FileRankInfo {
        file_path: first.file_path.clone(),
        file_name: first.file_name.clone(),
        bm25_scores: scores,
        chunk_contents: contents,
        composite_score: Score { bits: 0 },
    }
}

/// The files of the results, in the order in which they first occur, each with
/// the scores and texts of its results.
pub fn group_by_file(results: &[HybridResult]) -> (r: Vec<FileRankInfo>)
    ensures
        r@.len() == select::firsts(results@, result_paths(results@)).len(),
        forall|k: int|
            0 <= k < r@.len() ==> collects(
                #[trigger] r@[k],
                select::firsts(results@, result_paths(results@))[k],
                results@,
            ),
{
    let ghost paths = result_paths(results@);
    let mut keys: Vec<String> = Vec::new();
    let mut out: Vec<FileRankInfo> = Vec::new();
    let mut i: usize = 0;
    while i < results.len()
        invariant
            i <= results@.len(),
            paths == result_paths(results@),
            text::views(keys@) == paths.take(i as int),
            out@.len() == select::firsts(results@.take(i as int), paths).len(),
            forall|k: int|
                0 <= k < out@.len() ==> collects(
                    #[trigger] out@[k],
                    select::firsts(results@.take(i as int), paths)[k],
                    results@,
                ),
        decreases results@.len() - i,
    {
        assert(results@.take(i + 1).drop_last() =~= results@.take(i as int));
        let ghost before = text::views(keys@);
        keys.push(results[i].file_path.clone());
        assert(text::views(keys@) =~= before.push(paths[i as int]));
        assert(text::views(keys@) =~= paths.take(i + 1));
        let first: bool = select::first_with_key(&keys, i);
        assert(first == select::is_first(paths, i as int)) by {
            assert forall|j: int| 0 <= j <= i implies paths.take(i + 1)[j] == paths[j] by {}
            if first {
                assert forall|j: int| 0 <= j < i implies paths[j] != paths[i as int] by {
                    assert(paths.take(i + 1)[j] != paths.take(i + 1)[i as int]);
                }
            } else {
                let all = paths.take(i + 1);
                let j = choose|j: int| 0 <= j < i && all[j] == all[i as int];
                assert(paths[j] == paths[i as int]);
            }
        }
        if first {
            out.push(collect_file(&results[i], results));
        }
        i += 1;
    }
    assert(results@.take(results@.len() as int) =~= results@);
    out
}

/// Whether all chunks of a file are taken instead of the chunks found: always
/// for a compound term, else for a file of which less than half was found and
/// that is small or asked about as a whole.
pub fn should_expand(
    has_compound: bool,
    intent: &QueryIntent,
    found_chunks: usize,
    all_chunks: usize,
) -> (r: bool)
    ensures
        r == (all_chunks > found_chunks && (has_compound || (2 * found_chunks < all_chunks && (
        all_chunks <= 20 || *intent == QueryIntent::Summarize || *intent
            == QueryIntent::Aggregate)))),
{
    let deep: bool = matches!(intent, QueryIntent::Summarize | QueryIntent::Aggregate);
    all_chunks > found_chunks && (has_compound || (found_chunks < all_chunks - found_chunks && (
    deep || all_chunks <= 20)))
}

/// The word is one of the words of some text.
pub open spec fn word_of_some(texts: Seq<Seq<char>>, w: Seq<char>) -> bool {
    exists|k: int| 0 <= k < texts.len() && split::words(#[trigger] texts[k]).contains(w)
}

fn is_word_of_some(texts: &Vec<String>, w: &String) -> (r: bool)
    ensures
        r == word_of_some(text::views(texts@), w@),
{
    let ghost ts = text::views(texts@);
    let mut k: usize = 0;
    while k < texts.len()
        invariant
            k <= texts@.len(),
            ts == text::views(texts@),
            forall|j: int| 0 <= j < k ==> !split::words(#[trigger] ts[j]).contains(w@),
        decreases texts@.len() - k,
    {
        let words: Vec<String> = split::split_words(texts[k].as_str());
        assert(text::views(words@) == split::words(ts[k as int]));
        let mut i: usize = 0;
        while i < words.len()
            invariant
                i <= words@.len(),
                k < texts@.len(),
                ts == text::views(texts@),
                text::views(words@) == split::words(ts[k as int]),
                forall|j: int| 0 <= j < i ==> text::views(words@)[j] != w@,
            decreases words@.len() - i,
        {
            if words[i].eq(w) {
                assert(split::words(ts[k as int])[i as int] == w@);
                assert(split::words(ts[k as int]).contains(w@));
                return true;
            }
            i += 1;
        }
        assert(!split::words(ts[k as int]).contains(w@)) by {
            if split::words(ts[k as int]).contains(w@) {
                let j = choose|j: int|
                    0 <= j < split::words(ts[k as int]).len() && split::words(ts[k as int])[j] == w@;
                assert(text::views(words@)[j] != w@);
            }
        }
        k += 1;
    }
    false
}

/// The words whose form in lower case is a word of no compound term.
pub open spec fn loose_words(
    ws: Seq<Seq<char>>,
    lower: Seq<Seq<char>>,
    compounds_lower: Seq<Seq<char>>,
) -> Seq<Seq<char>>
    decreases ws.len(),
{
    if ws.len() == 0 {
        ws
    } else if word_of_some(compounds_lower, lower[ws.len() - 1]) {
        loose_words(ws.drop_last(), lower, compounds_lower)
    } else {
        loose_words(ws.drop_last(), lower, compounds_lower).push(ws.last())
    }
}

/// The terms by which files and chunks are judged: the compound terms, then
/// the words that belong to none of them.
pub fn combine_tokens(
    compounds: &Vec<String>,
    compounds_lower: &Vec<String>,
    words: &Vec<String>,
    words_lower: &Vec<String>,
) -> (r: Vec<String>)
    requires
        words@.len() == words_lower@.len(),
    ensures
        text::views(r@) == text::views(compounds@) + loose_words(
            text::views(words@),
            text::views(words_lower@),
            text::views(compounds_lower@),
        ),
{
    let mut out: Vec<String> = text::copy_all(compounds);
    let ghost base = text::views(compounds@);
    let ghost ws = text::views(words@);
    let ghost ls = text::views(words_lower@);
    let ghost cs = text::views(compounds_lower@);
    assert(text::views(out@) =~= base);
    assert(base + loose_words(ws.take(0), ls, cs) =~= base);
    let mut i: usize = 0;
    while i < words.len()
        invariant
            i <= words@.len(),
            words@.len() == words_lower@.len(),
            ws == text::views(words@),
            ls == text::views(words_lower@),
            cs == text::views(compounds_lower@),
            text::views(out@) == base + loose_words(ws.take(i as int), ls, cs),
        decreases words@.len() - i,
    {
        assert(ws.take(i + 1).drop_last() =~= ws.take(i as int));
        let ghost before = text::views(out@);
        if !is_word_of_some(compounds_lower, &words_lower[i]) {
            out.push(words[i].clone());
            assert(text::views(out@) =~= before.push(ws[i as int]));
            assert(text::views(out@) =~= base + loose_words(ws.take(i + 1), ls, cs));
        }
        i += 1;
    }
    assert(ws.take(ws.len() as int) =~= ws);
    out
}

/// The terms of a query and its keyword line.
pub open spec fn context_tokens_of(query: Seq<char>, keywords: Seq<char>) -> Seq<Seq<char>> {
    let compounds = keyword::compound_terms(query);
    let ws = keyword::long_words(split::words(keywords));
    compounds + loose_words(
        ws,
        keyword::lowercase_all(ws),
        keyword::lowercase_all(compounds),
    )
}

/// The terms by which files and chunks are judged for a query and its keyword
/// line.
pub fn context_tokens(query: &str, keywords: &str) -> (r: Vec<String>)
    ensures
        text::views(r@) == context_tokens_of(query@, keywords@),
{
    let compounds: Vec<String> = keyword::extract_compound_terms(query);
    let compounds_lower: Vec<String> = keyword::to_lowercase_all(&compounds);
    let words: Vec<String> = keyword::split_long_words(keywords);
    let words_lower: Vec<String> = keyword::to_lowercase_all(&words);
    assert(text::views(words@).len() == text::views(words_lower@).len());
    combine_tokens(&compounds, &compounds_lower, &words, &words_lower)
}

/// A term stands in a text: as it is for Chinese, Japanese and Korean, else in
/// lower case.
pub open spec fn token_in(raw: Seq<char>, lower: Seq<char>, t: Seq<char>, t_lower: Seq<char>) -> bool {
    if find::any_in(t, CharClass::Cjk) {
        find::occurs(raw, t)
    } else {
        find::occurs(lower, t_lower)
    }
}

fn has_token(raw: &str, lower: &str, t: &str, t_lower: &str) -> (r: bool)
    ensures
        r == token_in(raw@, lower@, t@, t_lower@),
{
    if keyword::contains_cjk(t) {
        find::contains(raw, t)
    } else {
        find::contains(lower, t_lower)
    }
}

/// How often a term stands in a text.
pub open spec fn token_count(
    raw: Seq<char>,
    lower: Seq<char>,
    t: Seq<char>,
    t_lower: Seq<char>,
) -> nat {
    if find::any_in(t, CharClass::Cjk) {
        find::count_from(raw, t, 0)
    } else {
        find::count_from(lower, t_lower, 0)
    }
}

/// A term that names what is looked for: Chinese, Japanese or Korean, or four
/// characters or more.
pub open spec fn critical(t: Seq<char>) -> bool {
    find::any_in(t, CharClass::Cjk) || t.len() >= 4
}

/// How many of the terms stand in a text, the critical ones only if so asked.
pub open spec fn token_hits(
    raw: Seq<char>,
    lower: Seq<char>,
    ts: Seq<Seq<char>>,
    ts_lower: Seq<Seq<char>>,
    only_critical: bool,
) -> nat
    decreases ts.len(),
{
    if ts.len() == 0 {
        0
    } else {
        token_hits(raw, lower, ts.drop_last(), ts_lower, only_critical) + if (!only_critical
            || critical(ts.last())) && token_in(raw, lower, ts.last(), ts_lower[ts.len() - 1]) {
            1nat
        } else {
            0nat
        }
    }
}

/// How many of the terms are critical.
pub open spec fn critical_count(ts: Seq<Seq<char>>) -> nat
    decreases ts.len(),
{
    if ts.len() == 0 {
        0
    } else {
        critical_count(ts.drop_last()) + if critical(ts.last()) {
            1nat
        } else {
            0nat
        }
    }
}

/// How often the terms stand in a text, together.
pub open spec fn token_matches(
    raw: Seq<char>,
    lower: Seq<char>,
    ts: Seq<Seq<char>>,
    ts_lower: Seq<Seq<char>>,
) -> nat
    decreases ts.len(),
{
    if ts.len() == 0 {
        0
    } else {
        token_matches(raw, lower, ts.drop_last(), ts_lower) + token_count(
            raw,
            lower,
            ts.last(),
            ts_lower[ts.len() - 1],
        )
    }
}

fn count_hits(
    raw: &str,
    lower: &str,
    ts: &Vec<String>,
    ts_lower: &Vec<String>,
    only_critical: bool,
) -> (n: usize)
    requires
        ts@.len() == ts_lower@.len(),
    ensures
        n == token_hits(
            raw@,
            lower@,
            text::views(ts@),
            text::views(ts_lower@),
            only_critical,
        ),
        n <= ts@.len(),
{
    let ghost tv = text::views(ts@);
    let ghost lv = text::views(ts_lower@);
    let mut n: usize = 0;
    let mut i: usize = 0;
    while i < ts.len()
        invariant
            i <= ts@.len(),
            ts@.len() == ts_lower@.len(),
            tv == text::views(ts@),
            lv == text::views(ts_lower@),
            n <= i,
            n == token_hits(raw@, lower@, tv.take(i as int), lv, only_critical),
        decreases ts@.len() - i,
    {
        assert(tv.take(i + 1).drop_last() =~= tv.take(i as int));
        let t: &str = ts[i].as_str();
        let crit: bool = keyword::contains_cjk(t) || edit::char_count(t) >= 4;
        if (!only_critical || crit) && has_token(raw, lower, t, ts_lower[i].as_str()) {
            n += 1;
        }
        i += 1;
    }
    assert(tv.take(tv.len() as int) =~= tv);
    n
}

fn count_critical(ts: &Vec<String>) -> (n: usize)
    ensures
        n == critical_count(text::views(ts@)),
{
    let ghost tv = text::views(ts@);
    let mut n: usize = 0;
    let mut i: usize = 0;
    while i < ts.len()
        invariant
            i <= ts@.len(),
            tv == text::views(ts@),
            n <= i,
            n == critical_count(tv.take(i as int)),
        decreases ts@.len() - i,
    {
        assert(tv.take(i + 1).drop_last() =~= tv.take(i as int));
        let t: &str = ts[i].as_str();
        if keyword::contains_cjk(t) || edit::char_count(t) >= 4 {
            n += 1;
        }
        i += 1;
    }
    assert(tv.take(tv.len() as int) =~= tv);
    n
}

fn count_token_matches(
    raw: &str,
    lower: &str,
    ts: &Vec<String>,
    ts_lower: &Vec<String>,
) -> (n: u128)
    requires
        ts@.len() == ts_lower@.len(),
    ensures
        n == token_matches(raw@, lower@, text::views(ts@), text::views(ts_lower@)),
{
    let ghost tv = text::views(ts@);
    let ghost lv = text::views(ts_lower@);
    let raw_chars: Vec<char> = chars::to_chars(raw);
    let lower_chars: Vec<char> = chars::to_chars(lower);
    let len: usize = ts.len();
    let mut n: u128 = 0;
    let mut i: usize = 0;
    while i < ts.len()
        invariant
            i <= ts@.len(),
            ts@.len() == ts_lower@.len(),
            len == ts@.len(),
            tv == text::views(ts@),
            lv == text::views(ts_lower@),
            raw_chars@ == raw@,
            lower_chars@ == lower@,
            n <= i * usize::MAX,
            n == token_matches(raw@, lower@, tv.take(i as int), lv),
        decreases ts@.len() - i,
    {
        assert(tv.take(i + 1).drop_last() =~= tv.take(i as int));
        let t: &str = ts[i].as_str();
        let count: usize = if keyword::contains_cjk(t) {
            find::count_matches(raw_chars.as_slice(), chars::to_chars(t).as_slice())
        } else {
            find::count_matches(
                lower_chars.as_slice(),
                chars::to_chars(ts_lower[i].as_str()).as_slice(),
            )
        };
        proof {
            assert((i + 1) * usize::MAX == i * usize::MAX + usize::MAX) by (nonlinear_arith);
            assert((i + 1) * usize::MAX <= 0xffff_ffff_ffff_ffff * 0xffff_ffff_ffff_ffff)
                by (nonlinear_arith)
                requires
                    i + 1 <= usize::MAX,
                    usize::MAX <= 0xffff_ffff_ffff_ffff,
            ;
        }
        n = n + count as u128;
        i += 1;
    }
    assert(tv.take(tv.len() as int) =~= tv);
    n
}

/// What is counted of a file to judge it.
#[derive(Clone, Copy, Debug, PartialEq, Eq, Structural)]
pub struct FileSignals {
    /// The terms, at least one.
    pub keyword_count: usize,
    /// The terms that stand in the name or the text.
    pub hits: usize,
    /// The length of the text in bytes, at least one.
    pub content_len: usize,
    /// How often terms stand in the text.
    pub total_matches: u128,
    /// The terms that stand in the name.
    pub name_hits: usize,
    /// The critical terms.
    pub critical_count: usize,
    /// The critical terms that stand in the name or the text.
    pub critical_hits: usize,
}

/// The counts of a file with a name and a text, both also in lower case.
pub open spec fn signals(
    name: Seq<char>,
    name_lower: Seq<char>,
    raw: Seq<char>,
    raw_lower: Seq<char>,
    ts: Seq<Seq<char>>,
    ts_lower: Seq<Seq<char>>,
) -> FileSignals {
    let all = name + " "@ + raw;
    let all_lower = name_lower + " "@ + raw_lower;
    FileSignals {
        keyword_count: if ts.len() == 0 {
            1
        } else {
            ts.len() as usize
        },
        hits: token_hits(all, all_lower, ts, ts_lower, false) as usize,
        content_len: if chars::utf8_len(raw) == 0 {
            1
        } else {
            chars::utf8_len(raw) as usize
        },
        total_matches: token_matches(raw, raw_lower, ts, ts_lower) as u128,
        name_hits: token_hits(name, name_lower, ts, ts_lower, false) as usize,
        critical_count: critical_count(ts) as usize,
        critical_hits: token_hits(all, all_lower, ts, ts_lower, true) as usize,
    }
}

/// Counts the signals of a file with a name and a text, both also in lower
/// case.
pub fn count_signals(
    name: &str,
    name_lower: &str,
    raw: &str,
    raw_lower: &str,
    ts: &Vec<String>,
    ts_lower: &Vec<String>,
) -> (r: FileSignals)
    requires
        ts@.len() == ts_lower@.len(),
    ensures
        r == signals(
            name@,
            name_lower@,
            raw@,
            raw_lower@,
            text::views(ts@),
            text::views(ts_lower@),
        ),
{
    let all: String = edit::concat3(name, " ", raw);
    let all_lower: String = edit::concat3(name_lower, " ", raw_lower);
    let bytes: usize = chars::byte_len(raw);
    FileSignals {
        keyword_count: if ts.len() == 0 {
            1
        } else {
            ts.len()
        },
        hits: count_hits(all.as_str(), all_lower.as_str(), ts, ts_lower, false),
        content_len: if bytes == 0 {
            1
        } else {
            bytes
        },
        total_matches: count_token_matches(raw, raw_lower, ts, ts_lower),
        name_hits: count_hits(name, name_lower, ts, ts_lower, false),
        critical_count: count_critical(ts),
        critical_hits: count_hits(all.as_str(), all_lower.as_str(), ts, ts_lower, true),
    }
}

/// The signals of a file for a list of terms.
pub fn file_signals(file: &FileRankInfo, tokens: &Vec<String>) -> (r: FileSignals)
    ensures
        ({
            let raw = edit::joined(text::views(file.chunk_contents@), " "@);
            let ts = text::views(tokens@);
            r == signals(
                file.file_name@,
                chars::lowercase(file.file_name@),
                raw,
                chars::lowercase(raw),
                ts,
                keyword::lowercase_all(ts),
            )
        }),
{
    let raw: String = edit::join(file.chunk_contents.as_slice(), " ");
    let lower: Vec<String> = keyword::to_lowercase_all(tokens);
    assert(text::views(lower@).len() == tokens@.len());
    count_signals(
        file.file_name.as_str(),
        file.file_name.as_str().to_lowercase().as_str(),
        raw.as_str(),
        raw.as_str().to_lowercase().as_str(),
        tokens,
        &lower,
    )
}

/// The keys by which files are ranked: the highest score first.
pub open spec fn rank_keys(files: Seq<FileRankInfo>) -> Seq<Reversed<i128>> {
    Seq::new(files.len(), |i: int| Reversed { key: files[i].composite_score.rank() as i128 })
}

/// `r` has the files with the highest score first, those with the same score
/// in the order in which they were.
pub open spec fn is_ranking(r: Seq<FileRankInfo>, files: Seq<FileRankInfo>) -> bool {
    exists|p: Seq<int>|
        #[trigger] order::is_order(p, rank_keys(files)) && r == order::arranged(files, p)
}

/// Ranks files by their score.
pub fn sort_by_score(files: Vec<FileRankInfo>) -> (r: Vec<FileRankInfo>)
    ensures
        is_ranking(r@, files@),
{
    let mut keys: Vec<Reversed<i128>> = Vec::new();
    let mut i: usize = 0;
    while i < files.len()
        invariant
            i <= files@.len(),
            keys@ == rank_keys(files@).take(i as int),
        decreases files@.len() - i,
    {
        keys.push(Reversed { key: files[i].composite_score.to_rank() });
        i += 1;
    }
    assert(keys@ =~= rank_keys(files@));
    let p: Vec<usize> = order::sorted_positions(&keys);
    proof {
        order::lemma_order_distinct(order::positions(p@), rank_keys(files@));
    }
    order::arrange(files, &p)
}

/// The names that the versions of the files share.
pub open spec fn shared_names(files: Seq<FileRankInfo>) -> Seq<Seq<char>> {
    Seq::new(files.len(), |i: int| unversioned(chars::lowercase(files[i].file_name@)))
}

/// Of several versions of a file, keeps the first.
pub fn drop_versions(files: Vec<FileRankInfo>) -> (r: Vec<FileRankInfo>)
    ensures
        r@ == select::firsts(files@, shared_names(files@)),
{
    let mut names: Vec<String> = Vec::new();
    let mut i: usize = 0;
    while i < files.len()
        invariant
            i <= files@.len(),
            text::views(names@) == shared_names(files@).take(i as int),
        decreases files@.len() - i,
    {
        let name: String = normalize_filename(files[i].file_name.as_str());
        let ghost before = text::views(names@);
        names.push(name);
        assert(text::views(names@) =~= before.push(name@));
        i += 1;
    }
    assert(text::views(names@) =~= shared_names(files@));
    assert(text::views(names@).len() == files@.len());
    select::keep_first_items(files, &names)
}

/// The least score that a file needs, as bits: one tenth.
pub const MIN_SCORE_BITS: u32 = 0x3dcc_cccd;

/// The share of the best score that a file needs, as bits: seven tenths.
pub const MIN_RATIO_BITS: u32 = 0x3f33_3333;

/// The score that a file needs: what the settings ask for, at least a tenth.
pub open spec fn needed_score(min_score: Score) -> Score {
    let floor = Score { bits: MIN_SCORE_BITS };
    if !min_score.is_nan() && min_score.rank() >= floor.rank() {
        min_score
    } else {
        floor
    }
}

/// A phrase stands in one of the texts once their white space is made single
/// spaces.
pub open spec fn phrase_in(texts: Seq<Seq<char>>, phrase: Seq<char>) -> bool {
    exists|k: int|
        0 <= k < texts.len() && find::occurs(
            edit::joined(split::words(#[trigger] texts[k]), " "@),
            phrase,
        )
}

/// Whether a phrase stands in one of the texts once their white space is made
/// single spaces.
pub fn contains_phrase(texts: &Vec<String>, phrase: &str) -> (r: bool)
    ensures
        r == phrase_in(text::views(texts@), phrase@),
{
    let ghost ts = text::views(texts@);
    let mut k: usize = 0;
    while k < texts.len()
        invariant
            k <= texts@.len(),
            ts == text::views(texts@),
            forall|j: int|
                0 <= j < k ==> !find::occurs(
                    edit::joined(split::words(#[trigger] ts[j]), " "@),
                    phrase@,
                ),
        decreases texts@.len() - k,
    {
        let words: Vec<String> = split::split_words(texts[k].as_str());
        let line: String = edit::join(words.as_slice(), " ");
        assert(line@ == edit::joined(split::words(ts[k as int]), " "@));
        if find::contains(line.as_str(), phrase) {
            return true;
        }
        k += 1;
    }
    false
}

/// A file is good enough: its score is, or it has the compound term of the
/// query word for word.
pub open spec fn passes(file: FileRankInfo, min_score: Score, compound: Option<Seq<char>>) -> bool {
    let needed = needed_score(min_score);
    ||| !file.composite_score.is_nan() && file.composite_score.rank() >= needed.rank()
    ||| match compound {
        Some(c) => phrase_in(
            keyword::lowercase_all(text::views(file.chunk_contents@)),
            chars::lowercase(c),
        ),
        None => false,
    }
}

/// Which files are good enough.
pub open spec fn passing(
    files: Seq<FileRankInfo>,
    min_score: Score,
    compound: Option<Seq<char>>,
) -> Seq<bool> {
    Seq::new(files.len(), |i: int| passes(files[i], min_score, compound))
}

fn file_passes(file: &FileRankInfo, min_score: Score, compound: &Option<String>) -> (r: bool)
    ensures
        r == passes(*file, min_score, text::option_view(*compound)),
{
    let floor: Score = Score { bits: MIN_SCORE_BITS };
    let needed: Score = if min_score.at_least(&floor) {
        min_score
    } else {
        floor
    };
    if file.composite_score.at_least(&needed) {
        return true;
    }
    match compound {
        Some(c) => {
            let lower: Vec<String> = keyword::to_lowercase_all(&file.chunk_contents);
            contains_phrase(&lower, c.as_str().to_lowercase().as_str())
        },
        None => false,
    }
}

/// The files that are good enough, in order. The first compound term of the
/// query, where it has one, lets a file with that term pass.
pub fn keep_passing(
    files: Vec<FileRankInfo>,
    min_score: Score,
    compound: &Option<String>,
) -> (r: Vec<FileRankInfo>)
    ensures
        r@ == select::kept(files@, passing(files@, min_score, text::option_view(*compound))),
{
    let mut keep: Vec<bool> = Vec::new();
    let mut i: usize = 0;
    while i < files.len()
        invariant
            i <= files@.len(),
            keep@ == passing(files@, min_score, text::option_view(*compound)).take(i as int),
        decreases files@.len() - i,
    {
        keep.push(file_passes(&files[i], min_score, compound));
        i += 1;
    }
    assert(keep@ =~= passing(files@, min_score, text::option_view(*compound)));
    select::keep_flagged(files, &keep)
}

/// The ranking of files: by score, one version of each, and good enough.
pub fn rank_files(
    files: Vec<FileRankInfo>,
    min_score: Score,
    compound: &Option<String>,
) -> (r: Vec<FileRankInfo>)
    ensures
        exists|sorted: Seq<FileRankInfo>| #[trigger]
            is_ranking(sorted, files@) && r@ == ({
                let distinct = select::firsts(sorted, shared_names(sorted));
                select::kept(distinct, passing(distinct, min_score, text::option_view(*compound)))
            }),
{
    let sorted: Vec<FileRankInfo> = sort_by_score(files);
    let ghost s = sorted@;
    assert(is_ranking(s, files@));
    let distinct: Vec<FileRankInfo> = drop_versions(sorted);
    keep_passing(distinct, min_score, compound)
}

/// A file is near the best: its share of the best score is enough, or it has
/// the best score.
pub open spec fn near_best(files: Seq<FileRankInfo>, ratios: Seq<Score>, i: int) -> bool {
    let ratio = ratios[i];
    let least = Score { bits: MIN_RATIO_BITS };
    ||| !ratio.is_nan() && ratio.rank() >= least.rank()
    ||| !files[i].composite_score.is_nan() && !files[0].composite_score.is_nan()
        && files[i].composite_score.rank() == files[0].composite_score.rank()
}

/// How many of the first `n` files are near the best.
pub open spec fn near_count(files: Seq<FileRankInfo>, ratios: Seq<Score>, n: int) -> nat
    decreases n,
{
    if n <= 0 {
        0
    } else {
        near_count(files, ratios, n - 1) + if near_best(files, ratios, n - 1) {
            1nat
        } else {
            0nat
        }
    }
}

/// The files of a context at most.
pub const CONTEXT_FILES: usize = 5;

/// How many places of the ranking are looked at: as many as there are files
/// near the best among the first ones, at least one.
pub open spec fn places_looked_at(files: Seq<FileRankInfo>, ratios: Seq<Score>) -> int {
    let n = near_count(
        files,
        ratios,
        if files.len() < CONTEXT_FILES {
            files.len() as int
        } else {
            CONTEXT_FILES as int
        },
    ) as int;
    if n < 1 {
        1
    } else {
        n
    }
}

/// The places among the first `n` that are taken: the first, and the others
/// whose share of the best score is not too small.
pub open spec fn taken_places(ratios: Seq<Score>, n: int) -> Seq<usize>
    decreases n,
{
    let least = Score { bits: MIN_RATIO_BITS };
    if n <= 0 {
        Seq::empty()
    } else if n > 1 && !ratios[n - 1].is_nan() && ratios[n - 1].rank() < least.rank() {
        taken_places(ratios, n - 1)
    } else {
        taken_places(ratios, n - 1).push((n - 1) as usize)
    }
}

/// The places of the ranking that go into the context. `ratios` has the share
/// of the best score of each file.
pub fn pick_files(files: &Vec<FileRankInfo>, ratios: &Vec<Score>) -> (r: Vec<usize>)
    requires
        files@.len() == ratios@.len(),
        files@.len() > 0,
    ensures
        r@ == taken_places(ratios@, places_looked_at(files@, ratios@)),
        0 < r@.len() <= CONTEXT_FILES,
        forall|i: int| 0 <= i < r@.len() ==> #[trigger] r@[i] < files@.len(),
{
    let least: Score = Score { bits: MIN_RATIO_BITS };
    let limit: usize = if files.len() < CONTEXT_FILES {
        files.len()
    } else {
        CONTEXT_FILES
    };
    let mut near: usize = 0;
    let mut i: usize = 0;
    while i < limit
        invariant
            i <= limit <= files@.len(),
            limit <= CONTEXT_FILES,
            files@.len() == ratios@.len(),
            files@.len() > 0,
            least.bits == MIN_RATIO_BITS,
            near <= i,
            near == near_count(files@, ratios@, i as int),
        decreases limit - i,
    {
        if ratios[i].at_least(&least) || files[i].composite_score.equals(&files[0].composite_score) {
            near += 1;
        }
        i += 1;
    }
    let count: usize = if near < 1 {
        1
    } else {
        near
    };
    let mut out: Vec<usize> = Vec::new();
    let mut k: usize = 0;
    while k < count
        invariant
            out@.len() <= k,
            k > 0 ==> out@.len() > 0,
            k <= count <= files@.len(),
            files@.len() == ratios@.len(),
            least.bits == MIN_RATIO_BITS,
            out@ == taken_places(ratios@, k as int),
            forall|j: int| 0 <= j < out@.len() ==> #[trigger] out@[j] < k,
        decreases count - k,
    {
        if !(k > 0 && ratios[k].below(&least)) {
            out.push(k);
        }
        k += 1;
    }
    out
}

/// How long the preview of a result is, in characters.
pub const PREVIEW_CHARS: usize = 300;

/// How many results of a search are shown.
pub const SHOWN_RESULTS: usize = 5;

/// `s` is a result as it is shown: with the snippet around the first keyword
/// of the query.
pub open spec fn is_preview(s: SearchResult, r: HybridResult, query: Seq<char>) -> bool {
    &&& s.chunk_id == r.chunk_id
    &&& s.file_path == r.file_path
    &&& s.file_name == r.file_name
    &&& s.section == r.section
    &&& s.score == r.score
    &&& {
        let cleaned = keyword::flattened(r.content@);
        let snippet = keyword::snippet(
            cleaned,
            chars::lowercase(cleaned),
            chars::lowercase(keyword::keywords_of(query)),
            PREVIEW_CHARS as int,
        );
        s.content_preview@ == snippet.0 && text::views(s.highlights@) == snippet.1
    }
}

/// The result as it is shown: with the snippet around the first keyword.
pub fn to_search_result(r: HybridResult, query: &str) -> (s: SearchResult)
    ensures
        is_preview(s, r, query@),
{
    let (content_preview, highlights) = keyword::extract_snippet(
        r.content.as_str(),
        query,
        PREVIEW_CHARS,
    );
    SearchResult {
        chunk_id: r.chunk_id,
        file_path: r.file_path,
        file_name: r.file_name,
        content_preview,
        section: r.section,
        score: r.score,
        highlights,
    }
}

/// Which results reach a score.
pub open spec fn reaching(results: Seq<SearchResult>, threshold: Score) -> Seq<bool> {
    Seq::new(
        results.len(),
        |i: int|
            !results[i].score.is_nan() && !threshold.is_nan() && results[i].score.rank()
                >= threshold.rank(),
    )
}

/// The results that are shown: those that reach the threshold, cut to length.
pub open spec fn shown(results: Seq<SearchResult>, threshold: Score) -> Seq<SearchResult> {
    let good = select::kept(results, reaching(results, threshold));
    if good.len() > SHOWN_RESULTS {
        good.take(SHOWN_RESULTS as int)
    } else {
        good
    }
}

/// How many results are looked at for the list that is shown.
pub const PREVIEWED_RESULTS: usize = 20;

/// The first results as they are shown.
pub fn preview_results(results: &Vec<HybridResult>, query: &str) -> (r: Vec<SearchResult>)
    ensures
        r@.len() == if results@.len() > PREVIEWED_RESULTS {
            PREVIEWED_RESULTS as nat
        } else {
            results@.len()
        },
        forall|i: int| 0 <= i < r@.len() ==> is_preview(#[trigger] r@[i], results@[i], query@),
{
    let mut out: Vec<SearchResult> = Vec::new();
    let mut i: usize = 0;
    while i < results.len() && i < PREVIEWED_RESULTS
        invariant
            i <= results@.len(),
            i <= PREVIEWED_RESULTS,
            out@.len() == i,
            forall|k: int| 0 <= k < i ==> is_preview(#[trigger] out@[k], results@[k], query@),
        decreases results@.len() - i,
    {
        out.push(to_search_result(results[i].clone(), query));
        i += 1;
    }
    out
}

/// Keeps the results that reach the threshold, at most a few.
pub fn keep_shown(results: Vec<SearchResult>, threshold: Score) -> (r: Vec<SearchResult>)
    ensures
        r@ == shown(results@, threshold),
{
    let mut keep: Vec<bool> = Vec::new();
    let mut i: usize = 0;
    while i < results.len()
        invariant
            i <= results@.len(),
            keep@ == reaching(results@, threshold).take(i as int),
        decreases results@.len() - i,
    {
        keep.push(results[i].score.at_least(&threshold));
        i += 1;
    }
    assert(keep@ =~= reaching(results@, threshold));
    let mut good: Vec<SearchResult> = select::keep_flagged(results, &keep);
    let ghost all = good@;
    if good.len() > SHOWN_RESULTS {
        good.truncate(SHOWN_RESULTS);
        assert(good@ =~= all.take(SHOWN_RESULTS as int));
    }
    good
}

/// "[n]" stands in the text from `a` to `e`: digits that spell `n`, and nothing
/// else, between the brackets.
pub open spec fn bracketed(v: Seq<char>, n: nat, a: int, e: int) -> bool {
    &&& 0 <= a && a + 1 < e < v.len()
    &&& v[a] == '[' && v[e] == ']'
    &&& forall|i: int| a < i < e ==> '0' <= #[trigger] v[i] <= '9'
    &&& number::digits_value(v.subrange(a + 1, e)) == n
}

/// "[n]" stands somewhere in the text.
pub open spec fn names_source(v: Seq<char>, n: nat) -> bool {
    exists|a: int, e: int| bracketed(v, n, a, e)
}

proof fn lemma_bracketed(v: Seq<char>, n: nat)
    ensures
        cites(v, n) <==> names_source(v, n),
{
    if cites(v, n) {
        let a = choose|a: int| cites_at(v, a, n);
        lemma_digits_end(v, a + 1);
        assert(bracketed(v, n, a, digits_end(v, a + 1)));
    }
    if names_source(v, n) {
        let (a, e) = choose|a: int, e: int| bracketed(v, n, a, e);
        lemma_digits_reach(v, a + 1, e);
        assert(cites_at(v, a, n));
    }
}

proof fn lemma_digits_reach(v: Seq<char>, i: int, e: int)
    requires
        0 <= i <= e < v.len(),
        forall|k: int| i <= k < e ==> '0' <= #[trigger] v[k] <= '9',
        v[e] == ']',
    ensures
        digits_end(v, i) == e,
    decreases e - i,
{
    if i < e {
        assert('0' <= v[i] <= '9');
        lemma_digits_reach(v, i + 1, e);
    }
}

/// An answer keeps exactly the files that it cites, in their order: file `k`
/// where "[k + 1]" stands in it. All files are kept where it cites none of them.
pub proof fn law_cited_files_are_kept(response: Seq<char>, files: Seq<AttachedFile>) -> (ps: Seq<
    int,
>)
    ensures
        select::exactly(
            ps,
            files.len() as int,
            |k: int| names_source(response, (k + 1) as nat),
        ),
        ps.len() > 0 ==> answer_files(response, files) == Seq::new(
            ps.len(),
            |i: int| files[ps[i]],
        ),
        ps.len() == 0 ==> answer_files(response, files) == files,
{
    let p = |k: int| names_source(response, (k + 1) as nat);
    let f = |n: int| cited_files(response, files.take(n));
    assert forall|n: int| 0 < n <= files.len() implies #[trigger] f(n) == if p(n - 1) {
        f(n - 1).push(files[n - 1])
    } else {
        f(n - 1)
    } by {
        assert(files.take(n).drop_last() =~= files.take(n - 1));
        lemma_bracketed(response, n as nat);
    }
    assert(files.take(0) =~= Seq::empty());
    assert(files.take(files.len() as int) =~= files);
    select::lemma_exactly(files.len() as int, p, |i: int| files[i], f)
}

/// A number in brackets, wherever it stands in an answer, cites the file with
/// that number, and that file is kept.
pub proof fn law_citation_is_found(
    before: Seq<char>,
    behind: Seq<char>,
    files: Seq<AttachedFile>,
    k: int,
)
    requires
        0 <= k < files.len(),
    ensures
        answer_files(
            before + (seq!['['] + number::decimal((k + 1) as nat) + seq![']']) + behind,
            files,
        ).contains(files[k]),
{
    let n = (k + 1) as nat;
    let digits = number::decimal(n);
    let v = before + (seq!['['] + digits + seq![']']) + behind;
    number::law_decimal(n);
    let a = before.len() as int;
    let e = (a + 1 + digits.len()) as int;
    assert(v.subrange(a + 1, e) =~= digits);
    assert forall|i: int| a < i < e implies '0' <= #[trigger] v[i] <= '9' by {
        assert(v[i] == digits[i - a - 1]);
    }
    assert(bracketed(v, n, a, e));
    let ps = law_cited_files_are_kept(v, files);
    let p = |k: int| names_source(v, (k + 1) as nat);
    assert(p(k));
    assert(ps.contains(k));
    let i = choose|i: int| 0 <= i < ps.len() && ps[i] == k;
    assert(answer_files(v, files)[i] == files[k]);
}

/// A file has the scores and the texts of exactly its own results, in order.
pub proof fn law_results_of_file(results: Seq<HybridResult>, path: Seq<char>) -> (ps: Seq<int>)
    ensures
        select::exactly(ps, results.len() as int, |i: int| results[i].file_path@ == path),
        scores_of(results, path) == Seq::new(ps.len(), |k: int| results[ps[k]].score),
        contents_of(results, path) == Seq::new(ps.len(), |k: int| results[ps[k]].content@),
{
    let p = |i: int| results[i].file_path@ == path;
    let f = |n: int| scores_of(results.take(n), path);
    let g = |n: int| contents_of(results.take(n), path);
    let h = |n: int|
        Seq::new(
            f(n).len(),
            |k: int| (f(n)[k], g(n)[k]),
        );
    assert forall|n: int| 0 <= n <= results.len() implies f(n).len() == #[trigger] g(n).len() by {
        lemma_same_count(results.take(n), path);
    }
    assert forall|n: int| 0 < n <= results.len() implies #[trigger] h(n) == if p(n - 1) {
        h(n - 1).push((results[n - 1].score, results[n - 1].content@))
    } else {
        h(n - 1)
    } by {
        assert(results.take(n).drop_last() =~= results.take(n - 1));
        assert(f(n - 1).len() == g(n - 1).len());
        if p(n - 1) {
            assert(h(n) =~= h(n - 1).push((results[n - 1].score, results[n - 1].content@)));
        } else {
            assert(h(n) =~= h(n - 1));
        }
    }
    assert(results.take(0) =~= Seq::empty());
    assert(h(0) =~= Seq::empty());
    let len = results.len() as int;
    assert(results.take(len) =~= results);
    let ps = select::lemma_exactly(
        len,
        p,
        |i: int| (results[i].score, results[i].content@),
        h,
    );
    assert(g(len).len() == f(len).len());
    assert(h(len).len() == ps.len());
    assert forall|k: int| 0 <= k < ps.len() implies f(len)[k] == results[ps[k]].score && g(len)[k]
        == results[ps[k]].content@ by {
        assert(h(len)[k] == (results[ps[k]].score, results[ps[k]].content@));
    }
    assert(scores_of(results, path) =~= Seq::new(ps.len(), |k: int| results[ps[k]].score));
    assert(contents_of(results, path) =~= Seq::new(ps.len(), |k: int| results[ps[k]].content@));
    ps
}

proof fn lemma_same_count(results: Seq<HybridResult>, path: Seq<char>)
    ensures
        scores_of(results, path).len() == contents_of(results, path).len(),
    decreases results.len(),
{
    if results.len() > 0 {
        lemma_same_count(results.drop_last(), path);
    }
}

/// The terms by which files and chunks are judged: the compound terms of the
/// query, and then exactly those words of the keyword line that have two bytes or
/// more and whose form in lower case is no word of a compound term, in order.
pub proof fn law_context_tokens(query: Seq<char>, keywords: Seq<char>) -> (ps: Seq<int>)
    ensures
        ({
            let compounds = keyword::compound_terms(query);
            let ws = split::words(keywords);
            &&& select::exactly(
                ps,
                ws.len() as int,
                |i: int|
                    chars::utf8_len(ws[i]) >= 2 && forall|k: int|
                        0 <= k < compounds.len() ==> !split::words(
                            chars::lowercase(#[trigger] compounds[k]),
                        ).contains(chars::lowercase(ws[i])),
            )
            &&& context_tokens_of(query, keywords) == compounds + Seq::new(
                ps.len(),
                |k: int| ws[ps[k]],
            )
        }),
{
    let compounds = keyword::compound_terms(query);
    let lowers = keyword::lowercase_all(compounds);
    let ws = split::words(keywords);
    let p = |i: int| chars::utf8_len(ws[i]) >= 2;
    let q = |i: int|
        forall|k: int|
            0 <= k < compounds.len() ==> !split::words(
                chars::lowercase(#[trigger] compounds[k]),
            ).contains(chars::lowercase(ws[i]));
    let long = keyword::long_words(ws);
    let ps = keyword::law_long_words(ws);
    let inner = |k: int| q(ps[k]);
    let f = |n: int| loose_words(long.take(n), keyword::lowercase_all(long), lowers);
    assert forall|n: int| 0 < n <= long.len() implies #[trigger] f(n) == if inner(n - 1) {
        f(n - 1).push(long[n - 1])
    } else {
        f(n - 1)
    } by {
        assert(long.take(n).drop_last() =~= long.take(n - 1));
        let w = chars::lowercase(long[n - 1]);
        assert(keyword::lowercase_all(long)[n - 1] == w);
        assert(long[n - 1] == ws[ps[n - 1]]);
        if word_of_some(lowers, w) {
            let k = choose|k: int|
                0 <= k < lowers.len() && split::words(#[trigger] lowers[k]).contains(w);
            assert(split::words(chars::lowercase(compounds[k])).contains(w));
        } else {
            assert forall|k: int| 0 <= k < compounds.len() implies !split::words(
                chars::lowercase(#[trigger] compounds[k]),
            ).contains(w) by {
                assert(!split::words(lowers[k]).contains(w));
            }
        }
    }
    assert(long.take(0) =~= Seq::empty());
    assert(long.take(long.len() as int) =~= long);
    let qs = select::lemma_exactly(long.len() as int, inner, |i: int| long[i], f);
    let r = select::lemma_chosen_twice(ps, qs, ws.len() as int, p, q);
    assert(Seq::new(qs.len(), |k: int| long[qs[k]]) =~= Seq::new(r.len(), |k: int| ws[r[k]]));
    let both = |i: int| p(i) && q(i);
    let stated = |i: int|
        chars::utf8_len(ws[i]) >= 2 && forall|k: int|
            0 <= k < compounds.len() ==> !split::words(
                chars::lowercase(#[trigger] compounds[k]),
            ).contains(chars::lowercase(ws[i]));
    assert forall|i: int| both(i) == #[trigger] stated(i) by {}
    assert forall|a: int| 0 <= a < r.len() implies 0 <= #[trigger] r[a] < ws.len() && stated(
        r[a],
    ) by {
        assert(both(r[a]));
        assert(stated(r[a]) == both(r[a]));
    }
    assert forall|i: int| 0 <= i < ws.len() && #[trigger] stated(i) implies r.contains(i) by {
        assert(both(i));
    }
    r
}

/// The hits of a text are the number of terms that stand in it: a term with a
/// Chinese, Japanese or Korean character in the text as it is, any other in lower
/// case; where only critical terms count, those with such a character or four
/// characters or more.
pub proof fn law_token_hits(
    raw: Seq<char>,
    lower: Seq<char>,
    ts: Seq<Seq<char>>,
    ts_lower: Seq<Seq<char>>,
    only_critical: bool,
) -> (ps: Seq<int>)
    requires
        ts.len() == ts_lower.len(),
    ensures
        ({
            let cjk = |i: int|
                exists|j: int| 0 <= j < ts[i].len() && chars::is_cjk(#[trigger] ts[i][j]);
            &&& select::exactly(
                ps,
                ts.len() as int,
                |i: int|
                    {
                        &&& only_critical ==> cjk(i) || ts[i].len() >= 4
                        &&& cjk(i) ==> find::occurs(raw, ts[i])
                        &&& !cjk(i) ==> find::occurs(lower, ts_lower[i])
                    },
            )
            &&& token_hits(raw, lower, ts, ts_lower, only_critical) == ps.len()
        }),
{
    let cjk = |i: int| exists|j: int| 0 <= j < ts[i].len() && chars::is_cjk(#[trigger] ts[i][j]);
    let p = |i: int|
        {
            &&& only_critical ==> cjk(i) || ts[i].len() >= 4
            &&& cjk(i) ==> find::occurs(raw, ts[i])
            &&& !cjk(i) ==> find::occurs(lower, ts_lower[i])
        };
    let f = |n: int| token_hits(raw, lower, ts.take(n), ts_lower, only_critical);
    assert forall|n: int| 0 < n <= ts.len() implies #[trigger] f(n) == if p(n - 1) {
        f(n - 1) + 1
    } else {
        f(n - 1)
    } by {
        assert(ts.take(n).drop_last() =~= ts.take(n - 1));
        let t = ts[n - 1];
        assert(cjk(n - 1) == find::any_in(t, CharClass::Cjk)) by {
            if cjk(n - 1) {
                let j = choose|j: int|
                    0 <= j < ts[n - 1].len() && chars::is_cjk(#[trigger] ts[n - 1][j]);
                assert(CharClass::Cjk.has(t[j]));
            }
            if find::any_in(t, CharClass::Cjk) {
                let j = choose|j: int| 0 <= j < t.len() && CharClass::Cjk.has(#[trigger] t[j]);
                assert(chars::is_cjk(ts[n - 1][j]));
            }
        }
    }
    assert(ts.take(ts.len() as int) =~= ts);
    select::lemma_counted(ts.len() as int, p, f)
}

/// A ranking has every file once, with no file before one of a higher score, and
/// those of the same score in the order in which they were.
pub proof fn law_ranking(r: Seq<FileRankInfo>, files: Seq<FileRankInfo>) -> (p: Seq<int>)
    requires
        is_ranking(r, files),
    ensures
        r.len() == files.len() == p.len(),
        p.no_duplicates(),
        forall|i: int| 0 <= i < p.len() ==> 0 <= #[trigger] p[i] < files.len() && r[i] == files[p[i]],
        forall|i: int, j: int|
            0 <= i < j < r.len() ==> (#[trigger] r[i]).composite_score.rank() >= (
            #[trigger] r[j]).composite_score.rank(),
        forall|i: int, j: int|
            0 <= i < j < r.len() && (#[trigger] r[i]).composite_score.rank() == (
            #[trigger] r[j]).composite_score.rank() ==> p[i] < p[j],
{
    let keys = rank_keys(files);
    let p = choose|p: Seq<int>|
        #[trigger] order::is_order(p, keys) && r == order::arranged(files, p);
    order::lemma_order_distinct(p, keys);
    assert forall|i: int, j: int| 0 <= i < j < r.len() implies (
    #[trigger] r[i]).composite_score.rank() >= (#[trigger] r[j]).composite_score.rank() && (
    r[i].composite_score.rank() == r[j].composite_score.rank() ==> p[i] < p[j]) by {
        assert(order::precedes(keys, p[i], p[j]));
        assert(r[i] == files[p[i]] && r[j] == files[p[j]]);
    }
    p
}

/// Of the ranking exactly those files stay that no better one is another version
/// of and that are good enough: by a score of at least a tenth and at least what
/// is asked for, or with the compound term word for word in one of their chunks.
pub proof fn law_files_stay(
    sorted: Seq<FileRankInfo>,
    min_score: Score,
    compound: Option<Seq<char>>,
) -> (ps: Seq<int>)
    ensures
        ({
            let distinct = select::firsts(sorted, shared_names(sorted));
            let name = |i: int| unversioned(chars::lowercase(sorted[i].file_name@));
            &&& select::exactly(
                ps,
                sorted.len() as int,
                |i: int|
                    {
                        &&& forall|j: int| 0 <= j < i ==> #[trigger] name(j) != name(i)
                        &&& passes(sorted[i], min_score, compound)
                    },
            )
            &&& select::kept(distinct, passing(distinct, min_score, compound)) == Seq::new(
                ps.len(),
                |k: int| sorted[ps[k]],
            )
        }),
{
    let names = shared_names(sorted);
    let distinct = select::firsts(sorted, names);
    let name = |i: int| unversioned(chars::lowercase(sorted[i].file_name@));
    let ps = select::law_firsts(sorted, names);
    let keep = passing(distinct, min_score, compound);
    let qs = select::law_kept(distinct, keep);
    let p = |i: int| forall|j: int| 0 <= j < i ==> names[j] != names[i];
    let q = |i: int| passes(sorted[i], min_score, compound);
    let inner = |k: int| q(ps[k]);
    let flag = |k: int| keep[k];
    assert forall|k: int| 0 <= k < ps.len() implies inner(k) == #[trigger] flag(k) by {
        assert(distinct[k] == sorted[ps[k]]);
    }
    assert forall|a: int| 0 <= a < qs.len() implies 0 <= #[trigger] qs[a] < ps.len() && inner(
        qs[a],
    ) by {
        assert(flag(qs[a]));
    }
    assert forall|k: int| 0 <= k < ps.len() && #[trigger] inner(k) implies qs.contains(k) by {
        assert(flag(k));
    }
    let r = select::lemma_chosen_twice(ps, qs, sorted.len() as int, p, q);
    let both = |i: int| p(i) && q(i);
    let stated = |i: int|
        {
            &&& forall|j: int| 0 <= j < i ==> #[trigger] name(j) != name(i)
            &&& passes(sorted[i], min_score, compound)
        };
    assert forall|i: int| 0 <= i < sorted.len() implies both(i) == #[trigger] stated(i) by {
        if p(i) {
            assert forall|j: int| 0 <= j < i implies #[trigger] name(j) != name(i) by {
                assert(names[j] != names[i]);
            }
        }
        if stated(i) {
            assert forall|j: int| 0 <= j < i implies names[j] != names[i] by {
                assert(name(j) != name(i));
            }
        }
    }
    assert forall|a: int| 0 <= a < r.len() implies 0 <= #[trigger] r[a] < sorted.len() && stated(
        r[a],
    ) by {
        assert(both(r[a]));
        assert(stated(r[a]) == both(r[a]));
    }
    assert forall|i: int| 0 <= i < sorted.len() && #[trigger] stated(i) implies r.contains(i) by {
        assert(both(i));
    }
    assert(select::kept(distinct, keep) =~= Seq::new(r.len(), |k: int| sorted[r[k]])) by {
        assert forall|k: int| 0 <= k < r.len() implies select::kept(distinct, keep)[k]
            == sorted[r[k]] by {
            assert(r[k] == ps[qs[k]]);
            assert(distinct[qs[k]] == sorted[ps[qs[k]]]);
        }
    }
    r
}

/// A file passes by its score alone where that is at least a tenth and at least
/// what is asked for; one below a tenth, or below what is asked for, needs the
/// compound term in one of its chunks.
pub proof fn law_passes(file: FileRankInfo, min_score: Score, compound: Option<Seq<char>>)
    requires
        !file.composite_score.is_nan(),
        !min_score.is_nan(),
    ensures
        ({
            let score = file.composite_score.rank();
            let tenth = Score { bits: 0x3dcc_cccd };
            let good = score >= tenth.rank() && score >= min_score.rank();
            let texts = keyword::lowercase_all(text::views(file.chunk_contents@));
            &&& good ==> passes(file, min_score, compound)
            &&& !good && compound is None ==> !passes(file, min_score, compound)
            &&& !good && compound is Some ==> (passes(file, min_score, compound) <==> exists|k: int|
                0 <= k < texts.len() && find::occurs(
                    edit::joined(split::words(#[trigger] texts[k]), " "@),
                    chars::lowercase(compound->0),
                ))
        }),
{
}

/// The files that go into the context: of the first places of the ranking, as
/// many as there are files near the best among the first five, the first and all
/// others that have seven tenths of the best score, in order.
pub proof fn law_picked_files(files: Seq<FileRankInfo>, ratios: Seq<Score>) -> (r: (
    Seq<int>,
    Seq<int>,
))
    requires
        files.len() == ratios.len(),
        files.len() > 0,
        forall|i: int| 0 <= i < ratios.len() ==> !(#[trigger] ratios[i]).is_nan(),
    ensures
        ({
            let share = Score { bits: 0x3f33_3333 };
            let first = if files.len() < 5 {
                files.len() as int
            } else {
                5
            };
            let n = if r.0.len() == 0 {
                1
            } else {
                r.0.len() as int
            };
            &&& select::exactly(
                r.0,
                first,
                |i: int|
                    ratios[i].rank() >= share.rank() || (!files[i].composite_score.is_nan()
                        && !files[0].composite_score.is_nan() && files[i].composite_score.rank()
                        == files[0].composite_score.rank()),
            )
            &&& select::exactly(r.1, n, |i: int| i == 0 || ratios[i].rank() >= share.rank())
            &&& taken_places(ratios, places_looked_at(files, ratios)) == Seq::new(
                r.1.len(),
                |k: int| r.1[k] as usize,
            )
        }),
{
    let share = Score { bits: 0x3f33_3333 };
    let first = if files.len() < 5 {
        files.len() as int
    } else {
        5
    };
    let p = |i: int|
        ratios[i].rank() >= share.rank() || (!files[i].composite_score.is_nan()
            && !files[0].composite_score.is_nan() && files[i].composite_score.rank()
            == files[0].composite_score.rank());
    let f = |n: int| near_count(files, ratios, n);
    assert forall|n: int| 0 < n <= first implies #[trigger] f(n) == if p(n - 1) {
        f(n - 1) + 1
    } else {
        f(n - 1)
    } by {
        assert(!ratios[n - 1].is_nan());
    }
    let near = select::lemma_counted(first, p, f);
    lemma_places_few(near, first, p);
    let n = if near.len() == 0 {
        1
    } else {
        near.len() as int
    };
    let q = |i: int| i == 0 || ratios[i].rank() >= share.rank();
    let g = |k: int| taken_places(ratios, k);
    assert forall|k: int| 0 < k <= n implies #[trigger] g(k) == if q(k - 1) {
        g(k - 1).push((k - 1) as usize)
    } else {
        g(k - 1)
    } by {
        assert(!ratios[k - 1].is_nan());
    }
    let taken = select::lemma_exactly(n, q, |i: int| i as usize, g);
    (near, taken)
}

proof fn lemma_places_few(ps: Seq<int>, n: int, p: spec_fn(int) -> bool)
    requires
        select::exactly(ps, n, p),
        n >= 0,
    ensures
        ps.len() <= n,
    decreases ps.len(),
{
    lemma_increasing(ps, ps.len() - 1);
    if ps.len() > 0 {
        assert(ps[ps.len() - 1] < n);
    }
}

proof fn lemma_increasing(ps: Seq<int>, k: int)
    requires
        forall|a: int, b: int| 0 <= a < b < ps.len() ==> #[trigger] ps[a] < #[trigger] ps[b],
        forall|a: int| 0 <= a < ps.len() ==> 0 <= #[trigger] ps[a],
        k < ps.len(),
    ensures
        k >= 0 ==> ps[k] >= k,
    decreases k,
{
    if k > 0 {
        lemma_increasing(ps, k - 1);
        assert(ps[k - 1] < ps[k]);
    }
}

/// The results that are shown are exactly those that reach the threshold, in
/// order, as far as the first five of them go.
pub proof fn law_shown_results(results: Seq<SearchResult>, threshold: Score) -> (ps: Seq<int>)
    requires
        !threshold.is_nan(),
        forall|i: int| 0 <= i < results.len() ==> !(#[trigger] results[i]).score.is_nan(),
    ensures
        select::exactly(
            ps,
            results.len() as int,
            |i: int| results[i].score.rank() >= threshold.rank(),
        ),
        shown(results, threshold) == Seq::new(
            if ps.len() < 5 {
                ps.len()
            } else {
                5
            },
            |k: int| results[ps[k]],
        ),
{
    let keep = reaching(results, threshold);
    let ps = select::law_kept(results, keep);
    let p = |i: int| keep[i];
    let q = |i: int| results[i].score.rank() >= threshold.rank();
    assert forall|i: int| 0 <= i < results.len() implies p(i) == #[trigger] q(i) by {
        assert(!results[i].score.is_nan());
    }
    assert forall|a: int| 0 <= a < ps.len() implies 0 <= #[trigger] ps[a] < results.len() && q(
        ps[a],
    ) by {
        assert(p(ps[a]));
        assert(q(ps[a]) == p(ps[a]));
    }
    assert forall|i: int| 0 <= i < results.len() && #[trigger] q(i) implies ps.contains(i) by {
        assert(p(i));
    }
    assert(shown(results, threshold) =~= Seq::new(
        if ps.len() < 5 {
            ps.len()
        } else {
            5
        },
        |k: int| results[ps[k]],
    ));
    ps
}

/// The text ends in none of the marks of a version.
pub open spec fn is_bare(s: Seq<char>) -> bool {
    &&& s.len() > 0
    &&& !('0' <= s.last() <= '9') && s.last() != ')' && s.last() != '('
    &&& !("_v"@.is_suffix_of(s)) && !("-v"@.is_suffix_of(s)) && !(" v"@.is_suffix_of(s))
    &&& !("_copy"@.is_suffix_of(s)) && !("-copy"@.is_suffix_of(s)) && !(" copy"@.is_suffix_of(s))
}

proof fn lemma_suffix(s: Seq<char>, pat: Seq<char>)
    ensures
        pat.is_suffix_of(s) <==> find::ends(s, pat),
{
    if pat.len() <= s.len() {
        assert(s.subrange(s.len() - pat.len(), s.len() as int) =~= s.subrange(
            s.len() - pat.len(),
            s.len() - pat.len() + pat.len(),
        ));
    }
}

proof fn lemma_without_suffix(s: Seq<char>, pat: Seq<char>)
    requires
        pat.len() > 0,
        !pat.is_suffix_of(s),
    ensures
        without_suffix(s, pat) == s,
        without_suffix(s + pat, pat) == s,
{
    lemma_suffix(s, pat);
    lemma_suffix(s + pat, pat);
    let all = s + pat;
    assert(all.subrange(s.len() as int, all.len() as int) =~= pat);
    assert(all.take(all.len() - pat.len()) =~= s);
    reveal_with_fuel(without_suffix, 2);
}

/// What the last steps leave of a bare text: all of it.
proof fn lemma_bare(s: Seq<char>)
    requires
        is_bare(s),
    ensures
        split::trim_end(s, CharClass::Digit) == s,
        split::trim_end(s, CharClass::Is(')')) == s,
        split::trim_end(s, CharClass::Is('(')) == s,
        !find::ends(s, "("@),
        without_suffix(s, "_v"@) == s,
        without_suffix(s, "-v"@) == s,
        without_suffix(s, " v"@) == s,
        without_suffix(s, "_copy"@) == s,
        without_suffix(s, "-copy"@) == s,
        without_suffix(s, " copy"@) == s,
{
    reveal_strlit("_v");
    reveal_strlit("-v");
    reveal_strlit(" v");
    reveal_strlit("_copy");
    reveal_strlit("-copy");
    reveal_strlit(" copy");
    reveal_strlit("(");
    lemma_without_suffix(s, "_v"@);
    lemma_without_suffix(s, "-v"@);
    lemma_without_suffix(s, " v"@);
    lemma_without_suffix(s, "_copy"@);
    lemma_without_suffix(s, "-copy"@);
    lemma_without_suffix(s, " copy"@);
    if find::ends(s, "("@) {
        assert(s.subrange(s.len() - 1, s.len() as int)[0] == "("@[0]);
    }
}

proof fn lemma_last_point(stem: Seq<char>, ext: Seq<char>)
    requires
        !ext.contains('.'),
    ensures
        find::last_index(stem.push('.') + ext, CharClass::Is('.')) == Some(stem.len() as int),
    decreases ext.len(),
{
    let s = stem.push('.') + ext;
    if ext.len() > 0 {
        let front = ext.drop_last();
        assert(!front.contains('.')) by {
            if front.contains('.') {
                let k = choose|k: int| 0 <= k < front.len() && front[k] == '.';
                assert(ext[k] == '.');
            }
        }
        lemma_last_point(stem, front);
        assert(s.drop_last() =~= stem.push('.') + front);
        assert(ext[ext.len() - 1] != '.');
    }
}

/// All versions of a file share its name: with a number behind "_v", "-v" or
/// " v", as a copy, or with a number in brackets, it has the name that it has
/// without them.
pub proof fn law_versions_share_name(stem: Seq<char>, digits: Seq<char>, ext: Seq<char>)
    requires
        is_bare(stem),
        stem.last() != ' ',
        !ext.contains('.'),
        forall|i: int| 0 <= i < digits.len() ==> '0' <= #[trigger] digits[i] <= '9',
    ensures
        ({
            let name = stem.push('.') + ext;
            &&& unversioned(name) == name
            &&& unversioned((stem + "_v"@ + digits).push('.') + ext) == name
            &&& unversioned((stem + "-v"@ + digits).push('.') + ext) == name
            &&& unversioned((stem + " v"@ + digits).push('.') + ext) == name
            &&& unversioned((stem + "_copy"@ + digits).push('.') + ext) == name
            &&& unversioned((stem + "-copy"@ + digits).push('.') + ext) == name
            &&& unversioned((stem + " copy"@ + digits).push('.') + ext) == name
            &&& unversioned((stem + " ("@ + digits).push(')').push('.') + ext) == name
            &&& unversioned((stem + "("@ + digits).push(')').push('.') + ext) == name
        }),
{
    reveal_strlit("_v");
    reveal_strlit("-v");
    reveal_strlit(" v");
    reveal_strlit("_copy");
    reveal_strlit("-copy");
    reveal_strlit(" copy");
    reveal_strlit(" (");
    reveal_strlit("(");
    lemma_bare(stem);
    let none = Seq::<char>::empty();
    assert(stem + none + none =~= stem);
    lemma_version_mark(stem, none, none, ext);
    lemma_version_mark(stem, "_v"@, digits, ext);
    lemma_version_mark(stem, "-v"@, digits, ext);
    lemma_version_mark(stem, " v"@, digits, ext);
    lemma_version_mark(stem, "_copy"@, digits, ext);
    lemma_version_mark(stem, "-copy"@, digits, ext);
    lemma_version_mark(stem, " copy"@, digits, ext);
    lemma_bracket_mark(stem, " ("@, digits, ext);
    lemma_bracket_mark(stem, "("@, digits, ext);
}

proof fn lemma_trim_digits(s: Seq<char>, digits: Seq<char>)
    requires
        s.len() == 0 || !('0' <= s.last() <= '9'),
        forall|i: int| 0 <= i < digits.len() ==> '0' <= #[trigger] digits[i] <= '9',
    ensures
        split::trim_end(s + digits, CharClass::Digit) == s,
    decreases digits.len(),
{
    let t = s + digits;
    if digits.len() == 0 {
        assert(t =~= s);
    } else {
        let front = digits.drop_last();
        assert forall|i: int| 0 <= i < front.len() implies '0' <= #[trigger] front[i] <= '9' by {
            assert(front[i] == digits[i]);
        }
        assert(t.last() == digits[digits.len() - 1]);
        assert(t.drop_last() =~= s + front);
        lemma_trim_digits(s, front);
    }
}

proof fn lemma_version_mark(stem: Seq<char>, mark: Seq<char>, digits: Seq<char>, ext: Seq<char>)
    requires
        is_bare(stem),
        !ext.contains('.'),
        forall|i: int| 0 <= i < digits.len() ==> '0' <= #[trigger] digits[i] <= '9',
        mark.len() == 0 || mark == "_v"@ || mark == "-v"@ || mark == " v"@ || mark == "_copy"@
            || mark == "-copy"@ || mark == " copy"@,
        mark.len() == 0 ==> digits.len() == 0,
    ensures
        unversioned((stem + mark + digits).push('.') + ext) == stem.push('.') + ext,
{
    reveal_strlit("_v");
    reveal_strlit("-v");
    reveal_strlit(" v");
    reveal_strlit("_copy");
    reveal_strlit("-copy");
    reveal_strlit(" copy");
    lemma_bare(stem);
    let full = stem + mark + digits;
    let lower = full.push('.') + ext;
    lemma_last_point(full, ext);
    assert(lower.take(full.len() as int) =~= full);
    assert(lower.skip(full.len() as int) =~= seq!['.'] + ext);
    let s = stem + mark;
    assert(mark.len() == 0 ==> s =~= stem);
    lemma_trim_digits(s, digits);
    let a = split::trim_end(full, CharClass::Digit);
    assert(a == s);
    let b1 = without_suffix(a, "_v"@);
    let b2 = without_suffix(b1, "-v"@);
    let b3 = without_suffix(b2, " v"@);
    let c1 = without_suffix(b3, "_copy"@);
    let c2 = without_suffix(c1, "-copy"@);
    let c3 = without_suffix(c2, " copy"@);
    if mark.len() > 0 {
        lemma_without_suffix(stem, mark);
    }
    assert(b1 == if mark == "_v"@ { stem } else { s }) by {
        if mark.len() > 0 && mark != "_v"@ {
            lemma_other_suffix(stem, mark, "_v"@);
        }
    }
    assert(b2 == if mark == "_v"@ || mark == "-v"@ { stem } else { s }) by {
        if mark.len() > 0 && mark != "-v"@ {
            lemma_other_suffix(stem, mark, "-v"@);
        }
    }
    assert(b3 == if mark == "_v"@ || mark == "-v"@ || mark == " v"@ { stem } else { s }) by {
        if mark.len() > 0 && mark != " v"@ {
            lemma_other_suffix(stem, mark, " v"@);
        }
    }
    assert(c1 == if mark == "-copy"@ || mark == " copy"@ { s } else { stem }) by {
        if mark == "_copy"@ {
            assert(mark != "_v"@ && mark != "-v"@ && mark != " v"@);
            assert(b3 == stem + "_copy"@);
            assert(mark[0] == '_');
            assert("-copy"@[0] == '-' && " copy"@[0] == ' ');
        } else if mark == "-copy"@ || mark == " copy"@ {
            assert(mark != "_v"@ && mark != "-v"@ && mark != " v"@);
            assert(mark[0] != "_copy"@[0]);
            lemma_other_suffix(stem, mark, "_copy"@);
        } else {
            assert(b3 == stem);
        }
    }
    assert(c2 == if mark == " copy"@ { s } else { stem }) by {
        if mark.len() > 0 && mark != "-copy"@ {
            lemma_other_suffix(stem, mark, "-copy"@);
        }
    }
    assert(c3 == stem);
    assert(stem + (seq!['.'] + ext) =~= stem.push('.') + ext);
}

/// A mark is not taken off by looking for another one.
proof fn lemma_other_suffix(stem: Seq<char>, mark: Seq<char>, pat: Seq<char>)
    requires
        mark.len() > 0,
        mark != pat,
        pat.len() > 1,
        mark.len() > 1,
        pat.last() != mark.last() || pat.len() != mark.len() || pat[0] != mark[0],
        pat.last() == mark.last() ==> pat.len() == mark.len(),
    ensures
        without_suffix(stem + mark, pat) == stem + mark,
{
    let s = stem + mark;
    lemma_suffix(s, pat);
    if find::ends(s, pat) {
        let part = s.subrange(s.len() - pat.len(), s.len() as int);
        assert(part == pat);
        assert(part[pat.len() - 1] == s[s.len() - 1]);
        assert(s[s.len() - 1] == mark[mark.len() - 1]);
        assert(part[0] == s[s.len() - pat.len()]);
        assert(s[s.len() - pat.len()] == mark[0]);
    }
}

proof fn lemma_bracket_mark(stem: Seq<char>, mark: Seq<char>, digits: Seq<char>, ext: Seq<char>)
    requires
        is_bare(stem),
        stem.last() != ' ',
        !ext.contains('.'),
        forall|i: int| 0 <= i < digits.len() ==> '0' <= #[trigger] digits[i] <= '9',
        mark == " ("@ || mark == "("@,
    ensures
        unversioned((stem + mark + digits).push(')').push('.') + ext) == stem.push('.') + ext,
{
    reveal_strlit("_v");
    reveal_strlit("-v");
    reveal_strlit(" v");
    reveal_strlit("_copy");
    reveal_strlit("-copy");
    reveal_strlit(" copy");
    reveal_strlit(" (");
    reveal_strlit("(");
    lemma_bare(stem);
    let s = stem + mark;
    let full = (s + digits).push(')');
    let lower = full.push('.') + ext;
    lemma_last_point(full, ext);
    assert(lower.take(full.len() as int) =~= full);
    assert(lower.skip(full.len() as int) =~= seq!['.'] + ext);
    assert(split::trim_end(full, CharClass::Digit) == full);
    lemma_ends_otherwise(full, "_v"@);
    lemma_ends_otherwise(full, "-v"@);
    lemma_ends_otherwise(full, " v"@);
    lemma_ends_otherwise(full, "_copy"@);
    lemma_ends_otherwise(full, "-copy"@);
    lemma_ends_otherwise(full, " copy"@);
    assert(full.drop_last() =~= s + digits);
    assert(split::trim_end(full, CharClass::Is(')')) == s + digits) by {
        reveal_with_fuel(split::trim_end, 2);
        if digits.len() > 0 {
            assert((s + digits).last() == digits[digits.len() - 1]);
        } else {
            assert(s + digits =~= s);
        }
    }
    lemma_trim_digits(s, digits);
    assert(s.last() == '(');
    assert(s.subrange(s.len() - 1, s.len() as int) =~= "("@);
    assert(find::ends(s, "("@));
    if mark == "("@ {
        assert(s.drop_last() =~= stem);
        assert(split::trim_end(s, CharClass::Is('(')) == stem);
        assert(split::trim_end(stem, CharClass::Is(' ')) == stem);
    } else {
        assert(s.drop_last() =~= stem.push(' '));
        assert(split::trim_end(s, CharClass::Is('(')) == stem.push(' ')) by {
            reveal_with_fuel(split::trim_end, 2);
        }
        assert(stem.push(' ').drop_last() =~= stem);
        assert(split::trim_end(stem.push(' '), CharClass::Is(' ')) == stem) by {
            reveal_with_fuel(split::trim_end, 2);
        }
    }
    assert(stem + (seq!['.'] + ext) =~= stem.push('.') + ext);
}

proof fn lemma_ends_otherwise(s: Seq<char>, pat: Seq<char>)
    requires
        s.len() > 0,
        pat.len() > 0,
        s.last() != pat.last(),
    ensures
        without_suffix(s, pat) == s,
{
    if find::ends(s, pat) {
        let part = s.subrange(s.len() - pat.len(), s.len() as int);
        assert(part[pat.len() - 1] == pat[pat.len() - 1]);
        assert(part[pat.len() - 1] == s[s.len() - 1]);
    }
}

/// The number of phrases of a table that stand in a text.
pub proof fn law_matching(q: Seq<char>, table: Seq<&str>) -> (ps: Seq<int>)
    ensures
        select::exactly(ps, table.len() as int, |i: int| find::occurs(q, table[i]@)),
        matching(q, table) == ps.len(),
{
    let p = |i: int| find::occurs(q, table[i]@);
    let f = |n: int| matching(q, table.take(n));
    assert forall|n: int| 0 < n <= table.len() implies #[trigger] f(n) == if p(n - 1) {
        f(n - 1) + 1
    } else {
        f(n - 1)
    } by {
        assert(table.take(n).drop_last() =~= table.take(n - 1));
    }
    assert(table.take(table.len() as int) =~= table);
    select::lemma_counted(table.len() as int, p, f)
}

/// The intent of a query has at least two points, no other has more, and none
/// that comes before it has as many; a query has no such intent only where none
/// has two points.
pub proof fn law_intent(q: Seq<char>)
    ensures
        ({
            let s = 3 * matching(q, SUMMARIZE_STRONG@) + matching(q, SUMMARIZE_WEAK@);
            let a = 3 * matching(q, AGGREGATE_STRONG@) + matching(q, AGGREGATE_WEAK@);
            let c = 3 * matching(q, COMPARE_STRONG@) + matching(q, COMPARE_WEAK@);
            let l = 3 * matching(q, LOOKUP_STRONG@) + matching(q, LOOKUP_WEAK@);
            let none = s < 2 && a < 2 && c < 2 && l < 2;
            match intent_of(q) {
                QueryIntent::Summarize => s >= 2 && s >= a && s >= c && s >= l,
                QueryIntent::Aggregate => a >= 2 && a > s && a >= c && a >= l,
                QueryIntent::Compare => (c >= 2 && c > s && c > a && c >= l) || (none
                    && compares_two(q)),
                QueryIntent::Lookup => l >= 2 && l > s && l > a && l > c,
                QueryIntent::General => none && !compares_two(q),
            }
        }),
{
}

/// What is counted of a file: the terms that its name or its text has, the terms
/// that its name has, the critical ones among the terms and among the hits, all
/// occurrences in its text, and the length of its text.
pub proof fn law_signals(
    name: Seq<char>,
    name_lower: Seq<char>,
    raw: Seq<char>,
    raw_lower: Seq<char>,
    ts: Seq<Seq<char>>,
    ts_lower: Seq<Seq<char>>,
)
    requires
        0 < ts.len() == ts_lower.len() <= usize::MAX,
        0 < chars::utf8_len(raw) <= usize::MAX,
        token_matches(raw, raw_lower, ts, ts_lower) <= u128::MAX,
    ensures
        ({
            let s = signals(name, name_lower, raw, raw_lower, ts, ts_lower);
            let all = name + " "@ + raw;
            let all_lower = name_lower + " "@ + raw_lower;
            &&& s.keyword_count == ts.len()
            &&& s.hits == token_hits(all, all_lower, ts, ts_lower, false)
            &&& s.name_hits == token_hits(name, name_lower, ts, ts_lower, false)
            &&& s.critical_hits == token_hits(all, all_lower, ts, ts_lower, true)
            &&& s.critical_count == critical_count(ts)
            &&& s.total_matches == token_matches(raw, raw_lower, ts, ts_lower)
            &&& s.content_len == chars::utf8_len(raw)
            &&& s.critical_hits <= s.hits <= s.keyword_count
            &&& s.name_hits <= s.keyword_count
            &&& s.critical_count <= s.keyword_count
        }),
{
    let all = name + " "@ + raw;
    let all_lower = name_lower + " "@ + raw_lower;
    lemma_hits_bounds(all, all_lower, ts, ts_lower);
    lemma_hits_bounds(name, name_lower, ts, ts_lower);
}

proof fn lemma_hits_bounds(
    raw: Seq<char>,
    lower: Seq<char>,
    ts: Seq<Seq<char>>,
    ts_lower: Seq<Seq<char>>,
)
    ensures
        token_hits(raw, lower, ts, ts_lower, true) <= token_hits(raw, lower, ts, ts_lower, false)
            <= ts.len(),
        critical_count(ts) <= ts.len(),
    decreases ts.len(),
{
    if ts.len() > 0 {
        lemma_hits_bounds(raw, lower, ts.drop_last(), ts_lower);
    }
}

/// The critical terms are exactly those with a Chinese, Japanese or Korean character
/// or four characters or more.
pub proof fn law_critical_count(ts: Seq<Seq<char>>) -> (ps: Seq<int>)
    ensures
        select::exactly(
            ps,
            ts.len() as int,
            |i: int|
                ts[i].len() >= 4 || exists|j: int|
                    0 <= j < ts[i].len() && chars::is_cjk(#[trigger] ts[i][j]),
        ),
        critical_count(ts) == ps.len(),
{
    let p = |i: int|
        ts[i].len() >= 4 || exists|j: int|
            0 <= j < ts[i].len() && chars::is_cjk(#[trigger] ts[i][j]);
    let f = |n: int| critical_count(ts.take(n));
    assert forall|n: int| 0 < n <= ts.len() implies #[trigger] f(n) == if p(n - 1) {
        f(n - 1) + 1
    } else {
        f(n - 1)
    } by {
        assert(ts.take(n).drop_last() =~= ts.take(n - 1));
        let t = ts[n - 1];
        if find::any_in(t, CharClass::Cjk) {
            let j = choose|j: int| 0 <= j < t.len() && CharClass::Cjk.has(#[trigger] t[j]);
            assert(chars::is_cjk(ts[n - 1][j]));
        } else if p(n - 1) && t.len() < 4 {
            let j = choose|j: int|
                0 <= j < ts[n - 1].len() && chars::is_cjk(#[trigger] ts[n - 1][j]);
            assert(CharClass::Cjk.has(t[j]));
        }
    }
    assert(ts.take(ts.len() as int) =~= ts);
    select::lemma_counted(ts.len() as int, p, f)
}

/// All occurrences of all terms are counted, each term by itself.
pub proof fn law_token_matches(
    raw: Seq<char>,
    lower: Seq<char>,
    ts: Seq<Seq<char>>,
    ts_lower: Seq<Seq<char>>,
    t: Seq<char>,
)
    requires
        ts.len() < ts_lower.len(),
    ensures
        token_matches(raw, lower, Seq::empty(), ts_lower) == 0,
        token_matches(raw, lower, ts.push(t), ts_lower) == token_matches(raw, lower, ts, ts_lower)
            + if exists|j: int| 0 <= j < t.len() && chars::is_cjk(#[trigger] t[j]) {
            find::count_from(raw, t, 0)
        } else {
            find::count_from(lower, ts_lower[ts.len() as int], 0)
        },
{
    assert(ts.push(t).drop_last() =~= ts);
    if exists|j: int| 0 <= j < t.len() && chars::is_cjk(#[trigger] t[j]) {
        let j = choose|j: int| 0 <= j < t.len() && chars::is_cjk(#[trigger] t[j]);
        assert(CharClass::Cjk.has(t[j]));
        assert(find::any_in(t, CharClass::Cjk));
    } else {
        assert(!find::any_in(t, CharClass::Cjk));
    }
}

/// Two things are compared where "so sánh", the first thing, "và" and the second
/// stand in this order; not without these words.
pub proof fn law_compares_two(before: Seq<char>, a: Seq<char>, b: Seq<char>, q: Seq<char>)
    requires
        a.len() > 0,
    ensures
        compares_two(before + "so sánh "@ + a + " và "@ + b),
        !find::occurs(q, "so sánh "@) || !find::occurs(q, " và "@) ==> !compares_two(q),
{
    let s = before + "so sánh "@ + a + " và "@ + b;
    let i = before.len() as int;
    let n = "so sánh "@.len() as int;
    let j = (i + n + a.len()) as int;
    let m = " và "@.len() as int;
    assert(s.subrange(i, i + n) =~= "so sánh "@);
    assert(s.subrange(j, j + m) =~= " và "@);
    assert(find::occurs_at(s, COMPARISON@, i));
    assert(find::occurs_at(s, BETWEEN@, j));
    if compares_two(q) {
        let (x, y) = choose|x: int, y: int|
            find::occurs_at(q, COMPARISON@, x) && find::occurs_at(q, BETWEEN@, y) && x
                + COMPARISON@.len() < y;
        assert(find::occurs_at(q, "so sánh "@, x));
        assert(find::occurs_at(q, " và "@, y));
    }
}

/// The characters that an intent is given: forty thousand for a value, eighty
/// thousand for a comparison, a hundred and twenty thousand for a whole or for all
/// of a kind; no file is given more than all.
pub proof fn law_budget(intent: QueryIntent)
    ensures
        budget(QueryIntent::Lookup).1 == 40_000,
        budget(QueryIntent::General).1 == 40_000,
        budget(QueryIntent::Compare).1 == 80_000,
        budget(QueryIntent::Summarize).1 == 120_000,
        budget(QueryIntent::Aggregate).1 == 120_000,
        budget(intent).0 == budget(intent).1,
        30 <= budget(intent).2 <= 60,
        budget(QueryIntent::Lookup).2 == 30 && budget(QueryIntent::Compare).2 == 40
            && budget(QueryIntent::Aggregate).2 == 40 && budget(QueryIntent::Summarize).2 == 60,
{
}

/// A file that is put together from results has the path and the name of its first
/// result, and exactly the scores and texts of its results.
pub proof fn law_collects(file: FileRankInfo, first: HybridResult, results: Seq<HybridResult>) -> (ps:
    Seq<int>)
    requires
        collects(file, first, results),
    ensures
        file.file_path@ == first.file_path@,
        file.file_name@ == first.file_name@,
        select::exactly(
            ps,
            results.len() as int,
            |i: int| results[i].file_path@ == first.file_path@,
        ),
        file.bm25_scores@ == Seq::new(ps.len(), |k: int| results[ps[k]].score),
        file.chunk_contents@.len() == ps.len(),
        forall|k: int|
            0 <= k < ps.len() ==> (#[trigger] file.chunk_contents@[k])@ == results[ps[k]].content@,
{
    let path = first.file_path@;
    let ps = law_results_of_file(results, path);
    let p = |i: int| results[i].file_path@ == path;
    let q = |i: int| results[i].file_path@ == first.file_path@;
    assert(p =~= q);
    assert(text::views(file.chunk_contents@).len() == file.chunk_contents@.len());
    assert forall|k: int| 0 <= k < ps.len() implies (#[trigger] file.chunk_contents@[k])@
        == results[ps[k]].content@ by {
        assert(text::views(file.chunk_contents@)[k] == results[ps[k]].content@);
    }
    ps
}

} // verus!
