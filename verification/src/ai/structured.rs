//! Structured output: the shapes a model is asked to fill, and the JSON within
//! its reply.
use vstd::prelude::*;

use crate::text::chars;
use crate::text::chars::CharClass;
use crate::text::edit;
use crate::text::find;
use crate::text::split;

verus! {

/// A chain of reasoning: facts, analysis, conclusion.
#[derive(Debug)]
pub struct LogicReasoning {
    /// The facts of the documents.
    pub step_1_extract_facts: Vec<String>,
    /// What follows from them.
    pub step_2_analysis: String,
    /// The conclusion.
    pub final_conclusion: String,
}

/// A question taken apart.
#[derive(Debug)]
pub struct QueryDecomposition {
    /// The question has to be taken apart.
    pub needs_decomposition: bool,
    /// Its parts.
    pub sub_queries: Vec<SubQuery>,
}

/// A part of a question.
#[derive(Debug)]
pub struct SubQuery {
    /// What is searched for.
    pub search_terms: String,
    /// What for.
    pub purpose: String,
}

/// A comparison.
#[derive(Debug)]
pub struct ComparisonResult {
    /// What is alike.
    pub similarities: Vec<String>,
    /// What is not.
    pub differences: Vec<String>,
    /// The conclusion.
    pub conclusion: String,
}

/// Data taken from documents.
#[derive(Debug)]
pub struct DataExtraction {
    /// The values.
    pub values: Vec<ExtractedValue>,
    /// The summary.
    pub summary: String,
}

/// A value taken from a document.
#[derive(Debug)]
pub struct ExtractedValue {
    /// What it is.
    pub label: String,
    /// The value.
    pub value: String,
    /// Where it stands.
    pub source: String,
}

/// The schema of `LogicReasoning`.
pub const LOGIC_REASONING_SCHEMA: &'static str = r#"{"type":"object","properties":{"step_1_extract_facts":{"type":"array","items":{"type":"string"},"description":"Trích xuất các sự thật/dữ kiện từ tài liệu"},"step_2_analysis":{"type":"string","description":"Phân tích logic, mâu thuẫn, so sánh"},"final_conclusion":{"type":"string","description":"Kết luận rõ ràng"}},"required":["step_1_extract_facts","step_2_analysis","final_conclusion"]}"#;

/// The schema of `QueryDecomposition`.
pub const QUERY_DECOMPOSITION_SCHEMA: &'static str = r#"{"type":"object","properties":{"needs_decomposition":{"type":"boolean","description":"Câu hỏi có phức tạp cần tách không"},"sub_queries":{"type":"array","items":{"type":"object","properties":{"search_terms":{"type":"string","description":"Keywords tối ưu cho BM25 search"},"purpose":{"type":"string","description":"Mục đích tìm kiếm ngắn gọn"}},"required":["search_terms","purpose"]}}},"required":["needs_decomposition","sub_queries"]}"#;

/// The schema of `ComparisonResult`.
pub const COMPARISON_SCHEMA: &'static str = r#"{"type":"object","properties":{"similarities":{"type":"array","items":{"type":"string"}},"differences":{"type":"array","items":{"type":"string"}},"conclusion":{"type":"string"}},"required":["similarities","differences","conclusion"]}"#;

/// The schema of `DataExtraction`.
pub const DATA_EXTRACTION_SCHEMA: &'static str = r#"{"type":"object","properties":{"values":{"type":"array","items":{"type":"object","properties":{"label":{"type":"string"},"value":{"type":"string"},"source":{"type":"string"}},"required":["label","value","source"]}},"summary":{"type":"string"}},"required":["values","summary"]}"#;

/// The schema of `LogicReasoning`, as JSON.
pub fn logic_reasoning_schema() -> (r: String)
    ensures
        r@ == LOGIC_REASONING_SCHEMA@,
{
    edit::owned(LOGIC_REASONING_SCHEMA)
}

/// The schema of `QueryDecomposition`, as JSON.
pub fn query_decomposition_schema() -> (r: String)
    ensures
        r@ == QUERY_DECOMPOSITION_SCHEMA@,
{
    edit::owned(QUERY_DECOMPOSITION_SCHEMA)
}

/// The schema of `ComparisonResult`, as JSON.
pub fn comparison_schema() -> (r: String)
    ensures
        r@ == COMPARISON_SCHEMA@,
{
    edit::owned(COMPARISON_SCHEMA)
}

/// The schema of `DataExtraction`, as JSON.
pub fn data_extraction_schema() -> (r: String)
    ensures
        r@ == DATA_EXTRACTION_SCHEMA@,
{
    edit::owned(DATA_EXTRACTION_SCHEMA)
}

/// What can go wrong with structured output.
#[derive(Debug)]
pub enum StructuredError {
    /// The reply is not of the shape.
    ParseFailed {
        /// What is wrong.
        error: String,
        /// The reply.
        raw_response: String,
    },
}

/// What an error says.
pub open spec fn error_text(e: StructuredError) -> Seq<char> {
    match e {
        StructuredError::ParseFailed { error, raw_response } => "Parse JSON thất bại: "@ + error@,
    }
}

impl StructuredError {
    /// What the error says.
    pub fn message(&self) -> (r: String)
        ensures
            r@ == error_text(*self),
    {
        match self {
            StructuredError::ParseFailed { error, .. } => edit::concat2(
                "Parse JSON thất bại: ",
                error.as_str(),
            ),
        }
    }
}

/// What stands in a block that begins with a mark: from behind the mark to the
/// next fence.
pub open spec fn fenced(s: Seq<char>, mark: Seq<char>) -> Option<Seq<char>> {
    match find::index_of(s, mark) {
        Some(i) => {
            let after = s.skip((i + mark.len()) as int);
            match find::index_of(after, "```"@) {
                Some(end) => Some(split::stripped(after.take(end))),
                None => None,
            }
        },
        None => None,
    }
}

/// What stands in a block whose first line, up to the first newline behind the
/// fence, is passed over.
pub open spec fn fenced_lines(s: Seq<char>) -> Option<Seq<char>> {
    match find::index_of(s, "```"@) {
        Some(i) => {
            let after = s.skip(i + 3);
            let body = match find::first_index(after, CharClass::Is('\n'), 0) {
                Some(n) => after.skip(n + 1),
                None => after,
            };
            match find::index_of(body, "```"@) {
                Some(end) => Some(split::stripped(body.take(end))),
                None => None,
            }
        },
        None => None,
    }
}

/// The JSON within a reply: all of one that begins with a brace; else what
/// stands in a block marked as JSON; else what stands in any block; else what
/// stands between the outer braces; else all of it.
pub open spec fn json_within(text: Seq<char>) -> Seq<char> {
    let s = split::stripped(text);
    if s.len() > 0 && s[0] == '{' {
        s
    } else if let Some(block) = fenced(s, "```json"@) {
        block
    } else if let Some(block) = fenced_lines(s) {
        block
    } else {
        match (
            find::first_index(s, CharClass::Is('{'), 0),
            find::last_index(s, CharClass::Is('}')),
        ) {
            (Some(i), Some(j)) => if j > i {
                s.subrange(i, j + 1)
            } else {
                s
            },
            _ => s,
        }
    }
}

fn find_fenced(v: &Vec<char>, mark: &str) -> (r: Option<String>)
    ensures
        match r {
            Some(s) => fenced(v@, mark@) == Some(s@),
            None => fenced(v@, mark@) is None,
        },
{
    let m: Vec<char> = chars::to_chars(mark);
    let fence: Vec<char> = chars::to_chars("```");
    let len: usize = v.len();
    match find::find(v.as_slice(), m.as_slice()) {
        Some(i) => {
            let after: &[char] = vstd::slice::slice_subrange(v.as_slice(), i + m.len(), len);
            assert(after@ =~= v@.skip((i + m@.len()) as int));
            match find::find(after, fence.as_slice()) {
                Some(end) => {
                    let inner: String = chars::from_chars(
                        vstd::slice::slice_subrange(after, 0, end),
                    );
                    assert(inner@ =~= after@.take(end as int));
                    Some(split::strip(inner.as_str()))
                },
                None => None,
            }
        },
        None => None,
    }
}

fn find_fenced_lines(v: &Vec<char>) -> (r: Option<String>)
    ensures
        match r {
            Some(s) => fenced_lines(v@) == Some(s@),
            None => fenced_lines(v@) is None,
        },
{
    proof {
        reveal_strlit("```");
    }
    let fence: Vec<char> = chars::to_chars("```");
    let len: usize = v.len();
    match find::find(v.as_slice(), fence.as_slice()) {
        Some(i) => {
            let after: &[char] = vstd::slice::slice_subrange(v.as_slice(), i + 3, len);
            let n: usize = after.len();
            assert(after@ =~= v@.skip(i + 3));
            let from: usize = match find::find_class(after, CharClass::Is('\n'), 0) {
                Some(k) => k + 1,
                None => 0,
            };
            let body: &[char] = vstd::slice::slice_subrange(after, from, n);
            assert(from == 0 ==> body@ =~= after@);
            assert(body@ =~= after@.skip(from as int));
            match find::find(body, fence.as_slice()) {
                Some(end) => {
                    let inner: String = chars::from_chars(
                        vstd::slice::slice_subrange(body, 0, end),
                    );
                    assert(inner@ =~= body@.take(end as int));
                    Some(split::strip(inner.as_str()))
                },
                None => None,
            }
        },
        None => None,
    }
}

/// The JSON within a reply, which may stand in a marked block.
pub fn extract_json(text: &str) -> (r: String)
    ensures
        r@ == json_within(text@),
{
    let s: String = split::strip(text);
    let v: Vec<char> = chars::to_chars(s.as_str());
    if v.len() > 0 && v[0] == '{' {
        return s;
    }
    if let Some(block) = find_fenced(&v, "```json") {
        return block;
    }
    if let Some(block) = find_fenced_lines(&v) {
        return block;
    }
    match (
        find::find_class(v.as_slice(), CharClass::Is('{'), 0),
        find::rfind(v.as_slice(), CharClass::Is('}')),
    ) {
        (Some(i), Some(j)) => if j > i {
            edit::slice(s.as_str(), i, j + 1)
        } else {
            s
        },
        _ => s,
    }
}

/// An object by itself is left as it is, and a block marked as JSON around it is
/// taken off.
pub proof fn law_object_is_found(j: Seq<char>)
    requires
        j.len() > 0,
        j[0] == '{',
        j.last() == '}',
        !find::occurs(j, "```"@),
    ensures
        json_within(j) == j,
        json_within("```json\n"@ + j + "\n```"@) == j,
{
    let open = "```json\n"@;
    let mark = "```json"@;
    let fence = "```"@;
    let close = "\n```"@;
    reveal_strlit("```json\n");
    reveal_strlit("```json");
    reveal_strlit("```");
    reveal_strlit("\n```");
    let s = open + j + close;
    let n = j.len() as int;
    assert(s[0] == '`');
    assert(s.last() == '`');
    assert(split::stripped(s) == s);
    assert(s.subrange(0, mark.len() as int) =~= mark);
    assert(find::first_at(s, mark, 0, 0));
    find::lemma_first_at_unique(s, mark, 0, 0);
    let after = s.skip(mark.len() as int);
    assert(after =~= seq!['\n'] + j + close);
    let end = n + 2;
    assert(after.subrange(end, end + fence.len()) =~= fence);
    assert forall|k: int| 0 <= k < end implies !find::occurs_at(after, fence, k) by {
        if find::occurs_at(after, fence, k) {
            let part = after.subrange(k, k + 3);
            assert(part[0] == '`' && part[1] == '`' && part[2] == '`');
            assert(after[k] == '`' && after[k + 1] == '`' && after[k + 2] == '`');
            assert(after[0] == '\n' && after[n + 1] == '\n');
            assert(1 <= k && k + 2 < n + 1);
            assert(j.subrange(k - 1, k + 2) =~= part);
            assert(find::occurs_at(j, fence, k - 1));
        }
    }
    find::lemma_first_at_unique(after, fence, 0, end);
    let inner = after.take(end);
    assert(inner =~= seq!['\n'] + j + seq!['\n']);
    assert(inner.drop_first() =~= j + seq!['\n']);
    assert((j + seq!['\n']).drop_last() =~= j);
    reveal_with_fuel(split::trim_start, 2);
    reveal_with_fuel(split::trim_end, 2);
    assert(inner.drop_first()[0] == '{');
    assert(split::stripped(inner) == j);
}

/// An object in a reply without a fence is taken out, from the first opening brace to
/// the last closing one, whatever stands before and behind it.
pub proof fn law_object_in_words(a: Seq<char>, inner: Seq<char>, b: Seq<char>)
    requires
        a.len() > 0 && !CharClass::White.has(a[0]) && !a.contains('{'),
        b.len() > 0 && !CharClass::White.has(b.last()) && !b.contains('}'),
        !find::occurs(a + (seq!['{'] + inner + seq!['}']) + b, "```"@),
    ensures
        json_within(a + (seq!['{'] + inner + seq!['}']) + b) == seq!['{'] + inner + seq!['}'],
{
    let mid = seq!['{'] + inner + seq!['}'];
    let s = a + mid + b;
    let i = a.len() as int;
    let j = (a.len() + inner.len() + 1) as int;
    assert(s[0] == a[0] && s.last() == b.last());
    assert(split::stripped(s) == s) by {
        let ends = split::law_trim(s, CharClass::White);
        assert(ends.0 == 0) by {
            if ends.0 > 0 {
                assert(CharClass::White.has(s[0]));
            }
        }
        assert(ends.1 == s.len()) by {
            if ends.1 < s.len() {
                assert(CharClass::White.has(s[s.len() - 1]));
            }
        }
        assert(s.subrange(0, s.len() as int) =~= s);
    }
    assert(s[0] != '{') by {
        assert(a.contains(a[0]));
    }
    assert(s[i] == '{');
    assert(s[j] == '}');
    assert forall|k: int| 0 <= k < i implies s[k] != '{' by {
        assert(s[k] == a[k]);
    }
    assert forall|k: int| j < k < s.len() implies s[k] != '}' by {
        assert(s[k] == b[k - j - 1]);
    }
    find::law_first_index(s, CharClass::Is('{'), 0);
    find::law_last_index(s, CharClass::Is('}'));
    assert(CharClass::Is('{').has(s[i]));
    assert(CharClass::Is('}').has(s[j]));
    assert(find::first_index(s, CharClass::Is('{'), 0) == Some(i));
    assert(find::last_index(s, CharClass::Is('}')) == Some(j));
    assert(s.subrange(i, j + 1) =~= mid);
    let mark = "```json"@;
    let fence = "```"@;
    reveal_strlit("```json");
    reveal_strlit("```");
    find::lemma_index_from(s, fence, 0);
    find::lemma_index_from(s, mark, 0);
    if let Some(at) = find::index_of(s, mark) {
        assert(mark.subrange(0, 3) =~= fence);
        assert(s.subrange(at, at + 3) =~= s.subrange(at, at + mark.len()).subrange(0, 3));
        assert(find::occurs_at(s, fence, at));
    }
}

} // verus!
