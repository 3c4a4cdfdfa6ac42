//! The query of the search page: whether it is a search or a question, when
//! the files of the last answer serve again, and what is shown and kept.
use vstd::prelude::*;

use crate::ai::gemini::Content;
use crate::ai::gemini::FunctionCallData;
use crate::ai::gemini::FunctionDecl;
use crate::ai::gemini::ToolDeclaration;
use crate::commands::context_guard;
use crate::commands::search::context;
use crate::commands::search::keyword;
use crate::commands::search::prompt;
use crate::commands::search::prompt::PromptType;
use crate::commands::search::turn;
use crate::commands::search::turn::AnswerPlan;
use crate::commands::search::AttachedFile;
use crate::commands::search::SearchResponse;
use crate::commands::search::SearchResult;
use crate::commands::search::SmartResponse;
use crate::json;
use crate::search::hybrid::HybridResult;
use crate::select;
use crate::session;
use crate::session::SessionContext;
use crate::session::SessionFile;
use crate::text;
use crate::text::chars;
use crate::text::edit;
use crate::text::find;
use crate::text::number;

verus! {

/// What is done with a query.
#[derive(Clone, Copy, Debug, PartialEq, Eq, Structural)]
pub enum SmartIntent {
    /// Files are listed.
    Search,
    /// A question is answered.
    Chat,
}

/// The name of what is done with a query.
pub open spec fn intent_name(intent: SmartIntent) -> Seq<char> {
    match intent {
        SmartIntent::Search => "search"@,
        SmartIntent::Chat => "chat"@,
    }
}

/// What is done with a query in lower case.
pub open spec fn intent_of(query_lower: Seq<char>) -> SmartIntent {
    if keyword::search_only(query_lower) {
        SmartIntent::Search
    } else {
        SmartIntent::Chat
    }
}

/// What is done with a query in lower case.
pub fn choose_intent(query_lower: &str) -> (r: SmartIntent)
    ensures
        r == intent_of(query_lower@),
{
    if keyword::is_search_only(query_lower) {
        SmartIntent::Search
    } else {
        SmartIntent::Chat
    }
}

/// What is done with a query, whatever its case.
pub fn query_intent(query: &str) -> (r: SmartIntent)
    ensures
        r == intent_of(chars::lowercase(query@)),
{
    choose_intent(query.to_lowercase().as_str())
}

/// How long, in seconds, the files of an answer can serve again.
pub const REUSE_SECONDS: u64 = 1800;

/// The last answer rested on files and is recent.
pub open spec fn reusable(last: Option<SessionContext>, now: u64) -> bool {
    match last {
        Some(l) => l.attached_files@.len() > 0 && session::age(l.timestamp, now) < REUSE_SECONDS,
        None => false,
    }
}

/// Whether the model is asked if the files of the last answer serve again: for
/// a question, in a conversation, with a key and a recent answer that rested
/// on files.
pub fn asks_router(
    intent: SmartIntent,
    history_count: usize,
    has_key: bool,
    last: &Option<SessionContext>,
    now: u64,
) -> (r: bool)
    ensures
        r == (intent == SmartIntent::Chat && history_count > 0 && has_key && reusable(*last, now)),
{
    let recent: bool = match last {
        Some(l) => l.attached_files.len() > 0 && session::seconds_since(l.timestamp, now)
            < REUSE_SECONDS,
        None => false,
    };
    intent == SmartIntent::Chat && history_count > 0 && has_key && recent
}

/// How many turns the model is told of.
pub const SUMMARY_TURNS: usize = 10;

/// How many characters of a turn the model is told of.
pub const SUMMARY_CHARS: usize = 300;

/// The turns, one line each: the role and the first characters.
pub open spec fn turn_lines(h: Seq<(Seq<char>, Seq<char>)>) -> Seq<Seq<char>> {
    Seq::new(h.len(), |i: int| h[i].0 + ": "@ + edit::first_chars(h[i].1, SUMMARY_CHARS as int))
}

/// The newest turns, at most `n`.
pub open spec fn newest(h: Seq<(Seq<char>, Seq<char>)>, n: int) -> Seq<(Seq<char>, Seq<char>)> {
    if h.len() > n {
        h.skip(h.len() - n)
    } else {
        h
    }
}

/// The newest turns, in short.
pub fn history_summary(history: &Vec<(String, String)>) -> (r: String)
    ensures
        r@ == edit::joined(
            turn_lines(newest(context_guard::turn_views(history@), SUMMARY_TURNS as int)),
            "\n"@,
        ),
{
    let ghost h = context_guard::turn_views(history@);
    let ghost recent = newest(h, SUMMARY_TURNS as int);
    let first: usize = if history.len() > SUMMARY_TURNS {
        history.len() - SUMMARY_TURNS
    } else {
        0
    };
    let mut lines: Vec<String> = Vec::new();
    let mut i: usize = first;
    while i < history.len()
        invariant
            first <= i <= history@.len(),
            h == context_guard::turn_views(history@),
            recent.len() == history@.len() - first,
            forall|k: int| 0 <= k < recent.len() ==> #[trigger] recent[k] == h[first + k],
            text::views(lines@) == turn_lines(recent).take(i - first),
        decreases history@.len() - i,
    {
        let short: String = edit::take_chars(history[i].1.as_str(), SUMMARY_CHARS);
        let line: String = edit::concat3(history[i].0.as_str(), ": ", short.as_str());
        let ghost before = text::views(lines@);
        lines.push(line);
        assert(recent[i - first] == h[i as int]);
        assert(text::views(lines@) =~= before.push(line@));
        i += 1;
    }
    assert(text::views(lines@) =~= turn_lines(recent));
    edit::join(lines.as_slice(), "\n")
}

/// The function by which the model asks for a new search.
pub const ROUTER_TOOL: &'static str = "search_documents";

/// What the function is for.
pub const ROUTER_TOOL_USE: &'static str = "Tìm kiếm tài liệu mới trong kho dữ liệu. CHỈ gọi khi cần tìm tài liệu KHÁC hoặc chủ đề MỚI. KHÔNG gọi nếu câu hỏi liên quan đến tài liệu đã có.";

/// The parameters of the function.
pub const ROUTER_TOOL_SCHEMA: &'static str = r#"{"type":"object","properties":{"query":{"type":"string","description":"Từ khóa tìm kiếm tài liệu mới"}},"required":["query"]}"#;

/// The function by which the model asks for a new search.
pub fn router_tool() -> (r: ToolDeclaration)
    ensures
        r.function_declarations@.len() == 1,
        r.function_declarations@[0].name@ == ROUTER_TOOL@,
        r.function_declarations@[0].description@ == ROUTER_TOOL_USE@,
        r.function_declarations@[0].parameters@ == ROUTER_TOOL_SCHEMA@,
{
    let mut function_declarations: Vec<FunctionDecl> = Vec::new();
    function_declarations.push(
        FunctionDecl {
            name: edit::owned(ROUTER_TOOL),
            description: edit::owned(ROUTER_TOOL_USE),
            parameters: edit::owned(ROUTER_TOOL_SCHEMA),
        },
    );
    ToolDeclaration { function_declarations }
}

/// What stands before the files in the instruction.
pub const ROUTER_HEAD: &'static str = "Bạn là AI router. Nhiệm vụ: quyết định câu hỏi user CẦN TÌM tài liệu mới hay DÙNG LẠI tài liệu đã có.\n\nTài liệu hiện có trong context: [";

/// What stands behind the files in the instruction.
pub const ROUTER_TAIL: &'static str = "]\n\nQUY TẮC:\n- Nếu user hỏi về NỘI DUNG/DỮ LIỆU của tài liệu đã có → KHÔNG gọi tool, trả lời \"REUSE\"\n- Nếu user muốn xem thêm/chi tiết/so sánh dữ liệu ĐÃ CÓ → KHÔNG gọi tool, trả lời \"REUSE\"\n- Nếu user hỏi chủ đề HOÀN TOÀN MỚI không liên quan → GỌI tool search_documents\n- Nếu user yêu cầu tìm FILE KHÁC/tài liệu khác → GỌI tool search_documents\n\nChỉ trả lời \"REUSE\" hoặc gọi search_documents. Không giải thích.";

/// The names of the files of a session.
pub open spec fn session_names(files: Seq<SessionFile>) -> Seq<Seq<char>> {
    Seq::new(files.len(), |i: int| files[i].file_name@)
}

/// The instruction by which the model is asked if the files serve again.
pub fn router_prompt(files: &Vec<SessionFile>) -> (r: String)
    ensures
        r@ == ROUTER_HEAD@ + edit::joined(session_names(files@), ", "@) + ROUTER_TAIL@,
{
    let mut names: Vec<String> = Vec::new();
    let mut i: usize = 0;
    while i < files.len()
        invariant
            i <= files@.len(),
            text::views(names@) == session_names(files@).take(i as int),
        decreases files@.len() - i,
    {
        let ghost before = text::views(names@);
        names.push(files[i].file_name.clone());
        assert(text::views(names@) =~= before.push(files@[i as int].file_name@));
        i += 1;
    }
    assert(text::views(names@) =~= session_names(files@));
    let list: String = edit::join(names.as_slice(), ", ");
    edit::concat3(ROUTER_HEAD, list.as_str(), ROUTER_TAIL)
}

/// What stands before the summary of the conversation.
pub const SUMMARY_HEAD: &'static str = "[Lịch sử hội thoại]\n";

/// What the model is taken to say to the summary.
pub const SUMMARY_NOTED: &'static str = "Đã ghi nhận lịch sử.";

/// What the model is told: the conversation in short, unless that is empty,
/// then the query.
pub fn router_contents(summary: &str, query: &str) -> (r: Vec<Content>)
    ensures
        summary@.len() == 0 ==> r@.len() == 1,
        summary@.len() > 0 ==> {
            &&& r@.len() == 3
            &&& r@[0].says(Some("user"@), SUMMARY_HEAD@ + summary@)
            &&& r@[1].says(Some("model"@), SUMMARY_NOTED@)
        },
        r@.last().says(Some("user"@), query@),
{
    let mut out: Vec<Content> = Vec::new();
    if !summary.is_empty() {
        let told: String = edit::concat2(SUMMARY_HEAD, summary);
        out.push(Content::said_by("user", told.as_str()));
        out.push(Content::said_by("model", SUMMARY_NOTED));
    }
    out.push(Content::said_by("user", query));
    out
}

/// What the model says when it is asked if the files serve again.
#[derive(Debug)]
pub enum RouterReply {
    /// It was not asked.
    NotAsked,
    /// It wants a search.
    Call(FunctionCallData),
    /// It speaks: the files serve again.
    Text,
    /// It failed or took too long.
    Failed,
}

/// Whether the files of the last answer serve again, and else the query that
/// is searched for, if the model gave one.
#[derive(Debug)]
pub struct Routed {
    /// The files serve again.
    pub follow_up: bool,
    /// The query of the model.
    pub query: Option<String>,
}

/// The query of a call: its argument, or the query as it was asked.
pub fn call_query(argument: Option<String>, query: &str) -> (r: String)
    ensures
        r@ == match argument {
            Some(a) => a@,
            None => query@,
        },
{
    match argument {
        Some(a) => a,
        None => edit::owned(query),
    }
}

/// What the reply of the model decides: a search for the query that it gives,
/// or for the one that was asked where it gives none; the same files where it
/// speaks; a search in all other cases.
pub fn route_reply(reply: &RouterReply, query: &str) -> (r: Routed)
    ensures
        r.follow_up == (reply is Text),
        match reply {
            RouterReply::Call(call) => text::option_view(r.query) == Some(
                match json::json_text(call.args@, "query"@) {
                    Some(a) => a,
                    None => query@,
                },
            ),
            _ => r.query is None,
        },
{
    match reply {
        RouterReply::Call(call) => Routed {
            follow_up: false,
            query: Some(call_query(json::read_text(call.args.as_str(), "query"), query)),
        },
        RouterReply::Text => Routed { follow_up: true, query: None },
        RouterReply::NotAsked => Routed { follow_up: false, query: None },
        RouterReply::Failed => Routed { follow_up: false, query: None },
    }
}

/// Some file has the path.
pub open spec fn has_path(files: Seq<SessionFile>, path: Seq<char>) -> bool {
    exists|k: int| 0 <= k < files.len() && (#[trigger] files[k]).file_path@ == path
}

/// The results in the files, marked.
pub open spec fn in_files(results: Seq<HybridResult>, files: Seq<SessionFile>) -> Seq<bool> {
    Seq::new(results.len(), |i: int| has_path(files, results[i].file_path@))
}

/// The results in the files; all where none is.
pub open spec fn preferred(results: Seq<HybridResult>, files: Seq<SessionFile>) -> Seq<
    HybridResult,
> {
    let within = select::kept(results, in_files(results, files));
    if within.len() == 0 {
        results
    } else {
        within
    }
}

fn path_among(files: &Vec<SessionFile>, path: &str) -> (r: bool)
    ensures
        r == has_path(files@, path@),
{
    let mut i: usize = 0;
    while i < files.len()
        invariant
            i <= files@.len(),
            forall|k: int| 0 <= k < i ==> (#[trigger] files@[k]).file_path@ != path@,
        decreases files@.len() - i,
    {
        if find::same(files[i].file_path.as_str(), path) {
            assert(files@[i as int].file_path@ == path@);
            return true;
        }
        i += 1;
    }
    false
}

/// Keeps the results in the files of the last answer; all where none is.
pub fn prefer_files(results: Vec<HybridResult>, files: &Vec<SessionFile>) -> (r: Vec<HybridResult>)
    ensures
        r@ == preferred(results@, files@),
{
    let mut keep: Vec<bool> = Vec::new();
    let mut copy: Vec<HybridResult> = Vec::new();
    let mut i: usize = 0;
    while i < results.len()
        invariant
            i <= results@.len(),
            keep@ == in_files(results@, files@).take(i as int),
            copy@ == results@.take(i as int),
        decreases results@.len() - i,
    {
        keep.push(path_among(files, results[i].file_path.as_str()));
        copy.push(results[i].clone());
        i += 1;
    }
    assert(keep@ =~= in_files(results@, files@));
    assert(copy@ =~= results@);
    let within: Vec<HybridResult> = select::keep_flagged(copy, &keep);
    if within.len() == 0 {
        results
    } else {
        within
    }
}

/// What is searched for: in a follow-up the keywords of the last answer, if it
/// had any; else the keywords of the query that the model gave, or of the one
/// that was asked.
pub open spec fn searched_keywords(
    follow_up: bool,
    last: Seq<char>,
    given: Option<Seq<char>>,
    query: Seq<char>,
) -> Seq<char> {
    if follow_up && last.len() > 0 {
        last
    } else if follow_up || given is None {
        keyword::keywords_of(query)
    } else {
        keyword::keywords_of(given->0)
    }
}

/// What is searched for.
pub fn search_keywords(routed: &Routed, last: &str, query: &str) -> (r: String)
    ensures
        r@ == searched_keywords(
            routed.follow_up,
            last@,
            text::option_view(routed.query),
            query@,
        ),
{
    if routed.follow_up {
        if last.is_empty() {
            keyword::extract_keywords(query)
        } else {
            edit::owned(last)
        }
    } else {
        match &routed.query {
            Some(given) => keyword::extract_keywords(given.as_str()),
            None => keyword::extract_keywords(query),
        }
    }
}

/// How a query is analysed before the search.
#[derive(Clone, Copy, Debug, PartialEq, Eq, Structural)]
pub enum Analysis {
    /// Not at all: the last keywords serve again.
    Reused,
    /// Not at all: the vector index finds what is meant.
    Vectors,
    /// By the model.
    Model,
    /// By its words.
    Local,
}

/// How a query is analysed before the search: by the model only for a
/// question, with a key, and without a vector index.
pub fn choose_analysis(
    follow_up: bool,
    has_vectors: bool,
    intent: SmartIntent,
    has_key: bool,
) -> (r: Analysis)
    ensures
        r == if follow_up {
            Analysis::Reused
        } else if has_vectors {
            Analysis::Vectors
        } else if intent == SmartIntent::Chat && has_key {
            Analysis::Model
        } else {
            Analysis::Local
        },
{
    if follow_up {
        Analysis::Reused
    } else if has_vectors {
        Analysis::Vectors
    } else if intent == SmartIntent::Chat && has_key {
        Analysis::Model
    } else {
        Analysis::Local
    }
}

/// What is shown while a query is analysed.
pub fn analysis_label(analysis: Analysis) -> (r: String)
    ensures
        r@ == match analysis {
            Analysis::Reused => "♻️ Dùng lại context trước..."@,
            Analysis::Vectors => "Phân tích cục bộ... (Vector mode ⚡)"@,
            Analysis::Model => "Phân tích yêu cầu... (Flash-Lite)"@,
            Analysis::Local => "Phân tích cục bộ..."@,
        },
{
    match analysis {
        Analysis::Reused => edit::owned("♻️ Dùng lại context trước..."),
        Analysis::Vectors => edit::owned("Phân tích cục bộ... (Vector mode ⚡)"),
        Analysis::Model => edit::owned("Phân tích yêu cầu... (Flash-Lite)"),
        Analysis::Local => edit::owned("Phân tích cục bộ..."),
    }
}

/// What is shown during a search.
pub fn search_label(follow_up: bool, has_vectors: bool) -> (r: String)
    ensures
        r@ == "Tìm kiếm tài liệu... ("@ + (if follow_up {
            "Follow-up"@
        } else if has_vectors {
            "Hybrid"@
        } else {
            "BM25"@
        }) + ")"@,
{
    let mode: &str = if follow_up {
        "Follow-up"
    } else if has_vectors {
        "Hybrid"
    } else {
        "BM25"
    };
    edit::concat3("Tìm kiếm tài liệu... (", mode, ")")
}

/// How many turns are kept for an answer.
pub const KEPT_TURNS: usize = 20;

/// What stands behind the earlier turns in the note on them.
pub const NOTE_TAIL: &'static str = "\nNếu câu hỏi hiện tại ngắn hoặc mơ hồ → hiểu dựa trên ngữ cảnh trên.\nNếu câu hỏi đề cập cùng đối tượng/cột/file → giữ nguyên context trước đó.\n";

/// The turns with the query: the newest, then the query.
pub open spec fn with_query(
    history: Seq<(Seq<char>, Seq<char>)>,
    query: Seq<char>,
) -> Seq<(Seq<char>, Seq<char>)> {
    newest(history, KEPT_TURNS as int).push(("user"@, query))
}

/// The note on the earlier turns: none where there are none.
pub open spec fn smart_note(history: Seq<(Seq<char>, Seq<char>)>, query: Seq<char>) -> Seq<char> {
    if history.len() == 0 {
        Seq::empty()
    } else {
        turn::HISTORY_HEAD@ + prompt::history_lines(prompt::noted(with_query(history, query)))
            + NOTE_TAIL@
    }
}

/// `plan` is what the model is sent for a question of the given type.
pub open spec fn is_smart_plan(
    plan: AnswerPlan,
    t: PromptType,
    history: Seq<(Seq<char>, Seq<char>)>,
    query: Seq<char>,
    context: Seq<char>,
    files: Seq<AttachedFile>,
) -> bool {
    &&& plan.has_context == (context.len() > 0)
    &&& plan.system_prompt@ == prompt::system_rules(
        t,
        smart_note(history, query),
        turn::source_line(files),
    )
    &&& context_guard::turn_views(plan.messages@) == context_guard::trimmed_history(
        with_query(history, query),
        context_guard::MAX_HISTORY_TURNS as int,
        context_guard::MAX_HISTORY_TOKENS as int,
    ).push(("user"@, prompt::document_block(context) + "\n\n"@ + query))
}

fn turns_with_query(history: &Vec<(String, String)>, query: &str) -> (r: Vec<(String, String)>)
    ensures
        context_guard::turn_views(r@) == with_query(context_guard::turn_views(history@), query@),
{
    let ghost h = context_guard::turn_views(history@);
    let ghost recent = newest(h, KEPT_TURNS as int);
    let first: usize = if history.len() > KEPT_TURNS {
        history.len() - KEPT_TURNS
    } else {
        0
    };
    let mut out: Vec<(String, String)> = Vec::new();
    let mut i: usize = first;
    while i < history.len()
        invariant
            first <= i <= history@.len(),
            out@ == history@.subrange(first as int, i as int),
        decreases history@.len() - i,
    {
        out.push((history[i].0.clone(), history[i].1.clone()));
        assert(out@ =~= history@.subrange(first as int, i + 1));
        i += 1;
    }
    assert(context_guard::turn_views(out@) =~= recent);
    out.push((edit::owned("user"), edit::owned(query)));
    assert(context_guard::turn_views(out@) =~= recent.push(("user"@, query@)));
    out
}

/// What the model is sent for a question of the given type: the rules for the
/// type, the newest turns with the question, and the documents with the
/// question.
pub fn plan_with_type(
    t: PromptType,
    history: &Vec<(String, String)>,
    query: &str,
    context: &str,
    files: &Vec<AttachedFile>,
) -> (plan: AnswerPlan)
    ensures
        is_smart_plan(
            plan,
            t,
            context_guard::turn_views(history@),
            query@,
            context@,
            files@,
        ),
{
    let turns: Vec<(String, String)> = turns_with_query(history, query);
    let mut note: String = String::new();
    if history.len() > 0 {
        let lines: String = prompt::build_history_context(turns.as_slice());
        note = edit::concat3(turn::HISTORY_HEAD, lines.as_str(), NOTE_TAIL);
    }
    assert(note@ =~= smart_note(context_guard::turn_views(history@), query@));
    let sources: String = turn::source_list(files);
    let (system_prompt, block) = prompt::build_prompt(&t, note.as_str(), sources.as_str(), context);
    let mut messages: Vec<(String, String)> = context_guard::trim_history(
        turns.as_slice(),
        context_guard::MAX_HISTORY_TURNS,
        context_guard::MAX_HISTORY_TOKENS,
    );
    let ghost kept = context_guard::turn_views(messages@);
    let message: String = edit::concat3(block.as_str(), "\n\n", query);
    messages.push((edit::owned("user"), message));
    assert(context_guard::turn_views(messages@) =~= kept.push(("user"@, message@)));
    AnswerPlan { system_prompt, messages, has_context: !context.is_empty() }
}

/// What the model is sent for a question.
pub fn plan_question(
    history: &Vec<(String, String)>,
    query: &str,
    context: &str,
    files: &Vec<AttachedFile>,
) -> (plan: AnswerPlan)
    ensures
        is_smart_plan(
            plan,
            prompt::prompt_type(chars::lowercase(query@)),
            context_guard::turn_views(history@),
            query@,
            context@,
            files@,
        ),
{
    plan_with_type(prompt::detect_prompt_type(query), history, query, context, files)
}

/// The error when all keys are without quota.
pub fn exhausted_error(count: usize, last_error: &str) -> (r: String)
    ensures
        r@ == "Tat ca "@ + number::decimal(count as nat) + " API keys deu bi rate limit: "@
            + last_error@,
{
    let n: String = number::to_decimal(count as u128);
    let mut out: String = edit::concat3("Tat ca ", n.as_str(), " API keys deu bi rate limit: ");
    out.append(last_error);
    out
}

/// What is shown when there is no quota.
pub const SMART_QUOTA_TEXT: &'static str = "⚠️ API Gemini đang bị giới hạn tốc độ (rate limit). Vui lòng chờ 1-2 phút rồi thử lại.\n\n💡 Nếu lỗi này xảy ra thường xuyên, hãy nâng cấp API key lên gói trả phí trong Google AI Studio.";

/// What is shown where there is no key.
pub const SMART_NO_KEY_TEXT: &'static str =
    "💡 Cấu hình Gemini API key trong ⚙️ Cài đặt để AI phân tích nội dung tài liệu.";

/// What is shown for an error.
pub fn error_message(error: &str) -> (r: String)
    ensures
        r@ == if find::occurs(error@, "Rate limited"@) {
            SMART_QUOTA_TEXT@
        } else {
            turn::ERROR_HEAD@ + error@ + ". Hiện kết quả tìm kiếm thay thế."@
        },
{
    if find::contains(error, "Rate limited") {
        edit::owned(SMART_QUOTA_TEXT)
    } else {
        edit::concat3(turn::ERROR_HEAD, error, ". Hiện kết quả tìm kiếm thay thế.")
    }
}

/// How a query ends.
#[derive(Debug)]
pub enum SmartOutcome {
    /// Files are listed.
    Listed,
    /// There is no key.
    NoKey,
    /// The model answered.
    Answered(String),
    /// The model failed.
    Failed(String),
}

/// The reply to a query. The results are part of it in any case. An answer
/// comes with the files that it cites, an error with all files of the context.
pub fn respond(
    outcome: SmartOutcome,
    results: Option<SearchResponse>,
    keywords: String,
    attached: &Vec<AttachedFile>,
) -> (r: SmartResponse)
    ensures
        r.search_results == results,
        r.keywords == keywords,
        r.intent@ == intent_name(
            if outcome is Listed {
                SmartIntent::Search
            } else {
                SmartIntent::Chat
            },
        ),
        text::option_view(r.chat_response) == match outcome {
            SmartOutcome::Listed => None,
            SmartOutcome::NoKey => Some(SMART_NO_KEY_TEXT@),
            SmartOutcome::Answered(answer) => Some(answer@),
            SmartOutcome::Failed(error) => Some(
                if find::occurs(error@, "Rate limited"@) {
                    SMART_QUOTA_TEXT@
                } else {
                    turn::ERROR_HEAD@ + error@ + ". Hiện kết quả tìm kiếm thay thế."@
                },
            ),
        },
        r.attached_files@ == match outcome {
            SmartOutcome::Answered(answer) => context::answer_files(answer@, attached@),
            SmartOutcome::Failed(_) => attached@,
            _ => Seq::empty(),
        },
{
    match outcome {
        SmartOutcome::Listed => SmartResponse {
            intent: edit::owned("search"),
            search_results: results,
            chat_response: None,
            keywords,
            attached_files: Vec::new(),
        },
        SmartOutcome::NoKey => SmartResponse {
            intent: edit::owned("chat"),
            search_results: results,
            chat_response: Some(edit::owned(SMART_NO_KEY_TEXT)),
            keywords,
            attached_files: Vec::new(),
        },
        SmartOutcome::Answered(answer) => {
            let attached_files: Vec<AttachedFile> = context::filter_cited_files(
                answer.as_str(),
                attached.as_slice(),
            );
            SmartResponse {
                intent: edit::owned("chat"),
                search_results: results,
                chat_response: Some(answer),
                keywords,
                attached_files,
            }
        },
        SmartOutcome::Failed(error) => SmartResponse {
            intent: edit::owned("chat"),
            search_results: results,
            chat_response: Some(error_message(error.as_str())),
            keywords,
            attached_files: copy_files(attached),
        },
    }
}

fn copy_files(files: &Vec<AttachedFile>) -> (r: Vec<AttachedFile>)
    ensures
        r@ == files@,
{
    let mut out: Vec<AttachedFile> = Vec::new();
    let mut i: usize = 0;
    while i < files.len()
        invariant
            i <= files@.len(),
            out@ == files@.take(i as int),
        decreases files@.len() - i,
    {
        out.push(files[i].clone());
        i += 1;
    }
    assert(files@.take(files@.len() as int) =~= files@);
    out
}

/// The files of results.
pub open spec fn result_files(results: Seq<SearchResult>) -> Seq<SessionFile> {
    Seq::new(
        results.len(),
        |i: int| SessionFile { file_path: results[i].file_path, file_name: results[i].file_name },
    )
}

/// The paths of results.
pub open spec fn result_paths(results: Seq<SearchResult>) -> Seq<Seq<char>> {
    Seq::new(results.len(), |i: int| results[i].file_path@)
}

/// The files of the results that are shown, each once.
pub fn listed_files(results: &Vec<SearchResult>) -> (r: Vec<SessionFile>)
    ensures
        r@ == select::firsts(result_files(results@), result_paths(results@)),
{
    let mut files: Vec<SessionFile> = Vec::new();
    let mut paths: Vec<String> = Vec::new();
    let mut i: usize = 0;
    while i < results.len()
        invariant
            i <= results@.len(),
            files@ == result_files(results@).take(i as int),
            text::views(paths@) == result_paths(results@).take(i as int),
        decreases results@.len() - i,
    {
        let ghost before = text::views(paths@);
        paths.push(results[i].file_path.clone());
        assert(text::views(paths@) =~= before.push(results@[i as int].file_path@));
        files.push(
            SessionFile {
                file_path: results[i].file_path.clone(),
                file_name: results[i].file_name.clone(),
            },
        );
        i += 1;
    }
    assert(files@ =~= result_files(results@));
    assert(text::views(paths@) =~= result_paths(results@));
    assert(text::views(paths@).len() == files@.len());
    select::keep_first_items(files, &paths)
}

/// No file is remembered twice, and every file that is shown is remembered.
pub proof fn law_listed_files(results: Seq<SearchResult>)
    ensures
        ({
            let files = select::firsts(result_files(results), result_paths(results));
            &&& forall|i: int, j: int|
                0 <= i < j < files.len() ==> (#[trigger] files[i]).file_path@ != (
                #[trigger] files[j]).file_path@
            &&& forall|i: int|
                0 <= i < results.len() ==> has_path(files, (#[trigger] results[i]).file_path@)
        }),
{
    let paths = result_paths(results);
    let files = select::firsts(result_files(results), paths);
    let places = select::first_places(paths, results.len() as int);
    select::lemma_firsts(result_files(results), paths);
    assert forall|i: int, j: int| 0 <= i < j < files.len() implies (#[trigger] files[i]).file_path@
        != (#[trigger] files[j]).file_path@ by {
        assert(paths[places[i]] != paths[places[j]]);
    }
    assert forall|i: int| 0 <= i < results.len() implies has_path(
        files,
        (#[trigger] results[i]).file_path@,
    ) by {
        let k = select::lemma_first_place(paths, results.len() as int, i);
        assert(places[k] < results.len());
        assert(files[k].file_path@ == results[i].file_path@);
    }
}

/// The reply as it is kept in the history: its text, or how many results were
/// found.
pub fn stored_reply(response: &SmartResponse) -> (r: String)
    ensures
        r@ == match response.chat_response {
            Some(answer) => answer@,
            None => "🔍 Tìm thấy "@ + number::decimal(
                match response.search_results {
                    Some(found) => found.total as nat,
                    None => 0,
                },
            ) + " kết quả cho \""@ + response.keywords@ + "\""@,
        },
{
    match &response.chat_response {
        Some(answer) => answer.clone(),
        None => {
            let total: usize = match &response.search_results {
                Some(found) => found.total,
                None => 0,
            };
            let n: String = number::to_decimal(total as u128);
            let mut out: String = edit::concat3("🔍 Tìm thấy ", n.as_str(), " kết quả cho \"");
            out.append(response.keywords.as_str());
            out.append("\"");
            out
        },
    }
}

/// In a follow-up exactly the results in the files of the last answer are kept, in
/// order; all where there is none.
pub proof fn law_preferred(results: Seq<HybridResult>, files: Seq<SessionFile>) -> (ps: Seq<int>)
    ensures
        select::exactly(
            ps,
            results.len() as int,
            |i: int|
                exists|k: int|
                    0 <= k < files.len() && (#[trigger] files[k]).file_path@
                        == results[i].file_path@,
        ),
        preferred(results, files) == if ps.len() == 0 {
            results
        } else {
            Seq::new(ps.len(), |k: int| results[ps[k]])
        },
{
    let keep = in_files(results, files);
    let ps = select::law_kept(results, keep);
    let p = |i: int| keep[i];
    let q = |i: int|
        exists|k: int|
            0 <= k < files.len() && (#[trigger] files[k]).file_path@ == results[i].file_path@;
    assert forall|i: int| 0 <= i < results.len() implies p(i) == #[trigger] q(i) by {}
    assert forall|a: int| 0 <= a < ps.len() implies 0 <= #[trigger] ps[a] < results.len() && q(
        ps[a],
    ) by {
        assert(p(ps[a]));
        assert(q(ps[a]) == p(ps[a]));
    }
    assert forall|i: int| 0 <= i < results.len() && #[trigger] q(i) implies ps.contains(i) by {
        assert(p(i));
    }
    ps
}

/// What is searched for: in a follow-up the keywords of the last answer, else the
/// keywords of what the model asks for, else those of the question.
pub proof fn law_searched_keywords(last: Seq<char>, given: Seq<char>, query: Seq<char>)
    ensures
        last.len() > 0 ==> searched_keywords(true, last, Some(given), query) == last,
        last.len() == 0 ==> searched_keywords(true, last, Some(given), query)
            == keyword::keywords_of(query),
        searched_keywords(false, last, Some(given), query) == keyword::keywords_of(given),
        searched_keywords(false, last, None, query) == keyword::keywords_of(query),
{
}

/// The model is told of the newest ten turns, all where there are fewer: a line for
/// each, with who spoke and at most three hundred characters of what was said.
pub proof fn law_turn_lines(h: Seq<(Seq<char>, Seq<char>)>, i: int)
    ensures
        newest(h, 10).len() == if h.len() < 10 {
            h.len()
        } else {
            10
        },
        newest(h, 10).is_suffix_of(h),
        turn_lines(h).len() == h.len(),
        0 <= i < h.len() ==> turn_lines(h)[i] == h[i].0 + ": "@ + if h[i].1.len() <= 300 {
            h[i].1
        } else {
            h[i].1.take(300)
        },
{
    let n = newest(h, 10);
    assert(n =~= h.subrange(h.len() - n.len(), h.len() as int));
}

/// The files of the last answer serve again exactly where there are some and it is
/// less than half an hour old.
pub proof fn law_reusable(last: SessionContext, now: u64)
    ensures
        reusable(Some(last), now) <==> last.attached_files@.len() > 0 && now < last.timestamp
            + 1800,
        !reusable(None, now),
{
}

/// What the model is sent: the newest turns with the question at their end, as far
/// as the budget for the history goes, and then the documents with the question;
/// the sources and the note on the earlier turns stand in the system prompt.
pub proof fn law_smart_plan(
    plan: AnswerPlan,
    t: PromptType,
    history: Seq<(Seq<char>, Seq<char>)>,
    query: Seq<char>,
    context: Seq<char>,
    files: Seq<AttachedFile>,
)
    requires
        is_smart_plan(plan, t, history, query, context, files),
    ensures
        ({
            let sent = context_guard::turn_views(plan.messages@);
            &&& plan.has_context <==> context.len() > 0
            &&& 1 <= sent.len() <= 6
            &&& sent.last().0 == "user"@
            &&& query.is_suffix_of(sent.last().1)
            &&& prompt::document_block(context).is_prefix_of(sent.last().1)
            &&& sent.drop_last().is_suffix_of(history.push(("user"@, query)))
            &&& sent.len() >= 2
            &&& find::occurs(plan.system_prompt@, turn::source_line(files))
            &&& find::occurs(plan.system_prompt@, smart_note(history, query))
            &&& prompt::instructions(t).is_suffix_of(plan.system_prompt@)
        }),
{
    let sent = context_guard::turn_views(plan.messages@);
    let turns = with_query(history, query);
    let note = smart_note(history, query);
    let kept = context_guard::trimmed_history(
        turns,
        context_guard::MAX_HISTORY_TURNS as int,
        context_guard::MAX_HISTORY_TOKENS as int,
    );
    context_guard::law_trimmed_history(turns, 5, 3000);
    assert(sent.drop_last() =~= kept);
    let all = history.push(("user"@, query));
    assert(turns =~= all.skip(all.len() - turns.len()));
    assert(kept =~= all.subrange(all.len() - kept.len(), all.len() as int)) by {
        assert(kept =~= turns.subrange(turns.len() - kept.len(), turns.len() as int));
    }
    let block = prompt::document_block(context);
    let m = block + "\n\n"@ + query;
    assert(sent.last().1 == m);
    assert(m.subrange(m.len() - query.len(), m.len() as int) =~= query);
    assert(m.subrange(0, block.len() as int) =~= block);
    prompt::law_system_rules(t, note, turn::source_line(files));
    let n = prompt::BASE_RULES@.len() as int;
    assert(find::occurs_at(plan.system_prompt@, note, n));
    assert(find::occurs_at(
        plan.system_prompt@,
        turn::source_line(files),
        (n + note.len() + prompt::SOURCES_LABEL@.len()) as int,
    ));
}

} // verus!
