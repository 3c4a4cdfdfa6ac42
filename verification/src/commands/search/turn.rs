//! One turn of a conversation: the prompt that the model is given, the keys
//! that are tried, and what becomes of the answer.
use vstd::prelude::*;

use crate::commands::context_guard;
use crate::commands::search::context;
use crate::commands::search::prompt;
use crate::commands::search::prompt::PromptType;
use crate::commands::search::AttachedFile;
use crate::commands::search::SmartResponse;
use crate::score;
use crate::score::Score;
use crate::session::SessionFile;
use crate::text;
use crate::text::chars;
use crate::text::edit;
use crate::text::find;
use crate::text::number;

verus! {

/// How many characters of a query name its session.
pub const TITLE_CHARS: usize = 50;

/// The name of a session that begins with a query.
pub fn session_title(query: &str) -> (r: String)
    ensures
        r@ == edit::first_chars(query@, TITLE_CHARS as int),
{
    edit::take_chars(query, TITLE_CHARS)
}

/// The files with their numbers.
pub open spec fn numbered_names(files: Seq<AttachedFile>) -> Seq<Seq<char>> {
    Seq::new(
        files.len(),
        |i: int| "["@ + number::decimal((i + 1) as nat) + "] "@ + files[i].file_name@,
    )
}

/// The list of sources: "[1] a, [2] b".
pub open spec fn source_line(files: Seq<AttachedFile>) -> Seq<char> {
    edit::joined(numbered_names(files), ", "@)
}

/// The list of sources.
pub fn source_list(files: &Vec<AttachedFile>) -> (r: String)
    ensures
        r@ == source_line(files@),
{
    let mut names: Vec<String> = Vec::new();
    let mut i: usize = 0;
    while i < files.len()
        invariant
            i <= files@.len(),
            text::views(names@) == numbered_names(files@).take(i as int),
        decreases files@.len() - i,
    {
        let n: String = number::to_decimal(i as u128 + 1);
        let mut name: String = edit::concat3("[", n.as_str(), "] ");
        name.append(files[i].file_name.as_str());
        let ghost before = text::views(names@);
        names.push(name);
        assert(text::views(names@) =~= before.push(name@));
        i += 1;
    }
    assert(text::views(names@) =~= numbered_names(files@));
    edit::join(names.as_slice(), ", ")
}

/// What stands before the earlier turns in a prompt.
pub const HISTORY_HEAD: &'static str = "\nĐÂY LÀ HỘI THOẠI TIẾP NỐI. Ngữ cảnh trước:\n";

/// The note on the earlier turns: none where there are none.
pub open spec fn note_on_history(
    history: Seq<(Seq<char>, Seq<char>)>,
    query: Seq<char>,
) -> Seq<char> {
    if history.len() == 0 {
        Seq::empty()
    } else {
        HISTORY_HEAD@ + prompt::history_lines(prompt::noted(history.push(("user"@, query))))
            + "\n"@
    }
}

/// The list of turns again.
pub fn copy_turns(history: &Vec<(String, String)>) -> (r: Vec<(String, String)>)
    ensures
        r@ == history@,
{
    let mut out: Vec<(String, String)> = Vec::new();
    let mut i: usize = 0;
    while i < history.len()
        invariant
            i <= history@.len(),
            out@ == history@.take(i as int),
        decreases history@.len() - i,
    {
        out.push((history[i].0.clone(), history[i].1.clone()));
        i += 1;
    }
    assert(history@.take(history@.len() as int) =~= history@);
    out
}

/// The note on the earlier turns of a conversation.
pub fn history_note(history: &Vec<(String, String)>, query: &str) -> (r: String)
    ensures
        r@ == note_on_history(context_guard::turn_views(history@), query@),
{
    if history.len() == 0 {
        return String::new();
    }
    let ghost h = context_guard::turn_views(history@);
    let mut turns: Vec<(String, String)> = copy_turns(history);
    turns.push((edit::owned("user"), edit::owned(query)));
    assert(context_guard::turn_views(turns@) =~= h.push(("user"@, query@)));
    let lines: String = prompt::build_history_context(turns.as_slice());
    edit::concat3(HISTORY_HEAD, lines.as_str(), "\n")
}

/// The role that an answer without documents begins with.
pub const PLAIN_ROLE: &'static str =
    "Bạn là trợ lý AI chuyên phân tích tài liệu. Trả lời bằng tiếng Việt, dùng Markdown.\n";

/// The short rule for an answer without documents.
pub const PLAIN_RULE: &'static str = "\n📌 Trả lời thẳng, chuyên nghiệp.";

/// The rules for an answer to a search without documents.
pub const PLAIN_RULES: &'static str = "\n📌 Quy tắc:\n• Trả lời thẳng, ngắn gọn, chuyên nghiệp.\n• Nếu câu hỏi cần tài liệu mà bạn không có → gợi ý user thêm thư mục hoặc tìm kiếm cụ thể hơn.\n• Dùng **bold** cho điểm quan trọng, bullet points cho danh sách.";

/// How a chat query is answered.
#[derive(Clone, Copy, Debug, PartialEq, Eq, Structural)]
pub enum ChatRoute {
    /// There is no key: not at all.
    NoKey,
    /// From the files that were selected.
    Selected,
    /// From the context of the last answer.
    FollowUp,
    /// From a search.
    Search,
}

/// The system prompt of an answer without documents.
pub open spec fn plain_prompt(route: ChatRoute, note: Seq<char>) -> Seq<char> {
    PLAIN_ROLE@ + note + if route == ChatRoute::Search {
        PLAIN_RULES@
    } else {
        PLAIN_RULE@
    }
}

/// What the model is sent.
#[derive(Debug)]
pub struct AnswerPlan {
    /// The system prompt.
    pub system_prompt: String,
    /// The turns, the current one last.
    pub messages: Vec<(String, String)>,
    /// There are documents.
    pub has_context: bool,
}

/// The message of the current turn: the documents, then the query.
pub open spec fn user_message(query: Seq<char>, context: Seq<char>) -> Seq<char> {
    if context.len() == 0 {
        query
    } else {
        prompt::document_block(context) + "\n\n"@ + query
    }
}

/// `plan` is what the model is sent for a query of the given type.
pub open spec fn is_plan(
    plan: AnswerPlan,
    route: ChatRoute,
    t: PromptType,
    history: Seq<(Seq<char>, Seq<char>)>,
    query: Seq<char>,
    context: Seq<char>,
    files: Seq<AttachedFile>,
) -> bool {
    let note = note_on_history(history, query);
    &&& plan.has_context == (context.len() > 0)
    &&& plan.system_prompt@ == if context.len() > 0 {
        prompt::system_rules(t, note, source_line(files))
    } else {
        plain_prompt(route, note)
    }
    &&& context_guard::turn_views(plan.messages@) == context_guard::trimmed_history(
        history,
        context_guard::MAX_HISTORY_TURNS as int,
        context_guard::MAX_HISTORY_TOKENS as int,
    ).push(("user"@, user_message(query, context)))
}

/// What the model is sent for a query of the given type: the rules for the
/// type, the newest turns, and the documents with the query.
pub fn plan_with_type(
    route: ChatRoute,
    t: PromptType,
    history: &Vec<(String, String)>,
    query: &str,
    context: &str,
    files: &Vec<AttachedFile>,
) -> (plan: AnswerPlan)
    ensures
        is_plan(
            plan,
            route,
            t,
            context_guard::turn_views(history@),
            query@,
            context@,
            files@,
        ),
{
    let note: String = history_note(history, query);
    let mut messages: Vec<(String, String)> = context_guard::trim_history(
        history.as_slice(),
        context_guard::MAX_HISTORY_TURNS,
        context_guard::MAX_HISTORY_TOKENS,
    );
    let ghost kept = context_guard::turn_views(messages@);
    let has_context: bool = !context.is_empty();
    let mut message: String = String::new();
    let system_prompt: String = if has_context {
        let sources: String = source_list(files);
        let (rules, block) = prompt::build_prompt(&t, note.as_str(), sources.as_str(), context);
        message.append(block.as_str());
        message.append("\n\n");
        message.append(query);
        assert(message@ =~= user_message(query@, context@));
        rules
    } else {
        message.append(query);
        assert(message@ =~= query@);
        let mut plain: String = edit::concat2(PLAIN_ROLE, note.as_str());
        match route {
            ChatRoute::Search => {
                plain.append(PLAIN_RULES);
            },
            _ => {
                plain.append(PLAIN_RULE);
            },
        }
        plain
    };
    messages.push((edit::owned("user"), message));
    assert(context_guard::turn_views(messages@) =~= kept.push(
        ("user"@, user_message(query@, context@)),
    ));
    AnswerPlan { system_prompt, messages, has_context }
}

/// What the model is sent for a query.
pub fn plan_answer(
    route: ChatRoute,
    history: &Vec<(String, String)>,
    query: &str,
    context: &str,
    files: &Vec<AttachedFile>,
) -> (plan: AnswerPlan)
    ensures
        is_plan(
            plan,
            route,
            prompt::prompt_type(chars::lowercase(query@)),
            context_guard::turn_views(history@),
            query@,
            context@,
            files@,
        ),
{
    plan_with_type(route, prompt::detect_prompt_type(query), history, query, context, files)
}

/// The model that is asked: the one chosen, or the standard one where the
/// choice is left open.
pub fn effective_model(model: &str, standard: &str) -> (r: String)
    ensures
        r@ == if model@ == "auto"@ || model@.len() == 0 {
            standard@
        } else {
            model@
        },
{
    if find::same(model, "auto") || model.is_empty() {
        edit::owned(standard)
    } else {
        edit::owned(model)
    }
}

/// The name of a model as it is shown.
pub fn model_label(model: &str) -> (r: String)
    ensures
        r@ == if find::occurs(model@, "lite"@) {
            "⚡ Flash Lite"@
        } else if find::occurs(model@, "flash"@) {
            "🚀 Flash"@
        } else {
            model@
        },
{
    if find::contains(model, "lite") {
        edit::owned("⚡ Flash Lite")
    } else if find::contains(model, "flash") {
        edit::owned("🚀 Flash")
    } else {
        edit::owned(model)
    }
}

/// What an error says when a key has no quota left.
pub const RATE_LIMIT_MARKS: [&'static str; 3] = ["Rate", "429", "quota"];

/// The error is about a key without quota.
pub open spec fn rate_limited(error: Seq<char>) -> bool {
    find::occurs_any(error, RATE_LIMIT_MARKS@)
}

/// Whether an error is about a key without quota.
pub fn is_rate_limited(error: &str) -> (r: bool)
    ensures
        r == rate_limited(error@),
{
    find::contains_any(error, RATE_LIMIT_MARKS.as_slice())
}

/// What comes of a try with one key.
#[derive(Debug)]
pub enum KeyStep {
    /// The answer is there.
    Answer(String),
    /// The error is final.
    Fail(String),
    /// The next key is tried.
    TryNext,
    /// There is no further key: all are without quota.
    Exhausted(String),
}

/// The keys that are tried in turn until one has quota.
#[derive(Clone, Copy, Debug)]
pub struct KeyRotation {
    /// How many keys there are.
    pub count: usize,
    /// The key to try, from 0 on.
    pub current: usize,
}

impl KeyRotation {
    /// There is a key to try.
    pub open spec fn valid(self) -> bool {
        self.current < self.count
    }

    /// What comes of a try, and what is tried then. A key without quota gives
    /// way to the next; everything else ends the tries.
    pub open spec fn after(self, outcome: Result<String, String>) -> (KeyStep, KeyRotation) {
        match outcome {
            Ok(answer) => (KeyStep::Answer(answer), self),
            Err(error) => if !rate_limited(error@) {
                (KeyStep::Fail(error), self)
            } else if self.current + 1 < self.count {
                (
                    KeyStep::TryNext,
                    KeyRotation { count: self.count, current: (self.current + 1) as usize },
                )
            } else {
                (KeyStep::Exhausted(error), self)
            },
        }
    }

    /// How the tries end, given what comes of each key.
    pub open spec fn end(self, outcomes: Seq<Result<String, String>>) -> KeyStep
        decreases self.count - self.current,
    {
        match self.after(outcomes[self.current as int]) {
            (KeyStep::TryNext, next) => if next.current > self.current {
                next.end(outcomes)
            } else {
                KeyStep::TryNext
            },
            (step, _) => step,
        }
    }

    /// Begins with the first of the keys; `None` where there are none.
    pub fn start(count: usize) -> (r: Option<KeyRotation>)
        ensures
            r == if count == 0 {
                None
            } else {
                Some(KeyRotation { count, current: 0 })
            },
    {
        if count == 0 {
            None
        } else {
            Some(KeyRotation { count, current: 0 })
        }
    }

    /// Takes what came of the current key.
    pub fn step(&mut self, outcome: Result<String, String>) -> (r: KeyStep)
        requires
            old(self).valid(),
        ensures
            (r, *final(self)) == old(self).after(outcome),
            final(self).valid(),
    {
        match outcome {
            Ok(answer) => KeyStep::Answer(answer),
            Err(error) => if !is_rate_limited(error.as_str()) {
                KeyStep::Fail(error)
            } else if self.current + 1 < self.count {
                self.current = self.current + 1;
                KeyStep::TryNext
            } else {
                KeyStep::Exhausted(error)
            },
        }
    }
}

/// No key is passed over: the tries end with the first outcome that is not
/// about quota, be it an answer or another error.
pub proof fn law_rotation(
    rotation: KeyRotation,
    outcomes: Seq<Result<String, String>>,
    k: int,
)
    requires
        rotation.valid(),
        outcomes.len() == rotation.count,
        rotation.current <= k < outcomes.len(),
        forall|j: int|
            rotation.current <= j < k ==> (#[trigger] outcomes[j] matches Err(e) && rate_limited(
                e@,
            )),
        outcomes[k] matches Err(e) ==> !rate_limited(e@),
    ensures
        rotation.end(outcomes) == match outcomes[k] {
            Ok(answer) => KeyStep::Answer(answer),
            Err(error) => KeyStep::Fail(error),
        },
    decreases k - rotation.current,
{
    if rotation.current < k {
        assert(outcomes[rotation.current as int] matches Err(e) && rate_limited(e@));
        let next = rotation.after(outcomes[rotation.current as int]).1;
        law_rotation(next, outcomes, k);
    }
}

/// Where every key is without quota, the tries end with the last error.
pub proof fn law_rotation_exhausted(rotation: KeyRotation, outcomes: Seq<Result<String, String>>)
    requires
        rotation.valid(),
        outcomes.len() == rotation.count,
        forall|j: int|
            rotation.current <= j < outcomes.len() ==> (#[trigger] outcomes[j] matches Err(e)
                && rate_limited(e@)),
    ensures
        rotation.end(outcomes) == KeyStep::Exhausted(outcomes.last()->Err_0),
    decreases rotation.count - rotation.current,
{
    assert(outcomes[rotation.current as int] matches Err(e) && rate_limited(e@));
    if rotation.current + 1 < rotation.count {
        let next = rotation.after(outcomes[rotation.current as int]).1;
        law_rotation_exhausted(next, outcomes);
    }
}

/// The error when all keys are without quota.
pub open spec fn exhausted_text(route: ChatRoute, count: nat, last_error: Seq<char>) -> Seq<char> {
    match route {
        ChatRoute::Selected => "All "@ + number::decimal(count) + " keys rate limited: "@
            + last_error,
        ChatRoute::FollowUp => "All "@ + number::decimal(count) + " keys exhausted: "@
            + last_error,
        _ => "All keys exhausted: "@ + last_error,
    }
}

/// The error when all keys are without quota.
pub fn exhausted_error(route: ChatRoute, count: usize, last_error: &str) -> (r: String)
    ensures
        r@ == exhausted_text(route, count as nat, last_error@),
{
    let mut out: String = String::new();
    match route {
        ChatRoute::Selected => {
            out.append("All ");
            out.append(number::to_decimal(count as u128).as_str());
            out.append(" keys rate limited: ");
            out.append(last_error);
            assert(out@ =~= exhausted_text(route, count as nat, last_error@));
        },
        ChatRoute::FollowUp => {
            out.append("All ");
            out.append(number::to_decimal(count as u128).as_str());
            out.append(" keys exhausted: ");
            out.append(last_error);
            assert(out@ =~= exhausted_text(route, count as nat, last_error@));
        },
        _ => {
            out.append("All keys exhausted: ");
            out.append(last_error);
            assert(out@ =~= exhausted_text(route, count as nat, last_error@));
        },
    }
    out
}

/// What is shown when the model that answers selected files has no quota:
/// before and after the name of the model.
pub const QUOTA_HEAD: &'static str = "⚠️ **API rate limit** — Model `";

/// What is shown behind the name of the model that has no quota.
pub const QUOTA_TAIL: &'static str = "` đã hết quota tạm thời (free tier: 15 req/phút).\n\n**Cách xử lý:**\n• Chờ 1-2 phút rồi thử lại\n• Hoặc chọn model khác trong dropdown\n• Hoặc nâng cấp API key lên Pay-as-you-go";

/// What is shown when there is no quota.
pub const QUOTA_SHORT: &'static str = "⚠️ API đang bị rate limit. Chờ 1-2 phút rồi thử lại.";

/// What stands before an error that is shown.
pub const ERROR_HEAD: &'static str = "⚠️ Lỗi AI: ";

/// What is shown for an error.
pub open spec fn error_shown(route: ChatRoute, model: Seq<char>, error: Seq<char>) -> Seq<char> {
    if route == ChatRoute::Selected {
        if find::occurs(error, "Rate limited"@) || find::occurs(error, "429"@) {
            QUOTA_HEAD@ + model + QUOTA_TAIL@
        } else {
            ERROR_HEAD@ + error
        }
    } else if find::occurs(error, "Rate limited"@) {
        QUOTA_SHORT@
    } else {
        ERROR_HEAD@ + error
    }
}

/// What is shown for an error.
pub fn error_message(route: ChatRoute, model: &str, error: &str) -> (r: String)
    ensures
        r@ == error_shown(route, model@, error@),
{
    let limited: bool = find::contains(error, "Rate limited");
    match route {
        ChatRoute::Selected => if limited || find::contains(error, "429") {
            edit::concat3(QUOTA_HEAD, model, QUOTA_TAIL)
        } else {
            edit::concat2(ERROR_HEAD, error)
        },
        _ => if limited {
            edit::owned(QUOTA_SHORT)
        } else {
            edit::concat2(ERROR_HEAD, error)
        },
    }
}

/// The reply to an answer: with the files that it cites, none where the model
/// had no documents.
pub fn answered(
    answer: String,
    keywords: String,
    attached: &Vec<AttachedFile>,
    has_context: bool,
) -> (r: SmartResponse)
    ensures
        r.intent@ == "chat"@,
        r.search_results is None,
        r.chat_response == Some(answer),
        r.keywords == keywords,
        r.attached_files@ == if has_context {
            context::answer_files(answer@, attached@)
        } else {
            Seq::empty()
        },
{
    let attached_files: Vec<AttachedFile> = if has_context {
        context::filter_cited_files(answer.as_str(), attached.as_slice())
    } else {
        Vec::new()
    };
    SmartResponse {
        intent: edit::owned("chat"),
        search_results: None,
        chat_response: Some(answer),
        keywords,
        attached_files,
    }
}

/// The reply without an answer: a message and no files.
pub fn unanswered(message: String, keywords: String) -> (r: SmartResponse)
    ensures
        r.intent@ == "chat"@,
        r.search_results is None,
        r.chat_response == Some(message),
        r.keywords == keywords,
        r.attached_files@.len() == 0,
{
    SmartResponse {
        intent: edit::owned("chat"),
        search_results: None,
        chat_response: Some(message),
        keywords,
        attached_files: Vec::new(),
    }
}

/// The names of the files.
pub open spec fn file_names(files: Seq<AttachedFile>) -> Seq<Seq<char>> {
    Seq::new(files.len(), |i: int| files[i].file_name@)
}

/// The answer as it is kept in the history: with the names of its files.
pub open spec fn kept_answer(answer: Seq<char>, files: Seq<AttachedFile>) -> Seq<char> {
    if files.len() == 0 {
        answer
    } else {
        answer + "\n[Sources: "@ + edit::joined(file_names(files), ", "@) + "]"@
    }
}

/// The answer as it is kept in the history.
pub fn stored_answer(answer: &str, files: &Vec<AttachedFile>) -> (r: String)
    ensures
        r@ == kept_answer(answer@, files@),
{
    if files.len() == 0 {
        return edit::owned(answer);
    }
    let mut names: Vec<String> = Vec::new();
    let mut i: usize = 0;
    while i < files.len()
        invariant
            i <= files@.len(),
            text::views(names@) == file_names(files@).take(i as int),
        decreases files@.len() - i,
    {
        let ghost before = text::views(names@);
        names.push(files[i].file_name.clone());
        assert(text::views(names@) =~= before.push(files@[i as int].file_name@));
        i += 1;
    }
    assert(text::views(names@) =~= file_names(files@));
    let list: String = edit::join(names.as_slice(), ", ");
    let mut out: String = edit::concat3(answer, "\n[Sources: ", list.as_str());
    out.append("]");
    out
}

/// The files of a session as files of an answer, all with the full score.
pub open spec fn attached_again(files: Seq<SessionFile>) -> Seq<AttachedFile> {
    Seq::new(
        files.len(),
        |i: int|
            AttachedFile {
                file_name: files[i].file_name,
                file_path: files[i].file_path,
                score: Score { bits: score::FULL_SCORE_BITS },
            },
    )
}

/// The files of a session as files of an answer.
pub fn reattach(files: &Vec<SessionFile>) -> (r: Vec<AttachedFile>)
    ensures
        r@ == attached_again(files@),
{
    let mut out: Vec<AttachedFile> = Vec::new();
    let mut i: usize = 0;
    while i < files.len()
        invariant
            i <= files@.len(),
            out@ == attached_again(files@).take(i as int),
        decreases files@.len() - i,
    {
        out.push(
            AttachedFile {
                file_name: files[i].file_name.clone(),
                file_path: files[i].file_path.clone(),
                score: Score { bits: score::FULL_SCORE_BITS },
            },
        );
        i += 1;
    }
    assert(attached_again(files@).take(files@.len() as int) =~= attached_again(files@));
    out
}

/// The files of an answer as files of a session.
pub open spec fn remembered(files: Seq<AttachedFile>) -> Seq<SessionFile> {
    Seq::new(
        files.len(),
        |i: int| SessionFile { file_path: files[i].file_path, file_name: files[i].file_name },
    )
}

/// The files of an answer as files of a session.
pub fn remember(files: &Vec<AttachedFile>) -> (r: Vec<SessionFile>)
    ensures
        r@ == remembered(files@),
{
    let mut out: Vec<SessionFile> = Vec::new();
    let mut i: usize = 0;
    while i < files.len()
        invariant
            i <= files@.len(),
            out@ == remembered(files@).take(i as int),
        decreases files@.len() - i,
    {
        out.push(
            SessionFile {
                file_path: files[i].file_path.clone(),
                file_name: files[i].file_name.clone(),
            },
        );
        i += 1;
    }
    assert(remembered(files@).take(files@.len() as int) =~= remembered(files@));
    out
}

/// Remembering the files of an answer and taking them up again keeps their
/// names, their paths and their order.
pub proof fn law_remembered_files(files: Seq<AttachedFile>)
    ensures
        attached_again(remembered(files)).len() == files.len(),
        forall|i: int|
            0 <= i < files.len() ==> {
                let again = #[trigger] attached_again(remembered(files))[i];
                again.file_name == files[i].file_name && again.file_path == files[i].file_path
            },
{
}

/// The list of sources names every file, under the number of its place.
pub proof fn law_source_line(files: Seq<AttachedFile>, f: AttachedFile)
    ensures
        files.len() == 0 ==> source_line(files.push(f)) == "["@ + number::decimal(1) + "] "@
            + f.file_name@,
        files.len() > 0 ==> source_line(files.push(f)) == source_line(files) + ", "@ + ("["@
            + number::decimal((files.len() + 1) as nat) + "] "@ + f.file_name@),
{
    let names = numbered_names(files);
    let name = "["@ + number::decimal((files.len() + 1) as nat) + "] "@ + f.file_name@;
    assert(numbered_names(files.push(f)) =~= names + seq![name]);
    edit::law_joined(names, seq![name], ", "@);
    edit::law_joined(seq![name], Seq::empty(), ", "@);
    assert(files.len() == 0 ==> names + seq![name] =~= seq![name]);
}

/// What the model is sent: at most the newest five turns before the question and
/// no other, all of them where they are within the budget; then the question as
/// the last message, with the document block before it where there are documents;
/// and the sources and the note on the earlier turns stand in the system prompt.
pub proof fn law_plan(
    plan: AnswerPlan,
    route: ChatRoute,
    t: PromptType,
    history: Seq<(Seq<char>, Seq<char>)>,
    query: Seq<char>,
    context: Seq<char>,
    files: Seq<AttachedFile>,
)
    requires
        is_plan(plan, route, t, history, query, context, files),
    ensures
        ({
            let sent = context_guard::turn_views(plan.messages@);
            let note = note_on_history(history, query);
            &&& sent.len() > 0
            &&& sent.last().0 == "user"@
            &&& query.is_suffix_of(sent.last().1)
            &&& context.len() == 0 ==> sent.last().1 == query
            &&& context.len() > 0 ==> prompt::document_block(context).is_prefix_of(sent.last().1)
            &&& sent.drop_last().is_suffix_of(history)
            &&& sent.len() <= 6
            &&& history.len() <= 5 && context_guard::history_tokens(history) <= 3000
                ==> sent.drop_last() == history
            &&& find::occurs(plan.system_prompt@, note)
            &&& context.len() > 0 ==> find::occurs(plan.system_prompt@, source_line(files))
            &&& context.len() > 0 ==> prompt::instructions(t).is_suffix_of(plan.system_prompt@)
        }),
{
    let sent = context_guard::turn_views(plan.messages@);
    let note = note_on_history(history, query);
    let kept = context_guard::trimmed_history(
        history,
        context_guard::MAX_HISTORY_TURNS as int,
        context_guard::MAX_HISTORY_TOKENS as int,
    );
    context_guard::law_trimmed_history(history, 5, 3000);
    assert(sent.drop_last() =~= kept);
    let m = user_message(query, context);
    assert(m.subrange(m.len() - query.len(), m.len() as int) =~= query);
    if context.len() > 0 {
        let block = prompt::document_block(context);
        assert(m.subrange(0, block.len() as int) =~= block);
        prompt::law_system_rules(t, note, source_line(files));
        let n = prompt::BASE_RULES@.len() as int;
        assert(find::occurs_at(plan.system_prompt@, note, n));
        assert(find::occurs_at(
            plan.system_prompt@,
            source_line(files),
            (n + note.len() + prompt::SOURCES_LABEL@.len()) as int,
        ));
    } else {
        let s = plan.system_prompt@;
        let n = PLAIN_ROLE@.len() as int;
        assert(s.subrange(n, (n + note.len()) as int) =~= note);
        assert(find::occurs_at(s, note, n));
    }
    if history.len() <= 5 && context_guard::history_tokens(history) <= 3000 {
        context_guard::law_whole_history(history, 5, 3000);
    }
}

/// The note on the earlier turns has a line for each of the last four of them.
pub proof fn law_note_on_history(history: Seq<(Seq<char>, Seq<char>)>, query: Seq<char>)
    ensures
        history.len() == 0 ==> note_on_history(history, query).len() == 0,
        history.len() > 0 ==> find::occurs(
            note_on_history(history, query),
            prompt::history_lines(
                if history.len() <= 4 {
                    history
                } else {
                    history.skip(history.len() - 4)
                },
            ),
        ),
{
    if history.len() > 0 {
        prompt::law_history_note(history, "user"@, query);
        let lines = prompt::history_lines(prompt::noted(history.push(("user"@, query))));
        let s = note_on_history(history, query);
        let n = HISTORY_HEAD@.len() as int;
        assert(s.subrange(n, (n + lines.len()) as int) =~= lines);
        assert(find::occurs_at(s, lines, n));
    }
}

/// An answer is kept as it is, with the names of all of its files behind it.
pub proof fn law_kept_answer(answer: Seq<char>, files: Seq<AttachedFile>, i: int)
    ensures
        answer.is_prefix_of(kept_answer(answer, files)),
        files.len() == 0 ==> kept_answer(answer, files) == answer,
        0 <= i < files.len() ==> find::occurs(kept_answer(answer, files), files[i].file_name@),
{
    let s = kept_answer(answer, files);
    assert(s.subrange(0, answer.len() as int) =~= answer);
    if 0 <= i < files.len() {
        let names = file_names(files);
        let at = edit::law_part_stands(names, ", "@, i);
        let list = edit::joined(names, ", "@);
        let base = (answer.len() + "\n[Sources: "@.len()) as int;
        assert(s.subrange(base + at, (base + at + names[i].len()) as int) =~= list.subrange(
            at,
            (at + names[i].len()) as int,
        ));
        assert(find::occurs_at(s, names[i], base + at));
    }
}

/// What is shown for an error says that there is no quota where that is the cause,
/// and what went wrong in all other cases.
pub proof fn law_error_shown(route: ChatRoute, model: Seq<char>, error: Seq<char>)
    ensures
        find::occurs(error, "Rate limited"@) && route != ChatRoute::Selected ==> error_shown(
            route,
            model,
            error,
        ) == QUOTA_SHORT@,
        find::occurs(error, "Rate limited"@) && route == ChatRoute::Selected ==> find::occurs(
            error_shown(route, model, error),
            model,
        ),
        !find::occurs(error, "Rate limited"@) && !find::occurs(error, "429"@)
            ==> error.is_suffix_of(error_shown(route, model, error)),
        error.is_suffix_of(exhausted_text(route, 1, error)),
{
    let s = error_shown(route, model, error);
    let n = QUOTA_HEAD@.len() as int;
    if find::occurs(error, "Rate limited"@) && route == ChatRoute::Selected {
        assert(s.subrange(n, (n + model.len()) as int) =~= model);
        assert(find::occurs_at(s, model, n));
    }
    if !find::occurs(error, "Rate limited"@) && !find::occurs(error, "429"@) {
        assert(s.subrange(s.len() - error.len(), s.len() as int) =~= error);
    }
    let t = exhausted_text(route, 1, error);
    assert(t.subrange(t.len() - error.len(), t.len() as int) =~= error);
}

} // verus!
