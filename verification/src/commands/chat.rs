//! The plain chat: an answer made of search results, and the history.
use vstd::prelude::*;

use crate::ai::memory;
use crate::identity;
use crate::indexer::chunker::Chunk;
use crate::score::Score;
use crate::text;
use crate::text::edit;
use crate::text::number;

verus! {

/// A passage that an answer cites.
#[derive(Debug)]
pub struct Citation {
    /// The path of its file.
    pub file_path: String,
    /// The name of its file.
    pub file_name: String,
    /// The section it stands in.
    pub section: Option<String>,
    /// The passage.
    pub content_snippet: String,
}

/// A message as it is shown.
#[derive(Debug)]
pub struct ChatMessage {
    /// Its identifier.
    pub id: String,
    /// "user" or "assistant".
    pub role: String,
    /// What is said.
    pub content: String,
    /// What it cites.
    pub citations: Vec<Citation>,
    /// The model that speaks.
    pub model: Option<String>,
    /// When it was said.
    pub timestamp: i64,
}

/// A message to the chat.
#[derive(Debug)]
pub struct ChatRequest {
    /// What is said.
    pub message: String,
    /// The model that is asked.
    pub model: String,
    /// The session.
    pub session_id: String,
}

/// What is known of the documents that a message is about.
#[derive(Debug)]
pub enum Found {
    /// There is no index.
    NoIndex,
    /// The search failed.
    Failed,
    /// The chunks that were found, with their scores.
    Chunks(Vec<(Score, Chunk)>),
}

/// How many chunks are searched for.
pub const ANSWER_CHUNKS: usize = 3;

/// How many characters of a chunk are shown.
pub const PREVIEW_CHARS: usize = 200;

/// What an answer begins with.
pub const ANSWER_HEAD: &'static str = "Dựa trên tài liệu, tôi tìm thấy:\n\n";

/// What an answer ends with.
pub const ANSWER_TAIL: &'static str =
    "\n⚠️ *Để có phân tích AI chi tiết, cấu hình Gemini API key trong Cài đặt.*";

/// The answer where nothing was found.
pub const NOTHING_FOUND: &'static str = "Không tìm thấy tài liệu liên quan. Hãy:\n\n• Thêm thư mục và đợi index xong\n• Cấu hình Gemini API key trong Cài đặt\n• Thử từ khóa khác";

/// The answer where there is no index.
pub const NO_INDEX: &'static str =
    "Hệ thống search chưa sẵn sàng. Vui lòng thêm thư mục và đợi index.";

/// The chunks with their numbers, the names of their files and their first
/// characters.
pub open spec fn listed(chunks: Seq<(Score, Chunk)>) -> Seq<char>
    decreases chunks.len(),
{
    if chunks.len() == 0 {
        Seq::empty()
    } else {
        let c = chunks.last().1;
        listed(chunks.drop_last()) + "**[Nguồn "@ + number::decimal(chunks.len()) + "]** `"@
            + c.file_name@ + "`\n"@ + edit::first_chars(c.content@, PREVIEW_CHARS as int)
            + "\n\n"@
    }
}

/// The answer to a message.
pub open spec fn answer(found: Found) -> Seq<char> {
    match found {
        Found::NoIndex => NO_INDEX@,
        Found::Failed => NOTHING_FOUND@,
        Found::Chunks(chunks) => if chunks@.len() == 0 {
            NOTHING_FOUND@
        } else {
            ANSWER_HEAD@ + listed(chunks@) + ANSWER_TAIL@
        },
    }
}

/// The answer to a message: what was found, or what can be done.
pub fn plain_answer(found: &Found) -> (r: String)
    ensures
        r@ == answer(*found),
{
    match found {
        Found::NoIndex => edit::owned(NO_INDEX),
        Found::Failed => edit::owned(NOTHING_FOUND),
        Found::Chunks(chunks) => {
            if chunks.len() == 0 {
                return edit::owned(NOTHING_FOUND);
            }
            let mut out: String = edit::owned(ANSWER_HEAD);
            let ghost head = out@;
            assert(out@ =~= head + listed(chunks@.take(0)));
            let mut i: usize = 0;
            while i < chunks.len()
                invariant
                    i <= chunks@.len(),
                    out@ == head + listed(chunks@.take(i as int)),
                decreases chunks@.len() - i,
            {
                let chunk: &Chunk = &chunks[i].1;
                let ghost before = out@;
                assert(chunks@.take(i + 1).drop_last() =~= chunks@.take(i as int));
                out.append("**[Nguồn ");
                out.append(number::to_decimal(i as u128 + 1).as_str());
                out.append("]** `");
                out.append(chunk.file_name.as_str());
                out.append("`\n");
                out.append(edit::take_chars(chunk.content.as_str(), PREVIEW_CHARS).as_str());
                out.append("\n\n");
                assert(out@ =~= head + listed(chunks@.take(i + 1)));
                i += 1;
            }
            assert(chunks@.take(chunks@.len() as int) =~= chunks@);
            out.append(ANSWER_TAIL);
            out
        },
    }
}

/// The message with the answer, as it is shown.
pub fn answer_message(found: &Found, model: &str, now: i64) -> (r: ChatMessage)
    ensures
        identity::is_identifier(r.id@),
        r.role@ == "assistant"@,
        r.content@ == answer(*found),
        r.citations@.len() == 0,
        text::option_view(r.model) == Some(model@),
        r.timestamp == now,
{
    ChatMessage {
        id: identity::new_id(),
        role: edit::owned("assistant"),
        content: plain_answer(found),
        citations: Vec::new(),
        model: Some(edit::owned(model)),
        timestamp: now,
    }
}

/// A message of a role as it is kept, with a new identifier.
pub fn kept_message(
    session_id: &str,
    role: &str,
    content: &str,
    model: Option<String>,
    now: i64,
) -> (r: memory::ChatMessage)
    ensures
        identity::is_identifier(r.id@),
        r.session_id@ == session_id@,
        r.role@ == role@,
        r.content@ == content@,
        r.citations is None,
        r.model == model,
        r.timestamp == now,
{
    memory::ChatMessage {
        id: identity::new_id(),
        session_id: edit::owned(session_id),
        role: edit::owned(role),
        content: edit::owned(content),
        citations: None,
        model,
        timestamp: now,
    }
}

/// A message that is shown, as it is kept.
pub fn to_kept(message: &ChatMessage, session_id: &str) -> (r: memory::ChatMessage)
    ensures
        r.id == message.id,
        r.session_id@ == session_id@,
        r.role == message.role,
        r.content == message.content,
        r.citations is None,
        r.model == message.model,
        r.timestamp == message.timestamp,
{
    memory::ChatMessage {
        id: message.id.clone(),
        session_id: edit::owned(session_id),
        role: message.role.clone(),
        content: message.content.clone(),
        citations: None,
        model: text::copy_option(&message.model),
        timestamp: message.timestamp,
    }
}

/// `r` is the kept message as it is shown, without citations.
pub open spec fn is_shown(r: ChatMessage, kept: memory::ChatMessage) -> bool {
    &&& r.id == kept.id
    &&& r.role == kept.role
    &&& r.content == kept.content
    &&& r.citations@.len() == 0
    &&& r.model == kept.model
    &&& r.timestamp == kept.timestamp
}

/// The kept messages as they are shown.
pub fn shown_history(messages: &Vec<memory::ChatMessage>) -> (r: Vec<ChatMessage>)
    ensures
        r@.len() == messages@.len(),
        forall|i: int| 0 <= i < r@.len() ==> is_shown(#[trigger] r@[i], messages@[i]),
{
    let mut out: Vec<ChatMessage> = Vec::new();
    let mut i: usize = 0;
    while i < messages.len()
        invariant
            i <= messages@.len(),
            out@.len() == i,
            forall|k: int| 0 <= k < i ==> is_shown(#[trigger] out@[k], messages@[k]),
        decreases messages@.len() - i,
    {
        let m: &memory::ChatMessage = &messages[i];
        out.push(
            ChatMessage {
                id: m.id.clone(),
                role: m.role.clone(),
                content: m.content.clone(),
                citations: Vec::new(),
                model: text::copy_option(&m.model),
                timestamp: m.timestamp,
            },
        );
        i += 1;
    }
    out
}

/// A message without citations that is kept and shown again is the same.
pub proof fn law_kept_message(shown: ChatMessage, kept: memory::ChatMessage, again: ChatMessage)
    requires
        kept.id == shown.id,
        kept.role == shown.role,
        kept.content == shown.content,
        kept.model == shown.model,
        kept.timestamp == shown.timestamp,
        is_shown(again, kept),
        shown.citations@.len() == 0,
    ensures
        again.id == shown.id,
        again.role == shown.role,
        again.content == shown.content,
        again.model == shown.model,
        again.timestamp == shown.timestamp,
        again.citations@ == shown.citations@,
{
    assert(again.citations@ =~= shown.citations@);
}

/// The answer lists every chunk that was found, each under its number with the name
/// of its file and its first characters.
pub proof fn law_listed(chunks: Seq<(Score, Chunk)>, c: (Score, Chunk))
    ensures
        listed(Seq::empty()).len() == 0,
        listed(chunks.push(c)) == listed(chunks) + ("**[Nguồn "@ + number::decimal(
            (chunks.len() + 1) as nat,
        ) + "]** `"@ + c.1.file_name@ + "`\n"@ + edit::first_chars(
            c.1.content@,
            PREVIEW_CHARS as int,
        ) + "\n\n"@),
{
    assert(chunks.push(c).drop_last() =~= chunks);
    assert(listed(chunks.push(c)) =~= listed(chunks) + ("**[Nguồn "@ + number::decimal(
        (chunks.len() + 1) as nat,
    ) + "]** `"@ + c.1.file_name@ + "`\n"@ + edit::first_chars(c.1.content@, PREVIEW_CHARS as int)
        + "\n\n"@));
}

} // verus!
