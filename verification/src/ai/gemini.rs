//! The chat model: requests, replies, streams and retries.
use vstd::prelude::*;

use crate::ai::model_registry;
use crate::ai::model_registry::ModelEntry;
use crate::commands::context_guard;
use crate::order;
use crate::order::Reversed;
use crate::score::Score;
use crate::select;
use crate::text;
use crate::text::edit;
use crate::text::find;
use crate::text::number;

verus! {

/// What can go wrong with a request.
#[derive(Debug)]
pub enum GeminiError {
    /// The service refused the request.
    ApiError(String),
    /// The service was not reached.
    NetworkError(String),
    /// There is no quota; the seconds to wait.
    RateLimited(u64),
    /// No key is configured.
    NoApiKey,
    /// The reply could not be read.
    ParseError(String),
}

/// The text of an error.
pub open spec fn error_text(e: GeminiError) -> Seq<char> {
    match e {
        GeminiError::ApiError(s) => "API error: "@ + s@,
        GeminiError::NetworkError(s) => "Network error: "@ + s@,
        GeminiError::RateLimited(n) => "Rate limited — thử lại sau "@ + number::decimal(n as nat)
            + " giây"@,
        GeminiError::NoApiKey => "API key chưa được cấu hình"@,
        GeminiError::ParseError(s) => "Parse error: "@ + s@,
    }
}

impl GeminiError {
    /// The text of the error.
    pub fn message(&self) -> (r: String)
        ensures
            r@ == error_text(*self),
    {
        match self {
            GeminiError::ApiError(s) => edit::concat2("API error: ", s.as_str()),
            GeminiError::NetworkError(s) => edit::concat2("Network error: ", s.as_str()),
            GeminiError::RateLimited(n) => edit::concat3(
                "Rate limited — thử lại sau ",
                number::to_decimal(*n as u128).as_str(),
                " giây",
            ),
            GeminiError::NoApiKey => edit::owned("API key chưa được cấu hình"),
            GeminiError::ParseError(s) => edit::concat2("Parse error: ", s.as_str()),
        }
    }
}

/// Where the service is.
pub const BASE_URL: &'static str = "https://generativelanguage.googleapis.com/v1beta";

/// Access to the service with one key.
#[derive(Debug)]
pub struct GeminiClient {
    /// The key.
    pub api_key: String,
    /// Where the service is.
    pub base_url: String,
}

impl GeminiClient {
    /// Access with a key.
    pub fn new(api_key: String) -> (r: GeminiClient)
        ensures
            r.api_key == api_key,
            r.base_url@ == BASE_URL@,
    {
        GeminiClient { api_key, base_url: edit::owned(BASE_URL) }
    }

    /// Where a reply in one piece is asked for.
    pub fn generate_url(&self, model: &str) -> (r: String)
        ensures
            r@ == self.base_url@ + "/models/"@ + model@ + ":generateContent?key="@ + self.api_key@,
    {
        let mut out: String = edit::concat3(self.base_url.as_str(), "/models/", model);
        out.append(":generateContent?key=");
        out.append(self.api_key.as_str());
        out
    }

    /// Where a reply in pieces is asked for.
    pub fn stream_url(&self, model: &str) -> (r: String)
        ensures
            r@ == self.base_url@ + "/models/"@ + model@ + ":streamGenerateContent?alt=sse&key="@
                + self.api_key@,
    {
        let mut out: String = edit::concat3(self.base_url.as_str(), "/models/", model);
        out.append(":streamGenerateContent?alt=sse&key=");
        out.append(self.api_key.as_str());
        out
    }

    /// Where the list of models is asked for.
    pub fn models_url(&self) -> (r: String)
        ensures
            r@ == self.base_url@ + "/models?key="@ + self.api_key@,
    {
        edit::concat3(self.base_url.as_str(), "/models?key=", self.api_key.as_str())
    }
}

/// A file or image within a message, in base 64.
#[derive(Debug)]
pub struct InlineDataPart {
    /// The type of the data.
    pub mime_type: String,
    /// The data.
    pub data: String,
}

/// A function that the model wants called.
#[derive(Debug)]
pub struct FunctionCallData {
    /// The function.
    pub name: String,
    /// Its arguments, as JSON.
    pub args: String,
}

/// What a function returned.
#[derive(Debug)]
pub struct FunctionResponseData {
    /// The function.
    pub name: String,
    /// What it returned, as JSON.
    pub response: String,
}

/// A part of a message.
#[derive(Debug)]
pub enum Part {
    /// Text.
    Text {
        /// The text.
        text: String,
    },
    /// A file or image.
    InlineData {
        /// The file or image.
        inline_data: InlineDataPart,
    },
    /// A call.
    FunctionCall {
        /// The call.
        function_call: FunctionCallData,
    },
    /// What a call returned.
    FunctionResponse {
        /// What it returned.
        function_response: FunctionResponseData,
    },
}

impl Part {
    /// The part is this text.
    pub open spec fn is_text(self, s: Seq<char>) -> bool {
        self matches Part::Text { text } && text@ == s
    }

    /// A part with text.
    pub fn text(s: &str) -> (r: Part)
        ensures
            r.is_text(s@),
    {
        Part::Text { text: edit::owned(s) }
    }

    /// A part with an image, given in base 64.
    pub fn image(mime_type: &str, data_base64: String) -> (r: Part)
        ensures
            r matches Part::InlineData { inline_data } && inline_data.mime_type@ == mime_type@
                && inline_data.data == data_base64,
    {
        Part::InlineData {
            inline_data: InlineDataPart { mime_type: edit::owned(mime_type), data: data_base64 },
        }
    }
}

/// A message.
#[derive(Debug)]
pub struct Content {
    /// Who speaks.
    pub role: Option<String>,
    /// What is said.
    pub parts: Vec<Part>,
}

impl Content {
    /// The message is this text, said by this role.
    pub open spec fn says(self, role: Option<Seq<char>>, s: Seq<char>) -> bool {
        &&& text::option_view(self.role) == role
        &&& self.parts@.len() == 1
        &&& self.parts@[0].is_text(s)
    }

    /// A message of a role.
    pub fn said_by(role: &str, s: &str) -> (r: Content)
        ensures
            r.says(Some(role@), s@),
    {
        let mut parts: Vec<Part> = Vec::new();
        parts.push(Part::text(s));
        Content { role: Some(edit::owned(role)), parts }
    }

    /// A message of no role: an instruction.
    pub fn instruction(s: &str) -> (r: Content)
        ensures
            r.says(None, s@),
    {
        let mut parts: Vec<Part> = Vec::new();
        parts.push(Part::text(s));
        Content { role: None, parts }
    }
}

/// The functions that the model may call.
#[derive(Debug)]
pub struct ToolDeclaration {
    /// The functions.
    pub function_declarations: Vec<FunctionDecl>,
}

/// A function that the model may call.
#[derive(Debug)]
pub struct FunctionDecl {
    /// Its name.
    pub name: String,
    /// What it does.
    pub description: String,
    /// Its parameters, as a JSON schema.
    pub parameters: String,
}

/// What the model does with functions at hand.
#[derive(Debug)]
pub enum ToolCallResult {
    /// It wants one called.
    FunctionCall(FunctionCallData),
    /// It answers.
    Text(String),
}

/// How a reply is generated.
#[derive(Debug)]
pub struct GenerationConfig {
    /// How free the choice of words is.
    pub temperature: Score,
    /// The share of likely words that is chosen from.
    pub top_p: Score,
    /// The most tokens of the reply.
    pub max_output_tokens: u32,
    /// The form of the reply.
    pub response_mime_type: Option<String>,
    /// The JSON schema of the reply.
    pub response_schema: Option<String>,
}

/// A request.
#[derive(Debug)]
pub struct GenerateRequest {
    /// The messages.
    pub contents: Vec<Content>,
    /// The system prompt.
    pub system_instruction: Option<Content>,
    /// How the reply is generated.
    pub generation_config: GenerationConfig,
    /// The functions that may be called.
    pub tools: Option<Vec<ToolDeclaration>>,
}

/// 0.1 as bits.
pub const ONE_TENTH_BITS: u32 = 0x3dcc_cccd;

/// 0.7 as bits.
pub const SEVEN_TENTHS_BITS: u32 = 0x3f33_3333;

/// 0.9 as bits.
pub const NINE_TENTHS_BITS: u32 = 0x3f66_6666;

/// 0.95 as bits.
pub const NINETEEN_TWENTIETHS_BITS: u32 = 0x3f73_3333;

/// 1 as bits.
pub const ONE_BITS: u32 = 0x3f80_0000;

/// The role under which the service knows a speaker.
pub open spec fn service_role(role: Seq<char>) -> Seq<char> {
    if role == "assistant"@ {
        "model"@
    } else {
        role
    }
}

/// `contents` are the turns as messages.
pub open spec fn are_turns(contents: Seq<Content>, turns: Seq<(Seq<char>, Seq<char>)>) -> bool {
    &&& contents.len() == turns.len()
    &&& forall|i: int|
        0 <= i < contents.len() ==> (#[trigger] contents[i]).says(
            Some(service_role(turns[i].0)),
            turns[i].1,
        )
}

/// The turns as messages.
pub fn contents_of(messages: &[(String, String)]) -> (r: Vec<Content>)
    ensures
        are_turns(r@, context_guard::turn_views(messages@)),
{
    let mut out: Vec<Content> = Vec::new();
    let mut i: usize = 0;
    while i < messages.len()
        invariant
            i <= messages@.len(),
            are_turns(out@, context_guard::turn_views(messages@).take(i as int)),
        decreases messages@.len() - i,
    {
        let role: &str = if find::same(messages[i].0.as_str(), "assistant") {
            "model"
        } else {
            messages[i].0.as_str()
        };
        out.push(Content::said_by(role, messages[i].1.as_str()));
        i += 1;
    }
    assert(context_guard::turn_views(messages@).take(messages@.len() as int)
        =~= context_guard::turn_views(messages@));
    out
}

/// `c` is the instruction, where there is one.
pub open spec fn is_instruction(c: Option<Content>, prompt: Option<Seq<char>>) -> bool {
    match prompt {
        Some(s) => c matches Some(content) && content.says(None, s),
        None => c is None,
    }
}

/// How a plain reply is generated.
pub open spec fn plain_config(
    c: GenerationConfig,
    temperature: u32,
    top_p: u32,
    tokens: u32,
) -> bool {
    &&& c.temperature.bits == temperature
    &&& c.top_p.bits == top_p
    &&& c.max_output_tokens == tokens
    &&& c.response_mime_type is None
    &&& c.response_schema is None
}

fn plain(temperature: Score, top_p: u32, tokens: u32) -> (r: GenerationConfig)
    ensures
        plain_config(r, temperature.bits, top_p, tokens),
{
    GenerationConfig {
        temperature,
        top_p: Score { bits: top_p },
        max_output_tokens: tokens,
        response_mime_type: None,
        response_schema: None,
    }
}

fn instruction_of(prompt: Option<&str>) -> (r: Option<Content>)
    ensures
        is_instruction(
            r,
            match prompt {
                Some(s) => Some(s@),
                None => None,
            },
        ),
{
    match prompt {
        Some(s) => Some(Content::instruction(s)),
        None => None,
    }
}

/// The most tokens of a reply in pieces.
pub const STREAM_TOKENS: u32 = 65536;

/// The most tokens of a reply in one piece.
pub const REPLY_TOKENS: u32 = 16384;

/// The request for a reply in pieces.
pub fn stream_request(
    messages: &[(String, String)],
    system_prompt: Option<&str>,
    temperature: Score,
) -> (r: GenerateRequest)
    ensures
        are_turns(r.contents@, context_guard::turn_views(messages@)),
        is_instruction(
            r.system_instruction,
            match system_prompt {
                Some(s) => Some(s@),
                None => None,
            },
        ),
        plain_config(r.generation_config, temperature.bits, NINE_TENTHS_BITS, STREAM_TOKENS),
        r.tools is None,
{
    GenerateRequest {
        contents: contents_of(messages),
        system_instruction: instruction_of(system_prompt),
        generation_config: plain(temperature, NINE_TENTHS_BITS, STREAM_TOKENS),
        tools: None,
    }
}

/// The request for a reply in one piece.
pub fn content_request(
    messages: &[(String, String)],
    system_prompt: Option<&str>,
) -> (r: GenerateRequest)
    ensures
        are_turns(r.contents@, context_guard::turn_views(messages@)),
        is_instruction(
            r.system_instruction,
            match system_prompt {
                Some(s) => Some(s@),
                None => None,
            },
        ),
        plain_config(r.generation_config, SEVEN_TENTHS_BITS, NINE_TENTHS_BITS, REPLY_TOKENS),
        r.tools is None,
{
    GenerateRequest {
        contents: contents_of(messages),
        system_instruction: instruction_of(system_prompt),
        generation_config: plain(
            Score { bits: SEVEN_TENTHS_BITS },
            NINE_TENTHS_BITS,
            REPLY_TOKENS,
        ),
        tools: None,
    }
}

/// The request in which the model may call functions.
pub fn tool_request(
    contents: Vec<Content>,
    system_prompt: &str,
    tools: Vec<ToolDeclaration>,
) -> (r: GenerateRequest)
    ensures
        r.contents == contents,
        is_instruction(r.system_instruction, Some(system_prompt@)),
        plain_config(r.generation_config, ONE_TENTH_BITS, NINETEEN_TWENTIETHS_BITS, 50),
        r.tools == Some(tools),
{
    GenerateRequest {
        contents,
        system_instruction: Some(Content::instruction(system_prompt)),
        generation_config: plain(Score { bits: ONE_TENTH_BITS }, NINETEEN_TWENTIETHS_BITS, 50),
        tools: Some(tools),
    }
}

fn one_question(query: &str) -> (r: Vec<Content>)
    ensures
        r@.len() == 1,
        r@[0].says(Some("user"@), query@),
{
    let mut out: Vec<Content> = Vec::new();
    out.push(Content::said_by("user", query));
    out
}

/// How the model is asked to analyse a query.
pub const ANALYZE_PROMPT: &'static str = r#"Trích keywords + phân loại intent từ câu hỏi tìm kiếm tài liệu.

KEYWORDS: Bỏ từ phụ (tìm/kiếm/cho/tôi/có/là/các/file/tài liệu/giúp...). Giữ thuật ngữ, tên riêng, mã code, số. Thêm từ đồng nghĩa EN nếu cần.
INTENT:
"search"=chỉ muốn LIỆT KÊ/TÌM file, không hỏi nội dung
"chat"=hỏi về NỘI DUNG/GIÁ TRỊ/DỮ LIỆU bên trong file

⚠️ QUAN TRỌNG: Nếu câu hỏi chứa "bao nhiêu","là gì","giá trị","số tiền","nội dung","chi tiết" thì LUÔN là "chat" dù có từ "tìm"

Output JSON duy nhất: {"keywords":"...","intent":"search|chat"}

search (chỉ tìm file):
"tìm tài liệu có tho123"→{"keywords":"tho123","intent":"search"}
"file nào liên quan parking"→{"keywords":"parking","intent":"search"}
"tìm file tiếng nhật"→{"keywords":"tiếng nhật japanese 日本語","intent":"search"}
"kiếm code payment"→{"keywords":"payment","intent":"search"}
"TRIGGER_SETUP"→{"keywords":"TRIGGER_SETUP","intent":"search"}
"file .env"→{"keywords":".env environment config","intent":"search"}
"hàm getStaffById ở đâu"→{"keywords":"getStaffById","intent":"search"}
"tìm file markdown"→{"keywords":"markdown .md","intent":"search"}
"file deploy"→{"keywords":"deploy deployment","intent":"search"}

chat (hỏi nội dung/giá trị):
"tìm cho tôi AZV Test 3 cột 支払合計額 là bao nhiêu tiền"→{"keywords":"AZV Test 3 支払合計額","intent":"chat"}
"báo cáo tháng 1 có tổng doanh thu bao nhiêu"→{"keywords":"báo cáo tháng 1 doanh thu","intent":"chat"}
"trong file invoice giá trị cột total là gì"→{"keywords":"invoice total","intent":"chat"}
"tóm tắt báo cáo quý 3"→{"keywords":"báo cáo quý 3 report","intent":"chat"}
"tại sao API lỗi 500?"→{"keywords":"API lỗi 500 error","intent":"chat"}
"so sánh dev và production"→{"keywords":"dev production","intent":"chat"}
"SETUP.md nói gì?"→{"keywords":"SETUP.md","intent":"chat"}
"code có bug không?"→{"keywords":"bug code","intent":"chat"}
"tại sao deploy fail?"→{"keywords":"deploy fail error","intent":"chat"}
"phân tích database"→{"keywords":"database structure schema","intent":"chat"}
"khác nhau dev staging?"→{"keywords":"dev staging difference","intent":"chat"}
"có bao nhiêu test chưa pass?"→{"keywords":"test case fail","intent":"chat"}"#;

/// The request for the keywords and the intent of a query.
pub fn analyze_request(query: &str) -> (r: GenerateRequest)
    ensures
        r.contents@.len() == 1,
        r.contents@[0].says(Some("user"@), query@),
        is_instruction(r.system_instruction, Some(ANALYZE_PROMPT@)),
        plain_config(r.generation_config, 0, ONE_BITS, 60),
        r.tools is None,
{
    GenerateRequest {
        contents: one_question(query),
        system_instruction: Some(Content::instruction(ANALYZE_PROMPT)),
        generation_config: plain(Score { bits: 0 }, ONE_BITS, 60),
        tools: None,
    }
}

/// How the model is asked to rewrite a query: before the history.
pub const REWRITE_HEAD: &'static str = r#"Bạn là router cho hệ thống tìm kiếm tài liệu. Phân tích câu hỏi user và quyết định hành động.

Output JSON duy nhất: {"action":"search|direct|reuse|clarify","terms":"...","message":"..."}

action:
- "search" = cần tìm tài liệu trong kho (có từ khóa cụ thể để search)
- "direct" = trả lời trực tiếp KHÔNG cần tài liệu (chào hỏi, kiến thức chung, phàn nàn, giải thích khái niệm)
- "reuse" = dùng lại dữ liệu đã tìm trước đó (follow-up trên data đang xem: phân tích, tổng hợp, so sánh, lọc thêm, đổi format)
- "clarify" = câu hỏi MƠ HỒ, thiếu ngữ cảnh → hỏi lại user. CHỈ dùng khi: (1) không có history trước, VÀ (2) câu hỏi quá chung chung hoặc không rõ muốn tìm gì

terms: keywords tối ưu cho BM25 search engine. Quy tắc:
- Giữ: tên riêng, mã code, CJK terms, thuật ngữ chuyên ngành, tên file
- Bỏ: stop words (tìm, cho tôi, là, có, bao nhiêu, tất cả...)
- Follow-up: viết lại thành câu search ĐỘC LẬP dựa vào history + keywords trước
- "reuse"/"direct"/"clarify": terms = ""

message: (chỉ khi action=clarify) Câu hỏi ngắn gọn bằng tiếng Việt để hỏi lại user. Dưới 50 từ. Gợi ý cụ thể.

"#;

/// How the model is asked to rewrite a query: behind the history.
pub const REWRITE_TAIL: &'static str = r#"

Ví dụ:
SEARCH: "tìm file có AZV Test 3" → {"action":"search","terms":"AZV Test 3","message":""}
SEARCH: "支払合計額 là bao nhiêu" → {"action":"search","terms":"支払合計額","message":""}
REUSE: "tổng hợp thành báo cáo" → {"action":"reuse","terms":"","message":""}
DIRECT: "xin chào" → {"action":"direct","terms":"","message":""}
CLARIFY: "tìm file" → {"action":"clarify","terms":"","message":"Bạn muốn tìm loại file gì? Ví dụ: hóa đơn, báo cáo, hợp đồng...?"}
CLARIFY: "so sánh" → {"action":"clarify","terms":"","message":"Bạn muốn so sánh những file hoặc dữ liệu nào? Cho tôi biết tên file hoặc nội dung cụ thể."}"#;

/// The prompt by which a query is rewritten.
pub open spec fn rewrite_text(history: Seq<char>, keywords: Seq<char>) -> Seq<char> {
    REWRITE_HEAD@ + (if history.len() == 0 {
        Seq::empty()
    } else {
        "Lịch sử hội thoại gần nhất:\n"@ + history
    }) + "\n"@ + (if keywords.len() == 0 {
        Seq::empty()
    } else {
        "Keywords trước: "@ + keywords
    }) + REWRITE_TAIL@
}

/// The prompt by which a query is rewritten.
pub fn rewrite_prompt(history: &str, keywords: &str) -> (r: String)
    ensures
        r@ == rewrite_text(history@, keywords@),
{
    let mut first: String = String::new();
    if !history.is_empty() {
        first.append("Lịch sử hội thoại gần nhất:\n");
        first.append(history);
        assert(first@ =~= "Lịch sử hội thoại gần nhất:\n"@ + history@);
    }
    let mut second: String = String::new();
    if !keywords.is_empty() {
        second.append("Keywords trước: ");
        second.append(keywords);
        assert(second@ =~= "Keywords trước: "@ + keywords@);
    }
    let mut out: String = edit::concat3(REWRITE_HEAD, first.as_str(), "\n");
    out.append(second.as_str());
    out.append(REWRITE_TAIL);
    out
}

/// The request for a rewritten query.
pub fn rewrite_request(query: &str, history: &str, keywords: &str) -> (r: GenerateRequest)
    ensures
        r.contents@.len() == 1,
        r.contents@[0].says(Some("user"@), query@),
        is_instruction(r.system_instruction, Some(rewrite_text(history@, keywords@))),
        plain_config(r.generation_config, 0, ONE_BITS, 120),
        r.tools is None,
{
    let prompt: String = rewrite_prompt(history, keywords);
    GenerateRequest {
        contents: one_question(query),
        system_instruction: Some(Content::instruction(prompt.as_str())),
        generation_config: plain(Score { bits: 0 }, ONE_BITS, 120),
        tools: None,
    }
}

/// The request for a reply in JSON of a given schema.
pub fn json_request(
    prompt: &str,
    system_prompt: Option<&str>,
    json_schema: String,
    temperature: Score,
) -> (r: GenerateRequest)
    ensures
        r.contents@.len() == 1,
        r.contents@[0].says(Some("user"@), prompt@),
        is_instruction(
            r.system_instruction,
            match system_prompt {
                Some(s) => Some(s@),
                None => None,
            },
        ),
        r.generation_config.temperature == temperature,
        r.generation_config.top_p.bits == NINETEEN_TWENTIETHS_BITS,
        r.generation_config.max_output_tokens == 8192,
        text::option_view(r.generation_config.response_mime_type) == Some("application/json"@),
        r.generation_config.response_schema == Some(json_schema),
        r.tools is None,
{
    GenerateRequest {
        contents: one_question(prompt),
        system_instruction: instruction_of(system_prompt),
        generation_config: GenerationConfig {
            temperature,
            top_p: Score { bits: NINETEEN_TWENTIETHS_BITS },
            max_output_tokens: 8192,
            response_mime_type: Some(edit::owned("application/json")),
            response_schema: Some(json_schema),
        },
        tools: None,
    }
}

/// A part of a reply.
#[derive(Debug)]
pub struct PartResponse {
    /// Text.
    pub text: Option<String>,
    /// A call.
    pub function_call: Option<FunctionCallData>,
}

/// One of the replies to a request.
#[derive(Debug)]
pub struct Candidate {
    /// Its parts.
    pub parts: Vec<PartResponse>,
}

/// What the service sends back.
#[derive(Debug)]
pub struct GenerateResponse {
    /// The replies.
    pub candidates: Option<Vec<Candidate>>,
    /// What went wrong.
    pub error: Option<String>,
}

/// The texts of the parts, in order.
pub open spec fn part_texts(parts: Seq<PartResponse>) -> Seq<Seq<char>>
    decreases parts.len(),
{
    if parts.len() == 0 {
        Seq::empty()
    } else {
        match parts.last().text {
            Some(s) => part_texts(parts.drop_last()).push(s@),
            None => part_texts(parts.drop_last()),
        }
    }
}

/// The texts of all replies, in order.
pub open spec fn candidate_texts(candidates: Seq<Candidate>) -> Seq<Seq<char>>
    decreases candidates.len(),
{
    if candidates.len() == 0 {
        Seq::empty()
    } else {
        candidate_texts(candidates.drop_last()) + part_texts(candidates.last().parts@)
    }
}

/// The texts of one piece of a reply, in order.
pub fn reply_texts(response: &GenerateResponse) -> (r: Vec<String>)
    ensures
        text::views(r@) == match response.candidates {
            Some(candidates) => candidate_texts(candidates@),
            None => Seq::empty(),
        },
{
    let mut out: Vec<String> = Vec::new();
    assert(text::views(out@) =~= Seq::empty());
    if let Some(candidates) = &response.candidates {
        let mut i: usize = 0;
        while i < candidates.len()
            invariant
                i <= candidates@.len(),
                text::views(out@) == candidate_texts(candidates@.take(i as int)),
            decreases candidates@.len() - i,
        {
            assert(candidates@.take(i + 1).drop_last() =~= candidates@.take(i as int));
            let parts: &Vec<PartResponse> = &candidates[i].parts;
            let ghost base = text::views(out@);
            assert(base + part_texts(parts@.take(0)) =~= base);
            let mut k: usize = 0;
            while k < parts.len()
                invariant
                    k <= parts@.len(),
                    text::views(out@) == base + part_texts(parts@.take(k as int)),
                decreases parts@.len() - k,
            {
                assert(parts@.take(k + 1).drop_last() =~= parts@.take(k as int));
                let ghost before = text::views(out@);
                if let Some(s) = &parts[k].text {
                    out.push(s.clone());
                    assert(text::views(out@) =~= before.push(s@));
                    assert(text::views(out@) =~= base + part_texts(parts@.take(k + 1)));
                }
                k += 1;
            }
            assert(parts@.take(parts@.len() as int) =~= parts@);
            i += 1;
        }
        assert(candidates@.take(candidates@.len() as int) =~= candidates@);
    }
    out
}

/// The keywords and the intent of a query.
#[derive(Debug)]
pub struct QueryAnalysis {
    /// The keywords.
    pub keywords: String,
    /// "search" or "chat".
    pub intent: String,
}

/// What is done with a query, and what is searched for.
#[derive(Debug)]
pub struct QueryRewrite {
    /// "search", "direct", "reuse" or "clarify".
    pub action: String,
    /// What is searched for.
    pub terms: String,
    /// The question back.
    pub message: String,
}

/// The analysis of a query: what the model said, or a search for the query
/// where that could not be read.
pub fn analysis_or_query(parsed: Option<QueryAnalysis>, query: &str) -> (r: QueryAnalysis)
    ensures
        match parsed {
            Some(a) => r == a,
            None => r.keywords@ == query@ && r.intent@ == "search"@,
        },
{
    match parsed {
        Some(a) => a,
        None => QueryAnalysis { keywords: edit::owned(query), intent: edit::owned("search") },
    }
}

/// The rewriting of a query: what the model said, or a search for the query
/// where that could not be read.
pub fn rewrite_or_query(parsed: Option<QueryRewrite>, query: &str) -> (r: QueryRewrite)
    ensures
        match parsed {
            Some(w) => r == w,
            None => r.action@ == "search"@ && r.terms@ == query@ && r.message@.len() == 0,
        },
{
    match parsed {
        Some(w) => w,
        None => QueryRewrite {
            action: edit::owned("search"),
            terms: edit::owned(query),
            message: String::new(),
        },
    }
}

/// A model as it is shown.
#[derive(Debug)]
pub struct GeminiModel {
    /// Its identifier.
    pub id: String,
    /// Its name.
    pub display_name: String,
}

/// A listed model is shown: it answers.
pub open spec fn is_shown(entry: ModelEntry) -> bool {
    model_registry::can(entry, "generateContent"@) && model_registry::chat_model(
        model_registry::entry_id(entry),
    )
}

/// The identifier and the name of a listed model.
pub open spec fn shown_as(entry: ModelEntry) -> (Seq<char>, Seq<char>) {
    let id = model_registry::entry_id(entry);
    (
        id,
        match entry.display_name {
            Some(name) => name@,
            None => id,
        },
    )
}

/// The identifiers and names of the listed models that are shown.
pub open spec fn shown_models(entries: Seq<ModelEntry>) -> Seq<(Seq<char>, Seq<char>)>
    decreases entries.len(),
{
    if entries.len() == 0 {
        Seq::empty()
    } else if is_shown(entries.last()) {
        shown_models(entries.drop_last()).push(shown_as(entries.last()))
    } else {
        shown_models(entries.drop_last())
    }
}

/// The identifiers and names of models.
pub open spec fn model_views(models: Seq<GeminiModel>) -> Seq<(Seq<char>, Seq<char>)> {
    Seq::new(models.len(), |i: int| (models[i].id@, models[i].display_name@))
}

/// `p` puts the models in descending order of their identifiers.
pub open spec fn descending(p: Seq<int>, models: Seq<(Seq<char>, Seq<char>)>) -> bool {
    &&& p.len() == models.len()
    &&& forall|i: int| 0 <= i < p.len() ==> 0 <= #[trigger] p[i] < models.len()
    &&& forall|i: int, j: int|
        0 <= i < j < p.len() ==> {
            let a = #[trigger] p[i];
            let b = #[trigger] p[j];
            order::lex_upto(models[b].0, models[a].0) && (a < b || !order::lex_upto(
                models[a].0,
                models[b].0,
            ))
        }
}

/// The models that are shown, the newest first: those that answer, by
/// identifier in descending order.
pub fn shown_list(entries: &Vec<ModelEntry>) -> (r: Vec<GeminiModel>)
    ensures
        exists|p: Seq<int>| #[trigger]
            descending(p, shown_models(entries@)) && model_views(r@) == order::arranged(
                shown_models(entries@),
                p,
            ),
{
    let mut models: Vec<GeminiModel> = Vec::new();
    let mut keys: Vec<Reversed<String>> = Vec::new();
    let mut i: usize = 0;
    while i < entries.len()
        invariant
            i <= entries@.len(),
            model_views(models@) == shown_models(entries@.take(i as int)),
            keys@.len() == models@.len(),
            forall|k: int| 0 <= k < keys@.len() ==> (#[trigger] keys@[k]).key@ == models@[k].id@,
        decreases entries@.len() - i,
    {
        assert(entries@.take(i + 1).drop_last() =~= entries@.take(i as int));
        let id: String = model_registry::model_id(&entries[i]);
        let ghost before = model_views(models@);
        if model_registry::supports(&entries[i], "generateContent")
            && model_registry::is_chat_model(id.as_str()) {
            let display_name: String = match &entries[i].display_name {
                Some(name) => name.clone(),
                None => id.clone(),
            };
            keys.push(Reversed { key: id.clone() });
            models.push(GeminiModel { id, display_name });
            assert(model_views(models@) =~= before.push(shown_as(entries@[i as int])));
        }
        i += 1;
    }
    assert(entries@.take(entries@.len() as int) =~= entries@);
    let p: Vec<usize> = order::sorted_positions(&keys);
    let ghost ps = order::positions(p@);
    let ghost all = models@;
    proof {
        order::lemma_order_distinct(ps, keys@);
        let views = shown_models(entries@);
        assert(views.len() == all.len());
        assert forall|i: int, j: int| 0 <= i < j < ps.len() implies {
            let a = #[trigger] ps[i];
            let b = #[trigger] ps[j];
            order::lex_upto(views[b].0, views[a].0) && (a < b || !order::lex_upto(
                views[a].0,
                views[b].0,
            ))
        } by {
            assert(order::precedes(keys@, ps[i], ps[j]));
            assert(keys@[ps[i]].key@ == all[ps[i]].id@);
            assert(keys@[ps[j]].key@ == all[ps[j]].id@);
            assert(views[ps[i]] == model_views(all)[ps[i]]);
            assert(views[ps[j]] == model_views(all)[ps[j]]);
        }
        assert(descending(ps, views));
    }
    let r: Vec<GeminiModel> = order::arrange(models, &p);
    assert(model_views(r@) =~= order::arranged(shown_models(entries@), ps)) by {
        assert forall|i: int| 0 <= i < ps.len() implies model_views(r@)[i] == order::arranged(
            shown_models(entries@),
            ps,
        )[i] by {
            assert(r@[i] == all[ps[i]]);
            assert(model_views(all)[ps[i]] == shown_models(entries@)[ps[i]]);
        }
    }
    r
}

/// The texts of a reply are exactly those of the parts that have one, in order.
pub proof fn law_part_texts(parts: Seq<PartResponse>) -> (ps: Seq<int>)
    ensures
        select::exactly(ps, parts.len() as int, |i: int| parts[i].text is Some),
        part_texts(parts) == Seq::new(ps.len(), |k: int| parts[ps[k]].text->0@),
{
    let p = |i: int| parts[i].text is Some;
    let f = |n: int| part_texts(parts.take(n));
    assert forall|n: int| 0 < n <= parts.len() implies #[trigger] f(n) == if p(n - 1) {
        f(n - 1).push(parts[n - 1].text->0@)
    } else {
        f(n - 1)
    } by {
        assert(parts.take(n).drop_last() =~= parts.take(n - 1));
    }
    assert(parts.take(parts.len() as int) =~= parts);
    select::lemma_exactly(parts.len() as int, p, |i: int| parts[i].text->0@, f)
}

/// The texts of all candidates are there, one candidate after the other.
pub proof fn law_candidate_texts(candidates: Seq<Candidate>, c: Candidate)
    ensures
        candidate_texts(Seq::empty()).len() == 0,
        candidate_texts(candidates.push(c)) == candidate_texts(candidates) + part_texts(c.parts@),
{
    assert(candidates.push(c).drop_last() =~= candidates);
}

/// The models that are shown are exactly the listed ones that answer, in order.
pub proof fn law_shown_models(entries: Seq<ModelEntry>) -> (ps: Seq<int>)
    ensures
        select::exactly(
            ps,
            entries.len() as int,
            |i: int|
                model_registry::can(entries[i], "generateContent"@) && model_registry::chat_model(
                    model_registry::entry_id(entries[i]),
                ),
        ),
        shown_models(entries).len() == ps.len(),
        forall|k: int|
            0 <= k < ps.len() ==> (#[trigger] shown_models(entries)[k]).0
                == model_registry::entry_id(entries[ps[k]]),
{
    let p = |i: int|
        model_registry::can(entries[i], "generateContent"@) && model_registry::chat_model(
            model_registry::entry_id(entries[i]),
        );
    let f = |n: int| shown_models(entries.take(n));
    assert forall|n: int| 0 < n <= entries.len() implies #[trigger] f(n) == if p(n - 1) {
        f(n - 1).push(shown_as(entries[n - 1]))
    } else {
        f(n - 1)
    } by {
        assert(entries.take(n).drop_last() =~= entries.take(n - 1));
    }
    assert(entries.take(entries.len() as int) =~= entries);
    select::lemma_exactly(entries.len() as int, p, |i: int| shown_as(entries[i]), f)
}

/// Every turn becomes a message, in order and with its whole text; what the
/// assistant said is said by the model, everyone else keeps their role.
pub proof fn law_turns(contents: Seq<Content>, turns: Seq<(Seq<char>, Seq<char>)>, i: int)
    requires
        are_turns(contents, turns),
        0 <= i < turns.len(),
    ensures
        contents.len() == turns.len(),
        contents[i].role is Some,
        contents[i].role->0@ == if turns[i].0 == "assistant"@ {
            "model"@
        } else {
            turns[i].0
        },
        contents[i].parts@.len() == 1,
        contents[i].parts@[0] is Text,
        contents[i].parts@[0]->Text_text@ == turns[i].1,
{
    assert(contents[i].says(Some(service_role(turns[i].0)), turns[i].1));
}

/// The prompt that rewrites a question has the history and the earlier keywords,
/// where there are some.
pub proof fn law_rewrite_text(history: Seq<char>, keywords: Seq<char>)
    ensures
        REWRITE_HEAD@.is_prefix_of(rewrite_text(history, keywords)),
        REWRITE_TAIL@.is_suffix_of(rewrite_text(history, keywords)),
        find::occurs(rewrite_text(history, keywords), history),
        find::occurs(rewrite_text(history, keywords), keywords),
{
    let s = rewrite_text(history, keywords);
    let head = REWRITE_HEAD@.len() as int;
    let n = head + if history.len() == 0 {
        0
    } else {
        "Lịch sử hội thoại gần nhất:\n"@.len() as int
    };
    assert(s.subrange(0, head) =~= REWRITE_HEAD@);
    assert(s.subrange(s.len() - REWRITE_TAIL@.len(), s.len() as int) =~= REWRITE_TAIL@);
    assert(s.subrange(n, (n + history.len()) as int) =~= history);
    assert(find::occurs_at(s, history, n));
    let m = (n + history.len() + "\n"@.len()) as int + if keywords.len() == 0 {
        0
    } else {
        "Keywords trước: "@.len() as int
    };
    assert(s.subrange(m, (m + keywords.len()) as int) =~= keywords);
    assert(find::occurs_at(s, keywords, m));
}

/// A plain reply is generated with what was asked for, and with no schema.
pub proof fn law_plain_config(c: GenerationConfig, temperature: u32, top_p: u32, tokens: u32)
    requires
        plain_config(c, temperature, top_p, tokens),
    ensures
        c.temperature.bits == temperature,
        c.top_p.bits == top_p,
        c.max_output_tokens == tokens,
        c.response_mime_type is None && c.response_schema is None,
{
}

} // verus!
