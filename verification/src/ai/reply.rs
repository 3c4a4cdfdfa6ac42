//! Replies of the chat model: what a status means, how a stream is cut into
//! JSON objects, and when a request is made again.
use vstd::prelude::*;

use crate::ai::gemini::FunctionCallData;
use crate::ai::gemini::GeminiError;
use crate::ai::gemini::GenerateResponse;
use crate::ai::gemini::PartResponse;
use crate::ai::gemini::ToolCallResult;
use crate::ai::structured;
use crate::ai::structured::StructuredError;
use crate::text;
use crate::text::chars;
use crate::text::chars::CharClass;
use crate::text::edit;
use crate::text::find;

verus! {

/// Where a text leaves off: how many braces are open, whether within a string,
/// and whether behind a backslash.
pub struct Nesting {
    /// Braces that are open.
    pub depth: int,
    /// Within a string.
    pub in_string: bool,
    /// Behind a backslash within a string.
    pub escape: bool,
}

/// Where a text leaves off.
pub open spec fn nesting(s: Seq<char>) -> Nesting
    decreases s.len(),
{
    if s.len() == 0 {
        Nesting { depth: 0, in_string: false, escape: false }
    } else {
        let n = nesting(s.drop_last());
        let c = s.last();
        if n.escape {
            Nesting { escape: false, ..n }
        } else if n.in_string {
            Nesting { in_string: c != '"', escape: c == '\\', ..n }
        } else if c == '"' {
            Nesting { in_string: true, ..n }
        } else if c == '{' {
            Nesting { depth: n.depth + 1, ..n }
        } else if c == '}' {
            Nesting { depth: n.depth - 1, ..n }
        } else {
            n
        }
    }
}

/// The text ends with the brace that closes its outermost one.
pub open spec fn closes_object(s: Seq<char>) -> bool {
    &&& s.len() > 0
    &&& s.last() == '}'
    &&& nesting(s.drop_last()) == (Nesting { depth: 1, in_string: false, escape: false })
}

/// The first `n` characters are the shortest part from the front that closes an
/// object.
pub open spec fn first_object(s: Seq<char>, n: int) -> bool {
    &&& 0 <= n <= s.len()
    &&& closes_object(s.take(n))
    &&& forall|m: int| 0 <= m < n ==> !closes_object(#[trigger] s.take(m))
}

/// Where the first JSON object of a text ends, in characters.
pub open spec fn json_end(s: Seq<char>) -> Option<int> {
    if exists|n: int| first_object(s, n) {
        Some(choose|n: int| first_object(s, n))
    } else {
        None
    }
}

/// There is one end at most.
proof fn lemma_json_end(s: Seq<char>, n: int)
    requires
        first_object(s, n),
    ensures
        json_end(s) == Some(n),
{
    let k = json_end(s)->0;
    assert(first_object(s, k));
    if k < n {
        assert(!closes_object(s.take(k)));
    } else if n < k {
        assert(!closes_object(s.take(n)));
    }
}

/// Where the first object of a text ends does not depend on what follows it.
pub proof fn law_json_end(s: Seq<char>, more: Seq<char>)
    requires
        json_end(s) is Some,
    ensures
        json_end(s + more) == json_end(s),
        0 < json_end(s)->0 <= s.len(),
{
    let n = json_end(s)->0;
    assert(first_object(s, n));
    assert((s + more).take(n) =~= s.take(n));
    assert forall|m: int| 0 <= m < n implies !closes_object(#[trigger] (s + more).take(m)) by {
        assert((s + more).take(m) =~= s.take(m));
    }
    lemma_json_end(s + more, n);
}

fn scan_object(v: &[char]) -> (r: Option<usize>)
    ensures
        match r {
            Some(n) => json_end(v@) == Some(n as int) && 0 < n <= v@.len(),
            None => json_end(v@) is None,
        },
{
    let len: usize = v.len();
    let mut i: usize = 0;
    let mut depth: i128 = 0;
    let mut in_string: bool = false;
    let mut escape: bool = false;
    while i < v.len()
        invariant
            i <= v@.len(),
            len == v@.len(),
            -(i as int) <= depth <= i,
            nesting(v@.take(i as int)) == (Nesting { depth: depth as int, in_string, escape }),
            forall|m: int| 0 <= m <= i ==> !closes_object(#[trigger] v@.take(m)),
        decreases v@.len() - i,
    {
        let c: char = v[i];
        assert(v@.take(i + 1).drop_last() =~= v@.take(i as int));
        if escape {
            escape = false;
        } else if c == '\\' && in_string {
            escape = true;
        } else if c == '"' {
            in_string = !in_string;
        } else if c == '{' && !in_string {
            depth = depth + 1;
        } else if c == '}' && !in_string {
            if depth == 1 {
                proof {
                    lemma_json_end(v@, i + 1);
                }
                return Some(i + 1);
            }
            depth = depth - 1;
        }
        i += 1;
    }
    assert forall|n: int| !first_object(v@, n) by {
        if 0 <= n <= v@.len() {
            assert(!closes_object(v@.take(n)));
        }
    }
    None
}

/// Where the first JSON object of a text ends, in bytes.
pub fn find_json_end(s: &str) -> (r: Option<usize>)
    ensures
        match r {
            Some(n) => json_end(s@) is Some && n == chars::utf8_len(s@.take(json_end(s@)->0)),
            None => json_end(s@) is None,
        },
{
    let v: Vec<char> = chars::to_chars(s);
    match scan_object(v.as_slice()) {
        Some(n) => {
            let head: String = edit::slice(s, 0, n);
            assert(head@ =~= s@.take(n as int));
            Some(chars::byte_len(head.as_str()))
        },
        None => None,
    }
}

/// The mark before each object of a stream.
pub const DATA_MARK: &'static str = "data: ";

/// The place of the first mark of a stream and the end of the object behind
/// it, where both are there.
pub open spec fn next_object(s: Seq<char>) -> Option<(int, int)> {
    match find::index_of(s, DATA_MARK@) {
        Some(i) => {
            let from = i + DATA_MARK@.len();
            match json_end(s.skip(from)) {
                Some(n) => Some((from, from + n)),
                None => None,
            }
        },
        None => None,
    }
}

pub proof fn lemma_next_object(s: Seq<char>)
    ensures
        next_object(s) matches Some(p) ==> 0 <= p.0 < p.1 <= s.len(),
{
    find::lemma_has_index(s, DATA_MARK@);
    if let Some(i) = find::index_of(s, DATA_MARK@) {
        let rest = s.skip(i + DATA_MARK@.len());
        if json_end(rest) is Some {
            law_json_end(rest, Seq::empty());
        }
    }
}

/// The whole objects at the front of a stream.
pub open spec fn objects(s: Seq<char>) -> Seq<Seq<char>>
    decreases s.len(),
{
    proof {
        lemma_next_object(s);
    }
    match next_object(s) {
        Some(p) => seq![s.subrange(p.0, p.1)] + objects(s.skip(p.1)),
        None => Seq::empty(),
    }
}

/// What is left of a stream behind its whole objects.
pub open spec fn leftover(s: Seq<char>) -> Seq<char>
    decreases s.len(),
{
    proof {
        lemma_next_object(s);
    }
    match next_object(s) {
        Some(p) => leftover(s.skip(p.1)),
        None => s,
    }
}

/// Takes the whole JSON objects from the front of what has come of a stream;
/// the rest waits for more.
pub fn take_objects(buffer: &str) -> (r: (Vec<String>, String))
    ensures
        text::views(r.0@) == objects(buffer@),
        r.1@ == leftover(buffer@),
{
    let v: Vec<char> = chars::to_chars(buffer);
    let mark: Vec<char> = chars::to_chars(DATA_MARK);
    let len: usize = v.len();
    let mut out: Vec<String> = Vec::new();
    let mut at: usize = 0;
    let mut open: bool = true;
    assert(buffer@.skip(0) =~= buffer@);
    assert(text::views(out@) + objects(buffer@) =~= objects(buffer@));
    while open
        invariant
            v@ == buffer@,
            mark@ == DATA_MARK@,
            at <= len == v@.len(),
            text::views(out@) + objects(buffer@.skip(at as int)) == objects(buffer@),
            leftover(buffer@.skip(at as int)) == leftover(buffer@),
            !open ==> next_object(buffer@.skip(at as int)) is None,
        decreases len - at + if open {
            1int
        } else {
            0int
        },
    {
        let rest: &[char] = vstd::slice::slice_subrange(v.as_slice(), at, len);
        let n: usize = rest.len();
        assert(rest@ =~= buffer@.skip(at as int));
        open = false;
        if let Some(i) = find::find(rest, mark.as_slice()) {
            let from: usize = i + mark.len();
            let body: &[char] = vstd::slice::slice_subrange(rest, from, n);
            assert(body@ =~= rest@.skip(from as int));
            if let Some(k) = scan_object(body) {
                let object: String = chars::from_chars(vstd::slice::slice_subrange(body, 0, k));
                assert(object@ =~= rest@.subrange(from as int, from + k));
                assert(next_object(rest@) == Some((from as int, from + k)));
                let ghost before = text::views(out@);
                let ghost tail = objects(rest@.skip(from + k));
                out.push(object);
                assert(text::views(out@) =~= before.push(object@));
                assert(rest@.skip(from + k) =~= buffer@.skip(at + from + k));
                assert(text::views(out@) + tail =~= before + (seq![object@] + tail));
                at = at + (from + k);
                open = true;
            }
        }
    }
    let rest: String = chars::from_chars(vstd::slice::slice_subrange(v.as_slice(), at, len));
    assert(rest@ =~= buffer@.skip(at as int));
    assert(text::views(out@) + Seq::<Seq<char>>::empty() =~= text::views(out@));
    (out, rest)
}

proof fn lemma_next_object_prefix(s: Seq<char>, more: Seq<char>)
    requires
        next_object(s) is Some,
    ensures
        next_object(s + more) == next_object(s),
{
    let pat = DATA_MARK@;
    find::lemma_has_index(s, pat);
    let i = find::index_of(s, pat)->0;
    assert(find::first_at(s + more, pat, 0, i)) by {
        assert((s + more).subrange(i, i + pat.len()) =~= s.subrange(i, i + pat.len()));
        assert forall|j: int| 0 <= j < i implies !find::occurs_at(s + more, pat, j) by {
            if find::occurs_at(s + more, pat, j) {
                assert((s + more).subrange(j, j + pat.len()) =~= s.subrange(j, j + pat.len()));
                assert(find::occurs_at(s, pat, j));
            }
        }
    }
    find::lemma_first_at_unique(s + more, pat, 0, i);
    let from = i + pat.len();
    assert((s + more).skip(from) =~= s.skip(from) + more);
    law_json_end(s.skip(from), more);
}

/// It does not matter how a stream is cut: the objects of two pieces are those
/// of the first, and those of what it leaves followed by the second.
pub proof fn law_stream_pieces(s: Seq<char>, more: Seq<char>)
    ensures
        objects(s + more) == objects(s) + objects(leftover(s) + more),
        leftover(s + more) == leftover(leftover(s) + more),
    decreases s.len(),
{
    lemma_next_object(s);
    match next_object(s) {
        Some(p) => {
            lemma_next_object_prefix(s, more);
            let rest = s.skip(p.1);
            assert((s + more).skip(p.1) =~= rest + more);
            assert((s + more).subrange(p.0, p.1) =~= s.subrange(p.0, p.1));
            law_stream_pieces(rest, more);
            let one = seq![s.subrange(p.0, p.1)];
            assert(one + (objects(rest) + objects(leftover(rest) + more)) =~= one + objects(rest)
                + objects(leftover(rest) + more));
        },
        None => {
            assert(Seq::<Seq<char>>::empty() + objects(s + more) =~= objects(s + more));
        },
    }
}

/// What is left of a stream has no whole object.
pub proof fn law_leftover_is_open(s: Seq<char>)
    ensures
        objects(leftover(s)).len() == 0,
        leftover(leftover(s)) == leftover(s),
    decreases s.len(),
{
    lemma_next_object(s);
    if let Some(p) = next_object(s) {
        law_leftover_is_open(s.skip(p.1));
    }
}

/// What comes of a try to stream a reply.
#[derive(Debug)]
pub enum StreamEvent {
    /// The service was not reached.
    Unreached(String),
    /// The service replied with a status that is no success.
    Refused {
        /// The status.
        code: u16,
        /// The status in words.
        status: String,
        /// The front of what it sent.
        body: String,
    },
    /// The stream ended, with this text.
    Ended(String),
}

/// What is done after a try.
#[derive(Debug)]
pub enum StreamStep {
    /// The tries end.
    Done(Result<String, GeminiError>),
    /// It is tried again after some seconds.
    Again(u64),
}

/// How often a stream is tried.
pub const STREAM_TRIES: u32 = 2;

/// The seconds before a stream is tried again.
pub const STREAM_DELAY: u64 = 2;

/// The seconds that a stream without quota has to wait.
pub const STREAM_QUOTA_WAIT: u64 = 60;

/// The bytes of a refusal that are reported.
pub const REFUSAL_BYTES: usize = 300;

/// How a try ends by itself: with a result that stands, or with an error after
/// which it can be tried again.
pub open spec fn stream_outcome(event: StreamEvent, r: Result<String, GeminiError>) -> bool {
    match event {
        StreamEvent::Unreached(e) => r matches Err(GeminiError::ApiError(m)) && m@ == "Network: "@
            + e@,
        StreamEvent::Refused { code, status, body } => if code == 429 {
            r matches Err(GeminiError::RateLimited(n)) && n == STREAM_QUOTA_WAIT
        } else if 500 <= code <= 599 {
            r matches Err(GeminiError::ApiError(m)) && m@ == "HTTP "@ + status@
        } else {
            r matches Err(GeminiError::ApiError(m)) && m@ == "HTTP "@ + status@ + ": "@ + body@
        },
        StreamEvent::Ended(s) => if s@.len() > 0 {
            r == Ok::<String, GeminiError>(s)
        } else {
            r matches Err(GeminiError::ParseError(m)) && m@
                == "Stream kết thúc nhưng không có text"@
        },
    }
}

/// The network failed, not the service.
pub open spec fn can_try_again(event: StreamEvent) -> bool {
    event is Unreached
}

/// What is done after a try. What the service sent stands; the network is given
/// a second chance.
pub fn stream_step(attempt: u32, event: StreamEvent) -> (r: StreamStep)
    ensures
        if can_try_again(event) && attempt + 1 < STREAM_TRIES {
            r == StreamStep::Again(STREAM_DELAY)
        } else {
            r matches StreamStep::Done(result) && stream_outcome(event, result)
        },
{
    match event {
        StreamEvent::Unreached(e) => if attempt < STREAM_TRIES - 1 {
            StreamStep::Again(STREAM_DELAY)
        } else {
            StreamStep::Done(
                Err(GeminiError::ApiError(edit::concat2("Network: ", e.as_str()))),
            )
        },
        StreamEvent::Refused { code, status, body } => if code == 429 {
            StreamStep::Done(Err(GeminiError::RateLimited(STREAM_QUOTA_WAIT)))
        } else if 500 <= code && code <= 599 {
            StreamStep::Done(
                Err(GeminiError::ApiError(edit::concat2("HTTP ", status.as_str()))),
            )
        } else {
            let mut m: String = edit::concat3("HTTP ", status.as_str(), ": ");
            m.append(body.as_str());
            StreamStep::Done(Err(GeminiError::ApiError(m)))
        },
        StreamEvent::Ended(s) => if !s.as_str().is_empty() {
            StreamStep::Done(Ok(s))
        } else {
            StreamStep::Done(
                Err(
                    GeminiError::ParseError(
                        edit::owned("Stream kết thúc nhưng không có text"),
                    ),
                ),
            )
        },
    }
}

/// How often a reply in one piece is asked for.
pub const CONTENT_TRIES: u32 = 5;

/// The seconds before try `attempt`: none before the first, then 2, 4, 8 and
/// so on, at most 30.
pub open spec fn delay_before(attempt: int) -> int {
    if attempt <= 0 {
        0
    } else if attempt == 1 {
        2
    } else if attempt == 2 {
        4
    } else if attempt == 3 {
        8
    } else if attempt == 4 {
        16
    } else {
        30
    }
}

/// The seconds to wait when there is no quota at try `attempt`: 10, 20, 40,
/// then 60.
pub open spec fn quota_wait(attempt: int) -> int {
    if attempt <= 0 {
        10
    } else if attempt == 1 {
        20
    } else if attempt == 2 {
        40
    } else {
        60
    }
}

/// The delays double from try to try, up to their limits.
pub proof fn law_backoff(attempt: int)
    requires
        attempt >= 1,
    ensures
        delay_before(attempt + 1) == if 2 * delay_before(attempt) < 30 {
            2 * delay_before(attempt)
        } else {
            30
        },
        quota_wait(attempt) == if 2 * quota_wait(attempt - 1) < 60 {
            2 * quota_wait(attempt - 1)
        } else {
            60
        },
{
}

/// What is done after a failed try for a reply in one piece.
#[derive(Debug)]
pub struct RetryStep {
    /// The seconds to wait at once.
    pub wait: u64,
    /// The seconds to wait before the next try; `None` where there is none.
    pub next_delay: Option<u64>,
    /// The error so far.
    pub error: GeminiError,
}

/// What is done after try `attempt`, from 0 on, failed. A try without quota
/// waits at once; every try but the last is followed by another.
pub fn content_retry(attempt: u32, error: GeminiError) -> (r: RetryStep)
    requires
        attempt < CONTENT_TRIES,
    ensures
        match error {
            GeminiError::RateLimited(_) => r.wait == quota_wait(attempt as int) && r.error
                == GeminiError::RateLimited(r.wait),
            _ => r.wait == 0 && r.error == error,
        },
        match r.next_delay {
            Some(d) => attempt + 1 < CONTENT_TRIES && d == delay_before(attempt + 1),
            None => attempt + 1 == CONTENT_TRIES,
        },
{
    let next_delay: Option<u64> = if attempt == 0 {
        Some(2)
    } else if attempt == 1 {
        Some(4)
    } else if attempt == 2 {
        Some(8)
    } else if attempt == 3 {
        Some(16)
    } else {
        None
    };
    match error {
        GeminiError::RateLimited(_) => {
            let wait: u64 = if attempt == 0 {
                10
            } else if attempt == 1 {
                20
            } else if attempt == 2 {
                40
            } else {
                60
            };
            RetryStep { wait, next_delay, error: GeminiError::RateLimited(wait) }
        },
        other => RetryStep { wait: 0, next_delay, error: other },
    }
}

/// The seconds that a request without quota has to wait.
pub const REQUEST_QUOTA_WAIT: u64 = 20;

/// The error that a status means, if any.
pub open spec fn status_error(
    code: u16,
    status: Seq<char>,
    body: Seq<char>,
    e: GeminiError,
) -> bool {
    if code == 429 {
        e == GeminiError::RateLimited(REQUEST_QUOTA_WAIT)
    } else {
        e matches GeminiError::ApiError(m) && m@ == "HTTP "@ + status + ": "@ + body
    }
}

/// Whether a status is a success, and the error where it is none.
pub fn check_status(code: u16, status: &str, body: &str) -> (r: Option<GeminiError>)
    ensures
        match r {
            Some(e) => !(200 <= code <= 299) && status_error(code, status@, body@, e),
            None => 200 <= code <= 299,
        },
{
    if code == 429 {
        return Some(GeminiError::RateLimited(REQUEST_QUOTA_WAIT));
    }
    if 200 <= code && code <= 299 {
        return None;
    }
    let mut m: String = edit::concat3("HTTP ", status, ": ");
    m.append(body);
    Some(GeminiError::ApiError(m))
}

/// The first part of the first reply, if it is there.
pub open spec fn first_part(response: GenerateResponse) -> Option<PartResponse> {
    match response.candidates {
        Some(candidates) => if candidates@.len() > 0 && candidates@[0].parts@.len() > 0 {
            Some(candidates@[0].parts@[0])
        } else {
            None
        },
        None => None,
    }
}

/// The text of a reply in one piece: the text of its first part; the error
/// that the service reports, or that there is no text.
pub fn reply_text(response: GenerateResponse) -> (r: Result<String, GeminiError>)
    ensures
        match response.error {
            Some(e) => r == Err::<String, GeminiError>(GeminiError::ApiError(e)),
            None => match first_part(response) {
                Some(part) => match part.text {
                    Some(s) => r == Ok::<String, GeminiError>(s),
                    None => r matches Err(GeminiError::ParseError(m)) && m@
                        == "Response không có text"@,
                },
                None => r matches Err(GeminiError::ParseError(m)) && m@
                    == "Response không có text"@,
            },
        },
{
    if let Some(e) = response.error {
        return Err(GeminiError::ApiError(e));
    }
    if let Some(candidates) = &response.candidates {
        if candidates.len() > 0 && candidates[0].parts.len() > 0 {
            if let Some(s) = &candidates[0].parts[0].text {
                return Ok(s.clone());
            }
        }
    }
    Err(GeminiError::ParseError(edit::owned("Response không có text")))
}

/// The reply cannot be read.
pub fn unreadable(error: &str) -> (r: GeminiError)
    ensures
        r matches GeminiError::ParseError(m) && m@ == "Lỗi parse response: "@ + error@,
{
    GeminiError::ParseError(edit::concat2("Lỗi parse response: ", error))
}

/// The reply cannot be read, with its front.
pub fn unreadable_body(error: &str, body: &str) -> (r: GeminiError)
    ensures
        r matches GeminiError::ParseError(m) && m@ == "Lỗi parse response: "@ + error@
            + "\nBody: "@ + body@,
{
    let mut m: String = edit::concat3("Lỗi parse response: ", error, "\nBody: ");
    m.append(body);
    GeminiError::ParseError(m)
}

/// The list of models cannot be read.
pub fn unreadable_models(error: &str) -> (r: GeminiError)
    ensures
        r matches GeminiError::ParseError(m) && m@ == "Parse models: "@ + error@,
{
    GeminiError::ParseError(edit::concat2("Parse models: ", error))
}

/// How often a reply of a given form is asked for.
pub const JSON_TRIES: u32 = 2;

/// The seconds before such a reply is asked for again.
pub const JSON_DELAY: u64 = 1;

/// What comes of asking for a reply of a given form.
#[derive(Debug)]
pub enum JsonTry {
    /// It has the form.
    Parsed,
    /// It does not have the form.
    Unparsed(StructuredError),
    /// There is no reply.
    Failed(GeminiError),
}

/// What is done after a try.
#[derive(Debug)]
pub enum JsonStep {
    /// The reply is taken.
    Done,
    /// It is asked for again after some seconds.
    Again(u64),
    /// It is given up.
    GiveUp(GeminiError),
}

/// What is done after try `attempt`, from 0 on: a reply of the form is taken,
/// whatever else comes leads to another try or is the error.
pub fn json_step(attempt: u32, outcome: JsonTry) -> (r: JsonStep)
    ensures
        match outcome {
            JsonTry::Parsed => r == JsonStep::Done,
            JsonTry::Unparsed(e) => if attempt + 1 < JSON_TRIES {
                r == JsonStep::Again(JSON_DELAY)
            } else {
                r matches JsonStep::GiveUp(GeminiError::ParseError(m)) && m@
                    == "Structured parse: "@ + structured::error_text(e)
            },
            JsonTry::Failed(e) => if attempt + 1 < JSON_TRIES {
                r == JsonStep::Again(JSON_DELAY)
            } else {
                r == JsonStep::GiveUp(e)
            },
        },
{
    match outcome {
        JsonTry::Parsed => JsonStep::Done,
        JsonTry::Unparsed(e) => if attempt < JSON_TRIES - 1 {
            JsonStep::Again(JSON_DELAY)
        } else {
            JsonStep::GiveUp(
                GeminiError::ParseError(
                    edit::concat2("Structured parse: ", e.message().as_str()),
                ),
            )
        },
        JsonTry::Failed(e) => if attempt < JSON_TRIES - 1 {
            JsonStep::Again(JSON_DELAY)
        } else {
            JsonStep::GiveUp(e)
        },
    }
}

/// The place of the first part, from `i` on, that has a call or a text.
pub open spec fn speaking_part(parts: Seq<PartResponse>, i: int) -> Option<int>
    decreases parts.len() - i,
{
    if i >= parts.len() {
        None
    } else if parts[i].function_call is Some || parts[i].text is Some {
        Some(i)
    } else {
        speaking_part(parts, i + 1)
    }
}

/// What the model does with functions at hand: of the first part that has
/// something, the call, or else the text.
pub fn tool_result(parts: &Vec<PartResponse>) -> (r: Result<ToolCallResult, GeminiError>)
    ensures
        match speaking_part(parts@, 0) {
            Some(i) => match parts@[i].function_call {
                Some(call) => r == Ok::<ToolCallResult, GeminiError>(
                    ToolCallResult::FunctionCall(call),
                ),
                None => r == Ok::<ToolCallResult, GeminiError>(
                    ToolCallResult::Text(parts@[i].text->0),
                ),
            },
            None => r matches Err(GeminiError::ParseError(m)) && m@
                == "AI không trả function_call lẫn text"@,
        },
{
    let mut i: usize = 0;
    while i < parts.len()
        invariant
            i <= parts@.len(),
            speaking_part(parts@, 0) == speaking_part(parts@, i as int),
        decreases parts@.len() - i,
    {
        if let Some(call) = &parts[i].function_call {
            return Ok(
                ToolCallResult::FunctionCall(
                    FunctionCallData { name: call.name.clone(), args: call.args.clone() },
                ),
            );
        }
        if let Some(s) = &parts[i].text {
            return Ok(ToolCallResult::Text(s.clone()));
        }
        i += 1;
    }
    Err(GeminiError::ParseError(edit::owned("AI không trả function_call lẫn text")))
}

/// What a status says of a key: refused, good, or neither.
pub fn key_status(code: u16, status: &str) -> (r: Result<bool, GeminiError>)
    ensures
        if code == 400 || code == 403 {
            r == Ok::<bool, GeminiError>(false)
        } else if 200 <= code <= 299 {
            r == Ok::<bool, GeminiError>(true)
        } else {
            r matches Err(GeminiError::ApiError(m)) && m@ == "HTTP "@ + status@
        },
{
    if code == 400 || code == 403 {
        Ok(false)
    } else if 200 <= code && code <= 299 {
        Ok(true)
    } else {
        Err(GeminiError::ApiError(edit::concat2("HTTP ", status)))
    }
}

/// Whether a model has quota, by the status of a request to it; `None` where
/// the service was not reached.
pub fn has_quota(code: Option<u16>) -> (r: bool)
    ensures
        r == (code is Some && code != Some(429u16)),
{
    match code {
        Some(c) => c != 429,
        None => false,
    }
}

/// The outer braces of a text are in order: the first opening one does not
/// stand behind the last closing one.
pub open spec fn braces_in_order(s: Seq<char>) -> bool {
    match (
        find::first_index(s, CharClass::Is('{'), 0),
        find::last_index(s, CharClass::Is('}')),
    ) {
        (Some(i), Some(j)) => i <= j,
        _ => true,
    }
}

/// A text from its first opening brace to its last closing one; all of it
/// where it has not both.
pub open spec fn brace_span(s: Seq<char>) -> Seq<char> {
    match (
        find::first_index(s, CharClass::Is('{'), 0),
        find::last_index(s, CharClass::Is('}')),
    ) {
        (Some(i), Some(j)) => s.subrange(i, j + 1),
        _ => s,
    }
}

/// A text from its first opening brace to its last closing one.
pub fn cut_braces(s: &str) -> (r: String)
    requires
        braces_in_order(s@),
    ensures
        r@ == brace_span(s@),
{
    let v: Vec<char> = chars::to_chars(s);
    match (
        find::find_class(v.as_slice(), CharClass::Is('{'), 0),
        find::rfind(v.as_slice(), CharClass::Is('}')),
    ) {
        (Some(i), Some(j)) => edit::slice(s, i, j + 1),
        _ => edit::owned(s),
    }
}

/// Whether the outer braces of a text are in order.
pub fn check_braces(s: &str) -> (r: bool)
    ensures
        r == braces_in_order(s@),
{
    let v: Vec<char> = chars::to_chars(s);
    match (
        find::find_class(v.as_slice(), CharClass::Is('{'), 0),
        find::rfind(v.as_slice(), CharClass::Is('}')),
    ) {
        (Some(i), Some(j)) => i <= j,
        _ => true,
    }
}

/// An object behind the first mark of a stream is taken as a whole, and what
/// follows it is treated alike.
pub proof fn law_object_is_taken(a: Seq<char>, j: Seq<char>, rest: Seq<char>)
    requires
        find::first_at(a + "data: "@ + j + rest, "data: "@, 0, a.len() as int),
        json_end(j) == Some(j.len() as int),
    ensures
        objects(a + "data: "@ + j + rest) == seq![j] + objects(rest),
        leftover(a + "data: "@ + j + rest) == leftover(rest),
{
    let s = a + "data: "@ + j + rest;
    let from = (a.len() + "data: "@.len()) as int;
    find::lemma_first_at_unique(s, "data: "@, 0, a.len() as int);
    assert(s.skip(from) =~= j + rest);
    law_json_end(j, rest);
    assert(next_object(s) == Some((from, from + j.len())));
    assert(s.subrange(from, from + j.len()) =~= j);
    assert(s.skip(from + j.len()) =~= rest);
}

/// A stream without a mark has no object, and waits for more.
pub proof fn law_no_object(s: Seq<char>)
    requires
        !find::occurs(s, "data: "@),
    ensures
        objects(s).len() == 0,
        leftover(s) == s,
{
    find::lemma_index_from(s, "data: "@, 0);
}

proof fn lemma_flat_nesting(inner: Seq<char>)
    requires
        forall|i: int|
            0 <= i < inner.len() ==> #[trigger] inner[i] != '{' && inner[i] != '}' && inner[i] != '"',
    ensures
        nesting(seq!['{'] + inner) == (Nesting { depth: 1, in_string: false, escape: false }),
    decreases inner.len(),
{
    let s = seq!['{'] + inner;
    if inner.len() == 0 {
        assert(s.drop_last() =~= Seq::empty());
        assert(nesting(s.drop_last()) == (Nesting { depth: 0, in_string: false, escape: false }));
    } else {
        let front = inner.drop_last();
        assert forall|i: int| 0 <= i < front.len() implies #[trigger] front[i] != '{' && front[i]
            != '}' && front[i] != '"' by {
            assert(front[i] == inner[i]);
        }
        lemma_flat_nesting(front);
        assert(s.drop_last() =~= seq!['{'] + front);
        assert(s.last() == inner[inner.len() - 1]);
    }
}

/// An object without strings and without objects in it ends with its closing brace.
pub proof fn law_flat_object(inner: Seq<char>)
    requires
        forall|i: int|
            0 <= i < inner.len() ==> #[trigger] inner[i] != '{' && inner[i] != '}' && inner[i] != '"',
    ensures
        json_end((seq!['{'] + inner).push('}')) == Some(inner.len() as int + 2),
{
    let s = (seq!['{'] + inner).push('}');
    let n = s.len() as int;
    lemma_flat_nesting(inner);
    assert(s.drop_last() =~= seq!['{'] + inner);
    assert(s.take(n) =~= s);
    assert forall|m: int| 0 <= m < n implies !closes_object(#[trigger] s.take(m)) by {
        if m > 0 {
            assert(s.take(m).last() == s[m - 1]);
            if m > 1 {
                assert(s[m - 1] == inner[m - 2]);
            }
        }
    }
    lemma_json_end(s, n);
}

/// A closing brace within a string does not end an object, whatever is escaped in
/// it: only one outside of strings, where one brace is open, does.
pub proof fn law_closing_brace(s: Seq<char>, n: int)
    requires
        json_end(s) == Some(n),
    ensures
        0 < n <= s.len(),
        s[n - 1] == '}',
        nesting(s.take(n - 1)).depth == 1,
        !nesting(s.take(n - 1)).in_string,
{
    assert(first_object(s, n));
    assert(s.take(n).drop_last() =~= s.take(n - 1));
    assert(s.take(n).last() == s[n - 1]);
}

/// How braces and strings are read, character by character.
pub proof fn law_nesting(s: Seq<char>, c: char)
    ensures
        ({
            let n = nesting(s);
            let m = nesting(s.push(c));
            &&& n.in_string && !n.escape && c == '"' ==> !m.in_string && m.depth == n.depth
            &&& n.in_string && !n.escape && c == '\\' ==> m.in_string && m.escape
            &&& n.escape ==> !m.escape && m.in_string == n.in_string && m.depth == n.depth
            &&& n.in_string ==> m.depth == n.depth
            &&& !n.in_string && !n.escape && c == '"' ==> m.in_string && m.depth == n.depth
            &&& !n.in_string && !n.escape && c == '{' ==> m.depth == n.depth + 1
            &&& !n.in_string && !n.escape && c == '}' ==> m.depth == n.depth - 1
        }),
{
    assert(s.push(c).drop_last() =~= s);
}

/// What the model does is told by the first part that has a call or a text.
pub proof fn law_speaking_part(parts: Seq<PartResponse>, from: int)
    requires
        0 <= from,
    ensures
        match speaking_part(parts, from) {
            Some(i) => {
                &&& from <= i < parts.len()
                &&& parts[i].function_call is Some || parts[i].text is Some
                &&& forall|j: int|
                    from <= j < i ==> (#[trigger] parts[j]).function_call is None
                        && parts[j].text is None
            },
            None => forall|j: int|
                from <= j < parts.len() ==> (#[trigger] parts[j]).function_call is None
                    && parts[j].text is None,
        },
    decreases parts.len() - from,
{
    if from < parts.len() {
        law_speaking_part(parts, from + 1);
    }
}

/// What a try to stream comes to: a text is the answer; without quota the wait is a
/// minute; any other refusal is an error with its status; and only where the network
/// failed is it tried again.
pub proof fn law_stream_outcome(
    code: u16,
    status: String,
    body: String,
    s: String,
    r: Result<String, GeminiError>,
)
    ensures
        s@.len() > 0 && stream_outcome(StreamEvent::Ended(s), r) ==> r == Ok::<
            String,
            GeminiError,
        >(s),
        s@.len() == 0 && stream_outcome(StreamEvent::Ended(s), r) ==> r is Err,
        stream_outcome(StreamEvent::Refused { code: 429, status, body }, r) ==> r == Err::<
            String,
            GeminiError,
        >(GeminiError::RateLimited(60)),
        code != 429 && stream_outcome(StreamEvent::Refused { code, status, body }, r) ==> (
        r matches Err(GeminiError::ApiError(m)) && find::occurs(m@, status@)),
        can_try_again(StreamEvent::Unreached(s)),
        !can_try_again(StreamEvent::Refused { code, status, body }),
        !can_try_again(StreamEvent::Ended(s)),
{
    if code != 429 && stream_outcome(StreamEvent::Refused { code, status, body }, r) {
        let m = r->Err_0->ApiError_0@;
        reveal_strlit("HTTP ");
        let n = "HTTP "@.len() as int;
        assert(m.subrange(n, (n + status@.len()) as int) =~= status@);
        assert(find::occurs_at(m, status@, n));
    }
}

/// A text is cut from its first opening brace to its last closing one, with all
/// between them.
pub proof fn law_brace_span(a: Seq<char>, inner: Seq<char>, b: Seq<char>)
    requires
        !a.contains('{'),
        !b.contains('}'),
    ensures
        brace_span(a + (seq!['{'] + inner + seq!['}']) + b) == seq!['{'] + inner + seq!['}'],
        braces_in_order(a + (seq!['{'] + inner + seq!['}']) + b),
{
    let mid = seq!['{'] + inner + seq!['}'];
    let s = a + mid + b;
    let i = a.len() as int;
    let j = (a.len() + inner.len() + 1) as int;
    assert(s[i] == '{');
    assert(s[j] == '}');
    assert forall|k: int| 0 <= k < i implies s[k] != '{' by {
        assert(s[k] == a[k]);
    }
    assert forall|k: int| j < k < s.len() implies s[k] != '}' by {
        assert(s[k] == b[k - j - 1]);
    }
    find::law_first_index(s, CharClass::Is('{'), 0);
    find::law_last_index(s, CharClass::Is('}'));
    assert(CharClass::Is('{').has(s[i]));
    assert(CharClass::Is('}').has(s[j]));
    assert(find::first_index(s, CharClass::Is('{'), 0) == Some(i));
    assert(find::last_index(s, CharClass::Is('}')) == Some(j));
    assert(s.subrange(i, j + 1) =~= mid);
}

/// A status that is no success is an error: without quota a wait of twenty seconds,
/// else the status with what was sent.
pub proof fn law_status_error(code: u16, status: Seq<char>, body: Seq<char>, e: GeminiError)
    requires
        status_error(code, status, body, e),
    ensures
        code == 429 ==> e == GeminiError::RateLimited(20),
        code != 429 ==> (e matches GeminiError::ApiError(m) && find::occurs(m@, status)
            && body.is_suffix_of(m@)),
{
    if code != 429 {
        let m = e->ApiError_0@;
        let n = "HTTP "@.len() as int;
        assert(m.subrange(n, (n + status.len()) as int) =~= status);
        assert(find::occurs_at(m, status, n));
        assert(m.subrange(m.len() - body.len(), m.len() as int) =~= body);
    }
}

/// The first part is taken wherever there is a reply with a part.
pub proof fn law_first_part(response: GenerateResponse)
    ensures
        match first_part(response) {
            Some(p) => response.candidates matches Some(c) && c@.len() > 0 && c@[0].parts@.len()
                > 0 && p == c@[0].parts@[0],
            None => response.candidates matches Some(c) ==> c@.len() == 0 || c@[0].parts@.len()
                == 0,
        },
{
}

} // verus!
