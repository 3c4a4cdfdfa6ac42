//! Requests for embeddings: the keys that are used in turn, the batches, and
//! what is done with each reply.
use vstd::prelude::*;

use crate::ai::reply;
use crate::embedding::EmbeddingError;
use crate::text;
use crate::text::bytes;
use crate::text::chars;
use crate::text::edit;
use crate::text::find;
use crate::text::split;

verus! {

/// The model that is used at first.
pub const DEFAULT_MODEL: &'static str = "models/gemini-embedding-001";

/// Where the service is.
pub const BASE_URL: &'static str = "https://generativelanguage.googleapis.com/v1beta";

/// What the vector of a document is for.
pub const TASK_TYPE_DOCUMENT: &'static str = "RETRIEVAL_DOCUMENT";

/// What the vector of a query is for.
pub const TASK_TYPE_QUERY: &'static str = "QUESTION_ANSWERING";

/// The most texts in a batch.
pub const MAX_BATCH_SIZE: usize = 100;

/// The most characters of a text.
pub const MAX_TEXT_LENGTH: usize = 6000;

/// The pause between batches, in milliseconds.
pub const BATCH_DELAY_MS: u64 = 300;

/// The pause when no key has quota, in milliseconds.
pub const RATE_LIMIT_WAIT_MS: u64 = 60_000;

/// How often a request is tried.
pub const MAX_RETRIES: u32 = 20;

/// The components of a vector.
pub const EMBEDDING_DIM: u32 = 768;

/// The keys, the one in use, and the model.
#[derive(Debug)]
pub struct GeminiEmbedding {
    /// The keys.
    pub api_keys: Vec<String>,
    /// The key in use.
    pub current_key: usize,
    /// The model.
    pub model: String,
}

/// A request for the vector of a text.
#[derive(Debug)]
pub struct EmbedRequest {
    /// The model.
    pub model: String,
    /// The text.
    pub text: String,
    /// What the vector is for.
    pub task_type: String,
    /// How many components the vector has.
    pub output_dimensionality: u32,
}

/// The text that is sent: without white space at the ends, and cut.
pub open spec fn sent_text(s: Seq<char>) -> Seq<char> {
    edit::first_chars(split::stripped(s), MAX_TEXT_LENGTH as int)
}

/// The text that is sent.
pub fn truncate_text(s: &str) -> (r: String)
    ensures
        r@ == sent_text(s@),
{
    edit::take_chars(split::strip(s).as_str(), MAX_TEXT_LENGTH)
}

/// What a key looks like in a report: its ends, if it is longer than eight
/// bytes. `None` where a character stands across one of the cuts.
pub open spec fn masked_key(key: Seq<char>) -> Option<Seq<char>> {
    let len = chars::utf8_len(key);
    if len > 8 {
        match (
            bytes::chars_before(key, 4, 0),
            bytes::chars_before(key, (len - 4) as nat, 0),
        ) {
            (Some(i), Some(j)) => Some(key.take(i) + "..."@ + key.skip(j)),
            _ => None,
        }
    } else if len == 0 {
        Some("(rỗng)"@)
    } else {
        Some("***"@)
    }
}

/// What a key looks like in a report.
pub fn mask_key(key: &str) -> (r: Option<String>)
    ensures
        text::option_view(r) == masked_key(key@),
{
    let len: usize = chars::byte_len(key);
    if len > 8 {
        let front: Option<usize> = bytes::count_chars_before(key, 4);
        let back: Option<usize> = bytes::count_chars_before(key, len - 4);
        match (front, back) {
            (Some(i), Some(j)) => {
                let count: usize = edit::char_count(key);
                let head: String = edit::slice(key, 0, i);
                let tail: String = edit::slice(key, j, count);
                assert(head@ =~= key@.take(i as int));
                assert(tail@ =~= key@.skip(j as int));
                Some(edit::concat3(head.as_str(), "...", tail.as_str()))
            },
            _ => None,
        }
    } else if len == 0 {
        Some(edit::owned("(rỗng)"))
    } else {
        Some(edit::owned("***"))
    }
}

/// The model with its full name.
pub open spec fn full_model(model: Seq<char>) -> Seq<char> {
    if find::begins(model, "models/"@) {
        model
    } else {
        "models/"@ + model
    }
}

impl GeminiEmbedding {
    /// The key in use is one of the keys, where there are any.
    pub open spec fn valid(self) -> bool {
        self.api_keys@.len() == 0 || self.current_key < self.api_keys@.len()
    }

    /// The key in use, unless it is empty or there is none.
    pub open spec fn key(self) -> Option<Seq<char>> {
        if self.api_keys@.len() == 0 || self.api_keys@[self.current_key as int]@.len() == 0 {
            None
        } else {
            Some(self.api_keys@[self.current_key as int]@)
        }
    }

    /// The same with the next key in use; after the last comes the first.
    pub open spec fn rotated(self) -> GeminiEmbedding {
        GeminiEmbedding {
            current_key: if self.api_keys@.len() <= 1 {
                self.current_key
            } else if self.current_key + 1 == self.api_keys@.len() {
                0
            } else {
                (self.current_key + 1) as usize
            },
            ..self
        }
    }

    /// The same after the next key was taken `n` times.
    pub open spec fn rotated_times(self, n: nat) -> GeminiEmbedding
        decreases n,
    {
        if n == 0 {
            self
        } else {
            self.rotated_times((n - 1) as nat).rotated()
        }
    }

    /// Begins with the first of the keys.
    pub fn new(api_keys: Vec<String>) -> (r: GeminiEmbedding)
        ensures
            r.valid(),
            r.api_keys == api_keys,
            r.current_key == 0,
            r.model@ == DEFAULT_MODEL@,
    {
        GeminiEmbedding { api_keys, current_key: 0, model: edit::owned(DEFAULT_MODEL) }
    }

    /// Whether some key is not empty.
    pub fn has_key(&self) -> (r: bool)
        ensures
            r == exists|i: int|
                0 <= i < self.api_keys@.len() && (#[trigger] self.api_keys@[i])@.len() > 0,
    {
        let mut i: usize = 0;
        while i < self.api_keys.len()
            invariant
                i <= self.api_keys@.len(),
                forall|j: int| 0 <= j < i ==> (#[trigger] self.api_keys@[j])@.len() == 0,
            decreases self.api_keys@.len() - i,
        {
            if !self.api_keys[i].as_str().is_empty() {
                assert(self.api_keys@[i as int]@.len() > 0);
                return true;
            }
            i += 1;
        }
        false
    }

    /// The model.
    pub fn current_model(&self) -> (r: String)
        ensures
            r@ == self.model@,
    {
        self.model.clone()
    }

    /// Sets the model, by its identifier or its full name.
    pub fn set_model(&mut self, model_id: &str)
        ensures
            final(self).model@ == full_model(model_id@),
            final(self).api_keys == old(self).api_keys,
            final(self).current_key == old(self).current_key,
    {
        self.model = if find::starts_with(model_id, "models/") {
            edit::owned(model_id)
        } else {
            edit::concat2("models/", model_id)
        };
    }

    /// Sets the keys, and begins with the first of them.
    pub fn set_api_keys(&mut self, keys: Vec<String>)
        ensures
            final(self).valid(),
            final(self).api_keys == keys,
            final(self).current_key == 0,
            final(self).model == old(self).model,
    {
        self.api_keys = keys;
        self.current_key = 0;
    }

    /// The key in use.
    pub fn get_current_key(&self) -> (r: Option<String>)
        requires
            self.valid(),
        ensures
            text::option_view(r) == self.key(),
    {
        if self.api_keys.len() == 0 {
            return None;
        }
        let key: &String = &self.api_keys[self.current_key];
        if key.as_str().is_empty() {
            None
        } else {
            Some(key.clone())
        }
    }

    /// Takes the next key.
    pub fn rotate_key(&mut self) -> (r: Option<String>)
        requires
            old(self).valid(),
        ensures
            final(self).valid(),
            *final(self) == old(self).rotated(),
            text::option_view(r) == final(self).key(),
    {
        let n: usize = self.api_keys.len();
        if n > 1 {
            self.current_key = if self.current_key + 1 == n {
                0
            } else {
                self.current_key + 1
            };
        }
        self.get_current_key()
    }

    /// The request for the vector of one text. It needs a key and a text that
    /// is not blank.
    pub fn single_request(&self, s: &str, task_type: &str) -> (r: Result<
        EmbedRequest,
        EmbeddingError,
    >)
        requires
            self.valid(),
        ensures
            match r {
                Ok(request) => {
                    &&& self.key() is Some
                    &&& split::stripped(s@).len() > 0
                    &&& is_request(request, self.model@, s@, task_type@)
                },
                Err(EmbeddingError::ModelError(m)) => {
                    ||| self.key() is None && m@ == NO_KEY@
                    ||| self.key() is Some && split::stripped(s@).len() == 0 && m@ == NO_TEXT@
                },
                Err(_) => false,
            },
    {
        if self.get_current_key().is_none() {
            return Err(EmbeddingError::ModelError(edit::owned(NO_KEY)));
        }
        let text: String = truncate_text(s);
        if text.as_str().is_empty() {
            return Err(EmbeddingError::ModelError(edit::owned(NO_TEXT)));
        }
        Ok(
            EmbedRequest {
                model: self.model.clone(),
                text,
                task_type: edit::owned(task_type),
                output_dimensionality: EMBEDDING_DIM,
            },
        )
    }

    /// Where the vector of one text is asked for.
    pub fn single_url(&self) -> (r: String)
        ensures
            r@ == BASE_URL@ + "/"@ + self.model@ + ":embedContent"@,
    {
        let mut out: String = edit::concat3(BASE_URL, "/", self.model.as_str());
        out.append(":embedContent");
        out
    }

    /// Where the vectors of a batch are asked for.
    pub fn batch_url(&self) -> (r: String)
        ensures
            r@ == BASE_URL@ + "/"@ + self.model@ + ":batchEmbedContents"@,
    {
        let mut out: String = edit::concat3(BASE_URL, "/", self.model.as_str());
        out.append(":batchEmbedContents");
        out
    }

    /// The requests for the vectors of texts, in batches. They need a key,
    /// though not the one in use.
    pub fn batch_requests(&self, texts: &Vec<String>) -> (r: Result<
        Vec<Vec<EmbedRequest>>,
        EmbeddingError,
    >)
        ensures
            match r {
                Ok(batches) => {
                    &&& exists|i: int|
                        0 <= i < self.api_keys@.len() && (#[trigger] self.api_keys@[i])@.len() > 0
                    &&& are_batches(batches@, self.model@, text::views(texts@))
                },
                Err(EmbeddingError::ModelError(m)) => {
                    &&& m@ == NO_KEY@
                    &&& forall|i: int|
                        0 <= i < self.api_keys@.len() ==> (#[trigger] self.api_keys@[i])@.len()
                            == 0
                },
                Err(_) => false,
            },
    {
        if !self.has_key() {
            return Err(EmbeddingError::ModelError(edit::owned(NO_KEY)));
        }
        let ghost ts = text::views(texts@);
        let len: usize = texts.len();
        let mut batches: Vec<Vec<EmbedRequest>> = Vec::new();
        let mut start: usize = 0;
        while start < len
            invariant
                len == texts@.len(),
                ts == text::views(texts@),
                start <= len,
                start == len || start == batches@.len() * MAX_BATCH_SIZE,
                batches@.len() == batch_count(start as nat),
                forall|b: int|
                    0 <= b < batches@.len() ==> is_batch(
                        #[trigger] batches@[b]@,
                        self.model@,
                        batch_texts(ts, b),
                    ),
            decreases len - start,
        {
            let ghost b = batches@.len() as int;
            let end: usize = if len - start < MAX_BATCH_SIZE {
                len
            } else {
                start + MAX_BATCH_SIZE
            };
            let mut batch: Vec<EmbedRequest> = Vec::new();
            let mut i: usize = start;
            while i < end
                invariant
                    start <= i <= end <= len,
                    len == texts@.len(),
                    ts == text::views(texts@),
                    batch@.len() == i - start,
                    forall|k: int|
                        0 <= k < batch@.len() ==> is_request(
                            #[trigger] batch@[k],
                            self.model@,
                            ts[start + k],
                            TASK_TYPE_DOCUMENT@,
                        ),
                decreases end - i,
            {
                batch.push(
                    EmbedRequest {
                        model: self.model.clone(),
                        text: truncate_text(texts[i].as_str()),
                        task_type: edit::owned(TASK_TYPE_DOCUMENT),
                        output_dimensionality: EMBEDDING_DIM,
                    },
                );
                i += 1;
            }
            assert(batch_texts(ts, b) =~= ts.subrange(start as int, end as int));
            assert(is_batch(batch@, self.model@, batch_texts(ts, b)));
            batches.push(batch);
            start = end;
        }
        Ok(batches)
    }

    /// The number of components of a vector.
    pub fn embedding_dim(&self) -> (n: usize)
        ensures
            n == EMBEDDING_DIM,
    {
        EMBEDDING_DIM as usize
    }
}

/// What is said where there is no key.
pub const NO_KEY: &'static str = "Chưa có API key";

/// What is said of a blank text.
pub const NO_TEXT: &'static str = "Text rỗng";

/// What is said when the work was stopped.
pub const STOPPED: &'static str = "Đã dừng";

/// What is said of a reply without a vector.
pub const NO_VECTOR: &'static str = "Thiếu embedding";

/// The request asks the model for the vector of the text.
pub open spec fn is_request(
    request: EmbedRequest,
    model: Seq<char>,
    s: Seq<char>,
    task_type: Seq<char>,
) -> bool {
    &&& request.model@ == model
    &&& request.text@ == sent_text(s)
    &&& request.task_type@ == task_type
    &&& request.output_dimensionality == EMBEDDING_DIM
}

/// The requests ask for the vectors of the documents, one for each.
pub open spec fn is_batch(
    batch: Seq<EmbedRequest>,
    model: Seq<char>,
    texts: Seq<Seq<char>>,
) -> bool {
    &&& batch.len() == texts.len()
    &&& forall|k: int|
        0 <= k < batch.len() ==> is_request(
            #[trigger] batch[k],
            model,
            texts[k],
            TASK_TYPE_DOCUMENT@,
        )
}

/// How many batches there are for so many texts.
pub open spec fn batch_count(n: nat) -> nat {
    (n + MAX_BATCH_SIZE - 1) as nat / MAX_BATCH_SIZE as nat
}

/// The texts of a batch.
pub open spec fn batch_texts(texts: Seq<Seq<char>>, b: int) -> Seq<Seq<char>> {
    let end = (b + 1) * MAX_BATCH_SIZE;
    texts.subrange(
        b * MAX_BATCH_SIZE,
        if end < texts.len() {
            end
        } else {
            texts.len() as int
        },
    )
}

/// The batches ask for the vectors of all documents.
pub open spec fn are_batches(
    batches: Seq<Vec<EmbedRequest>>,
    model: Seq<char>,
    texts: Seq<Seq<char>>,
) -> bool {
    &&& batches.len() == batch_count(texts.len())
    &&& forall|b: int|
        0 <= b < batches.len() ==> is_batch(
            #[trigger] batches[b]@,
            model,
            batch_texts(texts, b),
        )
}

/// The texts of the first `b` batches, one after the other.
pub open spec fn texts_of_batches(texts: Seq<Seq<char>>, b: int) -> Seq<Seq<char>>
    decreases b,
{
    if b <= 0 {
        Seq::empty()
    } else {
        texts_of_batches(texts, b - 1) + batch_texts(texts, b - 1)
    }
}

/// No batch is empty or too large, and the batches together hold every text
/// once, in order.
pub proof fn law_batches(texts: Seq<Seq<char>>, b: int)
    requires
        0 <= b < batch_count(texts.len()),
    ensures
        0 < batch_texts(texts, b).len() <= MAX_BATCH_SIZE,
        texts_of_batches(texts, batch_count(texts.len()) as int) == texts,
{
    lemma_batches(texts, batch_count(texts.len()) as int);
    let n = texts.len() as int;
    assert(texts.take(n) =~= texts);
}

proof fn lemma_batches(texts: Seq<Seq<char>>, b: int)
    requires
        0 <= b <= batch_count(texts.len()),
    ensures
        texts_of_batches(texts, b) == texts.take(
            if b * MAX_BATCH_SIZE < texts.len() {
                b * MAX_BATCH_SIZE
            } else {
                texts.len() as int
            },
        ),
    decreases b,
{
    if b > 0 {
        lemma_batches(texts, b - 1);
        let end = if b * MAX_BATCH_SIZE < texts.len() {
            b * MAX_BATCH_SIZE
        } else {
            texts.len() as int
        };
        assert(texts.take((b - 1) * MAX_BATCH_SIZE) + batch_texts(texts, b - 1) =~= texts.take(
            end,
        ));
    }
}

/// After as many turns as there are keys, the first of them is in use again,
/// and in between each of the others once.
pub proof fn law_rotation_is_cyclic(e: GeminiEmbedding, n: nat)
    requires
        e.valid(),
        e.api_keys@.len() > 1,
    ensures
        e.rotated_times(n).valid(),
        e.rotated_times(n).api_keys == e.api_keys,
        e.rotated_times(n).model == e.model,
        e.rotated_times(n).current_key == (e.current_key + n) % (e.api_keys@.len() as int),
        n == e.api_keys@.len() ==> e.rotated_times(n) == e,
        0 < n < e.api_keys@.len() ==> e.rotated_times(n).current_key != e.current_key,
    decreases n,
{
    let c = e.api_keys@.len() as int;
    let k = e.current_key as int;
    assert(c == e.api_keys.len());
    if n == 0 {
        vstd::arithmetic::div_mod::lemma_small_mod(k as nat, c as nat);
    } else {
        law_rotation_is_cyclic(e, (n - 1) as nat);
        let m = (k + n - 1) % c;
        vstd::arithmetic::div_mod::lemma_mod_bound(k + n - 1, c);
        vstd::arithmetic::div_mod::lemma_small_mod(1, c as nat);
        vstd::arithmetic::div_mod::lemma_add_mod_noop(k + n - 1, 1, c);
        assert((m + 1) % c == (k + n) % c);
        if m + 1 == c {
            vstd::arithmetic::div_mod::lemma_mod_self_0(c);
        } else {
            vstd::arithmetic::div_mod::lemma_small_mod((m + 1) as nat, c as nat);
        }
    }
    if k + n < c {
        vstd::arithmetic::div_mod::lemma_small_mod((k + n) as nat, c as nat);
    } else if k + n < 2 * c {
        vstd::arithmetic::div_mod::lemma_mod_add_multiples_vanish(k + n - c, c);
        vstd::arithmetic::div_mod::lemma_small_mod((k + n - c) as nat, c as nat);
    }
}

/// Which request is tried.
#[derive(Clone, Copy, Debug, PartialEq, Eq, Structural)]
pub enum EmbedKind {
    /// That for one text.
    Single,
    /// That for a batch.
    Batch,
}

/// What comes of a try.
#[derive(Debug)]
pub enum EmbedEvent {
    /// The work was stopped before the try.
    Cancelled,
    /// The service was not reached.
    Unreached(String),
    /// The reply could not be read.
    Unread(String),
    /// The service replied.
    Replied {
        /// The status.
        code: u16,
        /// The status in words.
        status: String,
        /// The front of what it sent.
        body: String,
    },
}

/// What is done after a try.
#[derive(Debug)]
pub enum EmbedStep {
    /// The reply is good.
    Done,
    /// The tries end.
    Fail(EmbeddingError),
    /// It is tried again, after so many milliseconds.
    Again(u64),
    /// It is given up, after so many milliseconds.
    GiveUp(u64, EmbeddingError),
}

/// A request that is tried.
#[derive(Debug)]
pub struct EmbedCall {
    /// How often it was tried.
    pub attempt: u32,
    /// The key that is used.
    pub api_key: String,
}

/// How long it takes until the next try: nothing while there is a key that was
/// not tried in this round, else the pause.
pub open spec fn wait_after(attempt: u32, keys: nat) -> u64 {
    if keys > 1 && (attempt as int + 1) % (keys as int) != 0 {
        0
    } else {
        RATE_LIMIT_WAIT_MS
    }
}

/// The error of a reply that is no success.
pub open spec fn refusal(kind: EmbedKind, status: Seq<char>, body: Seq<char>) -> Seq<char> {
    match kind {
        EmbedKind::Single => "HTTP "@ + status + ": "@ + body,
        EmbedKind::Batch => "HTTP "@ + status,
    }
}

impl EmbedCall {
    /// The first try, with the key in use.
    pub fn start(keys: &GeminiEmbedding) -> (r: Result<EmbedCall, EmbeddingError>)
        requires
            keys.valid(),
        ensures
            match r {
                Ok(call) => call.attempt == 0 && Some(call.api_key@) == keys.key(),
                Err(EmbeddingError::ModelError(m)) => keys.key() is None && m@ == NO_KEY@,
                Err(_) => false,
            },
    {
        match keys.get_current_key() {
            Some(api_key) => Ok(EmbedCall { attempt: 0, api_key }),
            None => Err(EmbeddingError::ModelError(edit::owned(NO_KEY))),
        }
    }

    /// What is done after a try. Only a reply that speaks of quota leads to
    /// another try, with the next key; after the last key of a round there is a
    /// pause, and after the last try it is given up.
    pub fn step(&mut self, keys: &mut GeminiEmbedding, kind: EmbedKind, event: EmbedEvent) -> (r:
        EmbedStep)
        requires
            old(keys).valid(),
            old(self).attempt < MAX_RETRIES,
        ensures
            final(keys).valid(),
            match event {
                EmbedEvent::Replied { code, status, body } => if code == 429 {
                    &&& *final(keys) == old(keys).rotated()
                    &&& final(self).attempt == old(self).attempt + 1
                    &&& final(self).api_key@ == match final(keys).key() {
                        Some(key) => key,
                        None => old(self).api_key@,
                    }
                    &&& {
                        let wait = wait_after(old(self).attempt, old(keys).api_keys@.len());
                        if old(self).attempt + 1 < MAX_RETRIES {
                            r == EmbedStep::Again(wait)
                        } else {
                            r == EmbedStep::GiveUp(
                                wait,
                                EmbeddingError::QuotaExhausted(
                                    old(keys).api_keys@.len() as usize,
                                    MAX_RETRIES,
                                ),
                            )
                        }
                    }
                } else {
                    &&& *final(keys) == *old(keys)
                    &&& *final(self) == *old(self)
                    &&& if 200 <= code <= 299 {
                        r == EmbedStep::Done
                    } else {
                        r matches EmbedStep::Fail(EmbeddingError::ModelError(m)) && m@ == refusal(
                            kind,
                            status@,
                            body@,
                        )
                    }
                },
                EmbedEvent::Cancelled => {
                    &&& *final(keys) == *old(keys)
                    &&& *final(self) == *old(self)
                    &&& r matches EmbedStep::Fail(EmbeddingError::ModelError(m)) && m@ == STOPPED@
                },
                EmbedEvent::Unreached(e) => {
                    &&& *final(keys) == *old(keys)
                    &&& *final(self) == *old(self)
                    &&& r matches EmbedStep::Fail(EmbeddingError::ModelError(m)) && m@
                        == "Network: "@ + e@
                },
                EmbedEvent::Unread(e) => {
                    &&& *final(keys) == *old(keys)
                    &&& *final(self) == *old(self)
                    &&& r matches EmbedStep::Fail(EmbeddingError::ModelError(m)) && m@
                        == "Read: "@ + e@
                },
            },
    {
        match event {
            EmbedEvent::Cancelled => EmbedStep::Fail(
                EmbeddingError::ModelError(edit::owned(STOPPED)),
            ),
            EmbedEvent::Unreached(e) => EmbedStep::Fail(
                EmbeddingError::ModelError(edit::concat2("Network: ", e.as_str())),
            ),
            EmbedEvent::Unread(e) => EmbedStep::Fail(
                EmbeddingError::ModelError(edit::concat2("Read: ", e.as_str())),
            ),
            EmbedEvent::Replied { code, status, body } => {
                if code == 429 {
                    let count: usize = keys.api_keys.len();
                    let wait: u64 = if count > 1 && (self.attempt as u64 + 1) % count as u64 != 0 {
                        0
                    } else {
                        RATE_LIMIT_WAIT_MS
                    };
                    if let Some(next) = keys.rotate_key() {
                        self.api_key = next;
                    }
                    self.attempt = self.attempt + 1;
                    if self.attempt < MAX_RETRIES {
                        EmbedStep::Again(wait)
                    } else {
                        EmbedStep::GiveUp(
                            wait,
                            EmbeddingError::QuotaExhausted(count, MAX_RETRIES),
                        )
                    }
                } else if 200 <= code && code <= 299 {
                    EmbedStep::Done
                } else {
                    let message: String = match kind {
                        EmbedKind::Single => {
                            let mut m: String = edit::concat3("HTTP ", status.as_str(), ": ");
                            m.append(body.as_str());
                            m
                        },
                        EmbedKind::Batch => edit::concat2("HTTP ", status.as_str()),
                    };
                    EmbedStep::Fail(EmbeddingError::ModelError(message))
                }
            },
        }
    }
}

/// The bytes of a refusal that are reported.
pub const REFUSAL_BYTES: usize = reply::REFUSAL_BYTES;

/// The vector of a reply to a single request, given what was read from it.
pub fn single_vector(read: Result<Option<Vec<u32>>, String>) -> (r: Result<
    Vec<u32>,
    EmbeddingError,
>)
    ensures
        match read {
            Ok(Some(vector)) => r == Ok::<Vec<u32>, EmbeddingError>(vector),
            Ok(None) => r matches Err(EmbeddingError::ModelError(m)) && m@ == NO_VECTOR@,
            Err(e) => r matches Err(EmbeddingError::ModelError(m)) && m@ == "Parse: "@ + e@,
        },
{
    match read {
        Ok(Some(vector)) => Ok(vector),
        Ok(None) => Err(EmbeddingError::ModelError(edit::owned(NO_VECTOR))),
        Err(e) => Err(EmbeddingError::ModelError(edit::concat2("Parse: ", e.as_str()))),
    }
}

/// The vectors of a reply to a batch, given what was read from it.
pub fn batch_vectors(read: Result<Vec<Vec<u32>>, String>) -> (r: Result<
    Vec<Vec<u32>>,
    EmbeddingError,
>)
    ensures
        match read {
            Ok(vectors) => r == Ok::<Vec<Vec<u32>>, EmbeddingError>(vectors),
            Err(e) => r matches Err(EmbeddingError::ModelError(m)) && m@ == "Parse: "@ + e@,
        },
{
    match read {
        Ok(vectors) => Ok(vectors),
        Err(e) => Err(EmbeddingError::ModelError(edit::concat2("Parse: ", e.as_str()))),
    }
}

/// What is done before a batch: nothing more once the work was stopped, else
/// a pause, in milliseconds, before every batch but the first.
pub fn before_batch(index: usize, cancelled: bool) -> (r: Option<u64>)
    ensures
        r == if cancelled {
            None
        } else if index > 0 {
            Some(BATCH_DELAY_MS)
        } else {
            Some(0)
        },
{
    if cancelled {
        None
    } else if index > 0 {
        Some(BATCH_DELAY_MS)
    } else {
        Some(0)
    }
}

/// A text is sent without white space at its ends, and as a whole where it has six
/// thousand characters or fewer; else so many of its front are.
pub proof fn law_sent_text(s: Seq<char>)
    ensures
        split::stripped(s).len() <= 6000 ==> sent_text(s) == split::stripped(s),
        split::stripped(s).len() > 6000 ==> sent_text(s) == split::stripped(s).take(6000),
{
}

/// Every batch but the last has a hundred texts, and all requests of the batches
/// ask for the texts, one for each and in order.
pub proof fn law_full_batches(
    batches: Seq<Vec<EmbedRequest>>,
    model: Seq<char>,
    texts: Seq<Seq<char>>,
    i: int,
)
    requires
        are_batches(batches, model, texts),
        0 <= i < texts.len(),
    ensures
        i / 100 < batches.len(),
        i % 100 < batches[i / 100]@.len(),
        batches[i / 100]@[i % 100].text@ == sent_text(texts[i]),
        batches[i / 100]@[i % 100].model@ == model,
        i / 100 < batches.len() - 1 ==> batches[i / 100]@.len() == 100,
{
    let b = i / 100;
    let n = texts.len() as int;
    assert(batch_count(texts.len()) == (n + 99) / 100);
    assert(is_batch(batches[b]@, model, batch_texts(texts, b)));
    let part = batch_texts(texts, b);
    assert(part[i % 100] == texts[i]);
    assert(is_request(batches[b]@[i % 100], model, part[i % 100], TASK_TYPE_DOCUMENT@));
}

/// Of a key in ASCII that is longer than eight characters, a report has the first
/// four and the last four; of a shorter one it has none.
pub proof fn law_masked_key(key: Seq<char>)
    requires
        chars::all_ascii(key),
    ensures
        key.len() > 8 ==> masked_key(key) == Some(
            key.take(4) + "..."@ + key.skip(key.len() - 4),
        ),
        0 < key.len() <= 8 ==> masked_key(key) == Some("***"@),
        key.len() == 0 ==> masked_key(key) == Some("(rỗng)"@),
{
    lemma_ascii_len(key);
    if key.len() > 8 {
        assert forall|i: int| 0 <= i <= key.len() implies chars::utf8_len(#[trigger] key.take(i))
            == i by {
            lemma_ascii_len(key.take(i));
        }
        lemma_ascii_before(key, 4, 0);
        lemma_ascii_before(key, key.len() - 4, 0);
    }
}

proof fn lemma_ascii_len(s: Seq<char>)
    requires
        chars::all_ascii(s),
    ensures
        chars::utf8_len(s) == s.len(),
    decreases s.len(),
{
    if s.len() > 0 {
        let t = s.drop_last();
        assert forall|i: int| 0 <= i < t.len() implies (#[trigger] t[i]) as u32 <= 0x7f by {
            assert(t[i] == s[i]);
        }
        lemma_ascii_len(t);
        assert(s[s.len() - 1] as u32 <= 0x7f);
    }
}

proof fn lemma_ascii_before(s: Seq<char>, pos: int, i: int)
    requires
        0 <= i <= pos <= s.len(),
        forall|k: int| 0 <= k <= s.len() ==> chars::utf8_len(#[trigger] s.take(k)) == k,
    ensures
        bytes::chars_before(s, pos as nat, i) == Some(pos),
    decreases pos - i,
{
    assert(chars::utf8_len(s.take(i)) == i);
    if i < pos {
        lemma_ascii_before(s, pos, i + 1);
    }
}

/// While there is a key that was not tried in this round, the next is tried at
/// once; after the last key of a round there is the pause.
pub proof fn law_wait_after(round: nat, k: nat, keys: nat)
    requires
        keys >= 2,
        k < keys,
        round * keys + k <= u32::MAX,
    ensures
        wait_after((round * keys + k) as u32, keys) == if k + 1 < keys {
            0
        } else {
            RATE_LIMIT_WAIT_MS
        },
{
    let a = (round * keys + k) as int;
    if k + 1 < keys {
        vstd::arithmetic::div_mod::lemma_fundamental_div_mod_converse(
            a + 1,
            keys as int,
            round as int,
            (k + 1) as int,
        );
    } else {
        assert(a + 1 == (round + 1) * keys) by (nonlinear_arith)
            requires
                a == round * keys + k,
                k + 1 == keys,
        ;
        vstd::arithmetic::div_mod::lemma_fundamental_div_mod_converse(
            a + 1,
            keys as int,
            (round + 1) as int,
            0,
        );
    }
}

/// The name of a model is sent with its front, which is put before it once.
pub proof fn law_full_model(model: Seq<char>)
    ensures
        "models/"@.is_prefix_of(full_model(model)),
        model.is_suffix_of(full_model(model)),
        full_model(full_model(model)) == full_model(model),
{
    reveal_strlit("models/");
    let pat = "models/"@;
    let r = full_model(model);
    if find::begins(model, pat) {
        assert(model.subrange(0, (0 + pat.len()) as int) =~= pat);
        assert(model.subrange(0, pat.len() as int) =~= pat);
        assert(model.subrange(0, model.len() as int) =~= model);
    } else {
        assert(r.subrange(0, (0 + pat.len()) as int) =~= pat);
        assert(r.subrange(0, pat.len() as int) =~= pat);
        assert(r.subrange(r.len() - model.len(), r.len() as int) =~= model);
        assert(find::begins(r, pat));
    }
}

} // verus!
