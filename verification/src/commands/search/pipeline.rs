//! The chat pipeline: how a query is answered, when the last context serves
//! again, and which keywords are searched for.
use vstd::prelude::*;

use crate::commands::search::keyword;
use crate::commands::search::turn::ChatRoute;
use crate::commands::search::AttachedFile;
use crate::score;
use crate::score::Score;
use crate::search::vector_index::VectorSearchResult;
use crate::select;
use crate::session;
use crate::session::SessionContext;
use crate::text;
use crate::text::chars;
use crate::text::edit;
use crate::text::find;
use crate::text::number;
use crate::text::split;

verus! {

/// How long, in seconds, the context of an answer can serve again.
pub const FOLLOW_UP_SECONDS: u64 = 600;

/// Words that go on with what was said.
pub const FOLLOW_UP_WORDS: [&'static str; 26] = [
    "thêm", "tiếp", "nữa", "chi tiết", "tại sao", "giải thích", "so sánh", "ý tôi là", "ý là",
    "cụ thể", "chính xác", "đúng không", "phải không", "sai", "đúng", "không đúng", "vậy thì",
    "còn gì", "thế còn", "ngoài ra", "bổ sung", "ví dụ", "liệt kê", "tóm lại", "kết luận",
    "có nghĩa",
];

/// Words that point back to what was said.
pub const POINTING_WORDS: [&'static str; 14] = [
    "nó", "đó", "này", "kia", "file đó", "file này", "tài liệu đó", "tài liệu này", "bảng đó",
    "bảng này", "cái đó", "cái này", "mục đó", "mục này",
];

/// Words that turn to something else.
pub const NEW_TOPIC_WORDS: [&'static str; 7] = [
    "tìm file khác", "tài liệu khác", "tìm thêm file", "file mới", "chủ đề khác", "hãy tìm",
    "search",
];

/// How many of the words are among the others.
pub open spec fn shared_count(ws: Seq<Seq<char>>, others: Seq<Seq<char>>) -> nat
    decreases ws.len(),
{
    if ws.len() == 0 {
        0
    } else {
        shared_count(ws.drop_last(), others) + if others.contains(ws.last()) {
            1nat
        } else {
            0nat
        }
    }
}

/// More than two fifths of the words of a query are keywords of the last
/// answer.
pub open spec fn overlaps(query: Seq<char>, keywords: Seq<char>) -> bool {
    let ws = split::words(query);
    5 * shared_count(ws, split::words(keywords)) > 2 * ws.len()
}

fn member_of(words: &Vec<String>, w: &String) -> (r: bool)
    ensures
        r == text::views(words@).contains(w@),
{
    let ghost ws = text::views(words@);
    let mut i: usize = 0;
    while i < words.len()
        invariant
            i <= words@.len(),
            ws == text::views(words@),
            forall|j: int| 0 <= j < i ==> ws[j] != w@,
        decreases words@.len() - i,
    {
        if words[i].eq(w) {
            assert(ws[i as int] == w@);
            return true;
        }
        i += 1;
    }
    false
}

/// Whether a query, in lower case, shares more than two fifths of its words
/// with the keywords of the last answer.
pub fn has_overlap(query: &str, keywords: &str) -> (r: bool)
    ensures
        r == overlaps(query@, keywords@),
{
    let words: Vec<String> = split::split_words(query);
    let others: Vec<String> = split::split_words(keywords);
    let ghost ws = text::views(words@);
    let mut n: usize = 0;
    let mut i: usize = 0;
    while i < words.len()
        invariant
            i <= words@.len(),
            ws == text::views(words@),
            n <= i,
            n == shared_count(ws.take(i as int), text::views(others@)),
        decreases words@.len() - i,
    {
        assert(ws.take(i + 1).drop_last() =~= ws.take(i as int));
        if member_of(&others, &words[i]) {
            n += 1;
        }
        i += 1;
    }
    assert(ws.take(ws.len() as int) =~= ws);
    5 * n as u128 > 2 * words.len() as u128
}

/// A query in lower case goes on from the last answer, which rested on files
/// and is recent: it has a word that goes on or points back, or shares many
/// words with it; and it does not turn to something else.
pub open spec fn goes_on_from(query: Seq<char>, last: SessionContext, now: u64) -> bool {
    &&& !find::occurs_any(query, NEW_TOPIC_WORDS@)
    &&& session::age(last.timestamp, now) < FOLLOW_UP_SECONDS
    &&& last.attached_files@.len() > 0
    &&& {
        ||| find::occurs_any(query, FOLLOW_UP_WORDS@)
        ||| find::occurs_any(query, POINTING_WORDS@)
        ||| overlaps(query, last.keywords@)
    }
}

/// Whether a query in lower case goes on from the last answer.
pub fn is_follow_up(query: &str, last: &SessionContext, now: u64) -> (r: bool)
    ensures
        r == goes_on_from(query@, *last, now),
{
    if find::contains_any(query, NEW_TOPIC_WORDS.as_slice()) || session::seconds_since(
        last.timestamp,
        now,
    ) >= FOLLOW_UP_SECONDS || last.attached_files.len() == 0 {
        return false;
    }
    find::contains_any(query, FOLLOW_UP_WORDS.as_slice()) || find::contains_any(
        query,
        POINTING_WORDS.as_slice(),
    ) || has_overlap(query, last.keywords.as_str())
}

/// How a query is answered: not without a key; from the selected files where
/// some were selected; from the last context where the query goes on from it;
/// else from a search.
pub open spec fn route_of(
    query_lower: Seq<char>,
    key_count: nat,
    selected: bool,
    last: Option<SessionContext>,
    now: u64,
) -> ChatRoute {
    if key_count == 0 {
        ChatRoute::NoKey
    } else if selected {
        ChatRoute::Selected
    } else {
        match last {
            Some(l) => if goes_on_from(query_lower, l, now) {
                ChatRoute::FollowUp
            } else {
                ChatRoute::Search
            },
            None => ChatRoute::Search,
        }
    }
}

/// How a query that is in lower case is answered.
pub fn choose_route(
    query_lower: &str,
    key_count: usize,
    selected: bool,
    last: &Option<SessionContext>,
    now: u64,
) -> (r: ChatRoute)
    ensures
        r == route_of(query_lower@, key_count as nat, selected, *last, now),
{
    if key_count == 0 {
        ChatRoute::NoKey
    } else if selected {
        ChatRoute::Selected
    } else {
        match last {
            Some(l) => if is_follow_up(query_lower, l, now) {
                ChatRoute::FollowUp
            } else {
                ChatRoute::Search
            },
            None => ChatRoute::Search,
        }
    }
}

/// How a query is answered, whatever its case.
pub fn route_query(
    query: &str,
    key_count: usize,
    selected: bool,
    last: &Option<SessionContext>,
    now: u64,
) -> (r: ChatRoute)
    ensures
        r == route_of(chars::lowercase(query@), key_count as nat, selected, *last, now),
{
    choose_route(query.to_lowercase().as_str(), key_count, selected, last, now)
}

/// What is shown where there is no key.
pub const NO_KEY_TEXT: &'static str =
    "💡 Cấu hình Gemini API key trong ⚙️ Cài đặt để sử dụng chatbot.";

/// The most characters of a selected file.
pub const SELECTED_FILE_CHARS: usize = 200_000;

/// The context with one more selected file.
pub open spec fn with_file(
    context: Seq<char>,
    count: nat,
    name: Seq<char>,
    content: Seq<char>,
) -> Seq<char> {
    (if context.len() == 0 {
        Seq::empty()
    } else {
        context + "\n---\n"@
    }) + "["@ + number::decimal(count + 1) + "] "@ + name + ":\n"@ + edit::first_chars(
        content,
        SELECTED_FILE_CHARS as int,
    )
}

/// Adds a selected file, with its text, to the context and to the list of
/// files.
pub fn add_selected_file(
    context: &mut String,
    files: &mut Vec<AttachedFile>,
    name: &str,
    path: &str,
    content: &str,
)
    ensures
        final(context)@ == with_file(old(context)@, old(files)@.len(), name@, content@),
        final(files)@.len() == old(files)@.len() + 1,
        final(files)@.drop_last() == old(files)@,
        final(files)@.last().file_name@ == name@,
        final(files)@.last().file_path@ == path@,
        final(files)@.last().score.bits == score::FULL_SCORE_BITS,
{
    let ghost start = context@;
    if !context.as_str().is_empty() {
        context.append("\n---\n");
    }
    let ghost cut = context@;
    assert(cut =~= if start.len() == 0 {
        Seq::empty()
    } else {
        start + "\n---\n"@
    });
    context.append("[");
    context.append(number::to_decimal(files.len() as u128 + 1).as_str());
    context.append("] ");
    context.append(name);
    context.append(":\n");
    context.append(edit::take_chars(content, SELECTED_FILE_CHARS).as_str());
    let ghost before = files@;
    files.push(
        AttachedFile {
            file_name: edit::owned(name),
            file_path: edit::owned(path),
            score: Score { bits: score::FULL_SCORE_BITS },
        },
    );
    assert(files@.drop_last() =~= before);
}

/// The keywords that are searched for first: those of the model where it gave
/// some, else those of the query.
pub open spec fn first_keywords(from_model: Option<Seq<char>>, query: Seq<char>) -> Seq<char> {
    match from_model {
        Some(k) => if split::stripped(k).len() > 0 {
            k
        } else {
            keyword::keywords_of(query)
        },
        None => keyword::keywords_of(query),
    }
}

/// The keywords that are searched for first.
pub fn choose_keywords(from_model: Option<String>, query: &str) -> (r: String)
    ensures
        r@ == first_keywords(text::option_view(from_model), query@),
{
    match from_model {
        Some(k) => {
            let bare: String = split::strip(k.as_str());
            if !bare.as_str().is_empty() {
                k
            } else {
                keyword::extract_keywords(query)
            }
        },
        None => keyword::extract_keywords(query),
    }
}

/// How many of the words mean something: two bytes or more and no stop word.
pub open spec fn meaningful_count(ws: Seq<Seq<char>>) -> nat
    decreases ws.len(),
{
    if ws.len() == 0 {
        0
    } else {
        meaningful_count(ws.drop_last()) + if chars::utf8_len(ws.last()) >= 2 && !find::is_any(
            ws.last(),
            keyword::STOP_WORDS@,
        ) {
            1nat
        } else {
            0nat
        }
    }
}

fn count_meaningful(s: &str) -> (n: usize)
    ensures
        n == meaningful_count(split::words(s@)),
{
    let words: Vec<String> = split::split_words(s);
    let ghost ws = text::views(words@);
    let mut n: usize = 0;
    let mut i: usize = 0;
    while i < words.len()
        invariant
            i <= words@.len(),
            ws == text::views(words@),
            n <= i,
            n == meaningful_count(ws.take(i as int)),
        decreases words@.len() - i,
    {
        assert(ws.take(i + 1).drop_last() =~= ws.take(i as int));
        let w: &str = words[i].as_str();
        if chars::byte_len(w) >= 2 && !find::same_as_any(w, keyword::STOP_WORDS.as_slice()) {
            n += 1;
        }
        i += 1;
    }
    assert(ws.take(ws.len() as int) =~= ws);
    n
}

/// The words of both lines, each once whatever its case.
pub open spec fn merged_words(keywords: Seq<char>, last: Seq<char>) -> Seq<char> {
    let ws = split::words(keywords + " "@ + last);
    edit::joined(select::firsts(ws, keyword::lowercase_all(ws)), " "@)
}

/// The keywords that are searched for: where they say little, those of the
/// last answer are added.
pub open spec fn enriched(keywords: Seq<char>, last: Option<Seq<char>>) -> Seq<char> {
    match last {
        Some(l) => if meaningful_count(split::words(keywords)) < 2 {
            merged_words(keywords, l)
        } else {
            keywords
        },
        None => keywords,
    }
}

/// Joins the words whose key comes first.
pub fn join_firsts(words: &Vec<String>, keys: &Vec<String>) -> (r: String)
    requires
        words@.len() == keys@.len(),
    ensures
        r@ == edit::joined(
            select::firsts(text::views(words@), text::views(keys@)),
            " "@,
        ),
{
    let kept: Vec<String> = select::keep_firsts(words, keys);
    edit::join(kept.as_slice(), " ")
}

/// Adds the keywords of the last answer where the keywords say little.
pub fn enrich_keywords(keywords: String, last: &Option<String>) -> (r: String)
    ensures
        r@ == enriched(keywords@, text::option_view(*last)),
{
    match last {
        Some(l) => if count_meaningful(keywords.as_str()) < 2 {
            let both: String = edit::concat3(keywords.as_str(), " ", l.as_str());
            let words: Vec<String> = split::split_words(both.as_str());
            let keys: Vec<String> = keyword::to_lowercase_all(&words);
            assert(text::views(keys@).len() == text::views(words@).len());
            join_firsts(&words, &keys)
        } else {
            keywords
        },
        None => keywords,
    }
}

/// The hits in files of a folder.
pub open spec fn hits_in(
    hits: Seq<VectorSearchResult>,
    paths: Seq<Seq<char>>,
) -> Seq<bool> {
    Seq::new(hits.len(), |i: int| paths.contains(hits[i].file_path@))
}

/// Keeps the hits in files of a folder; all where no folder is asked for.
pub fn keep_in_folder(
    hits: Vec<VectorSearchResult>,
    folder_paths: &Option<Vec<String>>,
) -> (r: Vec<VectorSearchResult>)
    ensures
        r@ == match folder_paths {
            Some(paths) => select::kept(hits@, hits_in(hits@, text::views(paths@))),
            None => hits@,
        },
{
    match folder_paths {
        Some(paths) => {
            let mut keep: Vec<bool> = Vec::new();
            let mut i: usize = 0;
            while i < hits.len()
                invariant
                    i <= hits@.len(),
                    keep@ == hits_in(hits@, text::views(paths@)).take(i as int),
                decreases hits@.len() - i,
            {
                keep.push(member_of(paths, &hits[i].file_path));
                i += 1;
            }
            assert(keep@ =~= hits_in(hits@, text::views(paths@)));
            select::keep_flagged(hits, &keep)
        },
        None => hits,
    }
}

/// A context that says that nothing was found.
pub open spec fn says_nothing(context: Seq<char>) -> bool {
    split::stripped(context).len() == 0 || find::occurs(context, "Không tìm thấy"@)
}

/// Whether the context of the last answer is taken instead: a search that
/// found nothing falls back to it.
pub fn falls_back(context: &str, has_last: bool) -> (r: bool)
    ensures
        r == (says_nothing(context@) && has_last),
{
    let bare: String = split::strip(context);
    (bare.as_str().is_empty() || find::contains(context, "Không tìm thấy")) && has_last
}

/// Whether a query is long enough to be searched for while it is typed.
pub fn worth_searching(query: &str) -> (r: bool)
    ensures
        r == (chars::utf8_len(split::stripped(query@)) >= 2),
{
    chars::byte_len(split::strip(query).as_str()) >= 2
}

/// What stands before and between the keywords and files of the last answer in
/// the request for keywords.
pub const HINT_FULL_HEAD: &'static str = "\nNgữ cảnh trước: đã tìm kiếm [";

/// What stands between the keywords and the files.
pub const HINT_FULL_MID: &'static str = "] trong files [";

/// What stands behind the files.
pub const HINT_FULL_TAIL: &'static str = "]. Nếu câu hỏi là follow-up (ví dụ 'file nào khác?', 'còn gì nữa?'), hãy dùng lại keywords trước đó.";

/// What stands before the keywords alone.
pub const HINT_SHORT_HEAD: &'static str = "\nNgữ cảnh trước: keywords [";

/// The request for keywords.
pub const KEYWORD_REQUEST: &'static str = r#"Từ câu hỏi sau, trích xuất CHỈ các từ khóa tìm kiếm chính (tên riêng, mã, số phiên bản, thuật ngữ chuyên môn).
Loại bỏ: động từ hành động (tìm, tạo, viết, báo cáo), từ nối, đại từ.
Giữ nguyên cụm từ ghép (ví dụ: "AZV Test 3" → giữ nguyên, KHÔNG tách).
Chỉ trả về các từ khóa, cách nhau bởi dấu cách. Không giải thích."#;

/// What stands before the query in the request for keywords.
pub const KEYWORD_QUERY: &'static str = "\n\nCâu hỏi: ";

/// The hint on the last answer: its keywords and files, its keywords alone, or
/// nothing.
pub open spec fn hint(keywords: Option<Seq<char>>, files: Option<Seq<Seq<char>>>) -> Seq<char> {
    match keywords {
        Some(k) => if k.len() == 0 {
            Seq::empty()
        } else if files is Some && files->0.len() > 0 {
            HINT_FULL_HEAD@ + k + HINT_FULL_MID@ + edit::joined(files->0, ", "@) + HINT_FULL_TAIL@
        } else {
            HINT_SHORT_HEAD@ + k + "]."@
        },
        None => Seq::empty(),
    }
}

/// The request by which a model is asked for the keywords of a query.
pub fn keyword_request(
    query: &str,
    last_keywords: &Option<String>,
    last_files: &Option<Vec<String>>,
) -> (r: String)
    ensures
        r@ == KEYWORD_REQUEST@ + hint(
            text::option_view(*last_keywords),
            match last_files {
                Some(files) => Some(text::views(files@)),
                None => None,
            },
        ) + KEYWORD_QUERY@ + query@,
{
    let mut out: String = edit::owned(KEYWORD_REQUEST);
    let ghost start = out@;
    let ghost h = hint(
        text::option_view(*last_keywords),
        match last_files {
            Some(files) => Some(text::views(files@)),
            None => None,
        },
    );
    if let Some(k) = last_keywords {
        if !k.as_str().is_empty() {
            let list: Option<String> = match last_files {
                Some(files) => if files.len() > 0 {
                    Some(edit::join(files.as_slice(), ", "))
                } else {
                    None
                },
                None => None,
            };
            match list {
                Some(l) => {
                    out.append(HINT_FULL_HEAD);
                    out.append(k.as_str());
                    out.append(HINT_FULL_MID);
                    out.append(l.as_str());
                    out.append(HINT_FULL_TAIL);
                },
                None => {
                    out.append(HINT_SHORT_HEAD);
                    out.append(k.as_str());
                    out.append("].");
                },
            }
        }
    }
    assert(out@ =~= start + h);
    out.append(KEYWORD_QUERY);
    out.append(query);
    out
}

/// The most bytes that a reply with keywords may have.
pub const MAX_KEYWORD_BYTES: usize = 200;

/// The keywords of a reply: its text without white space at the ends, unless
/// that is empty or too long.
pub fn accept_keywords(reply: &str) -> (r: Option<String>)
    ensures
        ({
            let cleaned = split::stripped(reply@);
            text::option_view(r) == if cleaned.len() == 0 || chars::utf8_len(cleaned)
                > MAX_KEYWORD_BYTES {
                None
            } else {
                Some(cleaned)
            }
        }),
{
    let cleaned: String = split::strip(reply);
    if cleaned.as_str().is_empty() || chars::byte_len(cleaned.as_str()) > MAX_KEYWORD_BYTES {
        None
    } else {
        Some(cleaned)
    }
}

/// A query without a key, whatever else there is, is not answered; and one
/// that turns to something else is searched for.
pub proof fn law_routes(
    query_lower: Seq<char>,
    key_count: nat,
    selected: bool,
    last: Option<SessionContext>,
    now: u64,
)
    ensures
        key_count == 0 ==> route_of(query_lower, key_count, selected, last, now)
            == ChatRoute::NoKey,
        key_count > 0 && selected ==> route_of(query_lower, key_count, selected, last, now)
            == ChatRoute::Selected,
        key_count > 0 && !selected && find::occurs_any(query_lower, NEW_TOPIC_WORDS@) ==> route_of(
            query_lower,
            key_count,
            selected,
            last,
            now,
        ) == ChatRoute::Search,
        route_of(query_lower, key_count, selected, last, now) == ChatRoute::FollowUp ==> last
            is Some && last->0.attached_files@.len() > 0,
{
}

/// The words that a query shares with the keywords of the last answer are counted
/// one by one.
pub proof fn law_shared_words(ws: Seq<Seq<char>>, others: Seq<Seq<char>>) -> (ps: Seq<int>)
    ensures
        select::exactly(ps, ws.len() as int, |i: int| others.contains(ws[i])),
        shared_count(ws, others) == ps.len(),
{
    let p = |i: int| others.contains(ws[i]);
    let f = |n: int| shared_count(ws.take(n), others);
    assert forall|n: int| 0 < n <= ws.len() implies #[trigger] f(n) == if p(n - 1) {
        f(n - 1) + 1
    } else {
        f(n - 1)
    } by {
        assert(ws.take(n).drop_last() =~= ws.take(n - 1));
    }
    assert(ws.take(ws.len() as int) =~= ws);
    select::lemma_counted(ws.len() as int, p, f)
}

/// A query goes on from the last answer exactly where that rested on files and is
/// less than ten minutes old, the query does not turn to something else, and it
/// has a word that goes on or points back or shares more than two fifths of its
/// words with the keywords of the answer; any other is searched for.
pub proof fn law_follow_up(query_lower: Seq<char>, key_count: nat, last: SessionContext, now: u64)
    requires
        key_count > 0,
    ensures
        ({
            let ws = split::words(query_lower);
            let shared = shared_count(ws, split::words(last.keywords@));
            let recent = now < last.timestamp + 600;
            let goes_on = last.attached_files@.len() > 0 && recent && !find::occurs_any(
                query_lower,
                NEW_TOPIC_WORDS@,
            ) && (find::occurs_any(query_lower, FOLLOW_UP_WORDS@) || find::occurs_any(
                query_lower,
                POINTING_WORDS@,
            ) || shared * 5 > ws.len() * 2);
            let route = route_of(query_lower, key_count, false, Some(last), now);
            &&& goes_on ==> route == ChatRoute::FollowUp
            &&& !goes_on ==> route == ChatRoute::Search
            &&& route_of(query_lower, key_count, false, None, now) == ChatRoute::Search
        }),
{
}

/// A selected file is added behind what is there, under the next number and its
/// name, with its text up to two hundred thousand characters.
pub proof fn law_selected_file(context: Seq<char>, count: nat, name: Seq<char>, content: Seq<char>)
    ensures
        ({
            let r = with_file(context, count, name, content);
            let block = "["@ + number::decimal(count + 1) + "] "@ + name + ":\n"@ + (
            if content.len() <= 200_000 {
                content
            } else {
                content.take(200_000)
            });
            &&& context.len() == 0 ==> r == block
            &&& context.len() > 0 ==> r == context + "\n---\n"@ + block
        }),
{
    let block = "["@ + number::decimal(count + 1) + "] "@ + name + ":\n"@ + edit::first_chars(
        content,
        200_000,
    );
    assert(context.len() == 0 ==> with_file(context, count, name, content) =~= block);
    assert(context.len() > 0 ==> with_file(context, count, name, content) =~= context + "\n---\n"@
        + block);
}

/// The words that mean something are counted one by one: two bytes or more, and
/// no stop word.
pub proof fn law_meaningful_words(ws: Seq<Seq<char>>) -> (ps: Seq<int>)
    ensures
        select::exactly(
            ps,
            ws.len() as int,
            |i: int|
                chars::utf8_len(ws[i]) >= 2 && forall|k: int|
                    0 <= k < keyword::STOP_WORDS@.len() ==> #[trigger] keyword::STOP_WORDS@[k]@
                        != ws[i],
        ),
        meaningful_count(ws) == ps.len(),
{
    let p = |i: int|
        chars::utf8_len(ws[i]) >= 2 && forall|k: int|
            0 <= k < keyword::STOP_WORDS@.len() ==> #[trigger] keyword::STOP_WORDS@[k]@ != ws[i];
    let f = |n: int| meaningful_count(ws.take(n));
    assert forall|n: int| 0 < n <= ws.len() implies #[trigger] f(n) == if p(n - 1) {
        f(n - 1) + 1
    } else {
        f(n - 1)
    } by {
        assert(ws.take(n).drop_last() =~= ws.take(n - 1));
    }
    assert(ws.take(ws.len() as int) =~= ws);
    select::lemma_counted(ws.len() as int, p, f)
}

/// Keywords with two words that mean something are searched for as they are. With
/// fewer, those of the last answer follow them: exactly the words of both lines
/// that no earlier word equals, whatever its case, in order.
pub proof fn law_enriched(keywords: Seq<char>, last: Seq<char>) -> (ps: Seq<int>)
    ensures
        meaningful_count(split::words(keywords)) >= 2 ==> enriched(keywords, Some(last))
            == keywords,
        enriched(keywords, None) == keywords,
        ({
            let ws = split::words(keywords) + split::words(last);
            &&& select::exactly(
                ps,
                ws.len() as int,
                |i: int|
                    forall|j: int|
                        0 <= j < i ==> chars::lowercase(#[trigger] ws[j]) != chars::lowercase(
                            ws[i],
                        ),
            )
            &&& meaningful_count(split::words(keywords)) < 2 ==> enriched(keywords, Some(last))
                == edit::joined(Seq::new(ps.len(), |k: int| ws[ps[k]]), " "@)
        }),
{
    reveal_strlit(" ");
    assert(keywords + " "@ + last =~= keywords.push(' ') + last);
    split::law_words(keywords, ' ', last);
    let ws = split::words(keywords) + split::words(last);
    assert(split::words(keywords + " "@ + last) == ws);
    let keys = keyword::lowercase_all(ws);
    let ps = select::law_firsts(ws, keys);
    let p = |i: int| forall|j: int| 0 <= j < i ==> keys[j] != keys[i];
    let q = |i: int|
        forall|j: int|
            0 <= j < i ==> chars::lowercase(#[trigger] ws[j]) != chars::lowercase(ws[i]);
    assert forall|i: int| 0 <= i < ws.len() implies p(i) == #[trigger] q(i) by {
        if p(i) {
            assert forall|j: int| 0 <= j < i implies chars::lowercase(#[trigger] ws[j])
                != chars::lowercase(ws[i]) by {
                assert(keys[j] != keys[i]);
            }
        }
        if q(i) {
            assert forall|j: int| 0 <= j < i implies keys[j] != keys[i] by {
                assert(chars::lowercase(ws[j]) != chars::lowercase(ws[i]));
            }
        }
    }
    assert forall|a: int| 0 <= a < ps.len() implies 0 <= #[trigger] ps[a] < ws.len() && q(ps[a]) by {
        assert(p(ps[a]));
        assert(q(ps[a]) == p(ps[a]));
    }
    assert forall|i: int| 0 <= i < ws.len() && #[trigger] q(i) implies ps.contains(i) by {
        assert(p(i));
    }
    ps
}

/// In a folder exactly the hits in its files are kept, in order.
pub proof fn law_hits_in_folder(
    hits: Seq<VectorSearchResult>,
    paths: Seq<Seq<char>>,
) -> (ps: Seq<int>)
    ensures
        select::exactly(ps, hits.len() as int, |i: int| paths.contains(hits[i].file_path@)),
        select::kept(hits, hits_in(hits, paths)) == Seq::new(ps.len(), |k: int| hits[ps[k]]),
{
    let keep = hits_in(hits, paths);
    let ps = select::law_kept(hits, keep);
    let p = |i: int| keep[i];
    let q = |i: int| paths.contains(hits[i].file_path@);
    assert forall|a: int| 0 <= a < ps.len() implies 0 <= #[trigger] ps[a] < hits.len() && q(
        ps[a],
    ) by {
        assert(p(ps[a]));
    }
    assert forall|i: int| 0 <= i < hits.len() && #[trigger] q(i) implies ps.contains(i) by {
        assert(p(i));
    }
    ps
}

/// What a model is told of the last answer: its keywords, and the names of its
/// files where there are some; nothing where it had no keywords.
pub proof fn law_hint(k: Seq<char>, files: Seq<Seq<char>>, i: int)
    requires
        k.len() > 0,
    ensures
        find::occurs(hint(Some(k), None), k),
        find::occurs(hint(Some(k), Some(files)), k),
        0 <= i < files.len() ==> find::occurs(hint(Some(k), Some(files)), files[i]),
        hint(None, Some(files)).len() == 0,
{
    let short = hint(Some(k), None);
    let n = HINT_SHORT_HEAD@.len() as int;
    assert(short.subrange(n, (n + k.len()) as int) =~= k);
    assert(find::occurs_at(short, k, n));
    let long = hint(Some(k), Some(files));
    if files.len() > 0 {
        let m = HINT_FULL_HEAD@.len() as int;
        assert(long.subrange(m, (m + k.len()) as int) =~= k);
        assert(find::occurs_at(long, k, m));
        if 0 <= i < files.len() {
            let list = edit::joined(files, ", "@);
            let at = edit::law_part_stands(files, ", "@, i);
            let base = (m + k.len() + HINT_FULL_MID@.len()) as int;
            assert(long.subrange(base + at, (base + at + files[i].len()) as int) =~= list.subrange(
                at,
                (at + files[i].len()) as int,
            ));
            assert(find::occurs_at(long, files[i], base + at));
        }
    }
}

/// The keywords of the model are searched for where it gave some, those of the
/// question where it gave none or only white space.
pub proof fn law_first_keywords(k: Seq<char>, query: Seq<char>)
    ensures
        split::stripped(k).len() > 0 ==> first_keywords(Some(k), query) == k,
        split::stripped(k).len() == 0 ==> first_keywords(Some(k), query) == keyword::keywords_of(
            query,
        ),
        first_keywords(None, query) == keyword::keywords_of(query),
{
}

/// A context says nothing where it is blank or says that nothing was found, and in
/// no other case.
pub proof fn law_says_nothing(a: Seq<char>, b: Seq<char>, context: Seq<char>)
    ensures
        says_nothing(a + "Không tìm thấy"@ + b),
        says_nothing(Seq::empty()),
        split::stripped(context).len() > 0 && !find::occurs(context, "Không tìm thấy"@)
            ==> !says_nothing(context),
{
    let s = a + "Không tìm thấy"@ + b;
    let n = "Không tìm thấy"@.len() as int;
    assert(s.subrange(a.len() as int, a.len() + n) =~= "Không tìm thấy"@);
    assert(find::occurs_at(s, "Không tìm thấy"@, a.len() as int));
    let ends = split::law_trim(Seq::empty(), chars::CharClass::White);
}

} // verus!
