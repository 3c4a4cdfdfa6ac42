//! The context that a model is given: which chunks of a file, what is cut out
//! of them, and how files are put together within the budget.
use vstd::prelude::*;

use crate::commands::search::keyword;
use crate::commands::search::AttachedFile;
use crate::order;
use crate::order::Reversed;
use crate::score::Score;
use crate::select;
use crate::text;
use crate::text::bytes;
use crate::text::chars;
use crate::text::chars::CharClass;
use crate::text::edit;
use crate::text::find;
use crate::text::number;
use crate::text::split;

verus! {

/// What a chunk has of one term.
#[derive(Clone, Copy, Debug, PartialEq, Eq, Structural)]
pub struct KeywordHit {
    /// How often the term stands in the chunk.
    pub count: usize,
    /// The term stands near the front of the chunk.
    pub early: bool,
}

/// What is counted of a chunk to judge it.
#[derive(Debug)]
pub struct ChunkEvidence {
    /// The terms that stand in the chunk.
    pub hits: Vec<KeywordHit>,
    /// The length of the chunk in bytes, at least one.
    pub chunk_len: usize,
    /// The number of terms, at least one.
    pub keyword_count: usize,
    /// Half of the terms or more stand in the chunk.
    pub accepted: bool,
}

/// How far from the front of a chunk, in bytes, a match counts as early.
pub const EARLY_BYTES: usize = 200;

/// Where and for what a term is searched in a chunk: in the chunk as it is for
/// Chinese, Japanese and Korean; in lower case with single spaces for a term
/// of several words; else in lower case.
pub open spec fn search_pair(
    chunk: Seq<char>,
    lower: Seq<char>,
    t: Seq<char>,
    t_lower: Seq<char>,
) -> (Seq<char>, Seq<char>) {
    if find::any_in(t, CharClass::Cjk) {
        (chunk, t)
    } else if find::any_in(t_lower, CharClass::Is(' ')) {
        (edit::joined(split::words(lower), " "@), t_lower)
    } else {
        (lower, t_lower)
    }
}

/// The byte position of a term in a chunk.
pub open spec fn token_pos(
    chunk: Seq<char>,
    lower: Seq<char>,
    t: Seq<char>,
    t_lower: Seq<char>,
) -> Option<nat> {
    if find::any_in(t, CharClass::Cjk) {
        keyword::byte_index_of(chunk, t)
    } else {
        keyword::byte_index_of(lower, t_lower)
    }
}

/// What a chunk has of a term; nothing of a term below two bytes.
pub open spec fn token_hit(
    chunk: Seq<char>,
    lower: Seq<char>,
    t: Seq<char>,
    t_lower: Seq<char>,
) -> Option<KeywordHit> {
    let (s, pat) = search_pair(chunk, lower, t, t_lower);
    if chars::utf8_len(t) >= 2 && find::occurs(s, pat) {
        Some(
            KeywordHit {
                count: find::count_from(s, pat, 0) as usize,
                early: match token_pos(chunk, lower, t, t_lower) {
                    Some(pos) => pos < EARLY_BYTES,
                    None => false,
                },
            },
        )
    } else {
        None
    }
}

/// What a chunk has of the terms.
pub open spec fn chunk_hits(
    chunk: Seq<char>,
    lower: Seq<char>,
    ts: Seq<Seq<char>>,
    ts_lower: Seq<Seq<char>>,
) -> Seq<KeywordHit>
    decreases ts.len(),
{
    if ts.len() == 0 {
        Seq::empty()
    } else {
        let before = chunk_hits(chunk, lower, ts.drop_last(), ts_lower);
        match token_hit(chunk, lower, ts.last(), ts_lower[ts.len() - 1]) {
            Some(hit) => before.push(hit),
            None => before,
        }
    }
}

/// At least one.
pub open spec fn or_one(n: nat) -> nat {
    if n == 0 {
        1
    } else {
        n
    }
}

fn find_token(chunk: &str, lower: &str, t: &str, t_lower: &str) -> (r: Option<KeywordHit>)
    ensures
        r == token_hit(chunk@, lower@, t@, t_lower@),
{
    if chars::byte_len(t) < 2 {
        return None;
    }
    let cjk: bool = keyword::contains_cjk(t);
    let s: String = if cjk {
        edit::owned(chunk)
    } else if find::contains_class(t_lower, CharClass::Is(' ')) {
        let words: Vec<String> = split::split_words(lower);
        edit::join(words.as_slice(), " ")
    } else {
        edit::owned(lower)
    };
    let pat: &str = if cjk {
        t
    } else {
        t_lower
    };
    if !find::contains(s.as_str(), pat) {
        return None;
    }
    let count: usize = find::count_matches(
        chars::to_chars(s.as_str()).as_slice(),
        chars::to_chars(pat).as_slice(),
    );
    let pos: Option<usize> = if cjk {
        keyword::byte_index(chunk, t)
    } else {
        keyword::byte_index(lower, t_lower)
    };
    let early: bool = match pos {
        Some(p) => p < EARLY_BYTES,
        None => false,
    };
    Some(KeywordHit { count, early })
}

/// The terms without punctuation at their ends.
pub open spec fn clean_terms(ts: Seq<Seq<char>>) -> Seq<Seq<char>> {
    Seq::new(ts.len(), |i: int| split::trim_end(ts[i], CharClass::AnyOf(",.;")))
}

/// The terms without punctuation at their ends.
pub fn clean_tokens(tokens: &Vec<String>) -> (r: Vec<String>)
    ensures
        text::views(r@) == clean_terms(text::views(tokens@)),
{
    let mut out: Vec<String> = Vec::new();
    let mut i: usize = 0;
    while i < tokens.len()
        invariant
            i <= tokens@.len(),
            text::views(out@) == clean_terms(text::views(tokens@)).take(i as int),
        decreases tokens@.len() - i,
    {
        let t: String = split::trimmed_end(tokens[i].as_str(), CharClass::AnyOf(",.;"));
        let ghost before = text::views(out@);
        out.push(t);
        assert(text::views(out@) =~= before.push(t@));
        i += 1;
    }
    assert(text::views(out@) =~= clean_terms(text::views(tokens@)));
    out
}

/// What a chunk, given also in lower case, has of the terms, given also in
/// lower case.
pub fn weigh_chunk(
    chunk: &str,
    lower: &str,
    ts: &Vec<String>,
    ts_lower: &Vec<String>,
) -> (r: ChunkEvidence)
    requires
        ts@.len() == ts_lower@.len(),
    ensures
        ({
            let hits = chunk_hits(chunk@, lower@, text::views(ts@), text::views(ts_lower@));
            &&& r.hits@ == hits
            &&& r.chunk_len == or_one(chars::utf8_len(chunk@))
            &&& r.keyword_count == or_one(ts@.len())
            &&& r.accepted == (2 * hits.len() >= or_one(ts@.len()))
        }),
{
    let ghost tv = text::views(ts@);
    let ghost lv = text::views(ts_lower@);
    let mut hits: Vec<KeywordHit> = Vec::new();
    let mut i: usize = 0;
    while i < ts.len()
        invariant
            i <= ts@.len(),
            ts@.len() == ts_lower@.len(),
            tv == text::views(ts@),
            lv == text::views(ts_lower@),
            hits@ == chunk_hits(chunk@, lower@, tv.take(i as int), lv),
            hits@.len() <= i,
        decreases ts@.len() - i,
    {
        assert(tv.take(i + 1).drop_last() =~= tv.take(i as int));
        if let Some(hit) = find_token(chunk, lower, ts[i].as_str(), ts_lower[i].as_str()) {
            hits.push(hit);
        }
        i += 1;
    }
    assert(tv.take(tv.len() as int) =~= tv);
    let bytes: usize = chars::byte_len(chunk);
    let count: usize = if ts.len() == 0 {
        1
    } else {
        ts.len()
    };
    let accepted: bool = hits.len() >= count || hits.len() >= count - hits.len();
    ChunkEvidence {
        hits,
        chunk_len: if bytes == 0 {
            1
        } else {
            bytes
        },
        keyword_count: count,
        accepted,
    }
}

/// What a chunk has of the terms of a query.
pub fn chunk_evidence(chunk: &str, tokens: &Vec<String>) -> (r: ChunkEvidence)
    ensures
        ({
            let ts = clean_terms(text::views(tokens@));
            let hits = chunk_hits(
                chunk@,
                chars::lowercase(chunk@),
                ts,
                keyword::lowercase_all(ts),
            );
            &&& r.hits@ == hits
            &&& r.chunk_len == or_one(chars::utf8_len(chunk@))
            &&& r.keyword_count == or_one(tokens@.len())
            &&& r.accepted == (2 * hits.len() >= or_one(tokens@.len()))
        }),
{
    let ts: Vec<String> = clean_tokens(tokens);
    let lower: Vec<String> = keyword::to_lowercase_all(&ts);
    assert(text::views(ts@).len() == ts@.len());
    assert(text::views(lower@).len() == lower@.len());
    weigh_chunk(chunk, chunk.to_lowercase().as_str(), &ts, &lower)
}

/// The keys by which chunks are ranked: the highest score first.
pub open spec fn chunk_keys(scores: Seq<Score>) -> Seq<Reversed<i128>> {
    Seq::new(scores.len(), |i: int| Reversed { key: scores[i].rank() as i128 })
}

/// The first items, as many as allowed.
pub open spec fn at_most<T>(s: Seq<T>, n: int) -> Seq<T> {
    if s.len() > n {
        s.take(n)
    } else {
        s
    }
}

/// The accepted chunks with the highest scores, at most `max_chunks` of them,
/// the highest first and equal scores in order.
pub fn select_chunks(
    contents: &Vec<String>,
    accepted: &Vec<bool>,
    scores: &Vec<Score>,
    max_chunks: usize,
) -> (r: Vec<String>)
    requires
        contents@.len() == accepted@.len() == scores@.len(),
    ensures
        exists|p: Seq<int>| #[trigger]
            order::is_order(p, chunk_keys(select::kept(scores@, accepted@))) && r@ == at_most(
                order::arranged(select::kept(contents@, accepted@), p),
                max_chunks as int,
            ),
{
    let mut chosen: Vec<String> = Vec::new();
    let mut keys: Vec<Reversed<i128>> = Vec::new();
    let mut i: usize = 0;
    while i < contents.len()
        invariant
            i <= contents@.len(),
            contents@.len() == accepted@.len() == scores@.len(),
            chosen@ == select::kept(contents@.take(i as int), accepted@),
            keys@ == chunk_keys(select::kept(scores@.take(i as int), accepted@)),
            keys@.len() == chosen@.len(),
        decreases contents@.len() - i,
    {
        assert(contents@.take(i + 1).drop_last() =~= contents@.take(i as int));
        assert(scores@.take(i + 1).drop_last() =~= scores@.take(i as int));
        let ghost before = select::kept(scores@.take(i as int), accepted@);
        if accepted[i] {
            chosen.push(contents[i].clone());
            keys.push(Reversed { key: scores[i].to_rank() });
            assert(keys@ =~= chunk_keys(before.push(scores@[i as int])));
        }
        i += 1;
    }
    assert(contents@.take(contents@.len() as int) =~= contents@);
    assert(scores@.take(scores@.len() as int) =~= scores@);
    let p: Vec<usize> = order::sorted_positions(&keys);
    proof {
        order::lemma_order_distinct(order::positions(p@), keys@);
    }
    let mut out: Vec<String> = order::arrange(chosen, &p);
    let ghost all = out@;
    if out.len() > max_chunks {
        out.truncate(max_chunks);
        assert(out@ =~= all.take(max_chunks as int));
    }
    out
}

/// A chunk up to this length, in characters, is taken as a whole.
pub const WHOLE_CHUNK_CHARS: usize = 3000;

/// How many characters are cut out of a longer chunk.
pub const WINDOW_CHARS: usize = 2000;

/// Half of the window.
pub const HALF_WINDOW_CHARS: usize = 1000;

/// The least byte position of a term in a chunk.
pub open spec fn first_match(
    chunk: Seq<char>,
    lower: Seq<char>,
    ts: Seq<Seq<char>>,
    ts_lower: Seq<Seq<char>>,
) -> Option<nat>
    decreases ts.len(),
{
    if ts.len() == 0 {
        None
    } else {
        let before = first_match(chunk, lower, ts.drop_last(), ts_lower);
        match token_pos(chunk, lower, ts.last(), ts_lower[ts.len() - 1]) {
            Some(pos) => match before {
                Some(best) => if pos < best {
                    Some(pos)
                } else {
                    Some(best)
                },
                None => Some(pos),
            },
            None => before,
        }
    }
}

/// The part of a chunk around a character, with an ellipsis where something is
/// left out.
pub open spec fn window_at(chunk: Seq<char>, at: int) -> Seq<char> {
    let start = if at > HALF_WINDOW_CHARS {
        at - HALF_WINDOW_CHARS
    } else {
        0
    };
    let end = if at + HALF_WINDOW_CHARS < chunk.len() {
        at + HALF_WINDOW_CHARS
    } else {
        chunk.len() as int
    };
    (if start > 0 {
        "..."@
    } else {
        Seq::empty()
    }) + split::stripped(chunk.subrange(start, end)) + (if end < chunk.len() {
        "..."@
    } else {
        Seq::empty()
    })
}

/// What is taken of a chunk: all of a short one; of a long one the part around
/// the first term, or its front where it has none. `None` where the position
/// of the term, found in the text in lower case, is no position between two
/// characters of the chunk.
pub open spec fn chunk_part(
    chunk: Seq<char>,
    lower: Seq<char>,
    ts: Seq<Seq<char>>,
    ts_lower: Seq<Seq<char>>,
) -> Option<Seq<char>> {
    if chunk.len() <= WHOLE_CHUNK_CHARS {
        Some(split::stripped(chunk))
    } else {
        match first_match(chunk, lower, ts, ts_lower) {
            Some(pos) => {
                let p = if pos < chars::utf8_len(chunk) {
                    pos
                } else {
                    chars::utf8_len(chunk)
                };
                match bytes::chars_before(chunk, p, 0) {
                    Some(at) => Some(window_at(chunk, at)),
                    None => None,
                }
            },
            None => Some(split::stripped(chunk.take(WINDOW_CHARS as int)) + "..."@),
        }
    }
}

/// What is taken of a chunk, given also in lower case, for terms given also in
/// lower case.
pub fn cut_chunk(
    chunk: &str,
    lower: &str,
    ts: &Vec<String>,
    ts_lower: &Vec<String>,
) -> (r: Option<String>)
    requires
        ts@.len() == ts_lower@.len(),
    ensures
        text::option_view(r) == chunk_part(
            chunk@,
            lower@,
            text::views(ts@),
            text::views(ts_lower@),
        ),
{
    let v: Vec<char> = chars::to_chars(chunk);
    if v.len() <= WHOLE_CHUNK_CHARS {
        return Some(split::strip(chunk));
    }
    let ghost tv = text::views(ts@);
    let ghost lv = text::views(ts_lower@);
    let mut best: Option<usize> = None;
    let mut i: usize = 0;
    while i < ts.len()
        invariant
            i <= ts@.len(),
            ts@.len() == ts_lower@.len(),
            tv == text::views(ts@),
            lv == text::views(ts_lower@),
            match best {
                Some(b) => first_match(chunk@, lower@, tv.take(i as int), lv) == Some(b as nat),
                None => first_match(chunk@, lower@, tv.take(i as int), lv) is None,
            },
        decreases ts@.len() - i,
    {
        assert(tv.take(i + 1).drop_last() =~= tv.take(i as int));
        let t: &str = ts[i].as_str();
        let pos: Option<usize> = if keyword::contains_cjk(t) {
            keyword::byte_index(chunk, t)
        } else {
            keyword::byte_index(lower, ts_lower[i].as_str())
        };
        if let Some(p) = pos {
            best = match best {
                Some(b) => if p < b {
                    Some(p)
                } else {
                    Some(b)
                },
                None => Some(p),
            };
        }
        i += 1;
    }
    assert(tv.take(tv.len() as int) =~= tv);
    match best {
        Some(pos) => {
            let bytes: usize = chars::byte_len(chunk);
            let p: usize = if pos < bytes {
                pos
            } else {
                bytes
            };
            match bytes::count_chars_before(chunk, p) {
                Some(at) => Some(cut_window(chunk, at)),
                None => None,
            }
        },
        None => {
            let front: String = edit::take_chars(chunk, WINDOW_CHARS);
            Some(edit::concat2(split::strip(front.as_str()).as_str(), "..."))
        },
    }
}

fn cut_window(chunk: &str, at: usize) -> (r: String)
    requires
        at <= chunk@.len(),
    ensures
        r@ == window_at(chunk@, at as int),
{
    let total: usize = edit::char_count(chunk);
    let start: usize = if at > HALF_WINDOW_CHARS {
        at - HALF_WINDOW_CHARS
    } else {
        0
    };
    let end: usize = if HALF_WINDOW_CHARS < total - at {
        at + HALF_WINDOW_CHARS
    } else {
        total
    };
    let part: String = edit::slice(chunk, start, end);
    let prefix: &str = if start > 0 {
        "..."
    } else {
        ""
    };
    let suffix: &str = if end < total {
        "..."
    } else {
        ""
    };
    proof {
        reveal_strlit("");
        assert(""@ =~= Seq::<char>::empty());
    }
    edit::concat3(prefix, split::strip(part.as_str()).as_str(), suffix)
}

/// What is taken of a chunk for the terms of a query.
pub open spec fn query_part(chunk: Seq<char>, ts: Seq<Seq<char>>) -> Option<Seq<char>> {
    chunk_part(chunk, chars::lowercase(chunk), ts, keyword::lowercase_all(ts))
}

/// What is taken of a chunk for the terms of a query.
pub fn chunk_snippet(chunk: &str, tokens: &Vec<String>) -> (r: Option<String>)
    ensures
        text::option_view(r) == query_part(chunk@, text::views(tokens@)),
{
    let lower: Vec<String> = keyword::to_lowercase_all(tokens);
    assert(text::views(lower@).len() == lower@.len());
    assert(text::views(tokens@).len() == tokens@.len());
    cut_chunk(chunk, chunk.to_lowercase().as_str(), tokens, &lower)
}

/// What is taken of the chunks; `None` where that cannot be said of one.
pub open spec fn query_parts(chunks: Seq<Seq<char>>, ts: Seq<Seq<char>>) -> Option<Seq<Seq<char>>>
    decreases chunks.len(),
{
    if chunks.len() == 0 {
        Some(Seq::empty())
    } else {
        match (query_parts(chunks.drop_last(), ts), query_part(chunks.last(), ts)) {
            (Some(before), Some(part)) => Some(before.push(part)),
            _ => None,
        }
    }
}

/// What is taken of the chunks for the terms of a query.
pub fn chunk_snippets(chunks: &Vec<String>, tokens: &Vec<String>) -> (r: Option<Vec<String>>)
    ensures
        match r {
            Some(v) => query_parts(text::views(chunks@), text::views(tokens@)) == Some(
                text::views(v@),
            ),
            None => query_parts(text::views(chunks@), text::views(tokens@)) is None,
        },
{
    let ghost cs = text::views(chunks@);
    let ghost ts = text::views(tokens@);
    let mut out: Vec<String> = Vec::new();
    let mut i: usize = 0;
    assert(text::views(out@) =~= Seq::empty());
    while i < chunks.len()
        invariant
            i <= chunks@.len(),
            cs == text::views(chunks@),
            ts == text::views(tokens@),
            query_parts(cs.take(i as int), ts) == Some(text::views(out@)),
        decreases chunks@.len() - i,
    {
        assert(cs.take(i + 1).drop_last() =~= cs.take(i as int));
        match chunk_snippet(chunks[i].as_str(), tokens) {
            Some(part) => {
                let ghost before = text::views(out@);
                out.push(part);
                assert(text::views(out@) =~= before.push(part@));
            },
            None => {
                proof {
                    assert(query_part(cs[i as int], ts) is None);
                    lemma_parts_none(cs, ts, i as int);
                }
                return None;
            },
        }
        i += 1;
    }
    assert(cs.take(cs.len() as int) =~= cs);
    Some(out)
}

proof fn lemma_parts_none(cs: Seq<Seq<char>>, ts: Seq<Seq<char>>, i: int)
    requires
        0 <= i < cs.len(),
        query_part(cs[i], ts) is None,
    ensures
        query_parts(cs, ts) is None,
    decreases cs.len(),
{
    if i < cs.len() - 1 {
        lemma_parts_none(cs.drop_last(), ts, i);
    }
}

/// The parts under numbered headings.
pub open spec fn numbered(parts: Seq<Seq<char>>) -> Seq<Seq<char>> {
    Seq::new(
        parts.len(),
        |i: int| "--- Chunk "@ + number::decimal((i + 1) as nat) + " ---\n"@ + parts[i],
    )
}

/// The parts of a file put together: one as it is, several under headings.
pub open spec fn combined(parts: Seq<Seq<char>>) -> Seq<char> {
    if parts.len() == 1 {
        parts[0]
    } else {
        edit::joined(numbered(parts), "\n"@)
    }
}

/// The parts of a file put together.
pub fn combine_parts(parts: &Vec<String>) -> (r: String)
    ensures
        r@ == combined(text::views(parts@)),
{
    if parts.len() == 1 {
        return parts[0].clone();
    }
    let ghost ps = text::views(parts@);
    let mut out: Vec<String> = Vec::new();
    let mut i: usize = 0;
    while i < parts.len()
        invariant
            i <= parts@.len(),
            ps == text::views(parts@),
            text::views(out@) == numbered(ps).take(i as int),
        decreases parts@.len() - i,
    {
        let n: String = number::to_decimal(i as u128 + 1);
        let mut line: String = edit::concat3("--- Chunk ", n.as_str(), " ---\n");
        line.append(parts[i].as_str());
        let ghost before = text::views(out@);
        out.push(line);
        assert(text::views(out@) =~= before.push(line@));
        i += 1;
    }
    assert(text::views(out@) =~= numbered(ps));
    edit::join(out.as_slice(), "\n")
}

/// The lines from `i` on are put behind `out` as long as they fit.
pub open spec fn fitted(lines: Seq<Seq<char>>, limit: int, i: int, out: Seq<char>) -> Seq<char>
    decreases lines.len() - i,
{
    if 0 <= i < lines.len() && out.len() + lines[i].len() + 1 <= limit {
        fitted(
            lines,
            limit,
            i + 1,
            if out.len() == 0 {
                lines[i]
            } else {
                out.push('\n') + lines[i]
            },
        )
    } else {
        out
    }
}

/// The text, cut to a length at the end of a line where it is longer.
pub open spec fn cut_to(s: Seq<char>, limit: int) -> Seq<char> {
    if s.len() > limit {
        fitted(split::lines(s), limit, 0, Seq::empty())
    } else {
        s
    }
}

/// Cuts a text to a length, in whole lines.
pub fn cut_lines(s: &str, limit: usize) -> (r: String)
    ensures
        r@ == cut_to(s@, limit as int),
{
    if edit::char_count(s) <= limit {
        return edit::owned(s);
    }
    let lines: Vec<String> = split::split_lines(s);
    let ghost ls = text::views(lines@);
    let mut out: String = String::new();
    let mut i: usize = 0;
    let mut len: usize = 0;
    while i < lines.len()
        invariant
            i <= lines@.len(),
            ls == text::views(lines@),
            ls == split::lines(s@),
            s@.len() > limit,
            len == out@.len(),
            len <= limit,
            fitted(ls, limit as int, i as int, out@) == fitted(
                ls,
                limit as int,
                0,
                Seq::empty(),
            ),
        decreases lines@.len() - i,
    {
        let n: usize = edit::char_count(lines[i].as_str());
        if n >= limit - len {
            return out;
        }
        let ghost before = out@;
        if len > 0 {
            out.push('\n');
            len += 1;
        }
        out.append(lines[i].as_str());
        len += n;
        i += 1;
    }
    out
}

proof fn lemma_fitted(lines: Seq<Seq<char>>, limit: int, i: int, out: Seq<char>)
    requires
        out.len() <= limit,
    ensures
        fitted(lines, limit, i, out).len() <= limit,
    decreases lines.len() - i,
{
    if 0 <= i < lines.len() && out.len() + lines[i].len() + 1 <= limit {
        lemma_fitted(
            lines,
            limit,
            i + 1,
            if out.len() == 0 {
                lines[i]
            } else {
                out.push('\n') + lines[i]
            },
        );
    }
}

/// A text that is cut is no longer than the limit.
pub proof fn law_cut_to(s: Seq<char>, limit: int)
    requires
        limit >= 0,
    ensures
        cut_to(s, limit).len() <= limit,
{
    lemma_fitted(split::lines(s), limit, 0, Seq::empty());
}

/// A file chosen for the context, with the chunks chosen of it.
#[derive(Debug)]
pub struct PickedFile {
    /// Its name.
    pub file_name: String,
    /// Its path.
    pub file_path: String,
    /// Its score.
    pub score: Score,
    /// The chunks, the best first.
    pub chunks: Vec<String>,
}

/// The context as far as it is put together.
pub struct ContextState {
    /// What is taken of each file.
    pub contents: Seq<Seq<char>>,
    /// The files, as place among those picked.
    pub files: Seq<int>,
    /// The characters used.
    pub used: nat,
}

/// What is left for a file.
pub open spec fn room(used: nat, per_file: nat, total: nat) -> int {
    if total - used < per_file {
        total - used
    } else {
        per_file as int
    }
}

/// The block of source `n`.
pub open spec fn file_block(n: nat, name: Seq<char>, content: Seq<char>) -> Seq<char> {
    "["@ + number::decimal(n) + "] "@ + name + ":\n"@ + content
}

/// The blocks of a context: the files that are in it are numbered from 1 on.
pub open spec fn blocks(
    files: Seq<PickedFile>,
    places: Seq<int>,
    contents: Seq<Seq<char>>,
) -> Seq<Seq<char>> {
    Seq::new(
        places.len(),
        |j: int| file_block((j + 1) as nat, files[places[j]].file_name@, contents[j]),
    )
}

/// The context after the first `n` files: each takes what is left, at most the
/// limit for one file, and is left out where nothing remains of it. `None`
/// where the parts of a file that would go in cannot be said.
pub open spec fn context_after(
    files: Seq<PickedFile>,
    ts: Seq<Seq<char>>,
    per_file: nat,
    total: nat,
    n: int,
) -> Option<ContextState>
    decreases n,
{
    if n <= 0 {
        Some(ContextState { contents: Seq::empty(), files: Seq::empty(), used: 0 })
    } else {
        match context_after(files, ts, per_file, total, n - 1) {
            None => None,
            Some(state) => if state.used >= total {
                Some(state)
            } else {
                let file = files[n - 1];
                match query_parts(text::views(file.chunks@), ts) {
                    None => None,
                    Some(parts) => {
                        let content = cut_to(combined(parts), room(state.used, per_file, total));
                        if split::stripped(content).len() == 0 {
                            Some(state)
                        } else {
                            Some(
                                ContextState {
                                    contents: state.contents.push(content),
                                    files: state.files.push(n - 1),
                                    used: state.used + content.len(),
                                },
                            )
                        }
                    },
                }
            },
        }
    }
}

/// The files of a context.
pub open spec fn attached(files: Seq<PickedFile>, places: Seq<int>) -> Seq<AttachedFile> {
    Seq::new(
        places.len(),
        |i: int|
            AttachedFile {
                file_name: files[places[i]].file_name,
                file_path: files[places[i]].file_path,
                score: files[places[i]].score,
            },
    )
}

/// The context where nothing was found.
pub const EMPTY_CONTEXT: &'static str = "(Khong tim thay tai lieu lien quan)";

/// The context where no file is good enough.
pub const POOR_CONTEXT: &'static str = "(Không tìm thấy tài liệu đủ liên quan)";

/// The context where nothing was found or no file is good enough; none where
/// there is a file, and the context has to be put together.
pub fn empty_context(result_count: usize, file_count: usize) -> (r: Option<String>)
    ensures
        text::option_view(r) == if result_count == 0 {
            Some(EMPTY_CONTEXT@)
        } else if file_count == 0 {
            Some(POOR_CONTEXT@)
        } else {
            None
        },
{
    if result_count == 0 {
        Some(edit::owned(EMPTY_CONTEXT))
    } else if file_count == 0 {
        Some(edit::owned(POOR_CONTEXT))
    } else {
        None
    }
}

/// Puts the context together from the picked files: their blocks, with a rule
/// between them, and the files that are in it. `None` where a chunk cannot be
/// cut at the position of its first term.
pub fn assemble_context(
    files: &Vec<PickedFile>,
    tokens: &Vec<String>,
    per_file: usize,
    total: usize,
) -> (r: Option<(String, Vec<AttachedFile>)>)
    ensures
        match r {
            Some(context) => match context_after(
                files@,
                text::views(tokens@),
                per_file as nat,
                total as nat,
                files@.len() as int,
            ) {
                Some(state) => context.0@ == edit::joined(
                    blocks(files@, state.files, state.contents),
                    "\n---\n"@,
                ) && context.1@ == attached(files@, state.files),
                None => false,
            },
            None => context_after(
                files@,
                text::views(tokens@),
                per_file as nat,
                total as nat,
                files@.len() as int,
            ) is None,
        },
{
    let ghost ts = text::views(tokens@);
    let mut texts: Vec<String> = Vec::new();
    let mut out: Vec<AttachedFile> = Vec::new();
    let ghost mut places = Seq::<int>::empty();
    let ghost mut contents = Seq::<Seq<char>>::empty();
    let mut used: usize = 0;
    let mut i: usize = 0;
    assert(text::views(texts@) =~= blocks(files@, places, contents));
    assert(out@ =~= attached(files@, places));
    while i < files.len()
        invariant
            i <= files@.len(),
            ts == text::views(tokens@),
            used <= total,
            out@ == attached(files@, places),
            places.len() == contents.len() == out@.len(),
            text::views(texts@) == blocks(files@, places, contents),
            context_after(files@, ts, per_file as nat, total as nat, i as int) == Some(
                ContextState { contents, files: places, used: used as nat },
            ),
        decreases files@.len() - i,
    {
        let file: &PickedFile = &files[i];
        if used < total {
            match chunk_snippets(&file.chunks, tokens) {
                None => {
                    proof {
                        lemma_context_none(
                            files@,
                            ts,
                            per_file as nat,
                            total as nat,
                            i + 1,
                            files@.len() as int,
                        );
                    }
                    return None;
                },
                Some(parts) => {
                    let left: usize = if total - used < per_file {
                        total - used
                    } else {
                        per_file
                    };
                    let joined: String = combine_parts(&parts);
                    let content: String = cut_lines(joined.as_str(), left);
                    proof {
                        law_cut_to(joined@, left as int);
                    }
                    let bare: String = split::strip(content.as_str());
                    if !bare.as_str().is_empty() {
                        let n: String = number::to_decimal(out.len() as u128 + 1);
                        let mut block: String = edit::concat3("[", n.as_str(), "] ");
                        block.append(file.file_name.as_str());
                        block.append(":\n");
                        block.append(content.as_str());
                        used = used + edit::char_count(content.as_str());
                        let ghost before = text::views(texts@);
                        texts.push(block);
                        assert(text::views(texts@) =~= before.push(block@));
                        out.push(
                            AttachedFile {
                                file_name: file.file_name.clone(),
                                file_path: file.file_path.clone(),
                                score: file.score,
                            },
                        );
                        proof {
                            places = places.push(i as int);
                            contents = contents.push(content@);
                            assert(text::views(texts@) =~= blocks(files@, places, contents));
                        }
                        assert(out@ =~= attached(files@, places));
                    }
                },
            }
        }
        i += 1;
    }
    Some((edit::join(texts.as_slice(), "\n---\n"), out))
}

proof fn lemma_context_none(
    files: Seq<PickedFile>,
    ts: Seq<Seq<char>>,
    per_file: nat,
    total: nat,
    i: int,
    n: int,
)
    requires
        0 <= i <= n,
        context_after(files, ts, per_file, total, i) is None,
    ensures
        context_after(files, ts, per_file, total, n) is None,
    decreases n,
{
    if i < n {
        lemma_context_none(files, ts, per_file, total, i, n - 1);
    }
}

/// All contents together have these characters.
pub open spec fn length_of(contents: Seq<Seq<char>>) -> nat
    decreases contents.len(),
{
    if contents.len() == 0 {
        0
    } else {
        length_of(contents.drop_last()) + contents.last().len()
    }
}

/// The context stays within the budget: all contents together have at most the
/// characters for all files, and each at most those for one file. No content is
/// blank, and the files are taken in their order, each at most once.
pub proof fn law_context_budget(
    files: Seq<PickedFile>,
    ts: Seq<Seq<char>>,
    per_file: nat,
    total: nat,
    n: int,
)
    requires
        0 <= n <= files.len(),
    ensures
        context_after(files, ts, per_file, total, n) matches Some(state) ==> {
            &&& length_of(state.contents) == state.used <= total
            &&& state.contents.len() == state.files.len() <= n
            &&& forall|j: int|
                0 <= j < state.contents.len() ==> (#[trigger] state.contents[j]).len() <= per_file
                    && split::stripped(state.contents[j]).len() > 0
            &&& forall|i: int| 0 <= i < state.files.len() ==> 0 <= #[trigger] state.files[i] < n
            &&& forall|i: int, j: int|
                0 <= i < j < state.files.len() ==> #[trigger] state.files[i]
                    < #[trigger] state.files[j]
        },
    decreases n,
{
    if n > 0 {
        law_context_budget(files, ts, per_file, total, n - 1);
        if let Some(state) = context_after(files, ts, per_file, total, n - 1) {
            if state.used < total {
                if let Some(parts) = query_parts(text::views(files[n - 1].chunks@), ts) {
                    let content = cut_to(combined(parts), room(state.used, per_file, total));
                    law_cut_to(combined(parts), room(state.used, per_file, total));
                    assert(state.contents.push(content).drop_last() =~= state.contents);
                }
            }
        }
    }
}

/// The number before a block is the place of its file among those attached: the
/// block of the file attached at `j` begins with "[j + 1] " and its name.
pub proof fn law_blocks_are_numbered(
    files: Seq<PickedFile>,
    places: Seq<int>,
    contents: Seq<Seq<char>>,
    j: int,
)
    requires
        0 <= j < places.len(),
    ensures
        blocks(files, places, contents).len() == attached(files, places).len(),
        ("["@ + number::decimal((j + 1) as nat) + "] "@ + attached(
            files,
            places,
        )[j].file_name@ + ":\n"@).is_prefix_of(blocks(files, places, contents)[j]),
{
    let head = "["@ + number::decimal((j + 1) as nat) + "] "@ + files[places[j]].file_name@
        + ":\n"@;
    let block = blocks(files, places, contents)[j];
    assert(block =~= head + contents[j]);
    assert(block.take(head.len() as int) =~= head);
}

/// The parts of a file stand in the order of its chunks, one for each; they can
/// be said where each of them can.
pub proof fn law_query_parts(chunks: Seq<Seq<char>>, ts: Seq<Seq<char>>)
    ensures
        match query_parts(chunks, ts) {
            Some(parts) => parts.len() == chunks.len() && forall|i: int|
                0 <= i < chunks.len() ==> query_part(#[trigger] chunks[i], ts) == Some(parts[i]),
            None => exists|i: int|
                0 <= i < chunks.len() && query_part(#[trigger] chunks[i], ts) is None,
        },
    decreases chunks.len(),
{
    if chunks.len() > 0 {
        let front = chunks.drop_last();
        let n = chunks.len() - 1;
        law_query_parts(front, ts);
        assert(chunks.last() == chunks[n]);
        match (query_parts(front, ts), query_part(chunks.last(), ts)) {
            (Some(before), Some(part)) => {
                assert forall|i: int| 0 <= i < chunks.len() implies query_part(
                    #[trigger] chunks[i],
                    ts,
                ) == Some(before.push(part)[i]) by {
                    if i < n {
                        assert(front[i] == chunks[i]);
                    }
                }
            },
            (None, _) => {
                let i = choose|i: int|
                    0 <= i < front.len() && query_part(#[trigger] front[i], ts) is None;
                assert(query_part(chunks[i], ts) is None);
            },
            _ => {
                assert(query_part(chunks[n], ts) is None);
            },
        }
    }
}

/// A chunk of three thousand characters or fewer goes into the context as a
/// whole, white space at its ends aside. Of a longer one goes its front, where no
/// term is found, or the part around the first term: all within a thousand
/// characters of it, with an ellipsis where something is left out.
pub proof fn law_part_of_chunk(chunk: Seq<char>, ts: Seq<Seq<char>>)
    ensures
        ({
            let lower = chars::lowercase(chunk);
            let first = first_match(chunk, lower, ts, keyword::lowercase_all(ts));
            &&& chunk.len() <= 3000 ==> query_part(chunk, ts) == Some(split::stripped(chunk))
            &&& chunk.len() > 3000 && first is None ==> query_part(chunk, ts) == Some(
                split::stripped(chunk.take(2000)) + "..."@,
            )
            &&& forall|at: int|
                chunk.len() > 3000 && 0 <= at < chunk.len() && first == Some(
                    chars::utf8_len(#[trigger] chunk.take(at)),
                ) ==> {
                    let a = if at > 1000 {
                        at - 1000
                    } else {
                        0
                    };
                    let b = if at + 1000 < chunk.len() {
                        at + 1000
                    } else {
                        chunk.len() as int
                    };
                    query_part(chunk, ts) == Some(
                        (if a > 0 {
                            "..."@
                        } else {
                            Seq::empty()
                        }) + split::stripped(chunk.subrange(a, b)) + (if b < chunk.len() {
                            "..."@
                        } else {
                            Seq::empty()
                        }),
                    )
                }
        }),
{
    let lower = chars::lowercase(chunk);
    let first = first_match(chunk, lower, ts, keyword::lowercase_all(ts));
    assert forall|at: int|
        chunk.len() > 3000 && 0 <= at < chunk.len() && first == Some(
            chars::utf8_len(#[trigger] chunk.take(at)),
        ) implies query_part(chunk, ts) == Some(window_at(chunk, at)) by {
        chars::lemma_utf8_len_take(chunk, at, chunk.len() as int);
        assert(chunk.take(chunk.len() as int) =~= chunk);
        lemma_chars_before(chunk, at, 0);
    }
}

proof fn lemma_chars_before(s: Seq<char>, at: int, i: int)
    requires
        0 <= i <= at <= s.len(),
    ensures
        bytes::chars_before(s, chars::utf8_len(s.take(at)), i) == Some(at),
    decreases at - i,
{
    if i < at {
        chars::lemma_utf8_len_take(s, i, at);
        lemma_chars_before(s, at, i + 1);
    }
}

/// The first match of a chunk is the least place of a term that is found in it;
/// there is none only where no term is found.
pub proof fn law_first_match(
    chunk: Seq<char>,
    lower: Seq<char>,
    ts: Seq<Seq<char>>,
    ts_lower: Seq<Seq<char>>,
)
    requires
        ts.len() <= ts_lower.len(),
    ensures
        match first_match(chunk, lower, ts, ts_lower) {
            Some(best) => {
                &&& exists|i: int|
                    0 <= i < ts.len() && token_pos(chunk, lower, #[trigger] ts[i], ts_lower[i])
                        == Some(best)
                &&& forall|i: int|
                    0 <= i < ts.len() ==> (token_pos(
                        chunk,
                        lower,
                        #[trigger] ts[i],
                        ts_lower[i],
                    ) matches Some(pos) ==> best <= pos)
            },
            None => forall|i: int|
                0 <= i < ts.len() ==> token_pos(chunk, lower, #[trigger] ts[i], ts_lower[i]) is None,
        },
    decreases ts.len(),
{
    if ts.len() > 0 {
        let front = ts.drop_last();
        let n = ts.len() - 1;
        law_first_match(chunk, lower, front, ts_lower);
        assert(forall|i: int| 0 <= i < n ==> front[i] == #[trigger] ts[i]);
        if let Some(best) = first_match(chunk, lower, ts, ts_lower) {
            if token_pos(chunk, lower, ts[n], ts_lower[n]) != Some(best) {
                let i = choose|i: int|
                    0 <= i < front.len() && token_pos(
                        chunk,
                        lower,
                        #[trigger] front[i],
                        ts_lower[i],
                    ) == Some(best);
                assert(token_pos(chunk, lower, ts[i], ts_lower[i]) == Some(best));
            }
        }
    }
}

/// A term is found where it first stands: one with a Chinese, Japanese or Korean
/// character in the chunk as it is, any other in lower case on both sides.
pub proof fn law_token_is_found(
    chunk: Seq<char>,
    lower: Seq<char>,
    t: Seq<char>,
    t_lower: Seq<char>,
    at: int,
)
    ensures
        (exists|i: int| 0 <= i < t.len() && chars::is_cjk(#[trigger] t[i])) && find::first_at(
            chunk,
            t,
            0,
            at,
        ) ==> token_pos(chunk, lower, t, t_lower) == Some(chars::utf8_len(chunk.take(at))),
        (forall|i: int| 0 <= i < t.len() ==> !chars::is_cjk(#[trigger] t[i])) && find::first_at(
            lower,
            t_lower,
            0,
            at,
        ) ==> token_pos(chunk, lower, t, t_lower) == Some(chars::utf8_len(lower.take(at))),
        (forall|i: int| 0 <= i < t.len() ==> !chars::is_cjk(#[trigger] t[i])) && !find::occurs(
            lower,
            t_lower,
        ) ==> token_pos(chunk, lower, t, t_lower) is None,
{
    if exists|i: int| 0 <= i < t.len() && chars::is_cjk(#[trigger] t[i]) {
        let i = choose|i: int| 0 <= i < t.len() && chars::is_cjk(#[trigger] t[i]);
        assert(CharClass::Cjk.has(t[i]));
        assert(find::any_in(t, CharClass::Cjk));
    } else {
        assert(!find::any_in(t, CharClass::Cjk));
    }
    if find::first_at(chunk, t, 0, at) {
        find::lemma_first_at_unique(chunk, t, 0, at);
    }
    if find::first_at(lower, t_lower, 0, at) {
        find::lemma_first_at_unique(lower, t_lower, 0, at);
    }
    find::lemma_index_from(lower, t_lower, 0);
}

/// One part stands by itself; two stand under headings with their numbers, and a
/// further part is added under the next number.
pub proof fn law_combined(parts: Seq<Seq<char>>, p: Seq<char>)
    ensures
        combined(seq![p]) == p,
        parts.len() == 1 ==> combined(parts.push(p)) == "--- Chunk "@ + number::decimal(1)
            + " ---\n"@ + parts[0] + ("\n"@ + ("--- Chunk "@ + number::decimal(2) + " ---\n"@ + p)),
        parts.len() >= 2 ==> combined(parts.push(p)) == combined(parts) + ("\n"@ + ("--- Chunk "@
            + number::decimal((parts.len() + 1) as nat) + " ---\n"@ + p)),
{
    let all = parts.push(p);
    let line = "--- Chunk "@ + number::decimal((parts.len() + 1) as nat) + " ---\n"@ + p;
    if parts.len() >= 1 {
        assert(numbered(all) =~= numbered(parts).push(line));
        assert(numbered(all) =~= numbered(parts) + seq![line]);
        edit::law_joined(numbered(parts), seq![line], "\n"@);
        edit::law_joined(seq![line], Seq::empty(), "\n"@);
        assert(edit::joined(numbered(all), "\n"@) =~= edit::joined(numbered(parts), "\n"@) + (
        "\n"@ + line));
        if parts.len() == 1 {
            edit::law_joined(numbered(parts), Seq::empty(), "\n"@);
        }
    }
}

/// A text within the limit is not cut. Of a longer one, whose first line is not
/// empty, as many whole lines are kept as fit: the next one would not.
pub proof fn law_cut_keeps_lines(s: Seq<char>, limit: int) -> (m: int)
    requires
        limit >= 0,
    ensures
        s.len() <= limit ==> cut_to(s, limit) == s,
        s.len() > limit && split::lines(s).len() > 0 && split::lines(s)[0].len() > 0 ==> {
            let lines = split::lines(s);
            &&& 0 <= m <= lines.len()
            &&& cut_to(s, limit) == edit::joined(lines.take(m), "\n"@)
            &&& m < lines.len() ==> cut_to(s, limit).len() + lines[m].len() + 1 > limit
        },
{
    let lines = split::lines(s);
    if s.len() > limit && lines.len() > 0 && lines[0].len() > 0 {
        assert(lines.take(0) =~= Seq::empty());
        assert(edit::joined(lines.take(0), "\n"@) =~= Seq::empty());
        lemma_fitted_lines(lines, limit, 0)
    } else {
        0
    }
}

proof fn lemma_fitted_lines(lines: Seq<Seq<char>>, limit: int, i: int) -> (m: int)
    requires
        0 <= i <= lines.len(),
        lines.len() > 0,
        lines[0].len() > 0,
        i > 0 ==> edit::joined(lines.take(i), "\n"@).len() > 0,
    ensures
        i <= m <= lines.len(),
        ({
            let out = fitted(lines, limit, i, edit::joined(lines.take(i), "\n"@));
            &&& out == edit::joined(lines.take(m), "\n"@)
            &&& m < lines.len() ==> out.len() + lines[m].len() + 1 > limit
        }),
    decreases lines.len() - i,
{
    let out = edit::joined(lines.take(i), "\n"@);
    reveal_strlit("\n");
    if i < lines.len() && out.len() + lines[i].len() + 1 <= limit {
        let next = edit::joined(lines.take(i + 1), "\n"@);
        assert(lines.take(i + 1).drop_last() =~= lines.take(i));
        if i == 0 {
            assert(out.len() == 0);
            assert(lines.take(1)[0] == lines[0]);
        } else {
            assert(out + "\n"@ + lines[i] =~= out.push('\n') + lines[i]);
        }
        lemma_fitted_lines(lines, limit, i + 1)
    } else {
        i
    }
}

/// Of the places, `j` are below `i`.
pub open spec fn parts_at(places: Seq<int>, i: int, j: int) -> bool {
    &&& 0 <= j <= places.len()
    &&& forall|a: int| 0 <= a < j ==> #[trigger] places[a] < i
    &&& forall|a: int| j <= a < places.len() ==> #[trigger] places[a] >= i
}

/// What goes into the context of file `i`, where `used` characters are used
/// before it: its parts put together, in whole lines within what is left.
pub open spec fn share_of(
    file: PickedFile,
    ts: Seq<Seq<char>>,
    per_file: nat,
    total: nat,
    used: nat,
) -> Option<Seq<char>> {
    match query_parts(text::views(file.chunks@), ts) {
        Some(parts) => Some(
            cut_to(
                combined(parts),
                if total - used < per_file {
                    total - used
                } else {
                    per_file as int
                },
            ),
        ),
        None => None,
    }
}

/// No file is left out of the context without a reason: a file is not in it only
/// where the files before it use up all characters, or where what is left for it
/// is blank; any other is in it, in its order and with all of its share.
pub proof fn law_context_is_complete(
    files: Seq<PickedFile>,
    ts: Seq<Seq<char>>,
    per_file: nat,
    total: nat,
    n: int,
    i: int,
    j: int,
)
    requires
        0 <= i < n <= files.len(),
        context_after(files, ts, per_file, total, n) is Some,
        parts_at(context_after(files, ts, per_file, total, n)->0.files, i, j),
    ensures
        ({
            let state = context_after(files, ts, per_file, total, n)->0;
            let used = length_of(state.contents.take(j));
            let share = share_of(files[i], ts, per_file, total, used);
            &&& state.contents.len() == state.files.len()
            &&& used < total ==> share is Some
            &&& used < total && split::stripped(share->0).len() > 0 ==> j < state.files.len()
                && state.files[j] == i && state.contents[j] == share->0
            &&& used >= total || split::stripped(share->0).len() == 0 ==> !state.files.contains(i)
        }),
    decreases n,
{
    let state = context_after(files, ts, per_file, total, n)->0;
    law_context_budget(files, ts, per_file, total, n);
    law_context_budget(files, ts, per_file, total, n - 1);
    let before = context_after(files, ts, per_file, total, n - 1)->0;
    if i < n - 1 {
        if j < before.files.len() {
        } else {
            assert(j == before.files.len()) by {
                if j > before.files.len() {
                    assert(state.files[j - 1] < i);
                }
            }
        }
        assert(parts_at(before.files, i, j)) by {
            assert forall|a: int| 0 <= a < j implies #[trigger] before.files[a] < i by {
                assert(state.files[a] == before.files[a]);
            }
            assert forall|a: int| j <= a < before.files.len() implies #[trigger] before.files[a]
                >= i by {
                assert(state.files[a] == before.files[a]);
            }
        }
        law_context_is_complete(files, ts, per_file, total, n - 1, i, j);
        assert(state.contents.take(j) =~= before.contents.take(j));
        if state.files.contains(i) {
            let a = choose|a: int| 0 <= a < state.files.len() && state.files[a] == i;
            if a < before.files.len() {
                assert(before.files[a] == i);
            }
        }
    } else {
        assert(j == before.files.len()) by {
            if j < before.files.len() {
                assert(state.files[j] == before.files[j]);
                assert(before.files[j] < n - 1);
            } else if j > before.files.len() {
                assert(state.files[j - 1] < i);
            }
        }
        assert(state.contents.take(j) =~= before.contents);
        if state.files.contains(i) {
            let a = choose|a: int| 0 <= a < state.files.len() && state.files[a] == i;
            if a < before.files.len() {
                assert(before.files[a] < n - 1);
            }
        }
    }
}

/// The characters of the first `n` texts.
pub open spec fn length_upto(texts: Seq<Seq<char>>, n: int) -> nat {
    length_of(texts.take(n))
}

/// Where the texts of all files are not blank and within the budget, each by
/// itself and all together, the context has every file, in order and with all of
/// its text.
pub proof fn law_every_file_is_attached(
    files: Seq<PickedFile>,
    ts: Seq<Seq<char>>,
    per_file: nat,
    total: nat,
    texts: Seq<Seq<char>>,
    n: int,
)
    requires
        0 <= n <= files.len() == texts.len(),
        forall|i: int|
            0 <= i < files.len() ==> {
                let parts = query_parts(text::views((#[trigger] files[i]).chunks@), ts);
                &&& parts is Some
                &&& texts[i] == combined(parts->0)
            },
        forall|i: int|
            0 <= i < texts.len() ==> split::stripped(#[trigger] texts[i]).len() > 0
                && texts[i].len() <= per_file,
        length_of(texts) <= total,
    ensures
        context_after(files, ts, per_file, total, n) == Some(
            (ContextState {
                contents: texts.take(n),
                files: Seq::new(n as nat, |i: int| i),
                used: length_upto(texts, n),
            }),
        ),
    decreases n,
{
    if n == 0 {
        assert(texts.take(0) =~= Seq::empty());
        assert(Seq::new(0, |i: int| i) =~= Seq::<int>::empty());
    } else {
        law_every_file_is_attached(files, ts, per_file, total, texts, n - 1);
        let s = texts[n - 1];
        assert(split::stripped(s).len() > 0);
        assert(texts.take(n).drop_last() =~= texts.take(n - 1));
        lemma_length_upto(texts, n);
        assert(s.len() > 0) by {
            if s.len() == 0 {
                let ends = split::law_trim(s, CharClass::White);
            }
        }
        assert(texts.take(n - 1).push(s) =~= texts.take(n));
        assert(Seq::new((n - 1) as nat, |i: int| i).push(n - 1) =~= Seq::new(n as nat, |i: int| i));
        let file = files[n - 1];
        assert(query_parts(text::views(file.chunks@), ts) is Some);
    }
}

proof fn lemma_length_upto(texts: Seq<Seq<char>>, n: int)
    requires
        0 <= n <= texts.len(),
    ensures
        length_of(texts.take(n)) <= length_of(texts),
    decreases texts.len(),
{
    if n == texts.len() {
        assert(texts.take(n) =~= texts);
    } else {
        lemma_length_upto(texts.drop_last(), n);
        assert(texts.drop_last().take(n) =~= texts.take(n));
    }
}

/// Each attached file is the file at its place, and its block is its number in
/// brackets, its name and what is taken of it.
pub proof fn law_attached_files(
    files: Seq<PickedFile>,
    places: Seq<int>,
    contents: Seq<Seq<char>>,
    j: int,
)
    requires
        0 <= j < places.len() == contents.len(),
    ensures
        ({
            let file = attached(files, places)[j];
            &&& attached(files, places).len() == places.len()
            &&& blocks(files, places, contents).len() == places.len()
            &&& file.file_name == files[places[j]].file_name
            &&& file.file_path == files[places[j]].file_path
            &&& file.score == files[places[j]].score
            &&& blocks(files, places, contents)[j] == "["@ + number::decimal((j + 1) as nat)
                + "] "@ + file.file_name@ + ":\n"@ + contents[j]
        }),
{
}

/// What a chunk has of a term: nothing of one below two bytes. A term with a
/// Chinese, Japanese or Korean character is looked for in the chunk as it is, one
/// of several words in lower case with single spaces between the words, any other
/// in lower case; its occurrences are counted, and it is early where it stands
/// within the first two hundred bytes.
pub proof fn law_token_hit(chunk: Seq<char>, lower: Seq<char>, t: Seq<char>, t_lower: Seq<char>)
    requires
        chars::utf8_len(t) >= 2,
    ensures
        ({
            let cjk = exists|i: int| 0 <= i < t.len() && chars::is_cjk(#[trigger] t[i]);
            let s = if cjk {
                chunk
            } else if t_lower.contains(' ') {
                edit::joined(split::words(lower), " "@)
            } else {
                lower
            };
            let pat = if cjk {
                t
            } else {
                t_lower
            };
            &&& token_hit(chunk, lower, t, t_lower) is Some <==> find::occurs(s, pat)
            &&& token_hit(chunk, lower, t, t_lower) matches Some(hit) ==> hit.count
                == find::count_from(s, pat, 0) as usize && (hit.early <==> (token_pos(
                chunk,
                lower,
                t,
                t_lower,
            ) matches Some(pos) && pos < 200))
        }),
{
    if exists|i: int| 0 <= i < t.len() && chars::is_cjk(#[trigger] t[i]) {
        let i = choose|i: int| 0 <= i < t.len() && chars::is_cjk(#[trigger] t[i]);
        assert(CharClass::Cjk.has(t[i]));
        assert(find::any_in(t, CharClass::Cjk));
    } else {
        assert(!find::any_in(t, CharClass::Cjk));
        if t_lower.contains(' ') {
            let k = choose|k: int| 0 <= k < t_lower.len() && t_lower[k] == ' ';
            assert(CharClass::Is(' ').has(t_lower[k]));
            assert(find::any_in(t_lower, CharClass::Is(' ')));
        } else {
            assert(!find::any_in(t_lower, CharClass::Is(' ')));
        }
    }
}

/// The hits of a chunk are those of exactly the terms that it has, one for each
/// and in order.
pub proof fn law_chunk_hits(
    chunk: Seq<char>,
    lower: Seq<char>,
    ts: Seq<Seq<char>>,
    ts_lower: Seq<Seq<char>>,
) -> (ps: Seq<int>)
    requires
        ts.len() == ts_lower.len(),
    ensures
        select::exactly(
            ps,
            ts.len() as int,
            |i: int| token_hit(chunk, lower, ts[i], ts_lower[i]) is Some,
        ),
        chunk_hits(chunk, lower, ts, ts_lower) == Seq::new(
            ps.len(),
            |k: int| token_hit(chunk, lower, ts[ps[k]], ts_lower[ps[k]])->0,
        ),
{
    let p = |i: int| token_hit(chunk, lower, ts[i], ts_lower[i]) is Some;
    let g = |i: int| token_hit(chunk, lower, ts[i], ts_lower[i])->0;
    let f = |n: int| chunk_hits(chunk, lower, ts.take(n), ts_lower);
    assert forall|n: int| 0 < n <= ts.len() implies #[trigger] f(n) == if p(n - 1) {
        f(n - 1).push(g(n - 1))
    } else {
        f(n - 1)
    } by {
        assert(ts.take(n).drop_last() =~= ts.take(n - 1));
    }
    assert(ts.take(0) =~= Seq::empty());
    assert(ts.take(ts.len() as int) =~= ts);
    select::lemma_exactly(ts.len() as int, p, g, f)
}

/// The order in which chunks are taken: none before one of a higher score, and
/// those of the same score as they stand; of them the first are taken, as many as
/// are allowed, and no fewer.
pub proof fn law_chunk_order<T>(scores: Seq<Score>, p: Seq<int>, s: Seq<T>, n: int)
    requires
        order::is_order(p, chunk_keys(scores)),
        n >= 0,
    ensures
        p.len() == scores.len(),
        p.no_duplicates(),
        forall|i: int, j: int|
            0 <= i < j < p.len() ==> scores[#[trigger] p[i]].rank() > scores[#[trigger] p[j]].rank()
                || (scores[p[i]].rank() == scores[p[j]].rank() && p[i] < p[j]),
        at_most(s, n).len() == if s.len() < n {
            s.len() as int
        } else {
            n
        },
        forall|i: int| 0 <= i < at_most(s, n).len() ==> #[trigger] at_most(s, n)[i] == s[i],
{
    order::lemma_order_distinct(p, chunk_keys(scores));
    assert forall|i: int, j: int| 0 <= i < j < p.len() implies scores[#[trigger] p[i]].rank()
        > scores[#[trigger] p[j]].rank() || (scores[p[i]].rank() == scores[p[j]].rank() && p[i]
        < p[j]) by {
        assert(order::precedes(chunk_keys(scores), p[i], p[j]));
    }
}

} // verus!
