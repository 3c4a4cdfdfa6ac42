//! What goes into a query of the keyword index, and what comes out of a
//! document that it stored.
use vstd::prelude::*;

use crate::indexer::chunker::Chunk;
use crate::text;
use crate::text::chars;
use crate::text::chars::CharClass;
use crate::text::edit;
use crate::text::split;

verus! {

/// The characters that mean something in a query of the index.
pub const QUERY_MARKS: &'static str = "[](){}~^!:\\/";

/// The query with a space for each character that means something.
pub open spec fn without_marks(query: Seq<char>) -> Seq<char> {
    Seq::new(
        query.len(),
        |i: int|
            if CharClass::AnyOf(QUERY_MARKS).has(query[i]) {
                ' '
            } else {
                query[i]
            },
    )
}

/// The words of the query, without the characters that mean something.
pub open spec fn plain_query(query: Seq<char>) -> Seq<char> {
    edit::joined(split::words(without_marks(query)), " "@)
}

/// The query as plain words, so that a file name with brackets can be asked
/// for.
pub fn sanitize_query(query: &str) -> (r: String)
    ensures
        r@ == plain_query(query@),
{
    let v: Vec<char> = chars::to_chars(query);
    let marks: CharClass = CharClass::AnyOf(QUERY_MARKS);
    let mut out: Vec<char> = Vec::new();
    let mut i: usize = 0;
    while i < v.len()
        invariant
            i <= v@.len(),
            v@ == query@,
            marks == CharClass::AnyOf(QUERY_MARKS),
            out@ == without_marks(query@).take(i as int),
        decreases v@.len() - i,
    {
        out.push(
            if marks.test(v[i]) {
                ' '
            } else {
                v[i]
            },
        );
        i += 1;
    }
    assert(out@ =~= without_marks(query@));
    let blanked: String = chars::from_chars(out.as_slice());
    let words: Vec<String> = split::split_words(blanked.as_str());
    edit::join(words.as_slice(), " ")
}

/// A query as plain words has none of the characters that mean something.
pub proof fn law_query_is_plain(query: Seq<char>, i: int)
    requires
        0 <= i < plain_query(query).len(),
    ensures
        !CharClass::AnyOf(QUERY_MARKS).has(plain_query(query)[i]),
{
    let s = without_marks(query);
    split::lemma_words_chars(s);
    edit::lemma_joined_chars(split::words(s), " "@, i);
    let c = plain_query(query)[i];
    reveal_strlit(" ");
    reveal_strlit("[](){}~^!:\\/");
    if !" "@.contains(c) {
        let p = choose|p: int|
            0 <= p < split::words(s).len() && (#[trigger] split::words(s)[p]).contains(c);
        let k = choose|k: int| 0 <= k < split::words(s)[p].len() && split::words(s)[p][k] == c;
        assert(s.contains(split::words(s)[p][k]));
    }
}

/// What the index stored of a chunk.
#[derive(Debug)]
pub struct StoredChunk {
    /// The chunk.
    pub chunk_id: Option<String>,
    /// The path of its file.
    pub file_path: Option<String>,
    /// The name of its file.
    pub file_name: Option<String>,
    /// Its text.
    pub content: Option<String>,
    /// The section it stands in; empty for none.
    pub section: Option<String>,
}

/// The text, or none.
pub open spec fn or_empty(s: Option<String>) -> Seq<char> {
    match s {
        Some(t) => t@,
        None => Seq::empty(),
    }
}

fn text_or_empty(s: Option<String>) -> (r: String)
    ensures
        r@ == or_empty(s),
{
    match s {
        Some(t) => t,
        None => String::new(),
    }
}

/// `c` is the chunk that was stored. Its place in the document is not.
pub open spec fn is_stored(c: Chunk, stored: StoredChunk) -> bool {
    &&& c.id@ == or_empty(stored.chunk_id)
    &&& c.file_path@ == or_empty(stored.file_path)
    &&& c.file_name@ == or_empty(stored.file_name)
    &&& c.content@ == or_empty(stored.content)
    &&& text::option_view(c.section) == if or_empty(stored.section).len() == 0 {
        None
    } else {
        Some(or_empty(stored.section))
    }
    &&& c.position == 0
    &&& c.char_start == 0
    &&& c.char_end == 0
}

/// The chunk that was stored.
pub fn stored_chunk(stored: StoredChunk) -> (c: Chunk)
    ensures
        is_stored(c, stored),
{
    let section: Option<String> = match stored.section {
        Some(s) => if s.as_str().is_empty() {
            None
        } else {
            Some(s)
        },
        None => None,
    };
    Chunk {
        id: text_or_empty(stored.chunk_id),
        file_path: text_or_empty(stored.file_path),
        file_name: text_or_empty(stored.file_name),
        content: text_or_empty(stored.content),
        section,
        position: 0,
        char_start: 0,
        char_end: 0,
    }
}

/// `stored` is what is stored of the chunk.
pub open spec fn stores(stored: StoredChunk, chunk: Chunk) -> bool {
    &&& text::option_view(stored.chunk_id) == Some(chunk.id@)
    &&& text::option_view(stored.file_path) == Some(chunk.file_path@)
    &&& text::option_view(stored.file_name) == Some(chunk.file_name@)
    &&& text::option_view(stored.content) == Some(chunk.content@)
    &&& text::option_view(stored.section) == Some(or_empty(chunk.section))
}

/// What is stored of a chunk.
pub fn to_stored(chunk: &Chunk) -> (r: StoredChunk)
    ensures
        stores(r, *chunk),
{
    StoredChunk {
        chunk_id: Some(chunk.id.clone()),
        file_path: Some(chunk.file_path.clone()),
        file_name: Some(chunk.file_name.clone()),
        content: Some(chunk.content.clone()),
        section: Some(text_or_empty(text::copy_option(&chunk.section))),
    }
}

/// A chunk that was stored comes back with its identifier, its file, its text
/// and its section.
pub proof fn law_stored_chunk(chunk: Chunk, stored: StoredChunk, back: Chunk)
    requires
        stores(stored, chunk),
        is_stored(back, stored),
    ensures
        back.id@ == chunk.id@,
        back.file_path@ == chunk.file_path@,
        back.file_name@ == chunk.file_name@,
        back.content@ == chunk.content@,
        or_empty(back.section) == or_empty(chunk.section),
{
}

/// No word of a query is lost: white space and the characters that mean something
/// part what stands before them from what stands behind them, with one space in
/// the plain query, and a word without them is left as it is.
pub proof fn law_query_keeps_words(a: Seq<char>, c: char, b: Seq<char>)
    requires
        chars::is_white(c) || "[](){}~^!:\\/"@.contains(c),
    ensures
        plain_query(a.push(c) + b) == if plain_query(a).len() == 0 {
            plain_query(b)
        } else if plain_query(b).len() == 0 {
            plain_query(a)
        } else {
            plain_query(a) + " "@ + plain_query(b)
        },
        (forall|i: int|
            0 <= i < a.len() ==> !chars::is_white(#[trigger] a[i]) && !"[](){}~^!:\\/"@.contains(
                a[i],
            )) ==> plain_query(a) == a,
{
    let d = if CharClass::AnyOf(QUERY_MARKS).has(c) {
        ' '
    } else {
        c
    };
    let x = without_marks(a);
    let y = without_marks(b);
    assert(without_marks(a.push(c) + b) =~= x.push(d) + y);
    assert(chars::is_white(d));
    split::law_words(x, d, y);
    let ws = split::words(x);
    let vs = split::words(y);
    edit::law_joined(ws, vs, " "@);
    edit::law_joined(vs, ws, " "@);
    lemma_words_filled(x);
    lemma_words_filled(y);
    if ws.len() == 0 {
        assert(ws + vs =~= vs);
    } else {
        lemma_joined_filled(ws, " "@);
    }
    if vs.len() == 0 {
        assert(ws + vs =~= ws);
    } else {
        lemma_joined_filled(vs, " "@);
    }
    assert(ws.len() == 0 ==> edit::joined(ws, " "@) =~= Seq::empty());
    assert(vs.len() == 0 ==> edit::joined(vs, " "@) =~= Seq::empty());
    if forall|i: int|
        0 <= i < a.len() ==> !chars::is_white(#[trigger] a[i]) && !"[](){}~^!:\\/"@.contains(a[i]) {
        assert(x =~= a) by {
            assert forall|i: int| 0 <= i < a.len() implies x[i] == a[i] by {
                assert(!"[](){}~^!:\\/"@.contains(a[i]));
            }
        }
        assert(a.len() == 0 ==> plain_query(a) =~= a);
    }
}

proof fn lemma_words_filled(s: Seq<char>)
    ensures
        forall|i: int| 0 <= i < split::words(s).len() ==> (#[trigger] split::words(s)[i]).len() > 0,
{
    split::lemma_nonempty_filled(split::pieces(s, CharClass::White));
}

proof fn lemma_joined_filled(parts: Seq<Seq<char>>, sep: Seq<char>)
    requires
        parts.len() > 0,
        forall|i: int| 0 <= i < parts.len() ==> (#[trigger] parts[i]).len() > 0,
    ensures
        edit::joined(parts, sep).len() > 0,
{
    let at = edit::law_part_stands(parts, sep, 0);
    assert(parts[0].len() > 0);
}

} // verus!
