//! Cutting a document into chunks.
use vstd::prelude::*;

use crate::identity;
use crate::parser::KreuzbergChunkData;
use crate::parser::ParsedDocument;
use crate::select;
use crate::text;
use crate::text::chars;
use crate::text::edit;
use crate::text::split;

verus! {

/// A piece of text cut from a document.
#[derive(Clone, Debug)]
pub struct Chunk {
    /// Its identifier.
    pub id: String,
    /// The path of its file.
    pub file_path: String,
    /// The name of its file.
    pub file_name: String,
    /// Its text.
    pub content: String,
    /// The section it stands in.
    pub section: Option<String>,
    /// Its place among the chunks of the document.
    pub position: usize,
    /// Where it starts in the document.
    pub char_start: usize,
    /// Where it ends in the document.
    pub char_end: usize,
}

/// How a text is cut. A token is taken to be four bytes.
#[derive(Clone, Copy, Debug)]
pub struct ChunkConfig {
    /// The tokens of a chunk at most. With 0 each paragraph is a chunk.
    pub max_chunk_size: usize,
    /// The tokens at the end of a chunk that the next one repeats.
    pub overlap_size: usize,
}

impl Default for ChunkConfig {
    fn default() -> (r: Self)
        ensures
            r.max_chunk_size == 512,
            r.overlap_size == 50,
    {
        ChunkConfig { max_chunk_size: 512, overlap_size: 50 }
    }
}

/// The places below `n` of the chunks that are not blank.
pub open spec fn filled_places(chunks: Seq<KreuzbergChunkData>, n: int) -> Seq<int>
    decreases n,
{
    if n <= 0 {
        Seq::empty()
    } else if split::stripped(chunks[n - 1].content@).len() > 0 {
        filled_places(chunks, n - 1).push(n - 1)
    } else {
        filled_places(chunks, n - 1)
    }
}

/// `c` is a new chunk of the file with this text and these offsets.
pub open spec fn is_chunk(
    c: Chunk,
    path: Seq<char>,
    name: Seq<char>,
    content: Seq<char>,
    position: int,
    start: int,
    end: int,
) -> bool {
    &&& identity::is_identifier(c.id@)
    &&& c.file_path@ == path
    &&& c.file_name@ == name
    &&& c.content@ == content
    &&& c.section is None
    &&& c.position == position
    &&& c.char_start == start
    &&& c.char_end == end
}

fn chunk(path: &str, name: &str, content: String, position: usize, start: usize, end: usize) -> (c:
    Chunk)
    ensures
        is_chunk(c, path@, name@, content@, position as int, start as int, end as int),
{
    Chunk {
        id: identity::new_id(),
        file_path: edit::owned(path),
        file_name: edit::owned(name),
        content,
        section: None,
        position,
        char_start: start,
        char_end: end,
    }
}

/// The chunks of the extractor, without the blank ones; each keeps its place
/// and its offsets.
pub fn from_kreuzberg_chunks(
    kr_chunks: &Vec<KreuzbergChunkData>,
    file_path: &str,
    file_name: &str,
) -> (r: Vec<Chunk>)
    ensures
        ({
            let places = filled_places(kr_chunks@, kr_chunks@.len() as int);
            &&& r@.len() == places.len()
            &&& forall|k: int|
                0 <= k < r@.len() ==> is_chunk(
                    #[trigger] r@[k],
                    file_path@,
                    file_name@,
                    kr_chunks@[places[k]].content@,
                    places[k],
                    kr_chunks@[places[k]].byte_start as int,
                    kr_chunks@[places[k]].byte_end as int,
                )
        }),
{
    let mut out: Vec<Chunk> = Vec::new();
    let mut i: usize = 0;
    while i < kr_chunks.len()
        invariant
            i <= kr_chunks@.len(),
            out@.len() == filled_places(kr_chunks@, i as int).len(),
            forall|k: int|
                0 <= k < out@.len() ==> {
                    let place = filled_places(kr_chunks@, i as int)[k];
                    is_chunk(
                        #[trigger] out@[k],
                        file_path@,
                        file_name@,
                        kr_chunks@[place].content@,
                        place,
                        kr_chunks@[place].byte_start as int,
                        kr_chunks@[place].byte_end as int,
                    )
                },
        decreases kr_chunks@.len() - i,
    {
        let c: &KreuzbergChunkData = &kr_chunks[i];
        if !split::strip(c.content.as_str()).as_str().is_empty() {
            out.push(
                chunk(file_path, file_name, c.content.clone(), i, c.byte_start, c.byte_end),
            );
        }
        i += 1;
    }
    out
}

/// A piece of a document: its text, and the byte where it starts.
pub struct Piece {
    /// Its text.
    pub content: Seq<char>,
    /// The byte where it starts.
    pub start: nat,
}

impl Piece {
    /// The byte where it ends.
    pub open spec fn end(self) -> nat {
        self.start + chars::utf8_len(self.content)
    }
}

/// How far a document was cut: the pieces that are done, and the one that
/// still grows.
pub struct Cutting {
    /// The pieces that are done.
    pub done: Seq<Piece>,
    /// The piece that still grows.
    pub open: Piece,
}

/// The first place at or after `i` that has at least `target` bytes before it.
pub open spec fn reaching(s: Seq<char>, target: int, i: int) -> int
    decreases s.len() - i,
{
    if i >= s.len() || chars::utf8_len(s.take(i)) >= target {
        i
    } else {
        reaching(s, target, i + 1)
    }
}

/// How many characters of `s`, beyond the first `i`, fit into `max` bytes.
pub open spec fn holding(s: Seq<char>, max: int, i: int) -> int
    decreases s.len() - i,
{
    if i < s.len() && chars::utf8_len(s.take(i + 1)) <= max {
        holding(s, max, i + 1)
    } else {
        i
    }
}

/// Where the last `overlap` bytes of `s` start, or the next character where one
/// stands across that place.
pub open spec fn kept_from(s: Seq<char>, overlap: int) -> int {
    if chars::utf8_len(s) > overlap {
        reaching(s, chars::utf8_len(s) - overlap, 0)
    } else {
        0
    }
}

/// What is left of a piece from the character at `k` on.
pub open spec fn rest_of(p: Piece, k: int) -> Piece {
    Piece { content: p.content.skip(k), start: p.start + chars::utf8_len(p.content.take(k)) }
}

/// What the next piece repeats of a piece: its last `overlap` bytes, or fewer
/// where a character stands across the cut; all where it has no more.
pub open spec fn repeated(p: Piece, overlap: int) -> Piece {
    rest_of(p, kept_from(p.content, overlap))
}

/// The paragraph separator.
pub const PARAGRAPH: &'static str = "\n\n";

/// The bytes of a chunk at most; 0 where there is no limit.
pub open spec fn size_limit(config: ChunkConfig) -> int {
    config.max_chunk_size * 4
}

/// How much of a piece is repeated before a paragraph of `len` bytes: less than
/// `overlap` where the paragraph would not fit behind it.
pub open spec fn repeatable(len: int, max: int, overlap: int) -> int {
    let free = if max == 0 {
        overlap
    } else if len > max {
        max - 4
    } else if len + 2 > max {
        0
    } else {
        max - 2 - len
    };
    if free < overlap {
        free
    } else {
        overlap
    }
}

/// The piece that grows, cut until it fits: as much as fits is done, and what
/// is left begins with the end of that.
pub open spec fn settled(c: Cutting, max: int, overlap: int) -> Cutting
    decreases c.open.content.len(),
{
    proof {
        lemma_cut(c.open.content, max, overlap);
    }
    if max < 4 || chars::utf8_len(c.open.content) <= max {
        c
    } else {
        let first = c.open.content.take(holding(c.open.content, max, 0));
        let overlap_here = if overlap < max - 4 {
            overlap
        } else {
            max - 4
        };
        settled(
            Cutting {
                done: c.done.push(Piece { content: first, start: c.open.start }),
                open: rest_of(c.open, kept_from(first, overlap_here)),
            },
            max,
            overlap,
        )
    }
}

/// A piece with a paragraph behind what it has.
pub open spec fn grown(p: Piece, para: Seq<char>) -> Piece {
    Piece {
        content: if p.content.len() > 0 {
            p.content + PARAGRAPH@ + para
        } else {
            para
        },
        start: p.start,
    }
}

/// The document one paragraph further. A paragraph that does not fit closes
/// the piece that grows, and the next one begins with its end. One that does
/// not fit at all is cut.
pub open spec fn cut_paragraph(c: Cutting, p: Seq<char>, max: int, overlap: int) -> Cutting {
    let para = split::stripped(p);
    let len = chars::utf8_len(para) as int;
    if para.len() == 0 {
        c
    } else if c.open.content.len() > 0 && chars::utf8_len(c.open.content) + 2 + len > max {
        settled(
            Cutting {
                done: c.done.push(c.open),
                open: grown(repeated(c.open, repeatable(len, max, overlap)), para),
            },
            max,
            overlap,
        )
    } else {
        settled(Cutting { done: c.done, open: grown(c.open, para) }, max, overlap)
    }
}

proof fn lemma_holding(s: Seq<char>, max: int, i: int)
    requires
        0 <= i <= s.len(),
        chars::utf8_len(s.take(i)) <= max,
    ensures
        ({
            let k = holding(s, max, i);
            &&& i <= k <= s.len()
            &&& chars::utf8_len(s.take(k)) <= max
            &&& k < s.len() ==> chars::utf8_len(s.take(k)) > max - 4
        }),
    decreases s.len() - i,
{
    if i < s.len() {
        chars::lemma_utf8_len_step(s, i);
        if chars::utf8_len(s.take(i + 1)) <= max {
            lemma_holding(s, max, i + 1);
        }
    }
}

/// A text that is too long is cut inside, and what is left is shorter.
pub proof fn lemma_cut(s: Seq<char>, max: int, overlap: int)
    ensures
        max >= 4 && chars::utf8_len(s) > max ==> {
            let k = holding(s, max, 0);
            let first = s.take(k);
            let overlap_here = if overlap < max - 4 {
                overlap
            } else {
                max - 4
            };
            &&& 0 < k < s.len()
            &&& max - 4 < chars::utf8_len(first) <= max
            &&& 0 < kept_from(first, overlap_here) <= k
        },
{
    if max >= 4 && chars::utf8_len(s) > max {
        assert(s.take(0) =~= Seq::empty());
        assert(s.take(s.len() as int) =~= s);
        lemma_holding(s, max, 0);
        let k = holding(s, max, 0);
        let first = s.take(k);
        let overlap_here = if overlap < max - 4 {
            overlap
        } else {
            max - 4
        };
        let target = chars::utf8_len(first) - overlap_here;
        assert(first.take(0) =~= Seq::empty());
        assert(chars::utf8_len(first.take(0)) < target);
        if k == 0 {
            assert(chars::utf8_len(first) == 0);
        }
        lemma_reaching(first, target, 1);
        assert(reaching(first, target, 0) == reaching(first, target, 1));
    }
}

/// The document after its first paragraphs.
pub open spec fn cut_paragraphs(ps: Seq<Seq<char>>, max: int, overlap: int) -> Cutting
    decreases ps.len(),
{
    if ps.len() == 0 {
        Cutting { done: Seq::empty(), open: Piece { content: Seq::empty(), start: 0 } }
    } else {
        cut_paragraph(cut_paragraphs(ps.drop_last(), max, overlap), ps.last(), max, overlap)
    }
}

/// All pieces, with the one that grew last.
pub open spec fn all_pieces(c: Cutting) -> Seq<Piece> {
    if c.open.content.len() > 0 {
        c.done.push(c.open)
    } else {
        c.done
    }
}

/// The pieces of a document.
pub open spec fn text_pieces(content: Seq<char>, config: ChunkConfig) -> Seq<Piece> {
    all_pieces(
        cut_paragraphs(
            split::parts(content, PARAGRAPH@),
            size_limit(config),
            config.overlap_size * 4,
        ),
    )
}

/// A piece of a document.
#[derive(Debug)]
pub struct TextSpan {
    /// Its text.
    pub content: String,
    /// The byte where it starts.
    pub start: usize,
    /// The byte where it ends.
    pub end: usize,
}

/// The spans are the pieces.
pub open spec fn are_pieces(spans: Seq<TextSpan>, pieces: Seq<Piece>) -> bool {
    &&& spans.len() == pieces.len()
    &&& forall|i: int|
        0 <= i < spans.len() ==> (#[trigger] spans[i]).content@ == pieces[i].content
            && spans[i].start == pieces[i].start && spans[i].end == pieces[i].end()
}

fn find_reaching(s: &str, target: usize) -> (r: (usize, usize))
    ensures
        r.0 == reaching(s@, target as int, 0),
        r.0 <= s@.len(),
        r.1 == chars::utf8_len(s@.take(r.0 as int)),
{
    let v: Vec<char> = chars::to_chars(s);
    let total: usize = chars::byte_len(s);
    let mut bytes: usize = 0;
    let mut i: usize = 0;
    assert(s@.take(0) =~= Seq::empty());
    assert(s@.take(s@.len() as int) =~= s@);
    while i < v.len() && bytes < target
        invariant
            i <= v@.len(),
            v@ == s@,
            s@.take(s@.len() as int) == s@,
            total == chars::utf8_len(s@),
            bytes == chars::utf8_len(s@.take(i as int)),
            reaching(s@, target as int, 0) == reaching(s@, target as int, i as int),
        decreases v@.len() - i,
    {
        proof {
            chars::lemma_utf8_len_step(s@, i as int);
            chars::lemma_utf8_len_take(s@, i + 1, s@.len() as int);
        }
        bytes += chars::char_width(v[i]);
        i += 1;
    }
    (i, bytes)
}

/// The bytes of what was cut so far fit into the paragraphs so far.
spec fn fits(c: Cutting, ps: Seq<Seq<char>>) -> bool {
    c.open.end() + 2 <= split::spread(ps, 2) || (c.open.start == 0 && c.open.content.len() == 0)
}

proof fn lemma_reaching(s: Seq<char>, target: int, i: int)
    requires
        0 <= i <= s.len(),
    ensures
        i <= reaching(s, target, i) <= s.len(),
    decreases s.len() - i,
{
    if i < s.len() && chars::utf8_len(s.take(i)) < target {
        lemma_reaching(s, target, i + 1);
    }
}

proof fn lemma_rest_of(p: Piece, k: int)
    requires
        0 <= k <= p.content.len(),
    ensures
        rest_of(p, k).end() == p.end(),
        p.start <= rest_of(p, k).start,
{
    chars::lemma_utf8_len_concat(p.content.take(k), p.content.skip(k));
    assert(p.content =~= p.content.take(k) + p.content.skip(k));
}

proof fn lemma_kept_from(s: Seq<char>, overlap: int)
    ensures
        0 <= kept_from(s, overlap) <= s.len(),
{
    lemma_reaching(s, chars::utf8_len(s) - overlap, 0);
}

/// The last bytes of a text are no more than asked for.
proof fn lemma_kept_len(s: Seq<char>, overlap: int)
    requires
        overlap >= 0,
    ensures
        chars::utf8_len(s.skip(kept_from(s, overlap))) <= overlap,
{
    let k = kept_from(s, overlap);
    lemma_kept_from(s, overlap);
    chars::lemma_utf8_len_concat(s.take(k), s.skip(k));
    assert(s =~= s.take(k) + s.skip(k));
    if chars::utf8_len(s) > overlap {
        lemma_reached(s, chars::utf8_len(s) - overlap, 0);
    }
}

proof fn lemma_reached(s: Seq<char>, target: int, i: int)
    requires
        0 <= i <= s.len(),
        target <= chars::utf8_len(s),
    ensures
        chars::utf8_len(s.take(reaching(s, target, i))) >= target,
    decreases s.len() - i,
{
    if i < s.len() && chars::utf8_len(s.take(i)) < target {
        lemma_reached(s, target, i + 1);
    } else if i == s.len() {
        assert(s.take(i) =~= s);
    }
}

proof fn lemma_settled_end(c: Cutting, max: int, overlap: int)
    ensures
        settled(c, max, overlap).open.end() == c.open.end(),
        max >= 4 ==> chars::utf8_len(settled(c, max, overlap).open.content) <= max,
    decreases c.open.content.len(),
{
    lemma_cut(c.open.content, max, overlap);
    if max >= 4 && chars::utf8_len(c.open.content) > max {
        let first = c.open.content.take(holding(c.open.content, max, 0));
        let overlap_here = if overlap < max - 4 {
            overlap
        } else {
            max - 4
        };
        let rest = rest_of(c.open, kept_from(first, overlap_here));
        lemma_rest_of(c.open, kept_from(first, overlap_here));
        lemma_settled_end(
            Cutting { done: c.done.push(Piece { content: first, start: c.open.start }), open: rest },
            max,
            overlap,
        );
    }
}

proof fn lemma_separator()
    ensures
        PARAGRAPH@ == seq!['\n', '\n'],
        chars::utf8_len(PARAGRAPH@) == 2,
{
    reveal_strlit("\n\n");
    assert(PARAGRAPH@ =~= seq!['\n', '\n']);
    reveal_with_fuel(chars::utf8_len, 3);
    assert(PARAGRAPH@.drop_last() =~= seq!['\n']);
    assert(PARAGRAPH@.drop_last().drop_last() =~= Seq::empty());
}

proof fn lemma_grown(p: Piece, para: Seq<char>)
    ensures
        grown(p, para).end() <= p.end() + 2 + chars::utf8_len(para),
        p.content.len() == 0 ==> grown(p, para).end() == p.start + chars::utf8_len(para),
{
    lemma_separator();
    chars::lemma_utf8_len_concat(p.content + PARAGRAPH@, para);
    chars::lemma_utf8_len_concat(p.content, PARAGRAPH@);
}

proof fn lemma_fits(c: Cutting, ps: Seq<Seq<char>>, p: Seq<char>, max: int, overlap: int)
    requires
        fits(c, ps),
    ensures
        fits(cut_paragraph(c, p, max, overlap), ps.push(p)),
        split::stripped(p).len() > 0 ==> grown(c.open, split::stripped(p)).end() + 2
            <= split::spread(ps.push(p), 2),
        split::stripped(p).len() > 0 && c.open.content.len() > 0 ==> {
            let len = chars::utf8_len(split::stripped(p)) as int;
            let open = repeated(c.open, repeatable(len, max, overlap));
            &&& open.end() == c.open.end()
            &&& grown(open, split::stripped(p)).end() + 2 <= split::spread(ps.push(p), 2)
        },
{
    split::lemma_stripped_shorter(p);
    assert(ps.push(p).drop_last() =~= ps);
    let para = split::stripped(p);
    let len = chars::utf8_len(para) as int;
    let kept = kept_from(c.open.content, repeatable(len, max, overlap));
    lemma_kept_from(c.open.content, repeatable(len, max, overlap));
    lemma_rest_of(c.open, kept);
    let open = rest_of(c.open, kept);
    lemma_grown(open, para);
    lemma_grown(c.open, para);
    lemma_settled_end(Cutting { done: c.done, open: grown(c.open, para) }, max, overlap);
    lemma_settled_end(
        Cutting { done: c.done.push(c.open), open: grown(open, para) },
        max,
        overlap,
    );
}

/// Cuts the piece that grows until it fits.
fn settle(
    spans: &mut Vec<TextSpan>,
    current: String,
    start: usize,
    max: usize,
    overlap: usize,
    Ghost(done): Ghost<Seq<Piece>>,
) -> (r: (String, usize))
    requires
        max >= 4,
        are_pieces(old(spans)@, done),
        start + chars::utf8_len(current@) <= usize::MAX,
    ensures
        ({
            let c = settled(
                Cutting { done, open: Piece { content: current@, start: start as nat } },
                max as int,
                overlap as int,
            );
            &&& are_pieces(final(spans)@, c.done)
            &&& r.0@ == c.open.content
            &&& r.1 == c.open.start
        }),
{
    let mut left: usize = chars::byte_len(current.as_str());
    if left <= max {
        return (current, start);
    }
    let v: Vec<char> = chars::to_chars(current.as_str());
    let overlap_here: usize = if overlap < max - 4 {
        overlap
    } else {
        max - 4
    };
    let mut a: usize = 0;
    let mut at: usize = start;
    let ghost mut c = Cutting { done, open: Piece { content: current@, start: start as nat } };
    assert(v@.skip(0) =~= v@);
    while left > max
        invariant
            max >= 4,
            a <= v@.len(),
            overlap_here == if overlap < max - 4 {
                overlap
            } else {
                (max - 4) as usize
            },
            are_pieces(spans@, c.done),
            c.open.content == v@.skip(a as int),
            c.open.start == at,
            left == chars::utf8_len(c.open.content),
            at + left <= usize::MAX,
            settled(c, max as int, overlap as int) == settled(
                Cutting { done, open: Piece { content: current@, start: start as nat } },
                max as int,
                overlap as int,
            ),
        decreases v@.len() - a,
    {
        let ghost rest = c.open.content;
        proof {
            lemma_cut(rest, max as int, overlap as int);
            assert(rest.take(0) =~= Seq::empty());
            assert(rest.take(rest.len() as int) =~= rest);
        }
        let mut e: usize = a;
        let mut bytes: usize = 0;
        while e < v.len() && chars::char_width(v[e]) <= max - bytes
            invariant
                a <= e <= v@.len(),
                bytes <= max,
                rest == v@.skip(a as int),
                bytes == chars::utf8_len(rest.take(e - a)),
                holding(rest, max as int, 0) == holding(rest, max as int, e - a),
            decreases v@.len() - e,
        {
            proof {
                chars::lemma_utf8_len_step(rest, e - a);
                assert(rest[e - a] == v@[e as int]);
            }
            bytes += chars::char_width(v[e]);
            e += 1;
        }
        proof {
            if e < v@.len() {
                chars::lemma_utf8_len_step(rest, e - a);
                assert(rest[e - a] == v@[e as int]);
            }
        }
        let ghost first = rest.take(e - a);
        assert(holding(rest, max as int, 0) == e - a);
        assert(bytes > max - 4);
        let target: usize = bytes - overlap_here;
        let mut b: usize = a;
        let mut skipped: usize = 0;
        assert(first.take(0) =~= Seq::empty());
        while b < e && skipped < target
            invariant
                a <= b <= e <= v@.len(),
                skipped <= bytes <= max,
                rest == v@.skip(a as int),
                first == rest.take(e - a),
                bytes == chars::utf8_len(first),
                skipped == chars::utf8_len(first.take(b - a)),
                reaching(first, target as int, 0) == reaching(first, target as int, b - a),
            decreases e - b,
        {
            proof {
                chars::lemma_utf8_len_step(first, b - a);
                chars::lemma_utf8_len_take(first, b - a + 1, e - a);
                assert(first.take(e - a) =~= first);
                assert(first[b - a] == v@[b as int]);
            }
            skipped += chars::char_width(v[b]);
            b += 1;
        }
        assert(kept_from(first, overlap_here as int) == b - a);
        let content: String = chars::from_chars(
            vstd::slice::slice_subrange(v.as_slice(), a, e),
        );
        assert(content@ =~= first);
        proof {
            chars::lemma_utf8_len_take(rest, e - a, rest.len() as int);
            assert(first.take(b - a) =~= rest.take(b - a));
            lemma_rest_of(c.open, b - a);
            assert(rest.skip(b - a) =~= v@.skip(b as int));
        }
        let ghost piece = Piece { content: first, start: at as nat };
        let ghost before = spans@;
        spans.push(TextSpan { content, start: at, end: at + bytes });
        proof {
            c =
            Cutting { done: c.done.push(piece), open: rest_of(c.open, b - a) };
            assert(are_pieces(spans@, c.done)) by {
                assert forall|i: int| 0 <= i < spans@.len() implies (
                #[trigger] spans@[i]).content@ == c.done[i].content && spans@[i].start
                    == c.done[i].start && spans@[i].end == c.done[i].end() by {
                    if i < before.len() {
                        assert(spans@[i] == before[i]);
                    }
                }
            }
        }
        at += skipped;
        left -= skipped;
        a = b;
    }
    let tail: String = chars::from_chars(
        vstd::slice::slice_subrange(v.as_slice(), a, v.len()),
    );
    assert(tail@ =~= v@.skip(a as int));
    (tail, at)
}

/// Cuts a text into pieces: paragraphs are put together as long as they fit.
pub fn cut_text(content: &str, config: &ChunkConfig) -> (r: Vec<TextSpan>)
    requires
        config.max_chunk_size * 4 <= usize::MAX,
        config.overlap_size * 4 <= usize::MAX,
    ensures
        are_pieces(r@, text_pieces(content@, *config)),
{
    let max: usize = config.max_chunk_size * 4;
    let overlap: usize = config.overlap_size * 4;
    let total: usize = chars::byte_len(content);
    proof {
        lemma_separator();
        split::lemma_parts_spread(content@, PARAGRAPH@);
    }
    let paragraphs: Vec<String> = split::split_at(content, PARAGRAPH);
    let ghost ps = text::views(paragraphs@);
    let mut spans: Vec<TextSpan> = Vec::new();
    let mut current: String = String::new();
    let mut start: usize = 0;
    let mut i: usize = 0;
    assert(ps.take(0) =~= Seq::empty());
    assert(current@ =~= Seq::empty());
    assert(chars::utf8_len(current@) == 0);
    while i < paragraphs.len()
        invariant
            i <= paragraphs@.len(),
            max == 0 || max >= 4,
            ps == text::views(paragraphs@),
            split::spread(ps, 2) == total + 2,
            ({
                let c = cut_paragraphs(ps.take(i as int), max as int, overlap as int);
                &&& are_pieces(spans@, c.done)
                &&& current@ == c.open.content
                &&& start == c.open.start
                &&& fits(c, ps.take(i as int))
            }),
        decreases paragraphs@.len() - i,
    {
        let ghost c = cut_paragraphs(ps.take(i as int), max as int, overlap as int);
        let ghost mut done = c.done;
        proof {
            assert(ps.take(i + 1).drop_last() =~= ps.take(i as int));
            assert(ps.take(i + 1) =~= ps.take(i as int).push(ps[i as int]));
            lemma_fits(c, ps.take(i as int), ps[i as int], max as int, overlap as int);
            split::lemma_spread_take(ps, 2, i + 1);
            split::lemma_spread_take(ps, 2, i as int);
        }
        let para: String = split::strip(paragraphs[i].as_str());
        if !para.as_str().is_empty() {
            let len: usize = chars::byte_len(current.as_str());
            let more: usize = chars::byte_len(para.as_str());
            if !current.as_str().is_empty() && len as u128 + 2 + more as u128 > max as u128 {
                spans.push(TextSpan { content: current.clone(), start, end: start + len });
                proof {
                    done = done.push(c.open);
                }
                let free: usize = if max == 0 {
                    overlap
                } else if more > max {
                    max - 4
                } else if more > max - 2 {
                    0
                } else {
                    max - 2 - more
                };
                let keep: usize = if free < overlap {
                    free
                } else {
                    overlap
                };
                if len > keep {
                    let (k, dropped) = find_reaching(current.as_str(), len - keep);
                    let count: usize = edit::char_count(current.as_str());
                    proof {
                        lemma_kept_from(current@, keep as int);
                        lemma_rest_of(c.open, k as int);
                    }
                    start += dropped;
                    let tail: String = edit::slice(current.as_str(), k, count);
                    assert(tail@ =~= current@.skip(k as int));
                    current = tail;
                } else {
                    assert(current@.skip(0) =~= current@);
                    assert(current@.take(0) =~= Seq::empty());
                }
                assert(current@ == repeated(c.open, keep as int).content);
                assert(start == repeated(c.open, keep as int).start);
            }
            let ghost open = Piece { content: current@, start: start as nat };
            if !current.as_str().is_empty() {
                current.append(PARAGRAPH);
            }
            let ghost before = current@;
            current.append(para.as_str());
            assert(before.len() == 0 ==> before + para@ =~= para@);
            assert(current@ == grown(open, para@).content);
            if max > 0 {
                let (tail, at) = settle(&mut spans, current, start, max, overlap, Ghost(done));
                current = tail;
                start = at;
            }
        }
        i += 1;
    }
    assert(ps.take(ps.len() as int) =~= ps);
    if !current.as_str().is_empty() {
        let len: usize = chars::byte_len(current.as_str());
        spans.push(TextSpan { content: current, start, end: start + len });
    }
    spans
}

/// Cuts a text into chunks.
pub fn chunk_text(
    content: &str,
    file_path: &str,
    file_name: &str,
    config: &ChunkConfig,
) -> (r: Vec<Chunk>)
    requires
        config.max_chunk_size * 4 <= usize::MAX,
        config.overlap_size * 4 <= usize::MAX,
    ensures
        ({
            let pieces = text_pieces(content@, *config);
            &&& r@.len() == pieces.len()
            &&& forall|i: int|
                0 <= i < r@.len() ==> is_chunk(
                    #[trigger] r@[i],
                    file_path@,
                    file_name@,
                    pieces[i].content,
                    i,
                    pieces[i].start as int,
                    pieces[i].end() as int,
                )
        }),
        forall|i: int|
            0 <= i < r@.len() ==> (#[trigger] r@[i]).content@.len() > 0 && (config.max_chunk_size > 0
                ==> chars::utf8_len(r@[i].content@) <= 4 * config.max_chunk_size),
{
    let spans: Vec<TextSpan> = cut_text(content, config);
    let ghost pieces = text_pieces(content@, *config);
    proof {
        law_pieces_fit(content@, *config);
    }
    let mut out: Vec<Chunk> = Vec::new();
    let mut i: usize = 0;
    while i < spans.len()
        invariant
            i <= spans@.len(),
            are_pieces(spans@, pieces),
            all_fit(pieces, size_limit(*config)),
            out@.len() == i,
            forall|k: int|
                0 <= k < i ==> (#[trigger] out@[k]).content@.len() > 0 && (config.max_chunk_size > 0
                    ==> chars::utf8_len(out@[k].content@) <= 4 * config.max_chunk_size),
            forall|k: int|
                0 <= k < i ==> is_chunk(
                    #[trigger] out@[k],
                    file_path@,
                    file_name@,
                    pieces[k].content,
                    k,
                    pieces[k].start as int,
                    pieces[k].end() as int,
                ),
        decreases spans@.len() - i,
    {
        let span: &TextSpan = &spans[i];
        out.push(chunk(file_path, file_name, span.content.clone(), i, span.start, span.end));
        i += 1;
    }
    out
}

/// How a text is cut where nothing else is asked for.
pub open spec fn default_config() -> ChunkConfig {
    ChunkConfig { max_chunk_size: 512, overlap_size: 50 }
}

/// `r` is the chunks of a document: those of the extractor where it cut any,
/// else those of its text.
pub open spec fn are_chunks(r: Seq<Chunk>, doc: ParsedDocument, path: Seq<char>) -> bool {
    match doc.kreuzberg_chunks {
        Some(given) => {
            let places = filled_places(given@, given@.len() as int);
            &&& r.len() == places.len()
            &&& forall|k: int|
                0 <= k < r.len() ==> is_chunk(
                    #[trigger] r[k],
                    path,
                    doc.file_name@,
                    given@[places[k]].content@,
                    places[k],
                    given@[places[k]].byte_start as int,
                    given@[places[k]].byte_end as int,
                )
        },
        None => are_text_chunks(r, doc, path),
    }
}

/// `r` is the chunks of the text of a document.
pub open spec fn are_text_chunks(r: Seq<Chunk>, doc: ParsedDocument, path: Seq<char>) -> bool {
    let pieces = text_pieces(doc.content@, default_config());
    &&& r.len() == pieces.len()
    &&& forall|i: int|
        0 <= i < r.len() ==> is_chunk(
            #[trigger] r[i],
            path,
            doc.file_name@,
            pieces[i].content,
            i,
            pieces[i].start as int,
            pieces[i].end() as int,
        )
}

/// The chunks of the text of a document.
pub fn text_chunks(doc: &ParsedDocument, file_path: &str) -> (r: Vec<Chunk>)
    ensures
        are_text_chunks(r@, *doc, file_path@),
{
    let config: ChunkConfig = ChunkConfig::default();
    assert(config == default_config());
    chunk_text(doc.content.as_str(), file_path, doc.file_name.as_str(), &config)
}

/// The chunks of a document.
pub fn document_chunks(doc: &ParsedDocument, file_path: &str) -> (r: Vec<Chunk>)
    ensures
        are_chunks(r@, *doc, file_path@),
{
    match &doc.kreuzberg_chunks {
        Some(given) => from_kreuzberg_chunks(given, file_path, doc.file_name.as_str()),
        None => text_chunks(doc, file_path),
    }
}

/// The text that is cut: the paragraphs that are not blank, without white
/// space at their ends.
pub open spec fn document(ps: Seq<Seq<char>>) -> Seq<char>
    decreases ps.len(),
{
    if ps.len() == 0 {
        Seq::empty()
    } else {
        let before = document(ps.drop_last());
        let para = split::stripped(ps.last());
        if para.len() == 0 {
            before
        } else if before.len() == 0 {
            para
        } else {
            before + PARAGRAPH@ + para
        }
    }
}

/// The text of the piece stands in the document from the character at `at` on.
pub open spec fn stands_at(p: Piece, doc: Seq<char>, at: int) -> bool {
    &&& 0 <= at
    &&& at + p.content.len() <= doc.len()
    &&& p.content == doc.subrange(at, (at + p.content.len()) as int)
}

/// A piece that stands at `bt` goes on from one that stands at `at`: it starts
/// within it or right behind it, or behind the separator that follows it. Its
/// first byte is counted without such a separator.
pub open spec fn follows(p: Piece, at: int, q: Piece, bt: int, doc: Seq<char>) -> bool {
    let end = (at + p.content.len()) as int;
    ||| at <= bt <= end && q.start == p.start + chars::utf8_len(doc.subrange(at, bt))
    ||| bt == end + 2 && doc.subrange(end, bt) == PARAGRAPH@ && q.start == p.end()
}

/// Piece `i + 1` goes on from piece `i`.
pub open spec fn goes_on(pieces: Seq<Piece>, ats: Seq<int>, doc: Seq<char>, i: int) -> bool {
    follows(pieces[i], ats[i], pieces[i + 1], ats[i + 1], doc)
}

/// The pieces stand at these places of the document, the first at its start,
/// each going on from the one before.
pub open spec fn in_a_row(pieces: Seq<Piece>, ats: Seq<int>, doc: Seq<char>) -> bool {
    &&& 0 < pieces.len() == ats.len()
    &&& ats[0] == 0
    &&& pieces[0].start == 0
    &&& forall|i: int| 0 <= i < pieces.len() ==> stands_at(#[trigger] pieces[i], doc, ats[i])
    &&& forall|i: int| 0 <= i < pieces.len() - 1 ==> #[trigger] goes_on(pieces, ats, doc, i)
}

/// The pieces stand at these places of the document, from its start to its end.
pub open spec fn laid(pieces: Seq<Piece>, ats: Seq<int>, doc: Seq<char>) -> bool {
    in_a_row(pieces, ats, doc) && ats.last() + pieces.last().content.len() == doc.len()
}

/// What stood in a document and followed there does so in a longer one.
proof fn lemma_row_longer(pieces: Seq<Piece>, ats: Seq<int>, doc: Seq<char>, more: Seq<char>)
    requires
        in_a_row(pieces, ats, doc),
    ensures
        in_a_row(pieces, ats, doc + more),
{
    let all = doc + more;
    assert forall|i: int| 0 <= i < pieces.len() implies stands_at(
        #[trigger] pieces[i],
        all,
        ats[i],
    ) by {
        let end = (ats[i] + pieces[i].content.len()) as int;
        assert(all.subrange(ats[i], end) =~= doc.subrange(ats[i], end));
    }
    assert forall|i: int| 0 <= i < pieces.len() - 1 implies #[trigger] goes_on(
        pieces,
        ats,
        all,
        i,
    ) by {
        let end = (ats[i] + pieces[i].content.len()) as int;
        assert(goes_on(pieces, ats, doc, i));
        assert(stands_at(pieces[i], doc, ats[i]));
        assert(stands_at(pieces[i + 1], doc, ats[i + 1]));
        if ats[i] <= ats[i + 1] {
            assert(all.subrange(ats[i], ats[i + 1]) =~= doc.subrange(ats[i], ats[i + 1]));
        }
        if end <= ats[i + 1] {
            assert(all.subrange(end, ats[i + 1]) =~= doc.subrange(end, ats[i + 1]));
        }
    }
}

/// The last piece can be another one that stands at the same place.
proof fn lemma_row_last(done: Seq<Piece>, p: Piece, q: Piece, ats: Seq<int>, doc: Seq<char>)
    requires
        in_a_row(done.push(p), ats, doc),
        q.start == p.start,
        stands_at(q, doc, ats.last()),
    ensures
        in_a_row(done.push(q), ats, doc),
{
    let pieces = done.push(p);
    let next = done.push(q);
    assert(next[0].start == pieces[0].start);
    assert forall|i: int| 0 <= i < next.len() implies stands_at(#[trigger] next[i], doc, ats[i]) by {
        if i < done.len() {
            assert(next[i] == pieces[i]);
        }
    }
    assert forall|i: int| 0 <= i < next.len() - 1 implies #[trigger] goes_on(
        next,
        ats,
        doc,
        i,
    ) by {
        assert(next[i] == pieces[i]);
        assert(next[i + 1].start == pieces[i + 1].start);
        assert(goes_on(pieces, ats, doc, i));
    }
}

/// A new piece goes on behind the last.
proof fn lemma_row_push(pieces: Seq<Piece>, ats: Seq<int>, doc: Seq<char>, q: Piece, bt: int)
    requires
        in_a_row(pieces, ats, doc),
        stands_at(q, doc, bt),
        follows(pieces.last(), ats.last(), q, bt, doc),
    ensures
        in_a_row(pieces.push(q), ats.push(bt), doc),
{
    let next = pieces.push(q);
    let places = ats.push(bt);
    assert(next[0] == pieces[0]);
    assert(places[0] == ats[0]);
    assert forall|i: int| 0 <= i < next.len() implies stands_at(
        #[trigger] next[i],
        doc,
        places[i],
    ) by {
        if i < pieces.len() {
            assert(next[i] == pieces[i]);
        }
    }
    assert forall|i: int| 0 <= i < next.len() - 1 implies #[trigger] goes_on(
        next,
        places,
        doc,
        i,
    ) by {
        assert(next[i] == pieces[i]);
        if i + 1 < pieces.len() {
            assert(next[i + 1] == pieces[i + 1]);
            assert(goes_on(pieces, ats, doc, i));
        }
    }
}

/// The last piece grows with the document.
proof fn lemma_laid_grows(
    done: Seq<Piece>,
    open: Piece,
    ats: Seq<int>,
    doc: Seq<char>,
    more: Seq<char>,
)
    requires
        laid(done.push(open), ats, doc),
    ensures
        laid(
            done.push(Piece { content: open.content + more, start: open.start }),
            ats,
            doc + more,
        ),
{
    let all = doc + more;
    let q = Piece { content: open.content + more, start: open.start };
    assert(done.push(open).last() == open);
    assert(done.push(q).last() == q);
    lemma_row_longer(done.push(open), ats, doc, more);
    assert(stands_at(done.push(open)[done.len() as int], doc, ats.last()));
    assert(all.subrange(ats.last(), all.len() as int) =~= q.content);
    lemma_row_last(done, open, q, ats, all);
}

/// The last piece is cut in two.
proof fn lemma_laid_cut(
    done: Seq<Piece>,
    open: Piece,
    ats: Seq<int>,
    doc: Seq<char>,
    k: int,
    j: int,
)
    requires
        laid(done.push(open), ats, doc),
        0 <= j <= k <= open.content.len(),
    ensures
        laid(
            done.push(Piece { content: open.content.take(k), start: open.start }).push(
                rest_of(open, j),
            ),
            ats.push(ats.last() + j),
            doc,
        ),
{
    let first = Piece { content: open.content.take(k), start: open.start };
    let rest = rest_of(open, j);
    let at = ats.last();
    assert(done.push(open).last() == open);
    assert(stands_at(done.push(open)[done.len() as int], doc, at));
    assert(first.content =~= doc.subrange(at, at + k));
    assert(rest.content =~= doc.subrange(at + j, doc.len() as int));
    assert(open.content.take(j) =~= doc.subrange(at, at + j));
    lemma_row_last(done, open, first, ats, doc);
    assert(done.push(first).last() == first);
    lemma_row_push(done.push(first), ats, doc, rest, at + j);
    assert(done.push(first).push(rest).last() == rest);
}

proof fn lemma_settled(c: Cutting, ats: Seq<int>, doc: Seq<char>, max: int, overlap: int) -> (r: Seq<
    int,
>)
    requires
        max == 0 || max >= 4,
        laid(c.done.push(c.open), ats, doc),
        c.open.content.len() > 0,
        all_fit(c.done, max),
    ensures
        ({
            let n = settled(c, max, overlap);
            &&& laid(n.done.push(n.open), r, doc)
            &&& n.open.content.len() > 0
            &&& max > 0 ==> chars::utf8_len(n.open.content) <= max
            &&& all_fit(n.done, max)
        }),
    decreases c.open.content.len(),
{
    lemma_cut(c.open.content, max, overlap);
    if max > 0 && chars::utf8_len(c.open.content) > max {
        let k = holding(c.open.content, max, 0);
        let first = c.open.content.take(k);
        let overlap_here = if overlap < max - 4 {
            overlap
        } else {
            max - 4
        };
        let j = kept_from(first, overlap_here);
        lemma_laid_cut(c.done, c.open, ats, doc, k, j);
        let next = Cutting {
            done: c.done.push(Piece { content: first, start: c.open.start }),
            open: rest_of(c.open, j),
        };
        lemma_settled(next, ats.push(ats.last() + j), doc, max, overlap)
    } else {
        ats
    }
}

/// Each piece has text, and at most `max` bytes of it where that is a limit.
pub open spec fn all_fit(pieces: Seq<Piece>, max: int) -> bool {
    forall|i: int|
        0 <= i < pieces.len() ==> (#[trigger] pieces[i]).content.len() > 0 && (max > 0
            ==> chars::utf8_len(pieces[i].content) <= max)
}

/// The document one paragraph further.
spec fn longer(doc: Seq<char>, para: Seq<char>) -> Seq<char> {
    if doc.len() == 0 {
        para
    } else {
        doc + (PARAGRAPH@ + para)
    }
}

/// What holds of a document that is being cut.
spec fn well_cut(c: Cutting, ats: Seq<int>, doc: Seq<char>, max: int) -> bool {
    &&& laid(c.done.push(c.open), ats, doc)
    &&& all_fit(c.done, max)
    &&& (c.open.content.len() > 0) == (doc.len() > 0)
    &&& doc.len() == 0 ==> c.done.len() == 0
    &&& max > 0 ==> chars::utf8_len(c.open.content) <= max
}

/// A piece that is done is followed by one that repeats its end.
proof fn lemma_repeats(c: Cutting, ats: Seq<int>, doc: Seq<char>, para: Seq<char>, keep: int) -> (r:
    Seq<int>)
    requires
        laid(c.done.push(c.open), ats, doc),
        doc.len() > 0,
        c.open.content.len() > 0,
    ensures
        laid(
            c.done.push(c.open).push(grown(repeated(c.open, keep), para)),
            r,
            longer(doc, para),
        ),
{
    let pieces = c.done.push(c.open);
    let k = kept_from(c.open.content, keep);
    let open = rest_of(c.open, k);
    let q = grown(open, para);
    let all = longer(doc, para);
    let at = ats.last();
    lemma_separator();
    lemma_kept_from(c.open.content, keep);
    lemma_row_longer(pieces, ats, doc, PARAGRAPH@ + para);
    assert(pieces.last() == c.open);
    assert(stands_at(pieces[c.done.len() as int], doc, at));
    let bt = if open.content.len() > 0 {
        at + k
    } else {
        doc.len() as int + 2
    };
    assert(q.content =~= all.subrange(bt, all.len() as int)) by {
        assert(c.open.content =~= doc.subrange(at, doc.len() as int));
    }
    assert(follows(c.open, at, q, bt, all)) by {
        if open.content.len() > 0 {
            assert(c.open.content.take(k) =~= all.subrange(at, bt));
        } else {
            assert(all.subrange(doc.len() as int, bt) =~= PARAGRAPH@);
            assert(c.open.content.take(k) =~= c.open.content);
        }
    }
    lemma_row_push(pieces, ats, all, q, bt);
    assert(pieces.push(q).last() == q);
    ats.push(bt)
}

proof fn lemma_well_cut(
    c: Cutting,
    ats: Seq<int>,
    doc: Seq<char>,
    p: Seq<char>,
    max: int,
    overlap: int,
) -> (r: Seq<int>)
    requires
        max == 0 || max >= 4,
        overlap >= 0,
        well_cut(c, ats, doc, max),
        split::stripped(p).len() > 0,
    ensures
        well_cut(
            cut_paragraph(c, p, max, overlap),
            r,
            longer(doc, split::stripped(p)),
            max,
        ),
{
    let para = split::stripped(p);
    let len = chars::utf8_len(para) as int;
    let all = longer(doc, para);
    if c.open.content.len() > 0 && chars::utf8_len(c.open.content) + 2 + len > max {
        let pieces = c.done.push(c.open);
        let keep = repeatable(len, max, overlap);
        let q = grown(repeated(c.open, keep), para);
        let places = lemma_repeats(c, ats, doc, para, keep);
        assert forall|i: int| 0 <= i < pieces.len() implies (
        #[trigger] pieces[i]).content.len() > 0 && (max > 0 ==> chars::utf8_len(
            pieces[i].content,
        ) <= max) by {
            if i < c.done.len() {
                assert(pieces[i] == c.done[i]);
            }
        }
        lemma_settled(Cutting { done: pieces, open: q }, places, all, max, overlap)
    } else {
        let g = grown(c.open, para);
        if doc.len() > 0 {
            lemma_laid_grows(c.done, c.open, ats, doc, PARAGRAPH@ + para);
            assert(c.open.content + (PARAGRAPH@ + para) =~= g.content);
        } else {
            lemma_laid_grows(c.done, c.open, ats, doc, para);
            assert(c.open.content + para =~= g.content);
            assert(doc + para =~= all);
        }
        lemma_settled(Cutting { done: c.done, open: g }, ats, all, max, overlap)
    }
}

proof fn lemma_cut_paragraphs(ps: Seq<Seq<char>>, max: int, overlap: int) -> (r: Seq<int>)
    requires
        max == 0 || max >= 4,
        overlap >= 0,
    ensures
        well_cut(cut_paragraphs(ps, max, overlap), r, document(ps), max),
    decreases ps.len(),
{
    if ps.len() == 0 {
        let c = cut_paragraphs(ps, max, overlap);
        assert(document(ps).subrange(0, 0) =~= Seq::empty());
        assert(stands_at(c.open, document(ps), 0));
        seq![0int]
    } else {
        let before = lemma_cut_paragraphs(ps.drop_last(), max, overlap);
        if split::stripped(ps.last()).len() > 0 {
            let doc = document(ps.drop_last());
            assert(document(ps) =~= longer(doc, split::stripped(ps.last())));
            lemma_well_cut(
                cut_paragraphs(ps.drop_last(), max, overlap),
                before,
                doc,
                ps.last(),
                max,
                overlap,
            )
        } else {
            before
        }
    }
}

/// The pieces of a text stand in it from its start to its end: each starts
/// within the one before or right behind it, or behind the separator that
/// follows it, so that nothing else is lost between them.
pub proof fn law_pieces(content: Seq<char>, config: ChunkConfig) -> (ats: Seq<int>)
    ensures
        ({
            let doc = document(split::parts(content, PARAGRAPH@));
            let pieces = text_pieces(content, config);
            if doc.len() == 0 {
                pieces.len() == 0
            } else {
                laid(pieces, ats, doc)
            }
        }),
{
    let ps = split::parts(content, PARAGRAPH@);
    lemma_cut_paragraphs(ps, size_limit(config), config.overlap_size * 4)
}

/// No piece is empty, and none is over the limit on its size, where there is one.
pub proof fn law_pieces_fit(content: Seq<char>, config: ChunkConfig)
    ensures
        all_fit(text_pieces(content, config), size_limit(config)),
{
    let ps = split::parts(content, PARAGRAPH@);
    lemma_cut_paragraphs(ps, size_limit(config), config.overlap_size * 4);
}

/// A paragraph that fits into a chunk, or any where there is no limit, is never
/// cut: it stands at the end of the piece that it goes into.
pub proof fn law_paragraph_is_whole(c: Cutting, p: Seq<char>, max: int, overlap: int)
    requires
        max == 0 || max >= 4,
        overlap >= 0,
        split::stripped(p).len() > 0,
        max > 0 ==> chars::utf8_len(split::stripped(p)) <= max,
    ensures
        split::stripped(p).is_suffix_of(cut_paragraph(c, p, max, overlap).open.content),
{
    let para = split::stripped(p);
    let len = chars::utf8_len(para) as int;
    let full = c.open.content.len() > 0 && chars::utf8_len(c.open.content) + 2 + len > max;
    let open = if full {
        repeated(c.open, repeatable(len, max, overlap))
    } else {
        c.open
    };
    if full {
        lemma_kept_len(c.open.content, repeatable(len, max, overlap));
    }
    lemma_separator();
    chars::lemma_utf8_len_bounds(open.content);
    chars::lemma_utf8_len_concat(open.content + PARAGRAPH@, para);
    chars::lemma_utf8_len_concat(open.content, PARAGRAPH@);
    let all = grown(open, para).content;
    assert(max > 0 ==> chars::utf8_len(all) <= max);
    assert(all.subrange(all.len() - para.len(), all.len() as int) =~= para);
}

/// From `k` on stand the most characters at the end of `s` that have at most
/// `most` bytes: one more would have more.
pub open spec fn longest_end(s: Seq<char>, k: int, most: int) -> bool {
    &&& 0 <= k <= s.len()
    &&& chars::utf8_len(s.skip(k)) <= most
    &&& k > 0 ==> chars::utf8_len(s.skip(k - 1)) > most
}

/// The bytes that can be repeated before a paragraph of `len` bytes: what was
/// asked for, as far as the paragraph and its separator leave room for it, and
/// four less than a chunk before one that has to be cut itself.
pub open spec fn overlap_room(len: int, max: int, overlap: int) -> int {
    if max == 0 || overlap + 2 + len <= max {
        overlap
    } else if len > max {
        if overlap < max - 4 {
            overlap
        } else {
            max - 4
        }
    } else if 2 + len <= max {
        max - 2 - len
    } else {
        0
    }
}

/// One of the paragraphs is `t`.
pub open spec fn is_paragraph_of(ps: Seq<Seq<char>>, t: Seq<char>) -> bool {
    exists|m: int| 0 <= m < ps.len() && split::stripped(#[trigger] ps[m]) == t
}

/// How piece `q` goes on from piece `p`: it repeats the end of `p` from the
/// character at `k` on. Either `p` was closed because the paragraph `t` had no
/// room in it: then `q` has that end and the paragraph, as far as they fit into a
/// chunk. Or a paragraph was cut: then `p` is full, and `q` begins with its end.
pub open spec fn linked(
    p: Piece,
    q: Piece,
    k: int,
    t: Option<Seq<char>>,
    max: int,
    overlap: int,
) -> bool {
    let end = p.content.skip(k);
    &&& 0 <= k <= p.content.len()
    &&& q.start == p.start + chars::utf8_len(p.content.take(k))
    &&& match t {
        Some(para) => {
            let len = chars::utf8_len(para) as int;
            let begin = if end.len() > 0 {
                end + "\n\n"@ + para
            } else {
                para
            };
            &&& chars::utf8_len(p.content) + 2 + len > max
            &&& longest_end(p.content, k, overlap_room(len, max, overlap))
            &&& if max == 0 || len <= max {
                begin.is_prefix_of(q.content)
            } else {
                q.content.is_prefix_of(begin) && chars::utf8_len(q.content) > max - 4
            }
        },
        None => {
            &&& max > 0
            &&& chars::utf8_len(p.content) > max - 4
            &&& longest_end(
                p.content,
                k,
                if overlap < max - 4 {
                    overlap
                } else {
                    max - 4
                },
            )
            &&& end.is_prefix_of(q.content)
        },
    }
}

/// Each piece goes on from the one before by its link.
pub open spec fn chained(
    pieces: Seq<Piece>,
    links: Seq<(int, Option<Seq<char>>)>,
    ps: Seq<Seq<char>>,
    max: int,
    overlap: int,
) -> bool {
    &&& pieces.len() == links.len() + 1
    &&& forall|i: int|
        0 <= i < links.len() ==> #[trigger] is_link(pieces, links, ps, max, overlap, i)
}

/// Link `i` holds between piece `i` and the next.
pub open spec fn is_link(
    pieces: Seq<Piece>,
    links: Seq<(int, Option<Seq<char>>)>,
    ps: Seq<Seq<char>>,
    max: int,
    overlap: int,
    i: int,
) -> bool {
    &&& linked(pieces[i], pieces[i + 1], links[i].0, links[i].1, max, overlap)
    &&& links[i].1 matches Some(t) ==> is_paragraph_of(ps, t)
}

proof fn lemma_longest_end(s: Seq<char>, most: int)
    requires
        most >= 0,
    ensures
        longest_end(s, kept_from(s, most), most),
{
    let k = kept_from(s, most);
    lemma_kept_from(s, most);
    lemma_kept_len(s, most);
    if k > 0 {
        let len = chars::utf8_len(s) as int;
        lemma_not_reached(s, len - most, 0);
        chars::lemma_utf8_len_concat(s.take(k - 1), s.skip(k - 1));
        assert(s =~= s.take(k - 1) + s.skip(k - 1));
    }
}

proof fn lemma_not_reached(s: Seq<char>, target: int, i: int)
    requires
        0 <= i <= s.len(),
    ensures
        reaching(s, target, i) > i ==> chars::utf8_len(s.take(reaching(s, target, i) - 1)) < target,
    decreases s.len() - i,
{
    if i < s.len() && chars::utf8_len(s.take(i)) < target {
        lemma_not_reached(s, target, i + 1);
        lemma_reaching(s, target, i + 1);
    }
}

/// The last link still holds where the last piece is another one.
proof fn lemma_chain_last(
    done: Seq<Piece>,
    p: Piece,
    q: Piece,
    links: Seq<(int, Option<Seq<char>>)>,
    ps: Seq<Seq<char>>,
    max: int,
    overlap: int,
)
    requires
        chained(done.push(p), links, ps, max, overlap),
        done.len() > 0 ==> linked(
            done.last(),
            q,
            links.last().0,
            links.last().1,
            max,
            overlap,
        ),
    ensures
        chained(done.push(q), links, ps, max, overlap),
{
    let old_row = done.push(p);
    let row = done.push(q);
    assert forall|i: int| 0 <= i < links.len() implies #[trigger] is_link(
        row,
        links,
        ps,
        max,
        overlap,
        i,
    ) by {
        assert(is_link(old_row, links, ps, max, overlap, i));
        assert(row[i] == old_row[i]);
        if i + 1 < done.len() {
            assert(row[i + 1] == old_row[i + 1]);
        } else {
            assert(row[i] == done.last());
            assert(links[i] == links.last());
        }
    }
}

proof fn lemma_chain_push(
    pieces: Seq<Piece>,
    q: Piece,
    links: Seq<(int, Option<Seq<char>>)>,
    link: (int, Option<Seq<char>>),
    ps: Seq<Seq<char>>,
    max: int,
    overlap: int,
)
    requires
        chained(pieces, links, ps, max, overlap),
        linked(pieces.last(), q, link.0, link.1, max, overlap),
        link.1 matches Some(t) ==> is_paragraph_of(ps, t),
    ensures
        chained(pieces.push(q), links.push(link), ps, max, overlap),
{
    let row = pieces.push(q);
    let all = links.push(link);
    assert forall|i: int| 0 <= i < all.len() implies #[trigger] is_link(
        row,
        all,
        ps,
        max,
        overlap,
        i,
    ) by {
        assert(row[i] == pieces[i]);
        if i < links.len() {
            assert(is_link(pieces, links, ps, max, overlap, i));
            assert(row[i + 1] == pieces[i + 1]);
        }
    }
}

proof fn lemma_chain_more(
    pieces: Seq<Piece>,
    links: Seq<(int, Option<Seq<char>>)>,
    ps: Seq<Seq<char>>,
    p: Seq<char>,
    max: int,
    overlap: int,
)
    requires
        chained(pieces, links, ps, max, overlap),
    ensures
        chained(pieces, links, ps.push(p), max, overlap),
{
    assert forall|i: int| 0 <= i < links.len() implies #[trigger] is_link(
        pieces,
        links,
        ps.push(p),
        max,
        overlap,
        i,
    ) by {
        assert(is_link(pieces, links, ps, max, overlap, i));
        if let Some(t) = links[i].1 {
            let m = choose|m: int| 0 <= m < ps.len() && split::stripped(#[trigger] ps[m]) == t;
            assert(ps.push(p)[m] == ps[m]);
        }
    }
}

/// A link to a piece that is cut holds of its front, where the piece is full and
/// either came by a cut or begins a paragraph that is too long.
proof fn lemma_link_cut(
    p: Piece,
    open: Piece,
    h: int,
    link: (int, Option<Seq<char>>),
    max: int,
    overlap: int,
)
    requires
        max >= 4,
        linked(p, open, link.0, link.1, max, overlap),
        0 <= h <= open.content.len(),
        chars::utf8_len(open.content.take(h)) > max - 4,
        link.1 matches Some(t) ==> chars::utf8_len(t) > max,
    ensures
        linked(
            p,
            Piece { content: open.content.take(h), start: open.start },
            link.0,
            link.1,
            max,
            overlap,
        ),
{
    let first = open.content.take(h);
    let end = p.content.skip(link.0);
    match link.1 {
        Some(t) => {
            let begin = if end.len() > 0 {
                end + "\n\n"@ + t
            } else {
                t
            };
            assert(first =~= begin.take(h)) by {
                assert(open.content =~= begin.take(open.content.len() as int));
            }
            assert(first.is_prefix_of(begin));
        },
        None => {
            if end.len() > h {
                assert(first =~= end.take(h)) by {
                    assert(end =~= open.content.take(end.len() as int));
                }
                chars::lemma_utf8_len_take(end, h, end.len() as int);
                assert(end.take(end.len() as int) =~= end);
            }
            assert(end =~= first.take(end.len() as int)) by {
                assert(end =~= open.content.take(end.len() as int));
            }
        },
    }
}

proof fn lemma_settled_chain(
    c: Cutting,
    links: Seq<(int, Option<Seq<char>>)>,
    ps: Seq<Seq<char>>,
    max: int,
    overlap: int,
) -> (r: Seq<(int, Option<Seq<char>>)>)
    requires
        max == 0 || max >= 4,
        overlap >= 0,
        chained(c.done.push(c.open), links, ps, max, overlap),
        max > 0 && chars::utf8_len(c.open.content) > max && links.len() > 0 ==> (
        links.last().1 matches Some(t) ==> chars::utf8_len(t) > max),
        max > 0 && chars::utf8_len(c.open.content) <= max && links.len() > 0 ==> (
        links.last().1 matches Some(t) ==> chars::utf8_len(t) <= max),
    ensures
        ({
            let n = settled(c, max, overlap);
            &&& chained(n.done.push(n.open), r, ps, max, overlap)
            &&& max > 0 && r.len() > 0 ==> (r.last().1 matches Some(t) ==> chars::utf8_len(t)
                <= max)
            &&& max == 0 ==> n == c
        }),
    decreases c.open.content.len(),
{
    lemma_cut(c.open.content, max, overlap);
    if max > 0 && chars::utf8_len(c.open.content) > max {
        let h = holding(c.open.content, max, 0);
        let first = Piece { content: c.open.content.take(h), start: c.open.start };
        let most = if overlap < max - 4 {
            overlap
        } else {
            max - 4
        };
        let j = kept_from(first.content, most);
        let rest = rest_of(c.open, j);
        if c.done.len() > 0 {
            assert(is_link(
                c.done.push(c.open),
                links,
                ps,
                max,
                overlap,
                links.len() - 1,
            ));
            assert(c.done.push(c.open)[links.len() - 1] == c.done.last());
            lemma_link_cut(c.done.last(), c.open, h, links.last(), max, overlap);
        }
        lemma_chain_last(c.done, c.open, first, links, ps, max, overlap);
        lemma_longest_end(first.content, most);
        assert(first.content.take(j) =~= c.open.content.take(j));
        let end = first.content.skip(j);
        assert(end =~= rest.content.take(end.len() as int));
        assert(linked(first, rest, j, None, max, overlap));
        assert(c.done.push(first).last() == first);
        lemma_chain_push(c.done.push(first), rest, links, (j, None), ps, max, overlap);
        lemma_settled_chain(
            Cutting { done: c.done.push(first), open: rest },
            links.push((j, None)),
            ps,
            max,
            overlap,
        )
    } else {
        links
    }
}

/// A link to a piece that grows holds on.
proof fn lemma_link_grows(
    p: Piece,
    q: Piece,
    para: Seq<char>,
    link: (int, Option<Seq<char>>),
    max: int,
    overlap: int,
)
    requires
        linked(p, q, link.0, link.1, max, overlap),
        q.content.len() > 0,
        max == 0 || (link.1 matches Some(t) ==> chars::utf8_len(t) <= max),
    ensures
        linked(p, grown(q, para), link.0, link.1, max, overlap),
{
    let g = grown(q, para).content;
    assert(q.content =~= g.take(q.content.len() as int));
    let end = p.content.skip(link.0);
    match link.1 {
        Some(t) => {
            let begin = if end.len() > 0 {
                end + "\n\n"@ + t
            } else {
                t
            };
            assert(begin =~= g.take(begin.len() as int));
        },
        None => {
            assert(end =~= g.take(end.len() as int));
        },
    }
}

proof fn lemma_paragraph_chain(
    c: Cutting,
    links: Seq<(int, Option<Seq<char>>)>,
    ps: Seq<Seq<char>>,
    p: Seq<char>,
    max: int,
    overlap: int,
) -> (r: Seq<(int, Option<Seq<char>>)>)
    requires
        max == 0 || max >= 4,
        overlap >= 0,
        chained(c.done.push(c.open), links, ps, max, overlap),
        max > 0 && links.len() > 0 ==> (links.last().1 matches Some(t) ==> chars::utf8_len(t)
            <= max),
        max > 0 ==> chars::utf8_len(c.open.content) <= max,
        c.open.content.len() == 0 ==> c.done.len() == 0,
        split::stripped(p).len() > 0,
    ensures
        ({
            let n = cut_paragraph(c, p, max, overlap);
            &&& chained(n.done.push(n.open), r, ps.push(p), max, overlap)
            &&& max > 0 && r.len() > 0 ==> (r.last().1 matches Some(t) ==> chars::utf8_len(t)
                <= max)
            &&& max == 0 ==> n.done.len() == c.done.len() + if c.open.content.len() > 0 {
                1int
            } else {
                0
            }
        }),
{
    let para = split::stripped(p);
    let len = chars::utf8_len(para) as int;
    let all = ps.push(p);
    lemma_chain_more(c.done.push(c.open), links, ps, p, max, overlap);
    lemma_separator();
    chars::lemma_utf8_len_bounds(para);
    chars::lemma_utf8_len_bounds(c.open.content);
    if c.open.content.len() > 0 && chars::utf8_len(c.open.content) + 2 + len > max {
        let most = repeatable(len, max, overlap);
        let k = kept_from(c.open.content, most);
        let open = repeated(c.open, most);
        let q = grown(open, para);
        lemma_longest_end(c.open.content, most);
        assert(most == overlap_room(len, max, overlap));
        assert(all[ps.len() as int] == p);
        assert(is_paragraph_of(all, para));
        lemma_grown_len(open, para);
        let end = c.open.content.skip(k);
        let begin = if end.len() > 0 {
            end + "\n\n"@ + para
        } else {
            para
        };
        assert(begin == q.content);
        assert(begin =~= q.content.take(begin.len() as int));
        assert(linked(c.open, q, k, Some(para), max, overlap));
        assert(c.done.push(c.open).last() == c.open);
        lemma_chain_push(c.done.push(c.open), q, links, (k, Some(para)), all, max, overlap);
        lemma_settled_chain(
            Cutting { done: c.done.push(c.open), open: q },
            links.push((k, Some(para))),
            all,
            max,
            overlap,
        )
    } else {
        let q = grown(c.open, para);
        lemma_grown_len(c.open, para);
        if c.done.len() > 0 {
            assert(is_link(
                c.done.push(c.open),
                links,
                ps,
                max,
                overlap,
                links.len() - 1,
            ));
            assert(c.done.push(c.open)[links.len() - 1] == c.done.last());
            lemma_link_grows(c.done.last(), c.open, para, links.last(), max, overlap);
        }
        lemma_chain_last(c.done, c.open, q, links, all, max, overlap);
        lemma_settled_chain(Cutting { done: c.done, open: q }, links, all, max, overlap)
    }
}

proof fn lemma_grown_len(p: Piece, para: Seq<char>)
    ensures
        chars::utf8_len(grown(p, para).content) == chars::utf8_len(para) + if p.content.len() > 0 {
            chars::utf8_len(p.content) + 2
        } else {
            0
        },
{
    lemma_separator();
    chars::lemma_utf8_len_concat(p.content + PARAGRAPH@, para);
    chars::lemma_utf8_len_concat(p.content, PARAGRAPH@);
}

/// The paragraphs without white space at their ends.
pub open spec fn bare_paragraphs(ps: Seq<Seq<char>>) -> Seq<Seq<char>> {
    Seq::new(ps.len(), |i: int| split::stripped(ps[i]))
}

proof fn lemma_cut_chain(ps: Seq<Seq<char>>, max: int, overlap: int) -> (r: Seq<
    (int, Option<Seq<char>>),
>)
    requires
        max == 0 || max >= 4,
        overlap >= 0,
    ensures
        ({
            let c = cut_paragraphs(ps, max, overlap);
            let n = split::nonempty(bare_paragraphs(ps)).len();
            &&& chained(c.done.push(c.open), r, ps, max, overlap)
            &&& max > 0 && r.len() > 0 ==> (r.last().1 matches Some(t) ==> chars::utf8_len(t)
                <= max)
            &&& max == 0 ==> n == c.done.len() + if c.open.content.len() > 0 {
                1int
            } else {
                0
            }
        }),
    decreases ps.len(),
{
    if ps.len() == 0 {
        Seq::empty()
    } else {
        let front = ps.drop_last();
        let p = ps.last();
        let before = lemma_cut_chain(front, max, overlap);
        let ats = lemma_cut_paragraphs(front, max, overlap);
        let c = cut_paragraphs(front, max, overlap);
        assert(front.push(p) =~= ps);
        assert(bare_paragraphs(ps).drop_last() =~= bare_paragraphs(front));
        assert(bare_paragraphs(ps).last() == split::stripped(p));
        if split::stripped(p).len() > 0 {
            let more = lemma_cut_paragraphs(ps, max, overlap);
            lemma_longer_document(front, p);
            assert(document(ps).len() > 0);
            lemma_paragraph_chain(c, before, front, p, max, overlap)
        } else {
            lemma_chain_more(c.done.push(c.open), before, front, p, max, overlap);
            before
        }
    }
}

proof fn lemma_longer_document(ps: Seq<Seq<char>>, p: Seq<char>)
    requires
        split::stripped(p).len() > 0,
    ensures
        document(ps.push(p)).len() > 0,
{
    assert(ps.push(p).drop_last() =~= ps);
}

/// The overlap is what was asked for. Each piece begins with the end of the one
/// before, and that end is as long as it can be within the bytes of the overlap:
/// where the next paragraph closes the piece, which it does only where it has no
/// room in it, less is repeated only where the paragraph leaves no room; where a
/// paragraph is cut, the piece before the cut is full. Without a limit on the
/// size there is a piece for each paragraph that is not blank.
pub proof fn law_overlap(content: Seq<char>, config: ChunkConfig) -> (links: Seq<
    (int, Option<Seq<char>>),
>)
    ensures
        ({
            let ps = split::parts(content, "\n\n"@);
            let pieces = text_pieces(content, config);
            &&& pieces.len() > 0 ==> chained(
                pieces,
                links,
                ps,
                config.max_chunk_size * 4,
                config.overlap_size * 4,
            )
            &&& config.max_chunk_size == 0 ==> pieces.len() == split::nonempty(
                bare_paragraphs(ps),
            ).len()
        }),
{
    let ps = split::parts(content, PARAGRAPH@);
    let max = config.max_chunk_size * 4;
    let overlap = config.overlap_size * 4;
    let c = cut_paragraphs(ps, max, overlap);
    let ats = lemma_cut_paragraphs(ps, max, overlap);
    lemma_cut_chain(ps, max, overlap)
}

/// The chunks of the extractor that are taken are exactly those that are not blank,
/// in order.
pub proof fn law_filled_places(chunks: Seq<KreuzbergChunkData>)
    ensures
        select::exactly(
            filled_places(chunks, chunks.len() as int),
            chunks.len() as int,
            |i: int| split::stripped(chunks[i].content@).len() > 0,
        ),
{
    let p = |i: int| split::stripped(chunks[i].content@).len() > 0;
    let f = |n: int| filled_places(chunks, n);
    assert forall|n: int| 0 < n <= chunks.len() implies #[trigger] f(n) == if p(n - 1) {
        f(n - 1).push(n - 1)
    } else {
        f(n - 1)
    } by {}
    let ps = select::lemma_exactly(chunks.len() as int, p, |i: int| i, f);
    assert(filled_places(chunks, chunks.len() as int) =~= ps);
}

/// A document is cut by the extractor where it did so, and else into pieces of at
/// most five hundred and twelve tokens that share fifty.
pub proof fn law_document_chunks(r: Seq<Chunk>, doc: ParsedDocument, path: Seq<char>)
    requires
        are_chunks(r, doc, path),
    ensures
        doc.kreuzberg_chunks is None ==> {
            let pieces = text_pieces(
                doc.content@,
                ChunkConfig { max_chunk_size: 512, overlap_size: 50 },
            );
            &&& r.len() == pieces.len()
            &&& forall|i: int|
                0 <= i < r.len() ==> (#[trigger] r[i]).content@ == pieces[i].content
                    && r[i].file_path@ == path && r[i].file_name@ == doc.file_name@ && r[i].position
                    == i && r[i].char_start == pieces[i].start
        },
        doc.kreuzberg_chunks is Some ==> {
            let given = doc.kreuzberg_chunks->0@;
            let places = filled_places(given, given.len() as int);
            &&& r.len() == places.len()
            &&& forall|i: int|
                0 <= i < r.len() ==> (#[trigger] r[i]).content@ == given[places[i]].content@
                    && r[i].file_path@ == path && r[i].position == places[i]
        },
{
    if doc.kreuzberg_chunks is None {
        let pieces = text_pieces(
            doc.content@,
            ChunkConfig { max_chunk_size: 512, overlap_size: 50 },
        );
        assert forall|i: int| 0 <= i < r.len() implies (#[trigger] r[i]).content@
            == pieces[i].content && r[i].file_path@ == path && r[i].file_name@ == doc.file_name@
            && r[i].position == i && r[i].char_start == pieces[i].start by {}
    }
}

} // verus!
