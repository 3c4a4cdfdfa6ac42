//! From chunks to vectors with their metadata.
use vstd::prelude::*;

use crate::embedding::EmbeddingResult;
use crate::indexer::chunker::Chunk;
use crate::search::vector_index;
use crate::search::vector_index::VectorMeta;
use crate::text;
use crate::text::edit;

verus! {

/// The texts of chunks.
pub open spec fn contents(chunks: Seq<Chunk>) -> Seq<Seq<char>> {
    Seq::new(chunks.len(), |i: int| chunks[i].content@)
}

/// The texts of chunks.
pub fn chunk_texts(chunks: &Vec<Chunk>) -> (r: Vec<String>)
    ensures
        text::views(r@) == contents(chunks@),
{
    let mut out: Vec<String> = Vec::new();
    let mut i: usize = 0;
    while i < chunks.len()
        invariant
            i <= chunks@.len(),
            text::views(out@) == contents(chunks@).take(i as int),
        decreases chunks@.len() - i,
    {
        let ghost before = text::views(out@);
        out.push(chunks[i].content.clone());
        assert(text::views(out@) =~= before.push(chunks@[i as int].content@));
        i += 1;
    }
    assert(text::views(out@) =~= contents(chunks@));
    out
}

/// What is kept of a chunk beside its vector.
pub open spec fn meta_of(chunk: Chunk) -> vector_index::MetaView {
    (
        chunk.id@,
        chunk.file_path@,
        chunk.file_name@,
        chunk.content@,
        text::option_view(chunk.section),
    )
}

/// Puts each vector together with its chunk: the vectors come in the order of
/// the chunks, and what is left over of either is dropped.
pub fn pair_vectors(chunks: &Vec<Chunk>, vectors: Vec<Vec<u32>>) -> (r: (
    Vec<Vec<u32>>,
    Vec<VectorMeta>,
))
    ensures
        ({
            let n = if vectors@.len() < chunks@.len() {
                vectors@.len()
            } else {
                chunks@.len()
            };
            &&& r.0@ == vectors@.take(n as int)
            &&& vector_index::meta_views(r.1@) == Seq::new(n, |i: int| meta_of(chunks@[i]))
        }),
{
    let ghost all = vectors@;
    let mut vectors = vectors;
    if vectors.len() > chunks.len() {
        vectors.truncate(chunks.len());
    }
    let count: usize = vectors.len();
    let ghost n = count as nat;
    assert(vectors@ =~= all.take(n as int));
    let mut metas: Vec<VectorMeta> = Vec::new();
    let mut i: usize = 0;
    while i < count
        invariant
            i <= count <= chunks@.len(),
            n == count,
            vector_index::meta_views(metas@) == Seq::new(i as nat, |k: int| meta_of(chunks@[k])),
        decreases count - i,
    {
        let ghost before = vector_index::meta_views(metas@);
        let meta = VectorMeta {
            chunk_id: chunks[i].id.clone(),
            file_path: chunks[i].file_path.clone(),
            file_name: chunks[i].file_name.clone(),
            content: chunks[i].content.clone(),
            section: text::copy_option(&chunks[i].section),
        };
        assert(meta@ == meta_of(chunks@[i as int]));
        metas.push(meta);
        assert(vector_index::meta_views(metas@) =~= before.push(meta@));
        assert(before.push(meta@) =~= Seq::new((i + 1) as nat, |k: int| meta_of(chunks@[k])));
        i += 1;
    }
    (vectors, metas)
}

/// A query with its vector.
pub fn query_result(query: &str, vector: Vec<u32>) -> (r: EmbeddingResult)
    ensures
        r.text@ == query@,
        r.vector == vector,
{
    EmbeddingResult { text: edit::owned(query), vector }
}

/// Beside a vector everything is kept of its chunk that is shown of it later.
pub proof fn law_meta_of(chunk: Chunk, meta: VectorMeta)
    requires
        meta@ == meta_of(chunk),
    ensures
        meta.chunk_id@ == chunk.id@,
        meta.file_path@ == chunk.file_path@,
        meta.file_name@ == chunk.file_name@,
        meta.content@ == chunk.content@,
        chunk.section is Some <==> meta.section is Some,
        chunk.section is Some ==> meta.section->0@ == chunk.section->0@,
{
}

} // verus!
