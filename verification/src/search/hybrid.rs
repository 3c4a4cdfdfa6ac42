//! Results of the keyword index and their merge with those of the vector
//! index.
use vstd::prelude::*;

use crate::indexer::chunker::Chunk;
use crate::score::Score;
use crate::search::vector_index::VectorSearchResult;
use crate::select;
use crate::text;

verus! {

/// The keyword search.
#[derive(Clone, Copy, Debug)]
pub struct HybridSearch;

/// A chunk that a search found.
#[derive(Debug)]
pub struct HybridResult {
    /// The chunk.
    pub chunk_id: String,
    /// The path of its file.
    pub file_path: String,
    /// The name of its file.
    pub file_name: String,
    /// Its text.
    pub content: String,
    /// The section it stands in.
    pub section: Option<String>,
    /// Its score.
    pub score: Score,
    /// Its rank among the keyword results, from 1 on.
    pub bm25_rank: Option<usize>,
    /// Its rank among the vector results.
    pub vector_rank: Option<usize>,
}

/// The result for the chunk at a place of the keyword results.
pub open spec fn keyword_result(rank: int, score: Score, chunk: Chunk) -> HybridResult {
    HybridResult {
        chunk_id: chunk.id,
        file_path: chunk.file_path,
        file_name: chunk.file_name,
        content: chunk.content,
        section: chunk.section,
        score,
        bm25_rank: Some((rank + 1) as usize),
        vector_rank: None,
    }
}

impl HybridSearch {
    /// The results of a keyword search, ranked in the order in which they come.
    pub fn rank_bm25(results: Vec<(Score, Chunk)>) -> (r: Vec<HybridResult>)
        ensures
            r@ == Seq::new(
                results@.len(),
                |i: int| keyword_result(i, results@[i].0, results@[i].1),
            ),
    {
        let ghost all = results@;
        let mut out: Vec<HybridResult> = Vec::new();
        let len: usize = results.len();
        let mut rest: Vec<(Score, Chunk)> = select::turned(results);
        while rest.len() > 0
            invariant
                out@.len() + rest@.len() == all.len(),
                all.len() == len,
                rest@ == all.skip(out@.len() as int).reverse(),
                out@ == Seq::new(out@.len(), |i: int| keyword_result(i, all[i].0, all[i].1)),
            decreases rest@.len(),
        {
            let ghost before = rest@;
            let rank: usize = out.len();
            if let Some(pair) = rest.pop() {
                assert(pair == all[rank as int]);
                let (score, chunk) = pair;
                assert(rest@ =~= all.skip(rank + 1).reverse());
                out.push(
                    HybridResult {
                        chunk_id: chunk.id,
                        file_path: chunk.file_path,
                        file_name: chunk.file_name,
                        content: chunk.content,
                        section: chunk.section,
                        score,
                        bm25_rank: Some(rank + 1),
                        vector_rank: None,
                    },
                );
            }
        }
        out
    }
}

/// How many merged results are kept.
pub const MERGED_RESULTS: usize = 15;

/// The result for a hit of the vector index.
pub open spec fn vector_result(v: VectorSearchResult) -> HybridResult {
    HybridResult {
        chunk_id: v.chunk_id,
        file_path: v.file_path,
        file_name: v.file_name,
        content: v.content,
        section: v.section,
        score: v.similarity,
        bm25_rank: None,
        vector_rank: None,
    }
}

/// Some vector result has the chunk.
pub open spec fn has_chunk(vectors: Seq<VectorSearchResult>, chunk_id: Seq<char>) -> bool {
    exists|k: int| 0 <= k < vectors.len() && (#[trigger] vectors[k]).chunk_id@ == chunk_id
}

/// The keyword results whose chunk no vector result has.
pub open spec fn only_bm25(
    bm25: Seq<HybridResult>,
    vectors: Seq<VectorSearchResult>,
) -> Seq<HybridResult>
    decreases bm25.len(),
{
    if bm25.len() == 0 {
        bm25
    } else if has_chunk(vectors, bm25.last().chunk_id@) {
        only_bm25(bm25.drop_last(), vectors)
    } else {
        only_bm25(bm25.drop_last(), vectors).push(bm25.last())
    }
}

/// Vector results first, then the keyword results that are new, cut to length;
/// the keyword results alone where there are no others.
pub open spec fn merged(
    vectors: Seq<VectorSearchResult>,
    bm25: Seq<HybridResult>,
) -> Seq<HybridResult> {
    let all = Seq::new(vectors.len(), |i: int| vector_result(vectors[i])) + only_bm25(
        bm25,
        vectors,
    );
    if vectors.len() == 0 {
        bm25
    } else if all.len() > MERGED_RESULTS {
        all.take(MERGED_RESULTS as int)
    } else {
        all
    }
}

impl Clone for HybridResult {
    fn clone(&self) -> (r: Self)
        ensures
            r == *self,
    {
        HybridResult {
            chunk_id: self.chunk_id.clone(),
            file_path: self.file_path.clone(),
            file_name: self.file_name.clone(),
            content: self.content.clone(),
            section: text::copy_option(&self.section),
            score: self.score,
            bm25_rank: self.bm25_rank,
            vector_rank: self.vector_rank,
        }
    }
}

fn chunk_known(vectors: &Vec<VectorSearchResult>, chunk_id: &String) -> (r: bool)
    ensures
        r == has_chunk(vectors@, chunk_id@),
{
    let mut k: usize = 0;
    while k < vectors.len()
        invariant
            k <= vectors@.len(),
            forall|j: int| 0 <= j < k ==> (#[trigger] vectors@[j]).chunk_id@ != chunk_id@,
        decreases vectors@.len() - k,
    {
        if vectors[k].chunk_id.eq(chunk_id) {
            return true;
        }
        k += 1;
    }
    false
}

/// The results for hits of the vector index.
pub fn from_vectors(vectors: &Vec<VectorSearchResult>) -> (r: Vec<HybridResult>)
    ensures
        r@ == Seq::new(vectors@.len(), |k: int| vector_result(vectors@[k])),
{
    let mut out: Vec<HybridResult> = Vec::new();
    let mut i: usize = 0;
    while i < vectors.len()
        invariant
            i <= vectors@.len(),
            out@ == Seq::new(i as nat, |k: int| vector_result(vectors@[k])),
        decreases vectors@.len() - i,
    {
        let v: &VectorSearchResult = &vectors[i];
        out.push(
            HybridResult {
                chunk_id: v.chunk_id.clone(),
                file_path: v.file_path.clone(),
                file_name: v.file_name.clone(),
                content: v.content.clone(),
                section: text::copy_option(&v.section),
                score: v.similarity,
                bm25_rank: None,
                vector_rank: None,
            },
        );
        i += 1;
    }
    out
}

/// Merges the results of both indexes: by meaning first, then by keyword, no
/// chunk of the vector results again.
pub fn merge_results(
    vectors: &Vec<VectorSearchResult>,
    bm25: &Vec<HybridResult>,
) -> (r: Vec<HybridResult>)
    ensures
        r@ == merged(vectors@, bm25@),
{
    let mut out: Vec<HybridResult> = from_vectors(vectors);
    let ghost base = out@;
    assert(base + only_bm25(bm25@.take(0), vectors@) =~= base);
    let mut k: usize = 0;
    while k < bm25.len()
        invariant
            k <= bm25@.len(),
            vectors@.len() == 0 ==> base.len() == 0 && only_bm25(bm25@.take(k as int), vectors@)
                =~= bm25@.take(k as int),
            out@ == base + only_bm25(bm25@.take(k as int), vectors@),
        decreases bm25@.len() - k,
    {
        assert(bm25@.take(k + 1).drop_last() =~= bm25@.take(k as int));
        let ghost before = out@;
        if !chunk_known(vectors, &bm25[k].chunk_id) {
            out.push(bm25[k].clone());
            assert(out@ =~= base + only_bm25(bm25@.take(k + 1), vectors@));
        }
        k += 1;
    }
    assert(bm25@.take(bm25@.len() as int) =~= bm25@);
    if vectors.len() > 0 && out.len() > MERGED_RESULTS {
        let ghost before = out@;
        out.truncate(MERGED_RESULTS);
        assert(out@ =~= before.take(MERGED_RESULTS as int));
    }
    assert(vectors@.len() == 0 ==> out@ =~= bm25@);
    out
}

/// A merge keeps at most the limit, every keyword result in it is new beside
/// the vector results, and the results that it takes over stand in front.
pub proof fn law_merged(vectors: Seq<VectorSearchResult>, bm25: Seq<HybridResult>, i: int)
    requires
        vectors.len() > 0,
        0 <= i < merged(vectors, bm25).len(),
    ensures
        merged(vectors, bm25).len() <= MERGED_RESULTS,
        i < vectors.len() ==> merged(vectors, bm25)[i] == vector_result(vectors[i]),
        i >= vectors.len() ==> !has_chunk(vectors, merged(vectors, bm25)[i].chunk_id@)
            && bm25.contains(merged(vectors, bm25)[i]),
{
    lemma_only_bm25(bm25, vectors);
    let fresh = only_bm25(bm25, vectors);
    if i >= vectors.len() {
        assert(merged(vectors, bm25)[i] == fresh[i - vectors.len()]);
    }
}

proof fn lemma_only_bm25(bm25: Seq<HybridResult>, vectors: Seq<VectorSearchResult>)
    ensures
        forall|i: int|
            0 <= i < only_bm25(bm25, vectors).len() ==> !has_chunk(
                vectors,
                (#[trigger] only_bm25(bm25, vectors)[i]).chunk_id@,
            ) && bm25.contains(only_bm25(bm25, vectors)[i]),
    decreases bm25.len(),
{
    if bm25.len() > 0 {
        lemma_only_bm25(bm25.drop_last(), vectors);
        let shorter = only_bm25(bm25.drop_last(), vectors);
        let all = only_bm25(bm25, vectors);
        assert forall|i: int| 0 <= i < all.len() implies !has_chunk(
            vectors,
            (#[trigger] all[i]).chunk_id@,
        ) && bm25.contains(all[i]) by {
            if i < shorter.len() {
                assert(all[i] == shorter[i]);
                let k = choose|k: int|
                    0 <= k < bm25.len() - 1 && bm25.drop_last()[k] == shorter[i];
                assert(bm25[k] == all[i]);
            } else {
                assert(bm25[bm25.len() - 1] == all[i]);
            }
        }
    }
}

/// No hit is lost in a merge: every vector hit comes first, and behind them
/// exactly those keyword hits whose chunk no vector hit has, each as it is and in
/// its order, as far as the first fifteen of all of them go. Without vector hits
/// every keyword hit stays.
pub proof fn law_merge_is_complete(
    vectors: Seq<VectorSearchResult>,
    bm25: Seq<HybridResult>,
) -> (ps: Seq<int>)
    ensures
        select::exactly(
            ps,
            bm25.len() as int,
            |i: int|
                forall|k: int|
                    0 <= k < vectors.len() ==> (#[trigger] vectors[k]).chunk_id@
                        != bm25[i].chunk_id@,
        ),
        ({
            let r = merged(vectors, bm25);
            let found = vectors.len() + ps.len();
            &&& vectors.len() == 0 ==> r == bm25
            &&& vectors.len() > 0 ==> r.len() == if found < 15 {
                found
            } else {
                15
            }
            &&& forall|i: int|
                0 <= i < r.len() && i < vectors.len() ==> (#[trigger] r[i]).chunk_id
                    == vectors[i].chunk_id && r[i].file_path == vectors[i].file_path
                    && r[i].file_name == vectors[i].file_name && r[i].content
                    == vectors[i].content && r[i].section == vectors[i].section && r[i].score
                    == vectors[i].similarity
            &&& forall|i: int|
                vectors.len() <= i < r.len() ==> #[trigger] r[i] == bm25[ps[i - vectors.len()]]
        }),
{
    let p = |i: int|
        forall|k: int|
            0 <= k < vectors.len() ==> (#[trigger] vectors[k]).chunk_id@ != bm25[i].chunk_id@;
    let f = |n: int| only_bm25(bm25.take(n), vectors);
    assert forall|n: int| 0 < n <= bm25.len() implies #[trigger] f(n) == if p(n - 1) {
        f(n - 1).push(bm25[n - 1])
    } else {
        f(n - 1)
    } by {
        assert(bm25.take(n).drop_last() =~= bm25.take(n - 1));
        assert(p(n - 1) == !has_chunk(vectors, bm25[n - 1].chunk_id@));
    }
    assert(bm25.take(0) =~= Seq::empty());
    assert(bm25.take(bm25.len() as int) =~= bm25);
    let ps = select::lemma_exactly(bm25.len() as int, p, |i: int| bm25[i], f);
    if vectors.len() == 0 {
        assert forall|i: int| 0 <= i < bm25.len() implies ps.contains(i) by {
            assert(p(i));
        }
        select::lemma_all_places(ps, bm25.len() as int);
    }
    ps
}

/// The results of a keyword search have the chunks as they come, with their scores
/// and their ranks from 1 on.
pub proof fn law_keyword_result(rank: int, score: Score, chunk: Chunk)
    requires
        0 <= rank < usize::MAX,
    ensures
        ({
            let r = keyword_result(rank, score, chunk);
            &&& r.chunk_id == chunk.id
            &&& r.file_path == chunk.file_path
            &&& r.file_name == chunk.file_name
            &&& r.content == chunk.content
            &&& r.section == chunk.section
            &&& r.score == score
            &&& r.bm25_rank == Some((rank + 1) as usize)
        }),
{
}

} // verus!
