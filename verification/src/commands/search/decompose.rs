//! Queries that ask for several things at once: when they are split, and how
//! the results of the parts are merged.
use vstd::prelude::*;

use crate::ai::structured::QueryDecomposition;
use crate::commands::search::keyword;
use crate::order;
use crate::order::Reversed;
use crate::search::hybrid::HybridResult;
use crate::select;
use crate::text;
use crate::text::chars;
use crate::text::edit;
use crate::text::find;
use crate::text::split;

verus! {

/// Words that compare.
pub const COMPARISON_WORDS: [&'static str; 5] = [
    "so sánh", "đối chiếu", "khác nhau", "giống nhau", "compare",
];

/// Words between two things that are asked for.
pub const PAIRING_WORDS: [&'static str; 2] = [" và ", " vs "];

/// Words between two questions.
pub const CHAINING_WORDS: [&'static str; 2] = [" rồi ", " đồng thời "];

/// A query in lower case asks for several things: it compares, it names two
/// things in more than five words, it chains questions, or it asks for all of
/// something in more than six words.
pub open spec fn complex(query: Seq<char>) -> bool {
    let count = split::words(query).len();
    ||| find::occurs_any(query, COMPARISON_WORDS@)
    ||| find::occurs_any(query, PAIRING_WORDS@) && count > 5
    ||| find::occurs_any(query, CHAINING_WORDS@)
    ||| find::occurs(query, "tất cả"@) && count > 6
}

/// Whether a query in lower case asks for several things.
pub fn is_complex(query: &str) -> (r: bool)
    ensures
        r == complex(query@),
{
    let words: Vec<String> = split::split_words(query);
    assert(text::views(words@).len() == words@.len());
    find::contains_any(query, COMPARISON_WORDS.as_slice()) || (find::contains_any(
        query,
        PAIRING_WORDS.as_slice(),
    ) && words.len() > 5) || find::contains_any(query, CHAINING_WORDS.as_slice()) || (
    find::contains(query, "tất cả") && words.len() > 6)
}

/// Whether a query asks for several things, whatever its case.
pub fn is_complex_query(query: &str) -> (r: bool)
    ensures
        r == complex(chars::lowercase(query@)),
{
    is_complex(query.to_lowercase().as_str())
}

/// What stands before the query in the request to split it.
pub const SPLIT_HEAD: &'static str =
    "Phân tích câu hỏi và tách thành sub-queries để tìm kiếm tài liệu:\n\nCâu hỏi: \"";

/// What stands behind the query in the request to split it.
pub const SPLIT_TAIL: &'static str = "\"\n\nNếu câu hỏi ĐƠN GIẢN (chỉ tìm 1 thứ) → needs_decomposition = false, 1 sub_query.\nNếu câu hỏi PHỨC TẠP (so sánh, nhiều chủ đề, nhiều file) → needs_decomposition = true, 2-4 sub_queries.\n\nMỗi sub_query phải có search_terms tối ưu cho BM25 search (bỏ stop words).";

/// The request by which a model is asked to split a query.
pub fn split_request(query: &str) -> (r: String)
    ensures
        r@ == SPLIT_HEAD@ + query@ + SPLIT_TAIL@,
{
    edit::concat3(SPLIT_HEAD, query, SPLIT_TAIL)
}

/// The terms of the parts of a query.
pub open spec fn part_terms(d: QueryDecomposition) -> Seq<Seq<char>> {
    Seq::new(d.sub_queries@.len(), |i: int| d.sub_queries@[i].search_terms@)
}

/// What is searched for, one search for each entry: the terms of the parts
/// where the model splits the query into several; the terms of the one part
/// where it does not; the keywords of the query where it gives no part or did
/// not answer.
pub open spec fn searches(d: Option<QueryDecomposition>, query: Seq<char>) -> Seq<Seq<char>> {
    match d {
        Some(d) => if d.needs_decomposition && d.sub_queries@.len() > 1 {
            part_terms(d)
        } else if d.sub_queries@.len() > 0 {
            seq![d.sub_queries@[0].search_terms@]
        } else {
            seq![keyword::keywords_of(query)]
        },
        None => seq![keyword::keywords_of(query)],
    }
}

/// What is searched for, given how the model split the query.
pub fn plan_searches(d: &Option<QueryDecomposition>, query: &str) -> (r: Vec<String>)
    ensures
        text::views(r@) == searches(*d, query@),
{
    let mut out: Vec<String> = Vec::new();
    if let Some(parts) = d {
        if parts.needs_decomposition && parts.sub_queries.len() > 1 {
            let mut i: usize = 0;
            while i < parts.sub_queries.len()
                invariant
                    i <= parts.sub_queries@.len(),
                    text::views(out@) == part_terms(*parts).take(i as int),
                decreases parts.sub_queries@.len() - i,
            {
                let terms: String = parts.sub_queries[i].search_terms.clone();
                let ghost before = text::views(out@);
                out.push(terms);
                assert(text::views(out@) =~= before.push(terms@));
                i += 1;
            }
            assert(text::views(out@) =~= part_terms(*parts));
            return out;
        }
        if parts.sub_queries.len() > 0 {
            let terms: String = parts.sub_queries[0].search_terms.clone();
            out.push(terms);
            assert(text::views(out@) =~= seq![terms@]);
            return out;
        }
    }
    let keywords: String = keyword::extract_keywords(query);
    out.push(keywords);
    assert(text::views(out@) =~= seq![keywords@]);
    out
}

/// How many merged results of the parts are kept.
pub const MERGED_PARTS: usize = 20;

/// The chunks of results.
pub open spec fn chunk_ids(results: Seq<HybridResult>) -> Seq<Seq<char>> {
    Seq::new(results.len(), |i: int| results[i].chunk_id@)
}

/// The results of all parts, one part after the other.
pub open spec fn all_parts(parts: Seq<Vec<HybridResult>>) -> Seq<HybridResult>
    decreases parts.len(),
{
    if parts.len() == 0 {
        Seq::empty()
    } else {
        all_parts(parts.drop_last()) + parts.last()@
    }
}

/// The keys by which results are ranked: the highest score first.
pub open spec fn score_keys(results: Seq<HybridResult>) -> Seq<Reversed<i128>> {
    Seq::new(results.len(), |i: int| Reversed { key: results[i].score.rank() as i128 })
}

/// `r` has the results with the highest score first, those with the same score
/// in the order in which they were, at most as many as are kept.
pub open spec fn is_best(r: Seq<HybridResult>, results: Seq<HybridResult>) -> bool {
    exists|p: Seq<int>| #[trigger]
        order::is_order(p, score_keys(results)) && r == (if results.len() > MERGED_PARTS {
            order::arranged(results, p).take(MERGED_PARTS as int)
        } else {
            order::arranged(results, p)
        })
}

/// Merges the results of the parts of a query: each chunk once, the best
/// first.
pub fn merge_parts(parts: &Vec<Vec<HybridResult>>) -> (r: Vec<HybridResult>)
    ensures
        ({
            let all = all_parts(parts@);
            is_best(r@, select::firsts(all, chunk_ids(all)))
        }),
{
    let mut all: Vec<HybridResult> = Vec::new();
    let mut ids: Vec<String> = Vec::new();
    let mut i: usize = 0;
    while i < parts.len()
        invariant
            i <= parts@.len(),
            all@ == all_parts(parts@.take(i as int)),
            text::views(ids@) == chunk_ids(all@),
        decreases parts@.len() - i,
    {
        let part: &Vec<HybridResult> = &parts[i];
        let ghost before = all@;
        let mut k: usize = 0;
        while k < part.len()
            invariant
                k <= part@.len(),
                all@ == before + part@.take(k as int),
                text::views(ids@) == chunk_ids(all@),
            decreases part@.len() - k,
        {
            let ghost earlier = all@;
            let ghost earlier_ids = text::views(ids@);
            ids.push(part[k].chunk_id.clone());
            all.push(part[k].clone());
            assert(all@ =~= earlier.push(part@[k as int]));
            assert(all@ =~= before + part@.take(k + 1));
            assert(text::views(ids@) =~= earlier_ids.push(part@[k as int].chunk_id@));
            assert(text::views(ids@) =~= chunk_ids(all@));
            k += 1;
        }
        assert(part@.take(part@.len() as int) =~= part@);
        assert(parts@.take(i + 1).drop_last() =~= parts@.take(i as int));
        i += 1;
    }
    assert(parts@.take(parts@.len() as int) =~= parts@);
    assert(text::views(ids@).len() == ids@.len());
    let once: Vec<HybridResult> = select::keep_first_items(all, &ids);
    best_results(once)
}

/// The best results first, at most as many as are kept.
pub fn best_results(results: Vec<HybridResult>) -> (r: Vec<HybridResult>)
    ensures
        is_best(r@, results@),
{
    let mut keys: Vec<Reversed<i128>> = Vec::new();
    let mut i: usize = 0;
    while i < results.len()
        invariant
            i <= results@.len(),
            keys@ == score_keys(results@).take(i as int),
        decreases results@.len() - i,
    {
        keys.push(Reversed { key: results[i].score.to_rank() });
        i += 1;
    }
    assert(keys@ =~= score_keys(results@));
    let p: Vec<usize> = order::sorted_positions(&keys);
    proof {
        order::lemma_order_distinct(order::positions(p@), score_keys(results@));
    }
    let ghost count = results@.len();
    let mut sorted: Vec<HybridResult> = order::arrange(results, &p);
    let ghost all = sorted@;
    assert(all.len() == count);
    if sorted.len() > MERGED_PARTS {
        sorted.truncate(MERGED_PARTS);
        assert(sorted@ =~= all.take(MERGED_PARTS as int));
    }
    sorted
}

/// The merged results of the parts of a query are at most as many as are kept,
/// come from the parts, hold no chunk twice and have the best first.
pub proof fn law_merged_parts(parts: Seq<Vec<HybridResult>>, r: Seq<HybridResult>)
    requires
        is_best(r, select::firsts(all_parts(parts), chunk_ids(all_parts(parts)))),
    ensures
        r.len() <= MERGED_PARTS,
        forall|i: int| 0 <= i < r.len() ==> all_parts(parts).contains(#[trigger] r[i]),
        forall|i: int, j: int|
            0 <= i < j < r.len() ==> (#[trigger] r[i]).chunk_id@ != (#[trigger] r[j]).chunk_id@
                && r[i].score.rank() >= r[j].score.rank(),
{
    let all = all_parts(parts);
    let ids = chunk_ids(all);
    let once = select::firsts(all, ids);
    let places = select::first_places(ids, all.len() as int);
    select::lemma_firsts(all, ids);
    let p = choose|p: Seq<int>| #[trigger]
        order::is_order(p, score_keys(once)) && r == (if once.len() > MERGED_PARTS {
            order::arranged(once, p).take(MERGED_PARTS as int)
        } else {
            order::arranged(once, p)
        });
    order::lemma_order_distinct(p, score_keys(once));
    assert forall|i: int| 0 <= i < r.len() implies all.contains(#[trigger] r[i]) by {
        assert(r[i] == once[p[i]]);
        assert(once[p[i]] == all[places[p[i]]]);
    }
    assert forall|i: int, j: int| 0 <= i < j < r.len() implies (#[trigger] r[i]).chunk_id@ != (
    #[trigger] r[j]).chunk_id@ && r[i].score.rank() >= r[j].score.rank() by {
        assert(r[i] == once[p[i]] && r[j] == once[p[j]]);
        assert(order::precedes(score_keys(once), p[i], p[j]));
        assert(once[p[i]] == all[places[p[i]]]);
        assert(once[p[j]] == all[places[p[j]]]);
        assert(p[i] != p[j]);
        if p[i] < p[j] {
            assert(ids[places[p[i]]] != ids[places[p[j]]]);
        } else {
            assert(ids[places[p[j]]] != ids[places[p[i]]]);
        }
    }
}

/// The results of all parts are there, one part after the other.
pub proof fn law_all_parts(parts: Seq<Vec<HybridResult>>, part: Vec<HybridResult>)
    ensures
        all_parts(Seq::empty()).len() == 0,
        all_parts(parts.push(part)) == all_parts(parts) + part@,
{
    assert(parts.push(part).drop_last() =~= parts);
}

/// No result of a part is lost: exactly the first result of each chunk counts,
/// and of these the twenty with the highest score are kept, all where there are no
/// more; none that is left out has a higher score than one that is kept.
pub proof fn law_merge_is_complete(parts: Seq<Vec<HybridResult>>, r: Seq<HybridResult>) -> (ps: (
    Seq<int>,
    Seq<int>,
))
    requires
        is_best(r, select::firsts(all_parts(parts), chunk_ids(all_parts(parts)))),
    ensures
        ({
            let all = all_parts(parts);
            &&& select::exactly(
                ps.0,
                all.len() as int,
                |i: int|
                    forall|j: int|
                        0 <= j < i ==> (#[trigger] all[j]).chunk_id@ != all[i].chunk_id@,
            )
            &&& ps.1.len() == ps.0.len()
            &&& ps.1.no_duplicates()
            &&& forall|k: int| 0 <= k < ps.1.len() ==> 0 <= #[trigger] ps.1[k] < ps.0.len()
            &&& r.len() == if ps.0.len() < 20 {
                ps.0.len()
            } else {
                20
            }
            &&& forall|k: int| 0 <= k < r.len() ==> #[trigger] r[k] == all[ps.0[ps.1[k]]]
            &&& forall|i: int, j: int|
                0 <= i < j < ps.1.len() ==> all[ps.0[#[trigger] ps.1[i]]].score.rank()
                    >= all[ps.0[#[trigger] ps.1[j]]].score.rank()
        }),
{
    let all = all_parts(parts);
    let ids = chunk_ids(all);
    let once = select::firsts(all, ids);
    let qs = select::law_firsts(all, ids);
    let p = |i: int| forall|j: int| 0 <= j < i ==> ids[j] != ids[i];
    let q = |i: int|
        forall|j: int| 0 <= j < i ==> (#[trigger] all[j]).chunk_id@ != all[i].chunk_id@;
    assert forall|i: int| 0 <= i < all.len() implies p(i) == #[trigger] q(i) by {
        if p(i) {
            assert forall|j: int| 0 <= j < i implies (#[trigger] all[j]).chunk_id@
                != all[i].chunk_id@ by {
                assert(ids[j] != ids[i]);
            }
        }
        if q(i) {
            assert forall|j: int| 0 <= j < i implies ids[j] != ids[i] by {
                assert(all[j].chunk_id@ != all[i].chunk_id@);
            }
        }
    }
    assert forall|a: int| 0 <= a < qs.len() implies 0 <= #[trigger] qs[a] < all.len() && q(
        qs[a],
    ) by {
        assert(p(qs[a]));
        assert(q(qs[a]) == p(qs[a]));
    }
    assert forall|i: int| 0 <= i < all.len() && #[trigger] q(i) implies qs.contains(i) by {
        assert(p(i));
    }
    let o = choose|o: Seq<int>| #[trigger]
        order::is_order(o, score_keys(once)) && r == (if once.len() > MERGED_PARTS {
            order::arranged(once, o).take(MERGED_PARTS as int)
        } else {
            order::arranged(once, o)
        });
    order::lemma_order_distinct(o, score_keys(once));
    assert forall|i: int, j: int| 0 <= i < j < o.len() implies all[qs[#[trigger] o[i]]].score.rank()
        >= all[qs[#[trigger] o[j]]].score.rank() by {
        assert(order::precedes(score_keys(once), o[i], o[j]));
        assert(once[o[i]] == all[qs[o[i]]] && once[o[j]] == all[qs[o[j]]]);
    }
    assert forall|k: int| 0 <= k < r.len() implies #[trigger] r[k] == all[qs[o[k]]] by {
        assert(r[k] == once[o[k]]);
    }
    (qs, o)
}

/// What is searched for: every part where the model splits the question into
/// several, the one part where it does not, the keywords of the question where it
/// gives none; there is always a search.
pub proof fn law_searches(d: QueryDecomposition, query: Seq<char>)
    ensures
        searches(Some(d), query).len() >= 1,
        d.needs_decomposition && d.sub_queries@.len() >= 2 ==> searches(Some(d), query).len()
            == d.sub_queries@.len() && forall|i: int|
            0 <= i < d.sub_queries@.len() ==> #[trigger] searches(Some(d), query)[i]
                == d.sub_queries@[i].search_terms@,
        !d.needs_decomposition && d.sub_queries@.len() >= 1 ==> searches(Some(d), query) == seq![
            d.sub_queries@[0].search_terms@,
        ],
        d.sub_queries@.len() == 0 ==> searches(Some(d), query) == seq![keyword::keywords_of(query)],
        searches(None, query) == seq![keyword::keywords_of(query)],
{
}

/// A question asks for several things where it compares or chains, and, with more
/// than five words, where it names two things; not where it has none of these words.
pub proof fn law_complex(query: Seq<char>)
    ensures
        find::occurs_any(query, COMPARISON_WORDS@) ==> complex(query),
        find::occurs_any(query, CHAINING_WORDS@) ==> complex(query),
        find::occurs_any(query, PAIRING_WORDS@) && split::words(query).len() >= 6 ==> complex(
            query,
        ),
        find::occurs(query, "tất cả"@) && split::words(query).len() >= 7 ==> complex(query),
        !find::occurs_any(query, COMPARISON_WORDS@) && !find::occurs_any(query, CHAINING_WORDS@)
            && split::words(query).len() <= 5 ==> !complex(query),
        !find::occurs_any(query, COMPARISON_WORDS@) && !find::occurs_any(query, CHAINING_WORDS@)
            && !find::occurs_any(query, PAIRING_WORDS@) && !find::occurs(query, "tất cả"@)
            ==> !complex(query),
{
}

} // verus!
