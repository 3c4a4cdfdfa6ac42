use rag_search::commands::search::assembly;
use rag_search::commands::search::assembly::PickedFile;
use rag_search::commands::search::context;
use rag_search::commands::search::context::{FileRankInfo, QueryIntent};
use rag_search::score::Score;
use rag_search::search::hybrid;
use rag_search::search::hybrid::{HybridResult, HybridSearch};
use rag_search::search::vector_index::VectorSearchResult;
use rag_search::indexer::chunker::Chunk;

fn score(x: f32) -> Score {
    Score { bits: x.to_bits() }
}

fn strings(v: &[&str]) -> Vec<String> {
    v.iter().map(|s| s.to_string()).collect()
}

fn result(id: &str, path: &str, content: &str, s: f32) -> HybridResult {
    HybridResult {
        chunk_id: id.to_string(),
        file_path: path.to_string(),
        file_name: path.trim_start_matches('/').to_string(),
        content: content.to_string(),
        section: None,
        score: score(s),
        bm25_rank: Some(1),
        vector_rank: None,
    }
}

fn ranked(name: &str, content: &str, s: f32) -> FileRankInfo {
    FileRankInfo {
        file_path: format!("/{}", name),
        file_name: name.to_string(),
        bm25_scores: vec![],
        chunk_contents: vec![content.to_string()],
        composite_score: score(s),
    }
}

#[test]
fn results_are_grouped_by_file_in_the_order_in_which_they_come() {
    let files = context::group_by_file(&[
        result("1", "/a", "x", 1.0),
        result("2", "/b", "y", 2.0),
        result("3", "/a", "z", 3.0),
    ]);
    assert_eq!(files.len(), 2);
    assert_eq!(files[0].chunk_contents, strings(&["x", "z"]));
    assert_eq!(files[0].bm25_scores.len(), 2);
    assert_eq!(files[1].file_path, "/b");
}

#[test]
fn all_chunks_of_a_file_are_loaded_where_few_were_found() {
    assert!(context::should_expand(true, &QueryIntent::Lookup, 1, 100));
    assert!(!context::should_expand(true, &QueryIntent::Lookup, 5, 5));
    assert!(context::should_expand(false, &QueryIntent::Lookup, 1, 20));
    assert!(!context::should_expand(false, &QueryIntent::Lookup, 1, 21));
    assert!(context::should_expand(false, &QueryIntent::Summarize, 1, 21));
    assert!(!context::should_expand(false, &QueryIntent::Summarize, 20, 21));
}

#[test]
fn files_are_ranked_by_score_one_version_of_each() {
    let files = context::rank_files(
        vec![
            ranked("report_v1.pdf", "x", 0.5),
            ranked("other.pdf", "x", 0.05),
            ranked("report_v2.pdf", "x", 0.9),
            ranked("plan.pdf", "x", 0.6),
        ],
        score(0.25),
        &None,
    );
    let names: Vec<&str> = files.iter().map(|f| f.file_name.as_str()).collect();
    assert_eq!(names, vec!["report_v2.pdf", "plan.pdf"]);
}

#[test]
fn a_compound_term_lets_a_file_pass() {
    let files = context::rank_files(
        vec![ranked("a.pdf", "có Test   123 ở đây", 0.01), ranked("b.pdf", "không", 0.02)],
        score(0.25),
        &Some("Test 123".to_string()),
    );
    let names: Vec<&str> = files.iter().map(|f| f.file_name.as_str()).collect();
    assert_eq!(names, vec!["a.pdf"]);
}

#[test]
fn terms_are_counted_in_name_and_text() {
    let file = ranked("doanh.pdf", "thu thu chi", 0.0);
    let signals = context::file_signals(&file, &strings(&["doanh", "thu", "lãi"]));
    assert_eq!(signals.keyword_count, 3);
    assert_eq!(signals.hits, 2);
    assert_eq!(signals.name_hits, 1);
    assert!(signals.total_matches >= 2);
}

#[test]
fn half_of_the_terms_are_enough_for_a_chunk() {
    let two = assembly::chunk_evidence("doanh thu quý", &strings(&["doanh", "lãi"]));
    assert!(two.accepted);
    let one = assembly::chunk_evidence("doanh thu quý", &strings(&["doanh", "lãi", "vốn"]));
    assert!(!one.accepted);
}

#[test]
fn the_best_chunks_are_selected() {
    let contents = strings(&["a", "b", "c"]);
    let picked = assembly::select_chunks(
        &contents,
        &vec![true, false, true],
        &vec![score(1.0), score(9.0), score(2.0)],
        10,
    );
    assert_eq!(picked, strings(&["c", "a"]));
}

#[test]
fn a_context_is_made_of_numbered_blocks() {
    let files = vec![PickedFile {
        file_name: "a.pdf".to_string(),
        file_path: "/a.pdf".to_string(),
        score: score(0.9),
        chunks: strings(&["doanh thu quý một"]),
    }];
    let (text, attached) =
        assembly::assemble_context(&files, &strings(&["doanh"]), 1000, 1000).unwrap();
    assert!(text.contains("a.pdf"));
    assert!(text.contains("doanh thu quý một"));
    assert_eq!(attached.len(), 1);
    let blank = PickedFile {
        file_name: "b.pdf".to_string(),
        file_path: "/b.pdf".to_string(),
        score: score(1.0),
        chunks: strings(&[" "]),
    };
    let both: Vec<PickedFile> = std::iter::once(blank).chain(files).collect();
    let (text, attached) =
        assembly::assemble_context(&both, &strings(&["doanh"]), 1000, 1000).unwrap();
    assert_eq!(attached.len(), 1);
    assert_eq!(text, "[1] a.pdf:\ndoanh thu quý một");
    assert_eq!(assembly::empty_context(0, 0).unwrap(), "(Khong tim thay tai lieu lien quan)");
    assert_eq!(assembly::empty_context(1, 0).unwrap(), "(Không tìm thấy tài liệu đủ liên quan)");
    assert_eq!(assembly::empty_context(1, 1), None);
}

#[test]
fn only_results_near_the_best_are_shown() {
    let shown = context::preview_results(
        &vec![result("1", "/a", "x", 1.0), result("2", "/b", "y", 0.2)],
        "q",
    );
    assert_eq!(shown.len(), 2);
    assert_eq!(context::keep_shown(shown, score(0.3)).len(), 1);
    let many: Vec<HybridResult> =
        (0..30).map(|i| result(&i.to_string(), "/a", "x", 1.0)).collect();
    let shown = context::preview_results(&many, "q");
    assert_eq!(shown.len(), 20);
    assert_eq!(context::keep_shown(shown, score(0.3)).len(), 5);
}

#[test]
fn vector_results_come_first_and_no_chunk_twice() {
    let v = VectorSearchResult {
        chunk_id: "1".to_string(),
        file_path: "/a".to_string(),
        file_name: "a".to_string(),
        content: "x".to_string(),
        section: None,
        distance: score(0.1),
        similarity: score(0.9),
    };
    let merged = hybrid::merge_results(
        &vec![v],
        &vec![result("1", "/a", "x", 5.0), result("2", "/b", "y", 4.0)],
    );
    let ids: Vec<&str> = merged.iter().map(|r| r.chunk_id.as_str()).collect();
    assert_eq!(ids, vec!["1", "2"]);
    assert_eq!(merged[0].score.bits, 0.9f32.to_bits());
}

#[test]
fn keyword_results_are_ranked_from_one_on() {
    let chunk = |id: &str| Chunk {
        id: id.to_string(),
        file_path: "/a".to_string(),
        file_name: "a".to_string(),
        content: "x".to_string(),
        section: None,
        position: 0,
        char_start: 0,
        char_end: 0,
    };
    let r = HybridSearch::rank_bm25(vec![(score(2.0), chunk("1")), (score(1.0), chunk("2"))]);
    assert_eq!(r[0].bm25_rank, Some(1));
    assert_eq!(r[1].bm25_rank, Some(2));
    assert_eq!(r[1].chunk_id, "2");
}
