use rag_search::commands::context_guard;
use rag_search::commands::search::decompose;
use rag_search::commands::search::keyword;
use rag_search::commands::search::keyword::{STOP_PHRASES, STOP_WORDS};
use rag_search::ai::structured::{QueryDecomposition, SubQuery};
use rag_search::score::Score;
use rag_search::search::hybrid::HybridResult;

fn strings(v: &[&str]) -> Vec<String> {
    v.iter().map(|s| s.to_string()).collect()
}

#[test]
fn stop_phrases_are_the_stop_words_with_spaces_longest_first() {
    let mut phrases: Vec<&str> = STOP_WORDS.iter().filter(|w| w.contains(' ')).copied().collect();
    phrases.sort_by(|a, b| b.len().cmp(&a.len()));
    assert_eq!(STOP_PHRASES.to_vec(), phrases);
}

#[test]
fn compound_terms_stay_together() {
    assert_eq!(keyword::extract_compound_terms("AZV Test 3"), strings(&["AZV Test 3"]));
    assert_eq!(
        keyword::extract_compound_terms("file TESTCASE_DETAIL.md"),
        strings(&["TESTCASE_DETAIL.md"])
    );
    assert_eq!(keyword::extract_compound_terms("v3 report"), strings(&["v3"]));
    assert_eq!(keyword::extract_compound_terms("xin chào"), strings(&[]));
}

#[test]
fn plain_numbers_are_told_from_codes() {
    assert!(keyword::is_standalone_number("2000"));
    assert!(!keyword::is_standalone_number("2000円"));
    assert!(!keyword::is_standalone_number("v3"));
    assert!(!keyword::is_standalone_number(""));
}

#[test]
fn cjk_terms_are_cut_into_two_and_three() {
    assert_eq!(
        keyword::cjk_ngrams("支払合計額"),
        strings(&["支払", "払合", "合計", "計額", "支払合", "払合計", "合計額"])
    );
    assert_eq!(keyword::cjk_ngrams("支"), strings(&[]));
    assert_eq!(keyword::cjk_ngrams("abc"), strings(&[]));
    assert!(keyword::contains_cjk("tìm 支払"));
    assert!(!keyword::contains_cjk("tìm"));
}

#[test]
fn keywords_of_a_query() {
    assert_eq!(keyword::extract_keywords("tìm báo cáo doanh thu"), "doanh thu");
    assert_eq!(keyword::extract_keywords("doanh thu, lợi nhuận: 20000 v3"), "v3 doanh thu lợi nhuận");
    assert_eq!(keyword::extract_keywords("doanh thu 20000"), "doanh thu");
    assert!(!keyword::is_compound_word("20000"));
    assert!(keyword::is_compound_word("AZV"));
    assert_eq!(keyword::extract_compound_terms("2024"), vec!["2024"]);
    assert_eq!(keyword::extract_compound_terms("AZV 20000"), vec!["AZV 20000"]);
    assert_eq!(keyword::extract_keywords("doanh thu 2024"), "2024 doanh thu");
    assert_eq!(keyword::extract_keywords("hãy tìm cho tôi AZV Test 3"), "AZV Test 3");
    assert_eq!(
        keyword::extract_keywords("支払合計額"),
        "支払合計額 支払 払合 合計 計額 支払合 払合計 合計額"
    );
    assert_eq!(keyword::extract_keywords(""), "");
}

#[test]
fn no_keyword_comes_twice_whatever_its_case() {
    assert_eq!(keyword::extract_keywords("doanh thu doanh thu"), "doanh thu");
    assert_eq!(keyword::extract_keywords("doanh thu DOANH doanh"), "DOANH thu");
}

#[test]
fn snippets_stand_around_the_first_keyword() {
    let (snippet, words) = keyword::extract_snippet("một hai doanh thu ba bốn", "doanh thu", 300);
    assert!(snippet.contains("doanh thu"));
    assert!(words.contains(&"doanh".to_string()));
    let long = format!("{}doanh thu{}", "a ".repeat(400), " b".repeat(400));
    let (snippet, _) = keyword::extract_snippet(&long, "doanh thu", 100);
    assert!(snippet.contains("doanh"));
    assert!(snippet.chars().count() < 200);
}

#[test]
fn a_search_asks_for_files_only() {
    assert!(keyword::is_search_only("TRIGGER_SETUP"));
    assert!(keyword::is_search_only("tho123"));
    assert!(!keyword::is_search_only("tho"));
    assert!(keyword::is_search_only("file báo cáo ở đâu"));
    assert!(!keyword::is_search_only("tho123 là gì"));
    assert!(keyword::is_search_only(".env"));
    assert!(keyword::is_search_only("tìm file hợp đồng"));
    assert!(!keyword::is_search_only("tóm tắt tài liệu này giúp tôi nhé"));
}

#[test]
fn tokens_are_estimated() {
    assert_eq!(context_guard::estimate_tokens(""), 0);
    assert!(context_guard::is_cjk_char('支'));
    assert!(!context_guard::is_cjk_char('a'));
    assert!(context_guard::estimate_tokens("支払合計額") > context_guard::estimate_tokens("abcde"));
}

#[test]
fn complex_queries_are_split() {
    assert!(decompose::is_complex_query("So sánh doanh thu Q1 và Q2"));
    assert!(decompose::is_complex_query("Phân tích hóa đơn A và hóa đơn B"));
    assert!(decompose::is_complex_query("mở file rồi in ra"));
    assert!(decompose::is_complex_query("liệt kê tất cả hợp đồng trong năm nay"));
    assert!(!decompose::is_complex_query("doanh thu và chi phí"));
    assert!(!decompose::is_complex_query("doanh thu"));
    assert!(decompose::split_request("A và B").contains("Câu hỏi: \"A và B\"\n\n"));
}

fn part(terms: &str) -> SubQuery {
    SubQuery { search_terms: terms.to_string(), purpose: String::new() }
}

#[test]
fn what_is_searched_for_depends_on_how_the_model_splits() {
    let many = Some(QueryDecomposition {
        needs_decomposition: true,
        sub_queries: vec![part("a"), part("b")],
    });
    assert_eq!(decompose::plan_searches(&many, "q"), strings(&["a", "b"]));
    let one = Some(QueryDecomposition { needs_decomposition: true, sub_queries: vec![part("a")] });
    assert_eq!(decompose::plan_searches(&one, "q"), strings(&["a"]));
    let simple = Some(QueryDecomposition {
        needs_decomposition: false,
        sub_queries: vec![part("a"), part("b")],
    });
    assert_eq!(decompose::plan_searches(&simple, "q"), strings(&["a"]));
    let none = Some(QueryDecomposition { needs_decomposition: false, sub_queries: vec![] });
    assert_eq!(decompose::plan_searches(&none, "tìm doanh thu"), strings(&["doanh thu"]));
    assert_eq!(decompose::plan_searches(&None, "tìm doanh thu"), strings(&["doanh thu"]));
}

fn result(id: &str, score: f32) -> HybridResult {
    HybridResult {
        chunk_id: id.to_string(),
        file_path: format!("/{}", id),
        file_name: id.to_string(),
        content: String::new(),
        section: None,
        score: Score { bits: score.to_bits() },
        bm25_rank: None,
        vector_rank: None,
    }
}

#[test]
fn merged_parts_hold_each_chunk_once_the_best_first() {
    let merged = decompose::merge_parts(&vec![
        vec![result("a", 1.0), result("b", 3.0)],
        vec![result("a", 9.0), result("c", 3.0), result("d", 2.0)],
    ]);
    let ids: Vec<&str> = merged.iter().map(|r| r.chunk_id.as_str()).collect();
    assert_eq!(ids, vec!["b", "c", "d", "a"]);
    let many: Vec<HybridResult> = (0..30).map(|i| result(&i.to_string(), i as f32)).collect();
    assert_eq!(decompose::merge_parts(&vec![many]).len(), 20);
}
