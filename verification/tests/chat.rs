use rag_search::commands::context_guard;
use rag_search::commands::search::context;
use rag_search::commands::search::context::QueryIntent;
use rag_search::commands::search::pii;
use rag_search::commands::search::pipeline;
use rag_search::commands::search::prompt;
use rag_search::commands::search::prompt::PromptType;
use rag_search::commands::search::smart_query;
use rag_search::commands::search::smart_query::{
    Analysis, RouterReply, SmartIntent, SmartOutcome,
};
use rag_search::commands::search::turn;
use rag_search::commands::search::turn::{ChatRoute, KeyRotation, KeyStep};
use rag_search::commands::search::{AttachedFile, SearchResponse, SearchResult};
use rag_search::ai::gemini::FunctionCallData;
use rag_search::score::Score;
use rag_search::search::hybrid::HybridResult;
use rag_search::session::{PreSearchCache, SessionContext, SessionFile};

fn file(name: &str) -> AttachedFile {
    AttachedFile {
        file_name: name.to_string(),
        file_path: format!("/docs/{}", name),
        score: Score { bits: 0.5f32.to_bits() },
    }
}

fn session(keywords: &str, files: &[&str], timestamp: u64) -> SessionContext {
    SessionContext {
        session_id: "s".to_string(),
        attached_files: files
            .iter()
            .map(|f| SessionFile { file_path: format!("/docs/{}", f), file_name: f.to_string() })
            .collect(),
        keywords: keywords.to_string(),
        context_text: String::new(),
        timestamp,
    }
}

fn turns(v: &[(&str, &str)]) -> Vec<(String, String)> {
    v.iter().map(|(a, b)| (a.to_string(), b.to_string())).collect()
}

#[test]
fn mail_addresses_and_phone_numbers_are_masked() {
    let masked = pii::sanitize_pii("gọi 0912345678 hoặc an.nguyen@example.com nhé");
    assert!(!masked.contains("0912345678"));
    assert!(!masked.contains("an.nguyen@example.com"));
    assert!(masked.starts_with("gọi "));
    assert!(masked.ends_with(" nhé"));
    assert_eq!(pii::sanitize_pii("năm 2024"), "năm 2024");
    assert_eq!(pii::sanitize_pii(&masked), masked);
}

#[test]
fn addresses_that_share_characters_are_masked() {
    assert_eq!(pii::sanitize_pii("a@bcd@efg"), "a***@b***@e***");
    assert_eq!(pii::sanitize_pii("a@bcd_x@efg."), "a***@b***@e***");
    assert_eq!(pii::sanitize_pii("hello 0912345678@abc.com"), "hello 0***@a***");
    assert_eq!(pii::sanitize_pii("abc@de  0912345678901@xyz"), "abc@de  0***@x***");
    assert_eq!(pii::sanitize_pii("x_0912345678_0912345678@abc"), "x***@a***");
    assert_eq!(pii::sanitize_pii("(091)2345678@abc.com"), "([***]2***@a***");
    assert_eq!(pii::sanitize_pii("a@b (091)234-5678."), "a@b ([***].");
}

#[test]
fn cleaning_twice_is_cleaning_once() {
    for text in [
        "a <b>x</b>  y\t\tz\n\n<script>q</script> 0912345678 an@example.com@org",
        "1 < 2 > 3",
        "<style>p{}</style>gọi  0912-345-678(9)",
    ] {
        let once = prompt::sanitize_content(text);
        assert_eq!(prompt::sanitize_content(&once), once);
    }
}

#[test]
fn content_is_cleaned_before_it_is_sent() {
    let cleaned = prompt::sanitize_content(
        "<p>Xin chào</p><script>alert(1)</script>  liên hệ an.nguyen@example.com",
    );
    assert!(!cleaned.contains("script"));
    assert!(!cleaned.contains("alert"));
    assert!(!cleaned.contains("<p>"));
    assert!(!cleaned.contains("an.nguyen@example.com"));
    assert!(cleaned.contains("Xin chào"));
}

#[test]
fn a_prompt_has_rules_and_delimited_documents() {
    let (rules, block) = prompt::build_prompt(&PromptType::Summarize, "ghi chú", "[1] a.pdf", "nội dung");
    assert!(rules.contains("ghi chú"));
    assert!(rules.contains("[1] a.pdf"));
    assert_eq!(block, "<DOCUMENTS>\nnội dung\n</DOCUMENTS>");
}

#[test]
fn kinds_of_questions() {
    assert_eq!(prompt::detect_prompt_type("Tóm tắt nội dung chính của tài liệu"), PromptType::Summarize);
    assert_eq!(prompt::detect_prompt_type("So sánh bảng A và bảng B"), PromptType::Compare);
    assert!(matches!(context::detect_query_intent("Tóm tắt tài liệu"), QueryIntent::Summarize));
    assert_eq!(prompt::detect_prompt_type("tổng quan nội dung"), PromptType::Summarize);
    assert_eq!(prompt::detect_prompt_type("sum"), PromptType::Aggregate);
    assert_eq!(prompt::detect_prompt_type("sum summary"), PromptType::Aggregate);
    assert_eq!(prompt::detect_prompt_type("tổng doanh thu, tổng quan"), PromptType::Aggregate);
    assert_eq!(prompt::detect_prompt_type("tổng quan, tổng doanh thu"), PromptType::Aggregate);
    assert_eq!(prompt::detect_prompt_type("tổng doanh thu"), PromptType::Aggregate);
    assert_eq!(prompt::detect_prompt_type("tổng quan và tổng tiền"), PromptType::Aggregate);
    assert!(matches!(context::detect_query_intent("xin chào"), QueryIntent::General));
    assert!(matches!(context::detect_query_intent("So sánh A và B"), QueryIntent::Compare));
    assert!(matches!(context::detect_query_intent("API key là gì?"), QueryIntent::Lookup));
    assert!(matches!(context::detect_query_intent("so sánh với tóm tắt"), QueryIntent::Summarize));
    assert!(matches!(context::detect_query_intent("giá trị của a so sánh"), QueryIntent::Lookup));
    assert!(matches!(context::detect_query_intent("so sánh"), QueryIntent::General));
    assert!(matches!(context::detect_query_intent("Tổng hợp tài liệu X"), QueryIntent::Summarize));
    assert!(matches!(context::detect_query_intent("Liệt kê tất cả API"), QueryIntent::Aggregate));
    assert_eq!(context::context_budget(&QueryIntent::Lookup), (40_000, 40_000, 30));
    assert_eq!(context::context_budget(&QueryIntent::Compare), (80_000, 80_000, 40));
    assert_eq!(context::context_budget(&QueryIntent::Summarize), (120_000, 120_000, 60));
    assert_eq!(context::context_budget(&QueryIntent::Aggregate), (120_000, 120_000, 40));
    assert_eq!(context::context_budget(&QueryIntent::General), (40_000, 40_000, 30));
}

#[test]
fn versions_of_a_file_share_a_name() {
    assert_eq!(context::normalize_filename("報告_v3.xlsx"), "報告.xlsx");
    assert_eq!(context::normalize_filename("report_v2.xlsx"), "report.xlsx");
    assert_eq!(context::normalize_filename("Report (2).xlsx"), "report.xlsx");
    assert_eq!(context::normalize_filename("report(2).xlsx"), "report.xlsx");
    assert_eq!(context::normalize_filename("report_copy2.xlsx"), "report.xlsx");
    assert_eq!(context::normalize_filename("report_copy"), "report");
}

#[test]
fn an_answer_keeps_the_files_that_it_cites() {
    let files = vec![file("a"), file("b"), file("c")];
    let cited = context::filter_cited_files("theo [3] và [1]", &files);
    let names: Vec<&str> = cited.iter().map(|f| f.file_name.as_str()).collect();
    assert_eq!(names, vec!["a", "c"]);
    let nested = context::filter_cited_files("[[2]]", &files);
    assert_eq!(nested.len(), 1);
    assert_eq!(nested[0].file_name, "b");
    let behind = context::filter_cited_files("[1[2]", &files);
    assert_eq!(behind[0].file_name, "b");
    assert_eq!(context::filter_cited_files("[0] [4] [ 2]", &files).len(), 3);
}

#[test]
fn the_history_is_trimmed_to_the_newest_turns() {
    let history = turns(&[
        ("user", "1"), ("assistant", "2"), ("user", "3"), ("assistant", "4"), ("user", "5"),
        ("assistant", "6"), ("user", "7"), ("assistant", "8"), ("user", "9"), ("assistant", "10"),
        ("user", "11"), ("assistant", "12"),
    ]);
    let kept = context_guard::trim_history(&history, 2, 1000);
    assert!(kept.len() <= history.len());
    assert_eq!(kept.last(), history.last());
    assert_eq!(kept[..], history[history.len() - kept.len()..]);
}

#[test]
fn a_context_is_cut_to_its_budget() {
    assert_eq!(context_guard::truncate_search_context("ngắn", 100), "ngắn");
    assert_eq!(context_guard::truncate_search_context("支払合計", 1), "支");
    assert_eq!(context_guard::truncate_search_context("abcd", 1), "abc");
    assert_eq!(context_guard::truncate_search_context("ab\ncdefgh", 2), "ab");
    assert_eq!(context_guard::truncate_search_context("a\nb\nccccccc", 1), "a\nb");
    assert_eq!(context_guard::truncate_search_context("a\n支b\nccccccc", 1), "a");
    assert_eq!(context_guard::truncate_search_context("abc", 0), "");
    let long = "từ ".repeat(5000);
    let cut = context_guard::truncate_search_context(&long, 100);
    assert!(cut.len() < long.len());
    assert_eq!(context_guard::remaining_budget(1000, 1000), 13_000);
    assert_eq!(context_guard::remaining_budget(20_000, 0), 1_000);
}

#[test]
fn how_a_query_is_answered() {
    let last = Some(session("doanh thu", &["a.pdf"], 100));
    assert_eq!(pipeline::route_query("thêm chi tiết", 0, false, &last, 200), ChatRoute::NoKey);
    assert_eq!(pipeline::route_query("thêm chi tiết", 1, true, &last, 200), ChatRoute::Selected);
    assert_eq!(pipeline::route_query("Thêm chi tiết", 1, false, &last, 200), ChatRoute::FollowUp);
    assert_eq!(pipeline::route_query("doanh thu quý một", 1, false, &last, 200), ChatRoute::FollowUp);
    assert_eq!(pipeline::route_query("hãy tìm thêm", 1, false, &last, 200), ChatRoute::Search);
    assert_eq!(pipeline::route_query("thêm chi tiết", 1, false, &last, 701), ChatRoute::Search);
    assert_eq!(pipeline::route_query("thêm chi tiết", 1, false, &None, 200), ChatRoute::Search);
    let empty = Some(session("doanh thu", &[], 100));
    assert_eq!(pipeline::route_query("thêm chi tiết", 1, false, &empty, 200), ChatRoute::Search);
}

#[test]
fn two_fifths_of_the_words_are_not_enough() {
    assert!(!pipeline::has_overlap("a b c d e", "a b"));
    assert!(pipeline::has_overlap("a b c d e", "a b c"));
}

#[test]
fn selected_files_are_numbered_in_the_context() {
    let mut context = String::new();
    let mut files = Vec::new();
    pipeline::add_selected_file(&mut context, &mut files, "a.txt", "/a.txt", "một");
    pipeline::add_selected_file(&mut context, &mut files, "b.txt", "/b.txt", "hai");
    assert_eq!(context, "[1] a.txt:\nmột\n---\n[2] b.txt:\nhai");
    assert_eq!(files.len(), 2);
    assert_eq!(files[1].score.bits, 1.0f32.to_bits());
}

#[test]
fn weak_keywords_are_enriched() {
    let last = Some("doanh thu Q1".to_string());
    assert_eq!(pipeline::enrich_keywords("q1".to_string(), &last), "q1 doanh thu");
    assert_eq!(pipeline::enrich_keywords("lợi nhuận".to_string(), &last), "lợi nhuận");
    assert_eq!(pipeline::enrich_keywords("q1".to_string(), &None), "q1");
    assert_eq!(pipeline::choose_keywords(Some("  ".to_string()), "tìm doanh thu"), "doanh thu");
    assert_eq!(pipeline::choose_keywords(Some("x".to_string()), "tìm doanh thu"), "x");
    assert_eq!(pipeline::accept_keywords("  a b \n"), Some("a b".to_string()));
    assert_eq!(pipeline::accept_keywords("  "), None);
    assert_eq!(pipeline::accept_keywords(&"x".repeat(201)), None);
    assert!(pipeline::worth_searching(" ab "));
    assert!(!pipeline::worth_searching(" a "));
    assert!(pipeline::falls_back("Không tìm thấy gì", true));
    assert!(!pipeline::falls_back("Không tìm thấy gì", false));
    assert!(!pipeline::falls_back("nội dung", true));
}

#[test]
fn keys_are_tried_in_turn() {
    assert!(KeyRotation::start(0).is_none());
    let mut keys = KeyRotation::start(3).unwrap();
    assert!(matches!(keys.step(Err("HTTP 429".to_string())), KeyStep::TryNext));
    assert_eq!(keys.current, 1);
    assert!(matches!(keys.step(Err("quota".to_string())), KeyStep::TryNext));
    assert!(matches!(keys.step(Err("Rate limited".to_string())), KeyStep::Exhausted(_)));
    let mut keys = KeyRotation::start(2).unwrap();
    assert!(matches!(keys.step(Err("network".to_string())), KeyStep::Fail(_)));
    let mut keys = KeyRotation::start(2).unwrap();
    assert!(matches!(keys.step(Ok("x".to_string())), KeyStep::Answer(_)));
}

#[test]
fn what_the_model_is_sent() {
    let history = turns(&[("user", "trước"), ("assistant", "đáp")]);
    let plan = turn::plan_answer(ChatRoute::Search, &history, "câu hỏi", "nội dung", &vec![file("a.pdf")]);
    assert!(plan.has_context);
    assert!(plan.system_prompt.contains("[1] a.pdf"));
    assert!(plan.system_prompt.contains("ĐÂY LÀ HỘI THOẠI TIẾP NỐI"));
    assert_eq!(plan.messages.last().unwrap().1, "<DOCUMENTS>\nnội dung\n</DOCUMENTS>\n\ncâu hỏi");
    let plain = turn::plan_answer(ChatRoute::FollowUp, &vec![], "câu hỏi", "", &vec![]);
    assert!(!plain.has_context);
    assert!(plain.system_prompt.ends_with("\n📌 Trả lời thẳng, chuyên nghiệp."));
    assert_eq!(plain.messages, turns(&[("user", "câu hỏi")]));
}

#[test]
fn models_and_errors_as_they_are_shown() {
    assert_eq!(turn::effective_model("auto", "m"), "m");
    assert_eq!(turn::effective_model("", "m"), "m");
    assert_eq!(turn::effective_model("x", "m"), "x");
    assert_eq!(turn::model_label("gemini-2.5-flash-lite"), "⚡ Flash Lite");
    assert_eq!(turn::model_label("gemini-2.5-flash"), "🚀 Flash");
    assert_eq!(turn::model_label("gemini-2.5-pro"), "gemini-2.5-pro");
    assert_eq!(turn::exhausted_error(ChatRoute::Selected, 2, "e"), "All 2 keys rate limited: e");
    assert_eq!(turn::exhausted_error(ChatRoute::FollowUp, 2, "e"), "All 2 keys exhausted: e");
    assert_eq!(turn::exhausted_error(ChatRoute::Search, 2, "e"), "All keys exhausted: e");
    assert_eq!(turn::error_message(ChatRoute::Search, "m", "x"), "⚠️ Lỗi AI: x");
    assert!(turn::error_message(ChatRoute::Selected, "m", "HTTP 429").contains("`m`"));
    assert_eq!(turn::session_title(&"ă".repeat(60)).chars().count(), 50);
}

#[test]
fn files_of_an_answer_are_kept_and_taken_up_again() {
    let files = vec![file("a"), file("b")];
    let again = turn::reattach(&turn::remember(&files));
    assert_eq!(again.len(), 2);
    assert_eq!(again[1].file_path, "/docs/b");
    assert_eq!(again[1].score.bits, 1.0f32.to_bits());
    assert_eq!(turn::stored_answer("x", &files), "x\n[Sources: a, b]");
    assert_eq!(turn::stored_answer("x", &vec![]), "x");
    let answered = turn::answered("theo [2]".to_string(), "k".to_string(), &files, true);
    assert_eq!(answered.attached_files.len(), 1);
    assert_eq!(answered.attached_files[0].file_name, "b");
    let plain = turn::answered("theo [2]".to_string(), "k".to_string(), &files, false);
    assert!(plain.attached_files.is_empty());
    let none = turn::unanswered("m".to_string(), "k".to_string());
    assert_eq!(none.chat_response, Some("m".to_string()));
}

#[test]
fn results_while_typing_serve_for_five_seconds() {
    let cache = PreSearchCache {
        query: "q".to_string(),
        keywords: String::new(),
        results: vec![],
        timestamp: 10,
    };
    assert!(cache.can_serve("q", 14));
    assert!(!cache.can_serve("q", 15));
    assert!(!cache.can_serve("p", 11));
}

#[test]
fn the_model_decides_whether_files_serve_again() {
    let last = Some(session("k", &["a.pdf", "b.pdf"], 0));
    assert!(smart_query::asks_router(SmartIntent::Chat, 1, true, &last, 1799));
    assert!(!smart_query::asks_router(SmartIntent::Chat, 1, true, &last, 1800));
    assert!(!smart_query::asks_router(SmartIntent::Chat, 0, true, &last, 10));
    assert!(!smart_query::asks_router(SmartIntent::Chat, 1, false, &last, 10));
    assert!(!smart_query::asks_router(SmartIntent::Search, 1, true, &last, 10));
    assert!(!smart_query::asks_router(SmartIntent::Chat, 1, true, &None, 10));
    assert!(smart_query::router_prompt(&last.as_ref().unwrap().attached_files)
        .contains("Tài liệu hiện có trong context: [a.pdf, b.pdf]\n"));
    let call = RouterReply::Call(FunctionCallData {
        name: "search_documents".to_string(),
        args: "{\"query\": \"hợp đồng\"}".to_string(),
    });
    let routed = smart_query::route_reply(&call, "q");
    assert!(!routed.follow_up);
    assert_eq!(routed.query, Some("hợp đồng".to_string()));
    let odd = RouterReply::Call(FunctionCallData { name: String::new(), args: "[]".to_string() });
    assert_eq!(smart_query::route_reply(&odd, "q").query, Some("q".to_string()));
    assert!(smart_query::route_reply(&RouterReply::Text, "q").follow_up);
    assert!(!smart_query::route_reply(&RouterReply::Failed, "q").follow_up);
    assert_eq!(smart_query::route_reply(&RouterReply::NotAsked, "q").query, None);
    assert_eq!(smart_query::router_contents("", "q").len(), 1);
    assert_eq!(smart_query::router_contents("x", "q").len(), 3);
    assert_eq!(smart_query::router_tool().function_declarations[0].name, "search_documents");
    assert_eq!(smart_query::history_summary(&turns(&[("user", "a"), ("model", "b")])), "user: a\nmodel: b");
}

#[test]
fn keywords_of_a_follow_up_are_those_before() {
    let again = smart_query::route_reply(&RouterReply::Text, "q");
    assert_eq!(smart_query::search_keywords(&again, "cũ", "tìm doanh thu"), "cũ");
    assert_eq!(smart_query::search_keywords(&again, "", "tìm doanh thu"), "doanh thu");
    let fresh = smart_query::route_reply(&RouterReply::Failed, "q");
    assert_eq!(smart_query::search_keywords(&fresh, "cũ", "tìm doanh thu"), "doanh thu");
    let given = smart_query::Routed { follow_up: false, query: Some("tìm lợi nhuận".to_string()) };
    assert_eq!(smart_query::search_keywords(&given, "cũ", "tìm doanh thu"), "lợi nhuận");
    assert_eq!(smart_query::choose_analysis(true, true, SmartIntent::Chat, true), Analysis::Reused);
    assert_eq!(smart_query::choose_analysis(false, true, SmartIntent::Chat, true), Analysis::Vectors);
    assert_eq!(smart_query::choose_analysis(false, false, SmartIntent::Chat, true), Analysis::Model);
    assert_eq!(smart_query::choose_analysis(false, false, SmartIntent::Search, true), Analysis::Local);
    assert_eq!(smart_query::search_label(false, true), "Tìm kiếm tài liệu... (Hybrid)");
    assert_eq!(smart_query::query_intent("Report.PDF"), SmartIntent::Search);
}

fn found(id: &str, path: &str) -> HybridResult {
    HybridResult {
        chunk_id: id.to_string(),
        file_path: path.to_string(),
        file_name: path.to_string(),
        content: "nội dung".to_string(),
        section: None,
        score: Score { bits: 0 },
        bm25_rank: None,
        vector_rank: None,
    }
}

#[test]
fn results_in_the_files_before_are_preferred() {
    let files = session("", &["a"], 0).attached_files;
    let r = smart_query::prefer_files(vec![found("1", "/docs/a"), found("2", "/docs/b")], &files);
    assert_eq!(r.len(), 1);
    assert_eq!(r[0].chunk_id, "1");
    let r = smart_query::prefer_files(vec![found("2", "/docs/b")], &files);
    assert_eq!(r.len(), 1);
}

fn shown(path: &str) -> SearchResult {
    SearchResult {
        chunk_id: String::new(),
        file_path: path.to_string(),
        file_name: path.to_string(),
        content_preview: String::new(),
        section: None,
        score: Score { bits: 0 },
        highlights: vec![],
    }
}

#[test]
fn files_that_are_listed_are_remembered_once() {
    let files = smart_query::listed_files(&vec![shown("a"), shown("b"), shown("a")]);
    let paths: Vec<&str> = files.iter().map(|f| f.file_path.as_str()).collect();
    assert_eq!(paths, vec!["a", "b"]);
}

#[test]
fn replies_to_a_query() {
    let files = vec![file("a"), file("b")];
    let r = smart_query::respond(SmartOutcome::Failed("x".to_string()), None, "k".to_string(), &files);
    assert_eq!(r.attached_files.len(), 2);
    assert_eq!(r.chat_response.unwrap(), "⚠️ Lỗi AI: x. Hiện kết quả tìm kiếm thay thế.");
    let r = smart_query::respond(SmartOutcome::Answered("[2]".to_string()), None, "k".to_string(), &files);
    assert_eq!(r.attached_files[0].file_name, "b");
    let r = smart_query::respond(SmartOutcome::NoKey, None, "k".to_string(), &files);
    assert_eq!(r.intent, "chat");
    assert!(r.attached_files.is_empty());
    let list = SearchResponse { results: vec![], total: 7, query: "q".to_string(), duration_ms: 1 };
    let r = smart_query::respond(SmartOutcome::Listed, Some(list), "k".to_string(), &files);
    assert_eq!(r.intent, "search");
    assert_eq!(smart_query::stored_reply(&r), "🔍 Tìm thấy 7 kết quả cho \"k\"");
    assert_eq!(
        smart_query::exhausted_error(3, "e"),
        "Tat ca 3 API keys deu bi rate limit: e"
    );
    assert!(smart_query::error_message("Rate limited").starts_with("⚠️ API Gemini"));
}

#[test]
fn what_the_model_is_sent_for_a_question() {
    let history: Vec<(String, String)> =
        (0..30).map(|i| ("user".to_string(), format!("câu {}", i))).collect();
    let plan = smart_query::plan_question(&history, "câu hỏi", "nội dung", &vec![file("a.pdf")]);
    assert!(plan.system_prompt.contains("giữ nguyên context trước đó"));
    assert_eq!(plan.messages.last().unwrap().1, "<DOCUMENTS>\nnội dung\n</DOCUMENTS>\n\ncâu hỏi");
    assert_eq!(plan.messages[plan.messages.len() - 2].1, "câu hỏi");
    let first = smart_query::plan_question(&vec![], "câu hỏi", "", &vec![]);
    assert!(!first.system_prompt.contains("HỘI THOẠI TIẾP NỐI"));
}
