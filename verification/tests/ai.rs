use rag_search::ai::gemini;
use rag_search::ai::gemini::{
    Candidate, FunctionCallData, GeminiClient, GeminiError, GenerateResponse, Part, PartResponse,
    QueryAnalysis, ToolCallResult,
};
use rag_search::ai::llm_provider::{GeminiProvider, LlmConfig, LlmError};
use rag_search::ai::memory;
use rag_search::ai::memory::ConversationMemory;
use rag_search::ai::model_registry;
use rag_search::ai::model_registry::{ListReply, ModelCategory, ModelEntry, ModelRegistry};
use rag_search::ai::reply;
use rag_search::ai::reply::{JsonStep, JsonTry, StreamEvent, StreamStep};
use rag_search::ai::structured;
use rag_search::ai::structured::StructuredError;
use rag_search::score::Score;

fn entry(id: &str, methods: &[&str]) -> ModelEntry {
    ModelEntry {
        name: format!("models/{}", id),
        display_name: None,
        methods: Some(methods.iter().map(|m| m.to_string()).collect()),
    }
}

fn score(x: f32) -> Score {
    Score { bits: x.to_bits() }
}

fn text_part(s: &str) -> PartResponse {
    PartResponse { text: Some(s.to_string()), function_call: None }
}

#[test]
fn where_the_service_is_asked() {
    let client = GeminiClient::new("k".to_string());
    let base = "https://generativelanguage.googleapis.com/v1beta";
    assert_eq!(client.generate_url("m"), format!("{}/models/m:generateContent?key=k", base));
    assert_eq!(
        client.stream_url("m"),
        format!("{}/models/m:streamGenerateContent?alt=sse&key=k", base)
    );
    assert_eq!(client.models_url(), format!("{}/models?key=k", base));
}

#[test]
fn requests_hold_the_turns_and_the_instruction() {
    let turns = vec![
        ("user".to_string(), "a".to_string()),
        ("assistant".to_string(), "b".to_string()),
    ];
    let r = gemini::stream_request(&turns, Some("sys"), score(0.7));
    assert_eq!(r.contents.len(), 2);
    assert_eq!(r.contents[1].role, Some("model".to_string()));
    assert!(matches!(&r.contents[0].parts[0], Part::Text { text } if text == "a"));
    assert!(r.system_instruction.is_some());
    assert_eq!(r.generation_config.temperature.bits, 0.7f32.to_bits());
    let j = gemini::json_request("p", None, "{}".to_string(), score(0.1));
    assert_eq!(j.generation_config.response_mime_type, Some("application/json".to_string()));
    assert_eq!(j.generation_config.max_output_tokens, 8192);
    assert!(j.system_instruction.is_none());
    assert_eq!(gemini::analyze_request("q").generation_config.temperature.bits, 0.0f32.to_bits());
    assert!(gemini::rewrite_prompt("", "").len() < gemini::rewrite_prompt("lịch sử", "từ khóa").len());
}

#[test]
fn texts_of_a_reply() {
    let r = GenerateResponse {
        candidates: Some(vec![Candidate { parts: vec![text_part("a"), text_part("b")] }]),
        error: None,
    };
    assert_eq!(gemini::reply_texts(&r), vec!["a".to_string(), "b".to_string()]);
    assert_eq!(reply::reply_text(r).unwrap(), "a");
    let refused = GenerateResponse { candidates: None, error: Some("x".to_string()) };
    assert!(matches!(reply::reply_text(refused), Err(GeminiError::ApiError(m)) if m == "x"));
    let empty = GenerateResponse { candidates: None, error: None };
    assert!(matches!(reply::reply_text(empty), Err(GeminiError::ParseError(_))));
}

#[test]
fn a_call_comes_before_a_text() {
    let call = FunctionCallData { name: "f".to_string(), args: "{}".to_string() };
    let parts = vec![
        PartResponse { text: None, function_call: None },
        PartResponse { text: Some("t".to_string()), function_call: Some(call) },
    ];
    assert!(matches!(reply::tool_result(&parts), Ok(ToolCallResult::FunctionCall(c)) if c.name == "f"));
    assert!(matches!(reply::tool_result(&vec![text_part("t")]), Ok(ToolCallResult::Text(_))));
    assert!(reply::tool_result(&vec![]).is_err());
}

#[test]
fn the_end_of_a_json_object() {
    assert_eq!(reply::find_json_end("{\"a\": \"}\"} rest"), Some(10));
    assert_eq!(reply::find_json_end("{\"a\": {"), None);
    assert_eq!(reply::find_json_end("{\"a\": \"}\"}"), Some(10));
    assert_eq!(reply::find_json_end("{\"a\": \"}\"} {}"), Some(10));
    assert_eq!(reply::find_json_end("{\"a\": \"\\\"}\"}x"), Some(12));
}

#[test]
fn a_stream_is_cut_into_objects_wherever_it_is_broken() {
    let whole = "data: {\"a\":1}\n\ndata: {\"b\":{\"c\":2}}\n\ndata: {\"d\"";
    let (objects, left) = reply::take_objects(whole);
    assert_eq!(objects, vec!["{\"a\":1}".to_string(), "{\"b\":{\"c\":2}}".to_string()]);
    for cut in 0..whole.len() {
        let (mut first, rest) = reply::take_objects(&whole[..cut]);
        let (second, end) = reply::take_objects(&format!("{}{}", rest, &whole[cut..]));
        first.extend(second);
        assert_eq!(first, objects);
        assert_eq!(end, left);
    }
}

#[test]
fn a_stream_is_tried_again_where_the_network_failed() {
    assert!(matches!(
        reply::stream_step(0, StreamEvent::Unreached("x".to_string())),
        StreamStep::Again(2)
    ));
    assert!(matches!(
        reply::stream_step(1, StreamEvent::Unreached("x".to_string())),
        StreamStep::Done(Err(GeminiError::ApiError(m))) if m == "Network: x"
    ));
    let quota = StreamEvent::Refused {
        code: 429,
        status: "429 Too Many Requests".to_string(),
        body: String::new(),
    };
    assert!(matches!(
        reply::stream_step(0, quota),
        StreamStep::Done(Err(GeminiError::RateLimited(60)))
    ));
    assert!(matches!(
        reply::stream_step(0, StreamEvent::Ended(String::new())),
        StreamStep::Done(Err(GeminiError::ParseError(_)))
    ));
    let broken = StreamEvent::Refused {
        code: 503,
        status: "503 Service Unavailable".to_string(),
        body: String::new(),
    };
    assert!(matches!(
        reply::stream_step(0, broken),
        StreamStep::Done(Err(GeminiError::ApiError(m))) if m == "HTTP 503 Service Unavailable"
    ));
    assert!(matches!(
        reply::stream_step(0, StreamEvent::Ended("x".to_string())),
        StreamStep::Done(Ok(s)) if s == "x"
    ));
}

#[test]
fn waits_grow_from_try_to_try() {
    let mut last = 0;
    for attempt in 0..5u32 {
        let step = reply::content_retry(attempt, GeminiError::RateLimited(1));
        assert!(step.wait >= last);
        last = step.wait;
        assert_eq!(step.next_delay.is_none(), attempt == 4);
    }
    let step = reply::content_retry(0, GeminiError::ApiError("x".to_string()));
    assert_eq!(step.wait, 0);
}

#[test]
fn statuses() {
    assert!(reply::check_status(200, "200 OK", "").is_none());
    assert!(matches!(
        reply::check_status(429, "429", "b"),
        Some(GeminiError::RateLimited(20))
    ));
    assert!(matches!(
        reply::check_status(500, "500", "b"),
        Some(GeminiError::ApiError(m)) if m == "HTTP 500: b"
    ));
    assert_eq!(reply::key_status(403, "403").unwrap(), false);
    assert_eq!(reply::key_status(200, "200").unwrap(), true);
    assert!(reply::key_status(500, "500").is_err());
    assert!(reply::has_quota(Some(200)));
    assert!(!reply::has_quota(Some(429)));
    assert!(!reply::has_quota(None));
}

#[test]
fn structured_replies_are_tried_twice() {
    let wrong = || StructuredError::ParseFailed { error: "e".to_string(), raw_response: "r".to_string() };
    assert!(matches!(reply::json_step(0, JsonTry::Parsed), JsonStep::Done));
    assert!(matches!(reply::json_step(0, JsonTry::Unparsed(wrong())), JsonStep::Again(1)));
    assert!(matches!(
        reply::json_step(1, JsonTry::Unparsed(wrong())),
        JsonStep::GiveUp(GeminiError::ParseError(m)) if m == "Structured parse: Parse JSON thất bại: e"
    ));
    assert!(matches!(
        reply::json_step(1, JsonTry::Failed(GeminiError::RateLimited(3))),
        JsonStep::GiveUp(GeminiError::RateLimited(3))
    ));
}

#[test]
fn json_is_found_in_a_reply() {
    assert_eq!(structured::extract_json(" {\"a\":1} "), "{\"a\":1}");
    assert_eq!(structured::extract_json("x ```json\n{\"a\":1}\n``` y"), "{\"a\":1}");
    assert_eq!(structured::extract_json("{\"a\":1}"), "{\"a\":1}");
    assert_eq!(structured::extract_json("```json\n{\"a\":1}\n```"), "{\"a\":1}");
    assert_eq!(structured::extract_json("x ```js\n{\"a\":1}\n``` y"), "{\"a\":1}");
    assert_eq!(structured::extract_json("kết quả: {\"a\":1}."), "{\"a\":1}");
    assert_eq!(structured::extract_json(" không có "), "không có");
    assert_eq!(reply::cut_braces("a {b} c"), "{b}");
    assert!(reply::check_braces("a {b} c"));
    assert!(!reply::check_braces("} {"));
}

#[test]
fn schemas_are_json_objects() {
    for schema in [
        structured::logic_reasoning_schema(),
        structured::query_decomposition_schema(),
        structured::comparison_schema(),
        structured::data_extraction_schema(),
    ] {
        let value: serde_json::Value = serde_json::from_str(&schema).unwrap();
        assert_eq!(value["type"], "object");
        for name in value["required"].as_array().unwrap() {
            assert!(value["properties"].get(name.as_str().unwrap()).is_some());
        }
    }
}

#[test]
fn what_an_analysis_falls_back_to() {
    let a = gemini::analysis_or_query(None, "q");
    assert_eq!(a.keywords, "q");
    let given = QueryAnalysis { intent: "search".to_string(), keywords: "k".to_string() };
    assert_eq!(gemini::analysis_or_query(Some(given), "q").keywords, "k");
}

#[test]
fn errors_of_the_model_become_errors_of_a_provider() {
    assert!(matches!(LlmError::from(GeminiError::RateLimited(5)), LlmError::RateLimited(_)));
    let p = GeminiProvider::new("k".to_string());
    assert_eq!(p.provider_name(), "gemini");
    assert!(p.is_ready());
    assert_eq!(p.client().api_key, "k");
    let c = LlmConfig::default();
    assert_eq!(c.max_output_tokens, 8192);
    assert_eq!(c.model, "gemini-2.0-flash");
    assert!(GeminiError::RateLimited(5).message().contains("Rate limited"));
}

#[test]
fn messages_become_turns() {
    let m = memory::ChatMessage {
        id: "1".to_string(),
        session_id: "s".to_string(),
        role: "user".to_string(),
        content: "xin chào".to_string(),
        citations: None,
        model: None,
        timestamp: 0,
    };
    assert_eq!(
        ConversationMemory::context_pairs(&vec![m]),
        vec![("user".to_string(), "xin chào".to_string())]
    );
}

#[test]
fn names_of_models_are_taken_apart() {
    let p = model_registry::version_parts("gemini-2.5-flash-preview");
    assert_eq!(p.variant, "flash");
    assert!(p.parts.contains(&"2.5".to_string()));
    assert!(!p.hundredths);
    let e = model_registry::version_parts("gemini-embedding-001");
    assert_eq!(e.variant, "embedding");
    assert!(e.hundredths);
    assert!(model_registry::is_embedding_model("text-embedding-004"));
    assert!(model_registry::is_chat_model("gemini-2.5-flash"));
    assert!(!model_registry::is_chat_model("gemini-2.5-flash-tts"));
    assert_eq!(model_registry::variant_priority("flash"), 0);
    assert_eq!(model_registry::variant_priority("pro"), 1);
    assert_eq!(model_registry::variant_priority("x"), 2);
    assert_eq!(
        model_registry::classify(&entry("gemini-embedding-001", &["embedContent"])),
        Some(ModelCategory::Embedding)
    );
    assert_eq!(model_registry::classify(&entry("gemini-2.5-flash", &["countTokens"])), None);
}

#[test]
fn the_newest_flash_model_is_the_standard_one() {
    let mut registry = ModelRegistry::new();
    assert!(!registry.is_loaded());
    assert!(registry.is_stale(0));
    let entries = vec![
        entry("gemini-2.0-flash", &["generateContent"]),
        entry("gemini-2.5-pro", &["generateContent"]),
        entry("gemini-2.5-flash", &["generateContent"]),
        entry("gemini-embedding-001", &["embedContent"]),
    ];
    let versions = vec![score(2.0), score(2.5), score(2.5), score(0.01)];
    assert!(registry.refresh("k", ListReply::Listed(entries, versions), 100).is_ok());
    assert!(registry.is_loaded());
    assert!(!registry.is_stale(100 + 86_400));
    assert!(registry.is_stale(101 + 86_400));
    let ids: Vec<String> = registry.list_chat_models().into_iter().map(|m| m.id).collect();
    assert_eq!(ids, vec!["gemini-2.5-flash", "gemini-2.5-pro", "gemini-2.0-flash"]);
    assert_eq!(registry.resolve_utility(), "gemini-2.5-flash");
    assert_eq!(registry.resolve_chat(Some("x")), "x");
    assert_eq!(registry.resolve_chat(None), "gemini-2.5-flash");
    assert_eq!(registry.list_embedding_models().len(), 1);
    registry.set_active_embedding("m", 1536);
    assert_eq!(registry.resolve_embedding().dimension, 1536);
}

#[test]
fn a_list_that_cannot_be_had_changes_nothing() {
    let mut registry = ModelRegistry::new();
    assert_eq!(
        registry.refresh("", ListReply::Unreached("x".to_string()), 1),
        Err("API key rỗng".to_string())
    );
    assert_eq!(
        registry.refresh("k", ListReply::Unreached("x".to_string()), 1),
        Err("Network: x".to_string())
    );
    assert_eq!(registry.refresh("k", ListReply::Unread("x".to_string()), 1), Err("Read: x".to_string()));
    assert_eq!(registry.refresh("k", ListReply::Refused("403".to_string()), 1), Err("HTTP 403".to_string()));
    assert_eq!(registry.refresh("k", ListReply::Unparsed("x".to_string()), 1), Err("Parse: x".to_string()));
    assert!(registry.is_stale(1));
}

#[test]
fn models_that_are_shown() {
    let list = gemini::shown_list(&vec![
        entry("gemini-2.0-flash", &["generateContent"]),
        entry("gemini-2.5-flash", &["generateContent"]),
        entry("gemini-embedding-001", &["embedContent"]),
    ]);
    let ids: Vec<&str> = list.iter().map(|m| m.id.as_str()).collect();
    assert_eq!(ids, vec!["gemini-2.5-flash", "gemini-2.0-flash"]);
    assert_eq!(list[0].display_name, "gemini-2.5-flash");
}
