use rag_search::commands::settings;
use rag_search::commands::settings::{AppSettings, SettingChange, StoredSettings};
use rag_search::ai::gemini::GeminiModel;
use rag_search::embedding::gemini_embed;
use rag_search::embedding::gemini_embed::{
    EmbedCall, EmbedEvent, EmbedKind, EmbedStep, GeminiEmbedding, MAX_BATCH_SIZE, MAX_RETRIES,
};
use rag_search::embedding::pipeline;
use rag_search::embedding::EmbeddingError;
use rag_search::indexer::chunker::Chunk;
use rag_search::indexer::tantivy_index;
use rag_search::score::Score;
use rag_search::search::vector_index;
use rag_search::search::vector_index::{GraphHit, VectorIndex, VectorMeta};

fn meta(id: &str, path: &str, section: Option<&str>) -> VectorMeta {
    VectorMeta {
        chunk_id: id.to_string(),
        file_path: path.to_string(),
        file_name: path.to_string(),
        content: format!("nội dung \"{}\"\n", id),
        section: section.map(|s| s.to_string()),
    }
}

fn filled() -> VectorIndex {
    let mut index = VectorIndex::new();
    index.add_vectors(
        vec![vec![1, 2], vec![3, 4], vec![5, 6]],
        vec![meta("1", "/a/x", None), meta("2", "/b/y", Some("s")), meta("3", "/a/x", None)],
    );
    index
}

#[test]
fn an_index_is_read_back_as_it_was_saved() {
    let index = filled();
    let (vectors, metadata) = index.save();
    let again = VectorIndex::load(&vectors, &metadata);
    assert_eq!(again.len(), 3);
    assert_eq!(again.points, index.points);
    for i in 0..3 {
        assert_eq!(again.metadata[i].chunk_id, index.metadata[i].chunk_id);
        assert_eq!(again.metadata[i].file_path, index.metadata[i].file_path);
        assert_eq!(again.metadata[i].content, index.metadata[i].content);
        assert_eq!(again.metadata[i].section, index.metadata[i].section);
    }
    let (vectors, metadata) = VectorIndex::new().save();
    assert_eq!(vectors, vec![0; 8]);
    assert_eq!(metadata, "");
    let empty = VectorIndex::load(&vectors, &metadata);
    assert_eq!(empty.len(), 0);
    assert!(empty.metadata.is_empty());
    assert_eq!(VectorIndex::load(&[], "").len(), 0);
}

#[test]
fn points_survive_their_encoding() {
    let points = vec![vec![1.5f32.to_bits(), 0], vec![u32::MAX, 7]];
    assert_eq!(vector_index::decode_points(&vector_index::encode_points(&points)), points);
    let metas = vec![meta("1", "/a", None), meta("2", "/b", Some("x"))];
    let lines = vector_index::encode_metas(&metas);
    let back = vector_index::decode_metas(&lines);
    assert_eq!(back.len(), 2);
    assert_eq!(back[1].section, Some("x".to_string()));
}

#[test]
fn files_and_folders_are_taken_out() {
    let mut index = filled();
    assert!(index.remove_file("/a/x"));
    assert_eq!(index.len(), 1);
    assert_eq!(index.metadata[0].chunk_id, "2");
    assert_eq!(index.points, vec![vec![3, 4]]);
    assert!(!index.remove_file("/a/x"));
    let mut index = filled();
    assert_eq!(index.remove_files_in_folder("/a"), 2);
    assert_eq!(index.len(), 1);
    index.clear();
    assert_eq!(index.len(), 0);
}

#[test]
fn hits_are_mapped_through_the_identifiers_of_the_graph() {
    let index = filled();
    let hit = |point: u32, d: f32| GraphHit {
        point,
        distance: Score { bits: d.to_bits() },
        similarity: Score { bits: (1.0 - d).to_bits() },
    };
    let r = index.results_of_hits(&vec![2, 0, 1], &vec![hit(0, 0.1), hit(2, 0.2), hit(9, 0.3)], 9);
    assert_eq!(index.results_of_hits(&vec![2, 0, 1], &vec![hit(0, 0.1), hit(2, 0.2)], 1).len(), 1);
    let ids: Vec<&str> = r.iter().map(|v| v.chunk_id.as_str()).collect();
    assert_eq!(ids, vec!["2", "1"]);
    assert_eq!(r[0].distance.bits, 0.1f32.to_bits());
    assert_eq!(index.get_chunks_for_file("/a/x").len(), 2);
}

#[test]
fn keys_take_turns() {
    let mut e = GeminiEmbedding::new(vec!["a".to_string(), "b".to_string(), "c".to_string()]);
    assert!(e.has_key());
    assert_eq!(e.get_current_key(), Some("a".to_string()));
    assert_eq!(e.rotate_key(), Some("b".to_string()));
    assert_eq!(e.rotate_key(), Some("c".to_string()));
    assert_eq!(e.rotate_key(), Some("a".to_string()));
    e.set_api_keys(vec![String::new()]);
    assert!(!e.has_key());
    assert_eq!(e.get_current_key(), None);
    assert_eq!(e.rotate_key(), None);
    e.set_api_keys(vec![]);
    assert_eq!(e.rotate_key(), None);
    assert_eq!(e.current_model(), "models/gemini-embedding-001");
    e.set_model("x");
    assert_eq!(e.current_model(), "models/x");
    e.set_model("models/y");
    assert_eq!(e.current_model(), "models/y");
    assert!(e.single_url().ends_with("/models/y:embedContent"));
    assert!(e.batch_url().ends_with("/models/y:batchEmbedContents"));
    assert_eq!(e.embedding_dim(), 768);
}

#[test]
fn keys_are_masked() {
    assert_eq!(gemini_embed::mask_key("abcdefghij"), Some("abcd...ghij".to_string()));
    assert_eq!(gemini_embed::mask_key("abcdefgh"), Some("***".to_string()));
    assert_eq!(gemini_embed::mask_key(""), Some("(rỗng)".to_string()));
    assert_eq!(gemini_embed::mask_key("abcỗefghij"), None);
}

#[test]
fn requests_for_vectors() {
    let e = GeminiEmbedding::new(vec!["a".to_string()]);
    let r = e.single_request("  xin chào ", "QUESTION_ANSWERING").unwrap();
    assert_eq!(r.text, "xin chào");
    assert_eq!(r.output_dimensionality, 768);
    assert!(matches!(
        e.single_request("  ", "t"),
        Err(EmbeddingError::ModelError(m)) if m == "Text rỗng"
    ));
    let none = GeminiEmbedding::new(vec![]);
    assert!(matches!(
        none.single_request("x", "t"),
        Err(EmbeddingError::ModelError(m)) if m == "Chưa có API key"
    ));
    assert!(none.batch_requests(&vec!["x".to_string()]).is_err());
    assert_eq!(gemini_embed::truncate_text(&"x".repeat(7000)).len(), 6000);
}

#[test]
fn batches_hold_every_text_once() {
    let e = GeminiEmbedding::new(vec!["a".to_string()]);
    assert!(e.batch_requests(&vec![]).unwrap().is_empty());
    let texts: Vec<String> = (0..2 * MAX_BATCH_SIZE + 1).map(|i| i.to_string()).collect();
    let batches = e.batch_requests(&texts).unwrap();
    assert_eq!(batches.len(), 3);
    let sent: Vec<String> =
        batches.iter().flat_map(|b| b.iter().map(|r| r.text.clone())).collect();
    assert_eq!(sent, texts);
    assert!(batches.iter().all(|b| b.len() <= MAX_BATCH_SIZE));
    assert_eq!(batches[0][0].task_type, "RETRIEVAL_DOCUMENT");
    assert_eq!(gemini_embed::before_batch(0, false), Some(0));
    assert_eq!(gemini_embed::before_batch(1, false), Some(300));
    assert_eq!(gemini_embed::before_batch(1, true), None);
}

fn refused(code: u16) -> EmbedEvent {
    EmbedEvent::Replied { code, status: code.to_string(), body: "b".to_string() }
}

#[test]
fn a_request_without_quota_goes_round_the_keys() {
    let mut keys = GeminiEmbedding::new(vec!["a".to_string(), "b".to_string()]);
    let mut call = EmbedCall::start(&keys).unwrap();
    assert!(matches!(call.step(&mut keys, EmbedKind::Single, refused(429)), EmbedStep::Again(0)));
    assert_eq!(call.api_key, "b");
    assert!(matches!(
        call.step(&mut keys, EmbedKind::Single, refused(429)),
        EmbedStep::Again(60_000)
    ));
    assert_eq!(call.api_key, "a");
    for _ in 2..MAX_RETRIES - 1 {
        assert!(matches!(call.step(&mut keys, EmbedKind::Batch, refused(429)), EmbedStep::Again(_)));
    }
    assert!(matches!(
        call.step(&mut keys, EmbedKind::Batch, refused(429)),
        EmbedStep::GiveUp(60_000, EmbeddingError::QuotaExhausted(2, 20))
    ));
    let mut one = GeminiEmbedding::new(vec!["a".to_string()]);
    let mut call = EmbedCall::start(&one).unwrap();
    assert!(matches!(
        call.step(&mut one, EmbedKind::Single, refused(429)),
        EmbedStep::Again(60_000)
    ));
    assert!(EmbedCall::start(&GeminiEmbedding::new(vec![])).is_err());
}

#[test]
fn other_outcomes_of_a_request() {
    let mut keys = GeminiEmbedding::new(vec!["a".to_string()]);
    let mut call = EmbedCall::start(&keys).unwrap();
    assert!(matches!(call.step(&mut keys, EmbedKind::Single, refused(200)), EmbedStep::Done));
    assert!(matches!(
        call.step(&mut keys, EmbedKind::Single, refused(500)),
        EmbedStep::Fail(EmbeddingError::ModelError(m)) if m == "HTTP 500: b"
    ));
    assert!(matches!(
        call.step(&mut keys, EmbedKind::Batch, refused(500)),
        EmbedStep::Fail(EmbeddingError::ModelError(m)) if m == "HTTP 500"
    ));
    assert!(matches!(
        call.step(&mut keys, EmbedKind::Batch, EmbedEvent::Cancelled),
        EmbedStep::Fail(EmbeddingError::ModelError(m)) if m == "Đã dừng"
    ));
    assert!(matches!(
        call.step(&mut keys, EmbedKind::Batch, EmbedEvent::Unreached("x".to_string())),
        EmbedStep::Fail(EmbeddingError::ModelError(m)) if m == "Network: x"
    ));
    assert!(matches!(
        call.step(&mut keys, EmbedKind::Batch, EmbedEvent::Unread("x".to_string())),
        EmbedStep::Fail(EmbeddingError::ModelError(m)) if m == "Read: x"
    ));
    assert_eq!(gemini_embed::single_vector(Ok(Some(vec![1]))).unwrap(), vec![1]);
    assert!(matches!(
        gemini_embed::single_vector(Ok(None)),
        Err(EmbeddingError::ModelError(m)) if m == "Thiếu embedding"
    ));
    assert!(matches!(
        gemini_embed::batch_vectors(Err("x".to_string())),
        Err(EmbeddingError::ModelError(m)) if m == "Parse: x"
    ));
    assert_eq!(gemini_embed::batch_vectors(Ok(vec![vec![1]])).unwrap(), vec![vec![1]]);
    assert_eq!(
        EmbeddingError::QuotaExhausted(2, 20).message(),
        "API quota exhausted: tất cả 2 keys đều bị 429 sau 20 retries"
    );
    assert_eq!(EmbeddingError::IoError("x".to_string()).message(), "IO error: x");
    assert_eq!(EmbeddingError::ApiError("x".to_string()).message(), "API error: x");
    assert_eq!(EmbeddingError::ModelError("x".to_string()).message(), "Model error: x");
}

fn chunk(id: &str, section: Option<&str>) -> Chunk {
    Chunk {
        id: id.to_string(),
        file_path: "/a".to_string(),
        file_name: "a".to_string(),
        content: format!("c{}", id),
        section: section.map(|s| s.to_string()),
        position: 3,
        char_start: 4,
        char_end: 5,
    }
}

#[test]
fn vectors_are_paired_with_their_chunks() {
    let chunks = vec![chunk("1", None), chunk("2", Some("s"))];
    assert_eq!(pipeline::chunk_texts(&chunks), vec!["c1".to_string(), "c2".to_string()]);
    let (vectors, metas) = pipeline::pair_vectors(&chunks, vec![vec![1], vec![2], vec![3]]);
    assert_eq!(vectors, vec![vec![1], vec![2]]);
    assert_eq!(metas[1].chunk_id, "2");
    assert_eq!(metas[1].section, Some("s".to_string()));
    let (vectors, metas) = pipeline::pair_vectors(&chunks, vec![vec![1]]);
    assert_eq!(vectors.len(), 1);
    assert_eq!(metas.len(), 1);
    assert_eq!(pipeline::query_result("q", vec![1]).text, "q");
}

#[test]
fn a_chunk_comes_back_from_the_keyword_index() {
    let back = tantivy_index::stored_chunk(tantivy_index::to_stored(&chunk("1", Some("s"))));
    assert_eq!(back.id, "1");
    assert_eq!(back.content, "c1");
    assert_eq!(back.section, Some("s".to_string()));
    assert_eq!(back.position, 0);
    let back = tantivy_index::stored_chunk(tantivy_index::to_stored(&chunk("1", None)));
    assert_eq!(back.section, None);
    assert_eq!(
        tantivy_index::sanitize_query("báo cáo [v3] (a/b): x^2!"),
        "báo cáo v3 a b x 2"
    );
}

fn stored() -> StoredSettings {
    StoredSettings {
        api_key: None,
        api_keys: None,
        model: None,
        theme: None,
        max_chunks: None,
        language: None,
        min_score: None,
        creativity: None,
    }
}

#[test]
fn settings_that_are_not_stored_are_as_usual() {
    let r = settings::read_settings(stored());
    let d = AppSettings::default();
    assert_eq!(r.default_model, d.default_model);
    assert_eq!(r.theme, "auto");
    assert_eq!(r.language, "vi");
    assert_eq!(r.max_chunks_per_query, 5);
    assert_eq!(r.min_match_score.bits, 0.60f32.to_bits());
    assert_eq!(r.creativity_level.bits, 0.7f32.to_bits());
    let mut s = stored();
    s.max_chunks = Some("12".to_string());
    s.api_keys = Some("[\"a\",\"b\"]".to_string());
    let r = settings::read_settings(s);
    assert_eq!(r.max_chunks_per_query, 12);
    assert_eq!(r.gemini_api_keys, Some(vec!["a".to_string(), "b".to_string()]));
    let mut s = stored();
    s.max_chunks = Some("x".to_string());
    s.api_keys = Some("[1]".to_string());
    let r = settings::read_settings(s);
    assert_eq!(r.max_chunks_per_query, 5);
    assert_eq!(r.gemini_api_keys, None);
}

fn value_of<'a>(changes: &'a [SettingChange], name: &str) -> Option<&'a str> {
    let mut found = None;
    for c in changes {
        match c {
            SettingChange::Store(n, v) if n == name => found = Some(v.as_str()),
            SettingChange::Remove(n) if n == name => found = None,
            _ => {}
        }
    }
    found
}

#[test]
fn keys_survive_a_restart() {
    let mut s = AppSettings::default();
    s.gemini_api_keys = Some(vec!["a".to_string(), String::new(), "b\"\\".to_string()]);
    let changes = settings::plan_keys(&s);
    let list = value_of(&changes, "gemini_api_keys").map(|v| v.to_string());
    let single = value_of(&changes, "gemini_api_key").map(|v| v.to_string());
    assert_eq!(single, Some("a".to_string()));
    assert_eq!(settings::stored_start_keys(&list, &single), settings::keys_in_use(&s));
    assert_eq!(settings::stored_query_keys(&list, &single), settings::keys_in_use(&s));
    s.gemini_api_keys = None;
    s.gemini_api_key = Some("k".to_string());
    let changes = settings::plan_keys(&s);
    assert_eq!(value_of(&changes, "gemini_api_keys"), Some("[\"k\"]"));
    assert_eq!(settings::keys_in_use(&s), vec!["k".to_string()]);
    s.gemini_api_key = None;
    let changes = settings::plan_keys(&s);
    assert!(changes.iter().all(|c| matches!(c, SettingChange::Remove(_))));
    assert!(settings::keys_in_use(&s).is_empty());
}

#[test]
fn keys_from_what_is_stored() {
    let single = Some("k".to_string());
    assert_eq!(settings::stored_query_keys(&Some("x".to_string()), &single), vec!["k".to_string()]);
    assert!(settings::stored_start_keys(&Some("x".to_string()), &single).is_empty());
    assert_eq!(settings::stored_start_keys(&None, &single), vec!["k".to_string()]);
    assert!(settings::stored_query_keys(&None, &Some(String::new())).is_empty());
    assert_eq!(
        settings::stored_query_keys(&Some("[\"\"]".to_string()), &single),
        vec![String::new()]
    );
    assert!(!settings::worth_validating(""));
    let values = settings::plan_values(&AppSettings::default(), "0.6".to_string(), "0.7".to_string());
    assert_eq!(value_of(&values, "max_chunks_per_query"), Some("5"));
    assert_eq!(value_of(&values, "min_match_score"), Some("0.6"));
}

#[test]
fn models_without_quota_are_left_out() {
    let model = |id: &str| GeminiModel { id: id.to_string(), display_name: id.to_string() };
    let answers = vec![("a".to_string(), false), ("b".to_string(), true), ("a".to_string(), true)];
    let left = settings::available_models(vec![model("a"), model("b"), model("c")], &answers);
    assert_eq!(left.len(), 1);
    assert_eq!(left[0].id, "b");
}
