use rag_search::commands::chat;
use rag_search::commands::chat::Found;
use rag_search::commands::folder;
use rag_search::commands::folder::SinglePhase;
use rag_search::commands::index;
use rag_search::commands::index::{
    FileChange, IndexRun, ParseOutcome, RetryOutcome, RetryRun,
};
use rag_search::embedding::EmbeddingError;
use rag_search::indexer::chunker;
use rag_search::indexer::chunker::{Chunk, ChunkConfig};
use rag_search::parser;
use rag_search::parser::{Extracted, KreuzbergChunkData, ParseError, ParsedDocument, Reading};
use rag_search::score::Score;
use rag_search::search::vector_index::VectorMeta;
use rag_search::watcher;
use rag_search::watcher::handler::{EventHandler, FileRead, ProcessResult};
use rag_search::watcher::{
    ChangeKind, FileEvent, FolderWatcher, WatchCounts, WatchOutcome, WatchSignal, WatchStep,
};

fn plain(content: &str) -> ParsedDocument {
    parser::parse_plain_text("/a/x.txt", "x.txt", "txt", 10, content.as_bytes()).unwrap()
}

fn stamps(v: &[(&str, i64)]) -> Vec<(String, i64)> {
    v.iter().map(|(p, t)| (p.to_string(), *t)).collect()
}

fn paths(v: &[String]) -> Vec<&str> {
    v.iter().map(|s| s.as_str()).collect()
}

#[test]
fn kinds_of_files() {
    assert!(parser::is_supported(Some("PDF")));
    assert!(parser::is_supported(Some("pDf")));
    assert!(!parser::is_supported(Some("exe")));
    assert!(!parser::is_supported(None));
    for e in parser::PLAIN_TEXT_EXTENSIONS.iter().chain(parser::IMAGE_EXTENSIONS.iter()) {
        assert!(parser::is_known(e), "{}", e);
    }
    assert_eq!(parser::choose_reading("md"), Reading::Plain);
    assert_eq!(parser::choose_reading("png"), Reading::Image);
    assert_eq!(parser::choose_reading("pdf"), Reading::Extracted);
    assert_eq!(parser::chunking_config_for_ext("xlsx"), (4000, 400));
    assert_eq!(parser::chunking_config_for_ext("pdf"), (2000, 200));
    assert_eq!(parser::ocr_language(true, true), "eng+vie+jpn");
    assert_eq!(parser::ocr_language(false, true), "eng+jpn");
    assert_eq!(parser::ocr_language(false, false), "eng");
}

#[test]
fn files_that_cannot_be_read() {
    assert!(matches!(
        parser::file_type(false, "/a", Some("txt")),
        Err(ParseError::FileNotFound(m)) if m == "/a"
    ));
    assert!(matches!(parser::file_type(true, "/a", None), Err(ParseError::UnsupportedFormat(_))));
    assert_eq!(parser::file_type(true, "/a", Some("TXT")).unwrap(), "txt");
    assert!(matches!(
        parser::parse_plain_text("/a", "a", "txt", 3, b" \n "),
        Err(ParseError::ParseFailed(m)) if m == "File không chứa nội dung text: a"
    ));
    assert_eq!(ParseError::IoError("x".to_string()).message(), "Lỗi đọc file: x");
    assert_eq!(ParseError::FileNotFound("x".to_string()).message(), "File không tồn tại: x");
}

#[test]
fn plain_text_is_decoded_and_stripped() {
    let d = plain("  xin chào \n");
    assert_eq!(d.content, "xin chào");
    assert_eq!(d.sections.len(), 1);
    assert!(d.kreuzberg_chunks.is_none());
    let odd = parser::parse_plain_text("/a", "a", "txt", 3, &[b'a', 0xff, b'b']).unwrap();
    assert_eq!(odd.content, "a\u{fffd}b");
}

#[test]
fn passes_of_the_extractor() {
    let e = |s: &str| Extracted { content: s.to_string(), chunks: None };
    assert!(parser::first_pass(Ok(e("x"))).is_some());
    assert!(parser::first_pass(Ok(e("  "))).is_none());
    assert!(parser::first_pass(Err("x".to_string())).is_none());
    assert!(parser::second_pass(Ok("x".to_string()), "n").is_ok());
    assert!(matches!(
        parser::second_pass(Ok(" ".to_string()), "n"),
        Err(ParseError::ParseFailed(m)) if m == "File không chứa nội dung text: n"
    ));
    assert!(matches!(
        parser::second_pass(Err("x".to_string()), "n"),
        Err(ParseError::ParseFailed(m)) if m == "OCR error: x"
    ));
    assert!(parser::extracted_document("/a", "a", "pdf", 1, " ".to_string(), None).is_err());
    assert!(parser::extracted_document("/a", "a", "pdf", 1, "x".to_string(), None).is_ok());
}

#[test]
fn chunks_are_parts_of_the_text_at_their_offsets() {
    let text = "một đoạn\n\n  \n\nhai đoạn văn dài\n\nba\n\nbốn đoạn nữa";
    let config = ChunkConfig { max_chunk_size: 6, overlap_size: 1 };
    let doc = "một đoạn\n\nhai đoạn văn dài\n\nba\n\nbốn đoạn nữa";
    let chunks = chunker::chunk_text(text, "/a", "a", &config);
    assert!(chunks.len() > 1);
    assert_eq!(chunks[0].char_start, 0);
    for (i, c) in chunks.iter().enumerate() {
        assert_eq!(c.position, i);
        assert_eq!(&doc[c.char_start..c.char_end], c.content);
        if i > 0 {
            assert!(c.char_start >= chunks[i - 1].char_start);
            assert!(c.char_start <= chunks[i - 1].char_end);
        }
    }
    assert_eq!(chunks.last().unwrap().char_end, doc.len());
    assert!(chunker::chunk_text(" \n\n ", "/a", "a", &ChunkConfig::default()).is_empty());
    let whole = chunker::chunk_text(text, "/a", "a", &ChunkConfig::default());
    assert_eq!(whole.len(), 1);
    assert_eq!(whole[0].content, doc);
}

#[test]
fn chunks_without_overlap_do_not_repeat() {
    let config = ChunkConfig { max_chunk_size: 1, overlap_size: 0 };
    let chunks = chunker::chunk_text("abcde\n\nfghij", "/a", "a", &config);
    let texts: Vec<&str> = chunks.iter().map(|c| c.content.as_str()).collect();
    assert_eq!(texts, vec!["abcd", "e", "fghi", "j"]);
    assert_eq!(chunks[1].char_start, 4);
    assert_eq!(chunks[2].char_start, 5);
    let config = ChunkConfig { max_chunk_size: 0, overlap_size: 1 };
    let chunks = chunker::chunk_text("abcde\n\nfghij", "/a", "a", &config);
    let texts: Vec<&str> = chunks.iter().map(|c| c.content.as_str()).collect();
    assert_eq!(texts, vec!["abcde", "bcde\n\nfghij"]);
    let config = ChunkConfig { max_chunk_size: 2, overlap_size: 0 };
    let chunks = chunker::chunk_text("abcde\n\nfghij", "/a", "a", &config);
    let texts: Vec<&str> = chunks.iter().map(|c| c.content.as_str()).collect();
    assert_eq!(texts, vec!["abcde", "fghij"]);
    assert_eq!(chunks[1].char_start, 5);
}

#[test]
fn no_chunk_is_over_its_limit() {
    let long = "đoạn văn dài ".repeat(400);
    let text = format!("{}\n\n{}\n\nngắn", "a".repeat(2047), long);
    let chunks = chunker::chunk_text(&text, "/a", "a", &ChunkConfig::default());
    assert!(chunks.len() > 3);
    for c in &chunks {
        assert!(!c.content.is_empty());
        assert!(c.content.len() <= 2048);
    }
    assert!(chunks.last().unwrap().content.ends_with("ngắn"));
    let overlap = &chunks[1].content[chunks[1].content.len() - 100..];
    assert!(chunks[2].content.contains(overlap.trim_start_matches(|c: char| !c.is_ascii())));
}

#[test]
fn identifiers_have_their_usual_form_and_differ() {
    let a = chunker::chunk_text("x", "/a", "a", &ChunkConfig::default());
    let b = chunker::chunk_text("x", "/a", "a", &ChunkConfig::default());
    assert_ne!(a[0].id, b[0].id);
    let id: Vec<char> = a[0].id.chars().collect();
    assert_eq!(id.len(), 36);
    for i in [8, 13, 18, 23] {
        assert_eq!(id[i], '-');
    }
    assert_eq!(id[14], '4');
    assert!(matches!(id[19], '8' | '9' | 'a' | 'b'));
    assert!(id.iter().enumerate().all(|(i, c)| matches!(i, 8 | 13 | 18 | 23)
        || c.is_ascii_digit()
        || matches!(c, 'a'..='f')));
}

#[test]
fn blank_chunks_of_the_extractor_are_dropped() {
    let k = |s: &str, a: usize, b: usize| KreuzbergChunkData {
        content: s.to_string(),
        byte_start: a,
        byte_end: b,
    };
    let given = vec![k("a", 0, 1), k("  ", 1, 3), k("b", 3, 4)];
    let chunks = chunker::from_kreuzberg_chunks(&given, "/a", "a");
    assert_eq!(chunks.len(), 2);
    assert_eq!(chunks[1].position, 2);
    assert_eq!(chunks[1].char_start, 3);
    let doc = parser::extracted_document("/a", "a", "pdf", 1, "ab".to_string(), Some(given)).unwrap();
    assert_eq!(chunker::document_chunks(&doc, "/a").len(), 2);
    assert_eq!(chunker::text_chunks(&doc, "/a").len(), 1);
}

#[test]
fn changes_of_files_are_reported() {
    assert!(matches!(
        watcher::report_file(ChangeKind::Create, "/a.TXT", Some("TXT")),
        Some(FileEvent::Created(p)) if p == "/a.TXT"
    ));
    assert!(matches!(
        watcher::report_file(ChangeKind::Modify, "/a.md", Some("md")),
        Some(FileEvent::Modified(_))
    ));
    assert!(matches!(
        watcher::report_file(ChangeKind::Remove, "/a.md", Some("md")),
        Some(FileEvent::Deleted(_))
    ));
    assert!(watcher::report_file(ChangeKind::Other, "/a.md", Some("md")).is_none());
    assert!(watcher::report_file(ChangeKind::Create, "/a.exe", Some("exe")).is_none());
    assert!(watcher::report_file(ChangeKind::Create, "/a", None).is_none());
    assert!(!watcher::enters(Some(".git")));
    assert!(watcher::enters(Some("src")));
    assert!(watcher::enters(None));
}

#[test]
fn what_happened_while_the_application_was_not_running() {
    let files = stamps(&[("/new", 5), ("/same", 5), ("/newer", 9), ("/older", 1)]);
    let known = stamps(&[("/gone", 5), ("/same", 5), ("/newer", 5), ("/older", 5)]);
    let events = watcher::detect_changed_files(&files, &known);
    assert_eq!(events.len(), 3);
    assert!(matches!(&events[0], FileEvent::Created(p) if p == "/new"));
    assert!(matches!(&events[1], FileEvent::Modified(p) if p == "/newer"));
    assert!(matches!(&events[2], FileEvent::Deleted(p) if p == "/gone"));
    assert_eq!(events[2].path(), "/gone");
    assert!(watcher::detect_changed_files(&files, &files).is_empty());
}

#[test]
fn folders_that_are_watched() {
    let mut w = FolderWatcher::new();
    w.watch_folder("/a".to_string());
    w.watch_folder("/b".to_string());
    w.unwatch_folder("/a");
    assert_eq!(w.watched_folders(), &vec!["/b".to_string()]);
    let folders = vec![
        ("1".to_string(), "/a".to_string()),
        ("2".to_string(), "/a/b".to_string()),
    ];
    assert_eq!(watcher::folder_of(&folders, "/a/b/c"), "1");
    assert_eq!(watcher::folder_of(&folders, "/x"), "");
    assert_eq!(watcher::watch_step(WatchSignal::Changed, 1), WatchStep::Wait);
    assert_eq!(watcher::watch_step(WatchSignal::Quiet, 0), WatchStep::Wait);
    assert_eq!(watcher::watch_step(WatchSignal::Quiet, 1), WatchStep::Index);
    assert_eq!(watcher::watch_step(WatchSignal::Closed, 1), WatchStep::End);
    let mut c = WatchCounts::new();
    c.count(WatchOutcome::Skipped);
    c.count(WatchOutcome::Failed);
    assert!(!c.changed());
    c.count(WatchOutcome::Indexed);
    c.count(WatchOutcome::Deleted);
    assert!(c.changed());
    assert_eq!((c.indexed, c.deleted, c.errors), (1, 1, 1));
}

#[test]
fn the_change_of_a_file_is_handled() {
    let created = FileEvent::Created("/a/x.txt".to_string());
    let read = FileRead::Read(plain("xin chào"), b"abc".to_vec());
    match EventHandler::handle_event(&created, read).unwrap() {
        ProcessResult::Processed { file_path, file_hash, chunk_count, chunks, metadata } => {
            assert_eq!(file_path, "/a/x.txt");
            assert_eq!(
                file_hash,
                "ba7816bf8f01cfea414140de5dae2223b00361a396177a9cb410ff61f20015ad"
            );
            assert_eq!(chunk_count, 1);
            assert_eq!(chunks[0].content, "xin chào");
            assert_eq!(metadata.file_type, "txt");
        }
        ProcessResult::Deleted(_) => panic!(),
    }
    assert!(matches!(
        EventHandler::handle_event(&FileEvent::Deleted("/a".to_string()), FileRead::Unsupported),
        Ok(ProcessResult::Deleted(p)) if p == "/a"
    ));
    assert!(matches!(
        EventHandler::handle_event(&created, FileRead::Unsupported),
        Err(m) if m == "Định dạng không hỗ trợ: /a/x.txt"
    ));
    let failed = FileRead::Unparsed(ParseError::ParseFailed("x".to_string()));
    assert!(matches!(
        EventHandler::handle_event(&created, failed),
        Err(m) if m == "Lỗi parse: Lỗi parse: x"
    ));
    let unread = FileRead::Unread(plain("x"), "e".to_string());
    assert!(matches!(
        EventHandler::handle_event(&created, unread),
        Err(m) if m == "Lỗi đọc file: e"
    ));
}

#[test]
fn folders_and_files_that_are_looked_at() {
    assert!(index::within_depth(10));
    assert!(!index::within_depth(11));
    assert!(!index::enters_folder(".git"));
    assert!(!index::enters_folder("node_modules"));
    assert!(index::enters_folder("docs"));
    assert!(!index::is_indexed_size(9));
    assert!(index::is_indexed_size(10));
    assert!(index::is_indexed_size(50 * 1024 * 1024));
    assert!(!index::is_indexed_size(50 * 1024 * 1024 + 1));
    assert!(index::takes_file(Some("pdf"), 100));
    assert!(!index::takes_file(Some("pdf"), 1));
    assert!(!index::takes_file(None, 100));
}

#[test]
fn only_what_changed_is_indexed() {
    let files = stamps(&[("/new", 5), ("/same", 5), ("/newer", 9), ("/older", 1)]);
    let known = stamps(&[("/gone", 5), ("/same", 5), ("/newer", 5), ("/older", 5)]);
    let plan = index::plan_changes(&files, &known);
    assert_eq!(plan.to_index, stamps(&[("/new", 5), ("/newer", 9), ("/older", 1)]));
    assert_eq!(paths(&plan.added), vec!["/new"]);
    assert_eq!(paths(&plan.replaced), vec!["/newer", "/older"]);
    assert_eq!(plan.unchanged, 1);
    assert_eq!(paths(&plan.deleted), vec!["/gone"]);
    let again = index::plan_changes(&files, &files);
    assert!(again.to_index.is_empty());
    assert!(again.deleted.is_empty());
    assert_eq!(again.unchanged, 4);
    assert_eq!(index::file_change(&known, "/older", 1), FileChange::Changed);
    let changes = folder::folder_changes(&plan, vec![], vec![], vec![]);
    assert!(changes.has_changes);
    assert_eq!(changes.changed_files, 2);
    assert!(!folder::folder_changes(&again, vec![], vec![], vec![]).has_changes);
}

#[test]
fn files_are_cut_or_counted_as_errors() {
    let ok = index::cut_file("/a/x.txt", "x.txt", 7, ParseOutcome::Parsed(plain("xin chào")));
    assert_eq!(ok.as_ref().unwrap().chunks.len(), 1);
    let results = vec![
        ok,
        index::cut_file("/b", "b", 1, ParseOutcome::Cancelled),
        index::cut_file("/c", "c", 1, ParseOutcome::Failed),
        index::cut_file("/d", "d", 1, ParseOutcome::Panicked),
        Err("empty:e".to_string()),
    ];
    let (files, errors) = index::sort_results(results);
    assert_eq!(files.len(), 1);
    assert_eq!(files[0].file_modified, 7);
    assert_eq!(errors, vec!["parse:c".to_string(), "panic:d".to_string()]);
    let blank = vec![KreuzbergChunkData { content: " ".to_string(), byte_start: 0, byte_end: 1 }];
    let doc = parser::extracted_document("/a", "a", "pdf", 1, "x".to_string(), Some(blank)).unwrap();
    assert!(matches!(
        index::cut_file("/a", "a", 1, ParseOutcome::Parsed(doc)),
        Err(m) if m == "empty:a"
    ));
}

#[test]
fn the_work_on_a_folder_is_counted_and_reported() {
    let mut run = IndexRun::new("1", "docs");
    assert_eq!(run.scanning().message, "Đang quét thư mục docs...");
    let files = stamps(&[("/a", 1), ("/b", 1)]);
    let plan = index::plan_changes(&files, &stamps(&[("/b", 1), ("/c", 1)]));
    assert!(run.begin(2, &plan).is_none());
    assert_eq!(run.parsing(8).message, "⚡ Đang parse 1 files song song (8 CPU cores)...");
    run.parsed(1, 0);
    assert_eq!(run.file_begins(0, "a").message, "Đang index: a (1/1)");
    assert_eq!(run.file_embeds(0, "a", 4).message, "Đang embed: a (4 chunks, tổng 0 vectors)");
    assert_eq!(run.batch_done(0, "a", 3).total_vectors, 3);
    run.embedded(4);
    assert_eq!(run.file_done(0, "a", 4).message, "Đã index: a (1/1) — 4 vectors");
    let (event, counts) = run.finish(false);
    assert_eq!(
        event.message,
        "Hoàn tất: 1 files mới/thay đổi, 4 chunks, 1 file không đổi, 1 file đã xóa"
    );
    assert_eq!(counts, (2, 2));
    let (event, _) = run.finish(true);
    assert_eq!(event.message, "Đã dừng: 1 files đã xử lý, 4 chunks");
    assert_eq!(event.phase, "stopped");
    let mut failing = IndexRun::new("1", "docs");
    let three = stamps(&[("/a", 1), ("/b", 1), ("/c", 1)]);
    assert!(failing.begin(3, &index::plan_changes(&three, &stamps(&[]))).is_none());
    failing.parsed(2, 1);
    failing.file_failed(0);
    failing.file_done(1, "b", 2);
    let (event, counts) = failing.finish(false);
    assert_eq!(event.message, "Hoàn tất: 1 files mới/thay đổi, 2 chunks, 2 lỗi");
    assert_eq!(counts, (3, 1));
    let mut idle = IndexRun::new("1", "docs");
    let none = index::plan_changes(&files, &files);
    let event = idle.begin(2, &none).unwrap();
    assert_eq!(event.message, "✅ Không có thay đổi (2 file đã index)");
    assert_eq!(event.indexed_count, 2);
    let mut empty = IndexRun::new("1", "docs");
    let nothing = index::plan_changes(&vec![], &vec![]);
    assert_eq!(
        empty.begin(0, &nothing).unwrap().message,
        "Không tìm thấy file hỗ trợ trong docs"
    );
}

#[test]
fn hashes_of_paths() {
    assert_eq!(index::djb2_hash(""), 5381);
    assert_eq!(index::djb2_hash("a"), 5381 * 33 + 97);
    assert_eq!(index::path_hash("a"), format!("{:x}", 5381 * 33 + 97));
    let mut h: u64 = 5381;
    for b in "chào bạn, đường dẫn rất dài".bytes() {
        h = h.wrapping_mul(33).wrapping_add(b as u64);
    }
    assert_eq!(index::djb2_hash("chào bạn, đường dẫn rất dài"), h);
}

#[test]
fn the_state_of_the_index() {
    let s = index::index_status(10, 6, 1);
    assert_eq!(s.pending_files, 3);
    assert_eq!(index::index_status(5, 6, 1).pending_files, 0);
    assert_eq!(index::index_status(5, 3, 9).pending_files, 0);
    assert!(index::has_orphans(0, 1));
    assert!(!index::has_orphans(1, 1));
    let meta = VectorMeta {
        chunk_id: "1".to_string(),
        file_path: "/a".to_string(),
        file_name: "a".to_string(),
        content: "chào".to_string(),
        section: None,
    };
    let rows = index::chunk_rows(&vec![meta]);
    assert_eq!(rows[0].char_count, 5);
    assert_eq!(rows[0].index, 0);
}

#[test]
fn making_vectors_again() {
    let mut run = RetryRun::new(5);
    assert!(!run.count(RetryOutcome::Missing));
    assert!(!run.count(RetryOutcome::Embedded(3)));
    assert!(!run.count(RetryOutcome::Embedded(0)));
    assert!(!run.count(RetryOutcome::NoChunks));
    assert!(!run.count(RetryOutcome::Unparsed));
    assert!(!run.count(RetryOutcome::Failed(EmbeddingError::ApiError("x".to_string()))));
    assert!(run.count(RetryOutcome::Failed(EmbeddingError::QuotaExhausted(1, 20))));
    assert_eq!((run.success, run.failed), (1, 3));
    assert_eq!(run.message(), "Retry xong: 1/5 thành công");
    assert_eq!(RetryRun::new(0).message(), "Không có file nào cần retry");
}

#[test]
fn folders_are_added_and_found() {
    let f = folder::new_folder("/a/docs", Some("docs".to_string()), true, true).unwrap();
    assert_eq!(f.name, "docs");
    assert_eq!(f.status, "active");
    assert_eq!(folder::new_folder("/", None, true, true).unwrap().name, "/");
    assert_eq!(folder::new_folder("/", None, true, false).unwrap_err(), "Thư mục không tồn tại");
    let rows = vec![("1".to_string(), "/a".to_string(), "a".to_string())];
    assert_eq!(folder::find_folder(&rows, "1").unwrap(), ("/a".to_string(), "a".to_string()));
    assert_eq!(folder::find_folder(&rows, "2").unwrap_err(), "Không tìm thấy folder: 2");
}

#[test]
fn files_are_listed_by_kind_and_name() {
    for (e, k) in [
        ("pdf", "pdf"), ("svg", "image"), ("xls", "excel"), ("csv", "csv"), ("docx", "word"),
        ("htm", "html"), ("md", "text"), ("json", "json"), ("zip", "other"),
    ] {
        assert_eq!(folder::kind_of_file(Some(&e.to_uppercase())), k);
    }
    assert_eq!(folder::kind_of_file(None), "other");
    let row = |p: &str| (p.to_string(), 1i64, 2i64, "indexed".to_string());
    let files = folder::sort_by_name(vec![
        folder::indexed_file(row("/b"), Some("b".to_string()), None),
        folder::indexed_file(row("/A"), Some("A".to_string()), None),
        folder::indexed_file(row("/c"), None, Some("PDF")),
    ]);
    let names: Vec<&str> = files.iter().map(|f| f.file_name.as_str()).collect();
    assert_eq!(names, vec!["/c", "A", "b"]);
    assert_eq!(files[0].file_type, "pdf");
    let known = stamps(&[("/x/same", 5), ("/x/changed", 5)]);
    let counts = stamps(&[("/x/same", 3)]);
    let scan = |p: &str, t: i64| {
        folder::scanned_file(p, t, Some(p[3..].to_string()), Some("txt"), 10, &known, &counts)
    };
    let list = folder::sort_scanned(vec![
        scan("/x/same", 5), scan("/x/changed", 6), scan("/x/b", 1), scan("/x/A", 1),
    ]);
    let shown: Vec<(&str, &str)> =
        list.iter().map(|f| (f.file_name.as_str(), f.sync_status.as_str())).collect();
    assert_eq!(
        shown,
        vec![("A", "new"), ("b", "new"), ("changed", "changed"), ("same", "synced")]
    );
    assert_eq!(list[3].chunk_count, 3);
    assert_eq!(list[0].chunk_count, 0);
}

#[test]
fn a_single_file_is_indexed() {
    assert_eq!(folder::single_file_chunks(Ok(plain("xin chào")), "/a/x.txt").unwrap().len(), 1);
    assert_eq!(
        folder::single_file_chunks(Err(ParseError::ParseFailed("x".to_string())), "/a").unwrap_err(),
        "Lỗi parse: Lỗi parse: x"
    );
    let detail = |p: SinglePhase| folder::describe_phase(p, "a.pdf").1;
    assert_eq!(detail(SinglePhase::Parsing), "📄 Đang đọc a.pdf...");
    assert_eq!(detail(SinglePhase::Chunked(3)), "✂️ 3 chunks từ a.pdf");
    assert_eq!(detail(SinglePhase::Embedding(0, 7)), "🧠 0/7 chunks (0%)");
    assert_eq!(detail(SinglePhase::Embedding(5, 7)), "🧠 5/7 chunks (71%)");
    assert_eq!(detail(SinglePhase::Embedding(9, 7)), "🧠 7/7 chunks (100%)");
    assert_eq!(detail(SinglePhase::Waiting(60)), "⏳ Hết token, đợi 60s...");
    assert_eq!(detail(SinglePhase::Done(3, false)), "✅ a.pdf — 3 chunks");
    assert_eq!(detail(SinglePhase::Done(3, true)), "✅ a.pdf — 3 chunks (embed bị giới hạn)");
    assert_eq!(folder::describe_phase(SinglePhase::Saving, "a").0, "saving");
    assert_eq!(folder::embedding_progress(0, 0), (0, 100));
    assert!(folder::is_quota_error(&EmbeddingError::QuotaExhausted(1, 20)));
    assert!(folder::is_quota_error(&EmbeddingError::ModelError("HTTP 429".to_string())));
    assert!(folder::is_quota_error(&EmbeddingError::ModelError("QUOTA".to_string())));
    assert!(!folder::is_quota_error(&EmbeddingError::ModelError("x".to_string())));
    assert_eq!(folder::single_outcome(&Ok(2)), (true, false));
    assert_eq!(folder::single_outcome(&Ok(0)), (false, false));
    assert_eq!(
        folder::single_outcome(&Err(EmbeddingError::QuotaExhausted(1, 20))),
        (false, true)
    );
    assert_eq!(
        folder::single_outcome(&Err(EmbeddingError::ModelError("x".to_string()))),
        (false, false)
    );
}

#[test]
fn a_plain_answer_lists_what_was_found() {
    let chunk = Chunk {
        id: "1".to_string(),
        file_path: "/a".to_string(),
        file_name: "a.pdf".to_string(),
        content: "x".repeat(300),
        section: None,
        position: 0,
        char_start: 0,
        char_end: 0,
    };
    let found = Found::Chunks(vec![(Score { bits: 0 }, chunk)]);
    let answer = chat::plain_answer(&found);
    assert_eq!(
        answer,
        format!(
            "Dựa trên tài liệu, tôi tìm thấy:\n\n**[Nguồn 1]** `a.pdf`\n{}\n\n\n⚠️ *Để có phân tích AI chi tiết, cấu hình Gemini API key trong Cài đặt.*",
            "x".repeat(200)
        )
    );
    assert!(chat::plain_answer(&Found::Chunks(vec![])).starts_with("Không tìm thấy"));
    assert!(chat::plain_answer(&Found::Failed).starts_with("Không tìm thấy"));
    assert!(chat::plain_answer(&Found::NoIndex).starts_with("Hệ thống search"));
    let shown = chat::answer_message(&found, "m", 7);
    let kept = chat::to_kept(&shown, "s");
    let again = chat::shown_history(&vec![kept]);
    assert_eq!(again[0].id, shown.id);
    assert_eq!(again[0].content, answer);
    assert_eq!(again[0].model, Some("m".to_string()));
    let user = chat::kept_message("s", "user", "xin chào", None, 7);
    assert_eq!(user.role, "user");
    assert_eq!(user.id.len(), 36);
}
