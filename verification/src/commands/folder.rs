//! Folders that are indexed, their files, and the indexing of a single file.
use vstd::prelude::*;

use crate::commands::index;
use crate::commands::index::ChangePlan;
use crate::commands::index::FileChange;
use crate::embedding;
use crate::embedding::EmbeddingError;
use crate::indexer::chunker;
use crate::indexer::chunker::Chunk;
use crate::order;
use crate::order::Then;
use crate::parser;
use crate::parser::ParseError;
use crate::parser::ParsedDocument;
use crate::text;
use crate::text::chars;
use crate::text::edit;
use crate::text::find;
use crate::text::number;
use crate::text::split;
use crate::watcher;

verus! {

/// A folder that is indexed.
#[derive(Debug)]
pub struct FolderInfo {
    /// The folder.
    pub id: String,
    /// Its path.
    pub path: String,
    /// Its name.
    pub name: String,
    /// How many files it has.
    pub file_count: usize,
    /// How many of them are indexed.
    pub indexed_count: usize,
    /// "active".
    pub status: String,
}

/// A folder with so many files, and so many of them indexed.
pub fn folder_info(
    id: String,
    path: String,
    name: String,
    file_count: usize,
    indexed_count: usize,
) -> (r: FolderInfo)
    ensures
        r.id == id,
        r.path == path,
        r.name == name,
        r.file_count == file_count,
        r.indexed_count == indexed_count,
        r.status@ == "active"@,
{
    FolderInfo { id, path, name, file_count, indexed_count, status: edit::owned("active") }
}

/// A new folder with a new identifier, before its files are indexed. It has to
/// be there and to be a folder; one without a name is named by its path.
pub fn new_folder(path: &str, name: Option<String>, present: bool, is_dir: bool) -> (r: Result<
    FolderInfo,
    String,
>)
    ensures
        match r {
            Ok(f) => {
                &&& present && is_dir
                &&& crate::identity::is_identifier(f.id@)
                &&& f.path@ == path@
                &&& f.name@ == match name {
                    Some(n) => n@,
                    None => path@,
                }
                &&& f.file_count == 0
                &&& f.indexed_count == 0
                &&& f.status@ == "active"@
            },
            Err(m) => !(present && is_dir) && m@ == "Thư mục không tồn tại"@,
        },
{
    if !present || !is_dir {
        return Err(edit::owned("Thư mục không tồn tại"));
    }
    let name: String = match name {
        Some(n) => n,
        None => edit::owned(path),
    };
    Ok(folder_info(crate::identity::new_id(), edit::owned(path), name, 0, 0))
}

/// The first folder with the identifier.
pub open spec fn folder_with(rows: Seq<(String, String, String)>, id: Seq<char>, i: int) -> Option<
    int,
>
    decreases rows.len() - i,
{
    if i < 0 || i >= rows.len() {
        None
    } else if rows[i].0@ == id {
        Some(i)
    } else {
        folder_with(rows, id, i + 1)
    }
}

/// The path and the name of a folder, of folders with their identifiers, paths
/// and names.
pub fn find_folder(rows: &Vec<(String, String, String)>, id: &str) -> (r: Result<
    (String, String),
    String,
>)
    ensures
        match folder_with(rows@, id@, 0) {
            Some(i) => r matches Ok(f) && f.0@ == rows@[i].1@ && f.1@ == rows@[i].2@,
            None => r matches Err(m) && m@ == "Không tìm thấy folder: "@ + id@,
        },
{
    let mut i: usize = 0;
    while i < rows.len()
        invariant
            i <= rows@.len(),
            folder_with(rows@, id@, 0) == folder_with(rows@, id@, i as int),
        decreases rows@.len() - i,
    {
        if find::same(rows[i].0.as_str(), id) {
            return Ok((rows[i].1.clone(), rows[i].2.clone()));
        }
        i += 1;
    }
    Err(edit::concat2("Không tìm thấy folder: ", id))
}

/// A file that is indexed.
#[derive(Debug)]
pub struct IndexedFileInfo {
    /// Its path.
    pub file_path: String,
    /// Its name.
    pub file_name: String,
    /// Its size.
    pub file_size: i64,
    /// How many chunks it has.
    pub chunk_count: i64,
    /// Its status.
    pub status: String,
    /// Its kind.
    pub file_type: String,
}

/// Files that hold an image.
pub const IMAGE_KINDS: [&'static str; 6] = ["png", "jpg", "jpeg", "gif", "webp", "svg"];

/// The kind of a file by its extension in lower case.
pub open spec fn kind_of(extension: Seq<char>) -> Seq<char> {
    if extension == "pdf"@ {
        "pdf"@
    } else if find::is_any(extension, IMAGE_KINDS@) {
        "image"@
    } else if extension == "xlsx"@ || extension == "xls"@ {
        "excel"@
    } else if extension == "csv"@ {
        "csv"@
    } else if extension == "doc"@ || extension == "docx"@ {
        "word"@
    } else if extension == "html"@ || extension == "htm"@ {
        "html"@
    } else if extension == "txt"@ || extension == "md"@ {
        "text"@
    } else if extension == "json"@ {
        "json"@
    } else {
        "other"@
    }
}

/// The kind of a file by its extension in lower case.
pub fn file_kind(extension: &str) -> (r: String)
    ensures
        r@ == kind_of(extension@),
{
    if find::same(extension, "pdf") {
        edit::owned("pdf")
    } else if find::same_as_any(extension, IMAGE_KINDS.as_slice()) {
        edit::owned("image")
    } else if find::same(extension, "xlsx") || find::same(extension, "xls") {
        edit::owned("excel")
    } else if find::same(extension, "csv") {
        edit::owned("csv")
    } else if find::same(extension, "doc") || find::same(extension, "docx") {
        edit::owned("word")
    } else if find::same(extension, "html") || find::same(extension, "htm") {
        edit::owned("html")
    } else if find::same(extension, "txt") || find::same(extension, "md") {
        edit::owned("text")
    } else if find::same(extension, "json") {
        edit::owned("json")
    } else {
        edit::owned("other")
    }
}

/// The extension in lower case, or nothing.
pub open spec fn lower_extension(extension: Option<&str>) -> Seq<char> {
    match extension {
        Some(e) => chars::lowercase(e@),
        None => Seq::empty(),
    }
}

/// The kind of a file by its extension, whatever its case.
pub fn kind_of_file(extension: Option<&str>) -> (r: String)
    ensures
        r@ == kind_of(lower_extension(extension)),
{
    match extension {
        Some(e) => file_kind(e.to_lowercase().as_str()),
        None => file_kind(String::new().as_str()),
    }
}

/// The name of a file, or its path where it has none.
pub open spec fn shown_name(name: Option<String>, path: Seq<char>) -> Seq<char> {
    match name {
        Some(n) => n@,
        None => path,
    }
}

/// A file that is indexed, from its record: path, size, chunks and status.
pub fn indexed_file(
    row: (String, i64, i64, String),
    name: Option<String>,
    extension: Option<&str>,
) -> (r: IndexedFileInfo)
    ensures
        r.file_path == row.0,
        r.file_name@ == shown_name(name, row.0@),
        r.file_size == row.1,
        r.chunk_count == row.2,
        r.status == row.3,
        r.file_type@ == kind_of(lower_extension(extension)),
{
    let file_name: String = match name {
        Some(n) => n,
        None => row.0.clone(),
    };
    let file_type: String = kind_of_file(extension);
    IndexedFileInfo {
        file_path: row.0,
        file_name,
        file_size: row.1,
        chunk_count: row.2,
        status: row.3,
        file_type,
    }
}

/// `r` is the items in the order of the keys, those with the same key in the
/// order in which they were.
pub open spec fn is_sorted_by<T, K: order::SortKey>(r: Seq<T>, items: Seq<T>, keys: Seq<K>) -> bool {
    exists|p: Seq<int>| #[trigger] order::is_order(p, keys) && r == order::arranged(items, p)
}

/// The items in the order of the keys.
pub fn sort_by_keys<T, K: order::SortKey>(items: Vec<T>, keys: &Vec<K>) -> (r: Vec<T>)
    requires
        items@.len() == keys@.len(),
    ensures
        is_sorted_by(r@, items@, keys@),
{
    let p: Vec<usize> = order::sorted_positions(keys);
    proof {
        order::lemma_order_distinct(order::positions(p@), keys@);
    }
    order::arrange(items, &p)
}

/// `r` is the files in the order of their names, whatever their case.
pub open spec fn is_by_name(r: Seq<IndexedFileInfo>, files: Seq<IndexedFileInfo>) -> bool {
    exists|keys: Seq<String>|
        text::views(keys) == Seq::new(
            files.len(),
            |i: int| chars::lowercase(files[i].file_name@),
        ) && #[trigger] is_sorted_by(r, files, keys)
}

/// The files in the order of their names, whatever their case.
pub fn sort_by_name(files: Vec<IndexedFileInfo>) -> (r: Vec<IndexedFileInfo>)
    ensures
        is_by_name(r@, files@),
{
    let ghost names = Seq::new(files@.len(), |i: int| chars::lowercase(files@[i].file_name@));
    let mut keys: Vec<String> = Vec::new();
    let mut i: usize = 0;
    while i < files.len()
        invariant
            i <= files@.len(),
            names == Seq::new(files@.len(), |i: int| chars::lowercase(files@[i].file_name@)),
            text::views(keys@) == names.take(i as int),
        decreases files@.len() - i,
    {
        let key: String = files[i].file_name.as_str().to_lowercase();
        let ghost before = text::views(keys@);
        keys.push(key);
        assert(text::views(keys@) =~= before.push(key@));
        i += 1;
    }
    assert(text::views(keys@) =~= names);
    assert(text::views(keys@).len() == files@.len());
    sort_by_keys(files, &keys)
}

/// What changed in a folder.
#[derive(Debug)]
pub struct FolderChanges {
    /// How many files are new.
    pub new_files: usize,
    /// How many changed.
    pub changed_files: usize,
    /// How many are gone.
    pub deleted_files: usize,
    /// How many are as they were.
    pub unchanged_files: usize,
    /// Something changed.
    pub has_changes: bool,
    /// The names of the new files.
    pub new_file_names: Vec<String>,
    /// The names of the files that changed.
    pub changed_file_names: Vec<String>,
    /// The names of the files that are gone.
    pub deleted_file_names: Vec<String>,
}

/// What changed in a folder, given the plan that brings the index up to date
/// and the names of the files in it.
pub fn folder_changes(
    plan: &ChangePlan,
    new_file_names: Vec<String>,
    changed_file_names: Vec<String>,
    deleted_file_names: Vec<String>,
) -> (r: FolderChanges)
    ensures
        r.new_files == plan.added@.len(),
        r.changed_files == plan.replaced@.len(),
        r.deleted_files == plan.deleted@.len(),
        r.unchanged_files == plan.unchanged,
        r.has_changes == (plan.added@.len() > 0 || plan.replaced@.len() > 0
            || plan.deleted@.len() > 0),
        r.new_file_names == new_file_names,
        r.changed_file_names == changed_file_names,
        r.deleted_file_names == deleted_file_names,
{
    FolderChanges {
        new_files: plan.added.len(),
        changed_files: plan.replaced.len(),
        deleted_files: plan.deleted.len(),
        unchanged_files: plan.unchanged,
        has_changes: plan.added.len() > 0 || plan.replaced.len() > 0 || plan.deleted.len() > 0,
        new_file_names,
        changed_file_names,
        deleted_file_names,
    }
}

/// A file of a folder, and whether it is indexed as it is.
#[derive(Debug)]
pub struct ScannedFileInfo {
    /// Its path.
    pub file_path: String,
    /// Its name.
    pub file_name: String,
    /// Its size.
    pub file_size: i64,
    /// Its kind.
    pub file_type: String,
    /// "synced", "new" or "changed".
    pub sync_status: String,
    /// How many chunks it has.
    pub chunk_count: i64,
}

/// The name of what happened to a file.
pub open spec fn status_name(change: FileChange) -> Seq<char> {
    match change {
        FileChange::New => "new"@,
        FileChange::Changed => "changed"@,
        FileChange::Unchanged => "synced"@,
    }
}

/// The place of what happened to a file in a list: what is not indexed first.
pub open spec fn status_place(status: Seq<char>) -> int {
    if status == "new"@ {
        0
    } else if status == "changed"@ {
        1
    } else {
        2
    }
}

/// The chunks of a file, of files with their chunks; none where it is not
/// among them.
pub open spec fn chunks_of(counts: Seq<(String, i64)>, path: Seq<char>) -> i64 {
    match watcher::stamp_of(watcher::stamps(counts), path) {
        Some(n) => n,
        None => 0,
    }
}

/// A file of a folder, given what is known of the files and of their chunks.
pub fn scanned_file(
    path: &str,
    modified: i64,
    name: Option<String>,
    extension: Option<&str>,
    size: i64,
    known: &Vec<(String, i64)>,
    counts: &Vec<(String, i64)>,
) -> (r: ScannedFileInfo)
    ensures
        r.file_path@ == path@,
        r.file_name@ == shown_name(name, path@),
        r.file_size == size,
        r.file_type@ == kind_of(lower_extension(extension)),
        r.sync_status@ == status_name(
            index::change_of(watcher::stamps(known@), path@, modified),
        ),
        r.chunk_count == chunks_of(counts@, path@),
{
    let file_name: String = match name {
        Some(n) => n,
        None => edit::owned(path),
    };
    let sync_status: String = match index::file_change(known, path, modified) {
        FileChange::New => edit::owned("new"),
        FileChange::Changed => edit::owned("changed"),
        FileChange::Unchanged => edit::owned("synced"),
    };
    let chunk_count: i64 = match watcher::find_stamp(counts, path) {
        Some(n) => n,
        None => 0,
    };
    ScannedFileInfo {
        file_path: edit::owned(path),
        file_name,
        file_size: size,
        file_type: kind_of_file(extension),
        sync_status,
        chunk_count,
    }
}

/// The keys by which the files of a folder are listed: what is not indexed
/// first, then by name, whatever its case.
pub open spec fn are_scan_keys(keys: Seq<Then<i128, String>>, files: Seq<ScannedFileInfo>) -> bool {
    &&& keys.len() == files.len()
    &&& forall|i: int|
        0 <= i < keys.len() ==> (#[trigger] keys[i]).major == status_place(files[i].sync_status@)
            && keys[i].minor@ == chars::lowercase(files[i].file_name@)
}

/// `r` is the files of a folder as they are listed.
pub open spec fn is_scan_list(r: Seq<ScannedFileInfo>, files: Seq<ScannedFileInfo>) -> bool {
    exists|keys: Seq<Then<i128, String>>| #[trigger]
        are_scan_keys(keys, files) && is_sorted_by(r, files, keys)
}

/// The files of a folder as they are listed.
pub fn sort_scanned(files: Vec<ScannedFileInfo>) -> (r: Vec<ScannedFileInfo>)
    ensures
        is_scan_list(r@, files@),
{
    let mut keys: Vec<Then<i128, String>> = Vec::new();
    let mut i: usize = 0;
    while i < files.len()
        invariant
            i <= files@.len(),
            are_scan_keys(keys@, files@.take(i as int)),
        decreases files@.len() - i,
    {
        let status: &str = files[i].sync_status.as_str();
        let place: i128 = if find::same(status, "new") {
            0
        } else if find::same(status, "changed") {
            1
        } else {
            2
        };
        keys.push(
            Then { major: place, minor: files[i].file_name.as_str().to_lowercase() },
        );
        i += 1;
    }
    assert(files@.take(files@.len() as int) =~= files@);
    sort_by_keys(files, &keys)
}

/// What stands before a file that is not there.
pub const NO_FILE: &'static str = "File không tồn tại: ";

/// The chunks of a single file, given what came of reading it. It needs text
/// and at least one chunk.
pub fn single_file_chunks(read: Result<ParsedDocument, ParseError>, path: &str) -> (r: Result<
    Vec<Chunk>,
    String,
>)
    ensures
        match read {
            Ok(doc) => if split::stripped(doc.content@).len() == 0 {
                r matches Err(m) && m@ == "File rỗng hoặc không thể đọc"@
            } else {
                match r {
                    Ok(chunks) => chunks@.len() > 0 && chunker::are_chunks(chunks@, doc, path@),
                    Err(m) => m@ == "Không tạo được chunks từ file"@ && chunker::are_chunks(
                        Seq::empty(),
                        doc,
                        path@,
                    ),
                }
            },
            Err(e) => r matches Err(m) && m@ == "Lỗi parse: "@ + parser::error_text(e),
        },
{
    match read {
        Ok(doc) => {
            if split::strip(doc.content.as_str()).as_str().is_empty() {
                return Err(edit::owned("File rỗng hoặc không thể đọc"));
            }
            let chunks: Vec<Chunk> = chunker::document_chunks(&doc, path);
            if chunks.len() == 0 {
                assert(chunks@ =~= Seq::empty());
                return Err(edit::owned("Không tạo được chunks từ file"));
            }
            Ok(chunks)
        },
        Err(e) => Err(edit::concat2("Lỗi parse: ", e.message().as_str())),
    }
}

/// The phases of indexing a single file.
#[derive(Clone, Copy, Debug, PartialEq, Eq, Structural)]
pub enum SinglePhase {
    /// It is read.
    Parsing,
    /// It is cut.
    Chunking,
    /// It was cut into so many chunks.
    Chunked(usize),
    /// So many chunks are put into the index.
    Indexing(usize),
    /// So many vectors, of so many, were made.
    Embedding(usize, usize),
    /// There is a pause of so many seconds.
    Waiting(u64),
    /// It is recorded.
    Saving,
    /// It was cut into so many chunks; there were not enough vectors, or there
    /// were.
    Done(usize, bool),
}

/// The name of a phase.
pub open spec fn phase_name(phase: SinglePhase) -> Seq<char> {
    match phase {
        SinglePhase::Parsing => "parsing"@,
        SinglePhase::Chunking => "chunking"@,
        SinglePhase::Chunked(_) => "chunked"@,
        SinglePhase::Indexing(_) => "indexing"@,
        SinglePhase::Embedding(_, _) => "embedding"@,
        SinglePhase::Waiting(_) => "waiting"@,
        SinglePhase::Saving => "saving"@,
        SinglePhase::Done(_, _) => "done"@,
    }
}

/// The chunks that have vectors, at most all.
pub open spec fn chunks_done(vectors: int, total: int) -> int {
    if vectors < total {
        vectors
    } else {
        total
    }
}

/// The chunks that have vectors, in percent of all.
pub open spec fn percent(vectors: int, total: int) -> int {
    if total > 0 {
        chunks_done(vectors, total) * 100 / total
    } else {
        100
    }
}

/// What is shown in a phase.
pub open spec fn phase_detail(phase: SinglePhase, name: Seq<char>) -> Seq<char> {
    match phase {
        SinglePhase::Parsing => "📄 Đang đọc "@ + name + "..."@,
        SinglePhase::Chunking => "✂️ Đang chia chunks "@ + name + "..."@,
        SinglePhase::Chunked(n) => "✂️ "@ + number::decimal(n as nat) + " chunks từ "@ + name,
        SinglePhase::Indexing(n) => "📝 Đang lưu "@ + number::decimal(n as nat) + " chunks..."@,
        SinglePhase::Embedding(done, total) => "🧠 "@ + number::decimal(
            chunks_done(done as int, total as int) as nat,
        ) + "/"@ + number::decimal(total as nat) + " chunks ("@ + number::decimal(
            percent(done as int, total as int) as nat,
        ) + "%)"@,
        SinglePhase::Waiting(seconds) => "⏳ Hết token, đợi "@ + number::decimal(seconds as nat)
            + "s..."@,
        SinglePhase::Saving => "💾 Đang lưu..."@,
        SinglePhase::Done(n, limited) => "✅ "@ + name + " — "@ + number::decimal(n as nat)
            + " chunks"@ + if limited {
            " (embed bị giới hạn)"@
        } else {
            Seq::empty()
        },
    }
}

/// How far the vectors of a single file are: the chunks that have one, and
/// their share in percent.
pub fn embedding_progress(vectors: usize, total: usize) -> (r: (usize, usize))
    ensures
        r.0 == chunks_done(vectors as int, total as int),
        r.1 == percent(vectors as int, total as int),
        r.1 <= 100,
{
    let done: usize = if vectors < total {
        vectors
    } else {
        total
    };
    if total == 0 {
        return (done, 100);
    }
    let share: u128 = done as u128 * 100 / total as u128;
    assert(share <= 100) by (nonlinear_arith)
        requires
            share == done as int * 100 / total as int,
            done <= total,
            total > 0,
    ;
    (done, share as usize)
}

/// The name of a phase and what is shown in it.
pub fn describe_phase(phase: SinglePhase, name: &str) -> (r: (String, String))
    ensures
        r.0@ == phase_name(phase),
        r.1@ == phase_detail(phase, name@),
{
    match phase {
        SinglePhase::Parsing => (
            edit::owned("parsing"),
            edit::concat3("📄 Đang đọc ", name, "..."),
        ),
        SinglePhase::Chunking => (
            edit::owned("chunking"),
            edit::concat3("✂️ Đang chia chunks ", name, "..."),
        ),
        SinglePhase::Chunked(n) => {
            let count: String = number::to_decimal(n as u128);
            let mut m: String = edit::concat3("✂️ ", count.as_str(), " chunks từ ");
            m.append(name);
            (edit::owned("chunked"), m)
        },
        SinglePhase::Indexing(n) => {
            let count: String = number::to_decimal(n as u128);
            (
                edit::owned("indexing"),
                edit::concat3("📝 Đang lưu ", count.as_str(), " chunks..."),
            )
        },
        SinglePhase::Embedding(vectors, total) => {
            let (done, share) = embedding_progress(vectors, total);
            let mut m: String = edit::owned("🧠 ");
            m.append(number::to_decimal(done as u128).as_str());
            m.append("/");
            m.append(number::to_decimal(total as u128).as_str());
            m.append(" chunks (");
            m.append(number::to_decimal(share as u128).as_str());
            m.append("%)");
            (edit::owned("embedding"), m)
        },
        SinglePhase::Waiting(seconds) => {
            let n: String = number::to_decimal(seconds as u128);
            (
                edit::owned("waiting"),
                edit::concat3("⏳ Hết token, đợi ", n.as_str(), "s..."),
            )
        },
        SinglePhase::Saving => (edit::owned("saving"), edit::owned("💾 Đang lưu...")),
        SinglePhase::Done(n, limited) => {
            let mut m: String = edit::concat3("✅ ", name, " — ");
            m.append(number::to_decimal(n as u128).as_str());
            m.append(" chunks");
            if limited {
                m.append(" (embed bị giới hạn)");
            }
            assert(m@ =~= phase_detail(phase, name@));
            (edit::owned("done"), m)
        },
    }
}

/// An error is about quota: its text, as it is and in lower case, says so.
pub open spec fn speaks_of_quota(message: Seq<char>, lower: Seq<char>) -> bool {
    find::occurs(message, "429"@) || find::occurs(lower, "quota"@) || find::occurs(lower, "rate"@)
}

/// Whether the text of an error, as it is and in lower case, speaks of quota.
pub fn mentions_quota(message: &str, lower: &str) -> (r: bool)
    ensures
        r == speaks_of_quota(message@, lower@),
{
    find::contains(message, "429") || find::contains(lower, "quota") || find::contains(lower, "rate")
}

/// Whether the vectors of a file are missing for want of quota.
pub fn is_quota_error(e: &EmbeddingError) -> (r: bool)
    ensures
        r == (e is QuotaExhausted || speaks_of_quota(
            embedding::error_text(*e),
            chars::lowercase(embedding::error_text(*e)),
        )),
{
    let exhausted: bool = match e {
        EmbeddingError::QuotaExhausted(_, _) => true,
        _ => false,
    };
    let message: String = e.message();
    exhausted || mentions_quota(message.as_str(), message.as_str().to_lowercase().as_str())
}

/// What came of the embedding of a file: whether it has vectors, and whether
/// they are missing for want of quota.
pub fn single_outcome(embedded: &Result<usize, EmbeddingError>) -> (r: (bool, bool))
    ensures
        r.0 == (embedded matches Ok(n) && *n > 0),
        r.1 == (embedded matches Err(e) && (e is QuotaExhausted || speaks_of_quota(
            embedding::error_text(*e),
            chars::lowercase(embedding::error_text(*e)),
        ))),
{
    match embedded {
        Ok(n) => (*n > 0, false),
        Err(e) => (false, is_quota_error(e)),
    }
}

/// The list of files by name has every file once, and none before one whose name in
/// lower case comes first.
pub proof fn law_by_name(r: Seq<IndexedFileInfo>, files: Seq<IndexedFileInfo>) -> (p: Seq<int>)
    requires
        is_by_name(r, files),
    ensures
        r.len() == files.len() == p.len(),
        p.no_duplicates(),
        forall|i: int| 0 <= i < p.len() ==> 0 <= #[trigger] p[i] < files.len() && r[i] == files[p[i]],
        forall|i: int, j: int|
            0 <= i < j < r.len() ==> order::lex_upto(
                chars::lowercase((#[trigger] r[i]).file_name@),
                chars::lowercase((#[trigger] r[j]).file_name@),
            ),
{
    let keys = choose|keys: Seq<String>|
        text::views(keys) == Seq::new(
            files.len(),
            |i: int| chars::lowercase(files[i].file_name@),
        ) && #[trigger] is_sorted_by(r, files, keys);
    let p = choose|p: Seq<int>| #[trigger]
        order::is_order(p, keys) && r == order::arranged(files, p);
    assert(text::views(keys).len() == keys.len());
    order::lemma_order_distinct(p, keys);
    assert forall|i: int, j: int| 0 <= i < j < r.len() implies order::lex_upto(
        chars::lowercase((#[trigger] r[i]).file_name@),
        chars::lowercase((#[trigger] r[j]).file_name@),
    ) by {
        assert(order::precedes(keys, p[i], p[j]));
        assert(text::views(keys)[p[i]] == chars::lowercase(files[p[i]].file_name@));
        assert(text::views(keys)[p[j]] == chars::lowercase(files[p[j]].file_name@));
    }
    p
}

/// The list of a folder has every file once: new ones first, then those that
/// changed, then the others, each group by name.
pub proof fn law_scan_list(r: Seq<ScannedFileInfo>, files: Seq<ScannedFileInfo>) -> (p: Seq<int>)
    requires
        is_scan_list(r, files),
    ensures
        r.len() == files.len() == p.len(),
        p.no_duplicates(),
        forall|i: int| 0 <= i < p.len() ==> 0 <= #[trigger] p[i] < files.len() && r[i] == files[p[i]],
        forall|i: int, j: int|
            0 <= i < j < r.len() ==> {
                let a = (#[trigger] r[i]).sync_status@;
                let b = (#[trigger] r[j]).sync_status@;
                &&& b == "new"@ ==> a == "new"@
                &&& b == "changed"@ ==> a == "new"@ || a == "changed"@
                &&& a == b ==> order::lex_upto(
                    chars::lowercase(r[i].file_name@),
                    chars::lowercase(r[j].file_name@),
                )
            },
{
    let keys = choose|keys: Seq<Then<i128, String>>| #[trigger]
        are_scan_keys(keys, files) && is_sorted_by(r, files, keys);
    let p = choose|p: Seq<int>| #[trigger]
        order::is_order(p, keys) && r == order::arranged(files, p);
    order::lemma_order_distinct(p, keys);
    assert forall|i: int, j: int| 0 <= i < j < r.len() implies {
        let a = (#[trigger] r[i]).sync_status@;
        let b = (#[trigger] r[j]).sync_status@;
        &&& b == "new"@ ==> a == "new"@
        &&& b == "changed"@ ==> a == "new"@ || a == "changed"@
        &&& a == b ==> order::lex_upto(
            chars::lowercase(r[i].file_name@),
            chars::lowercase(r[j].file_name@),
        )
    } by {
        assert(order::precedes(keys, p[i], p[j]));
        assert(keys[p[i]].major == status_place(files[p[i]].sync_status@));
        assert(keys[p[j]].major == status_place(files[p[j]].sync_status@));
    }
    p
}

/// How far the vectors are, in percent: none at the start, a hundred once every
/// chunk has one, as where there is no chunk, and never less with one more.
pub proof fn law_percent(vectors: int, total: int)
    requires
        0 <= vectors,
        0 < total,
    ensures
        percent(vectors, 0) == 100,
        percent(0, total) == 0,
        vectors >= total ==> percent(vectors, total) == 100,
        percent(vectors, total) <= percent(vectors + 1, total) <= 100,
        percent(vectors, total) * total <= 100 * chunks_done(vectors, total),
        100 * chunks_done(vectors, total) < (percent(vectors, total) + 1) * total,
{
    let d = chunks_done(vectors, total);
    let e = chunks_done(vectors + 1, total);
    assert(0int * 100 / total == 0) by (nonlinear_arith)
        requires
            total > 0,
    ;
    assert(total * 100 / total == 100) by (nonlinear_arith)
        requires
            total > 0,
    ;
    assert(d * 100 / total <= e * 100 / total) by (nonlinear_arith)
        requires
            total > 0,
            d <= e,
    ;
    assert(e * 100 / total <= 100) by (nonlinear_arith)
        requires
            total > 0,
            e <= total,
    ;
    let q = d * 100 / total;
    assert(q * total <= d * 100 < (q + 1) * total) by (nonlinear_arith)
        requires
            total > 0,
            q == d * 100 / total,
    ;
}

/// A folder is found by the first record with its identifier.
pub proof fn law_folder_with(rows: Seq<(String, String, String)>, id: Seq<char>, from: int)
    requires
        0 <= from,
    ensures
        match folder_with(rows, id, from) {
            Some(i) => from <= i < rows.len() && rows[i].0@ == id && forall|j: int|
                from <= j < i ==> (#[trigger] rows[j]).0@ != id,
            None => forall|j: int| from <= j < rows.len() ==> (#[trigger] rows[j]).0@ != id,
        },
    decreases rows.len() - from,
{
    if from < rows.len() {
        law_folder_with(rows, id, from + 1);
    }
}

/// An error speaks of quota where it has the status, or one of the words for it.
pub proof fn law_speaks_of_quota(a: Seq<char>, b: Seq<char>, lower: Seq<char>, m: Seq<char>)
    ensures
        speaks_of_quota(a + "429"@ + b, lower),
        speaks_of_quota(m, a + "quota"@ + b),
        speaks_of_quota(m, a + "rate"@ + b),
        !find::occurs(m, "429"@) && !find::occurs(lower, "quota"@) && !find::occurs(lower, "rate"@)
            ==> !speaks_of_quota(m, lower),
{
    lemma_stands_between(a, "429"@, b);
    lemma_stands_between(a, "quota"@, b);
    lemma_stands_between(a, "rate"@, b);
}

proof fn lemma_stands_between(a: Seq<char>, mid: Seq<char>, b: Seq<char>)
    ensures
        find::occurs(a + mid + b, mid),
{
    let s = a + mid + b;
    assert(s.subrange(a.len() as int, (a.len() + mid.len()) as int) =~= mid);
    assert(find::occurs_at(s, mid, a.len() as int));
}

/// The kinds of files; an extension that is longer or shorter than all of these is
/// of no kind.
pub proof fn law_kinds(other: Seq<char>)
    ensures
        kind_of("pdf"@) == "pdf"@,
        kind_of("png"@) == "image"@ && kind_of("jpg"@) == "image"@ && kind_of("jpeg"@) == "image"@,
        kind_of("xlsx"@) == "excel"@ && kind_of("xls"@) == "excel"@,
        kind_of("csv"@) == "csv"@,
        kind_of("doc"@) == "word"@ && kind_of("docx"@) == "word"@,
        kind_of("html"@) == "html"@ && kind_of("htm"@) == "html"@,
        kind_of("txt"@) == "text"@ && kind_of("md"@) == "text"@,
        kind_of("json"@) == "json"@,
        other.len() < 2 || other.len() > 4 ==> kind_of(other) == "other"@,
        status_name(FileChange::New) == "new"@,
        status_name(FileChange::Changed) == "changed"@,
        status_name(FileChange::Unchanged) == "synced"@,
{
    reveal_strlit("pdf");
    reveal_strlit("png");
    reveal_strlit("jpg");
    reveal_strlit("jpeg");
    reveal_strlit("gif");
    reveal_strlit("webp");
    reveal_strlit("svg");
    reveal_strlit("xlsx");
    reveal_strlit("xls");
    reveal_strlit("csv");
    reveal_strlit("doc");
    reveal_strlit("docx");
    reveal_strlit("html");
    reveal_strlit("htm");
    reveal_strlit("txt");
    reveal_strlit("md");
    reveal_strlit("json");
    let t = IMAGE_KINDS@;
    assert(t.len() == 6 && t[0]@ == "png"@ && t[1]@ == "jpg"@ && t[2]@ == "jpeg"@ && t[3]@ == "gif"@
        && t[4]@ == "webp"@ && t[5]@ == "svg"@);
    lemma_no_image("xlsx"@);
    lemma_no_image("xls"@);
    lemma_no_image("csv"@);
    lemma_no_image("doc"@);
    lemma_no_image("docx"@);
    lemma_no_image("html"@);
    lemma_no_image("htm"@);
    lemma_no_image("txt"@);
    lemma_no_image("md"@);
    lemma_no_image("json"@);
    if other.len() < 2 || other.len() > 4 {
        assert(!find::is_any(other, t)) by {
            if find::is_any(other, t) {
                let k = choose|k: int| 0 <= k < t.len() && other == #[trigger] t[k]@;
                assert(t[k]@.len() == 3 || t[k]@.len() == 4);
            }
        }
        assert(other != "pdf"@ && other != "xlsx"@ && other != "xls"@ && other != "csv"@ && other
            != "doc"@ && other != "docx"@ && other != "html"@ && other != "htm"@ && other != "txt"@
            && other != "md"@ && other != "json"@);
    }
    assert(find::is_any("png"@, t) && find::is_any("jpg"@, t) && find::is_any("jpeg"@, t));
    assert("png"@[1] == 'n' && "pdf"@[1] == 'd' && "jpg"@[0] == 'j');
    assert("csv"@[0] == 'c' && "xls"@[0] == 'x' && "doc"@[0] == 'd' && "htm"@[0] == 'h' && "txt"@[0]
        == 't' && "md"@[0] == 'm' && "json"@[0] == 'j' && "xlsx"@[0] == 'x' && "docx"@[0] == 'd'
        && "html"@[0] == 'h' && "pdf"@[0] == 'p');
}

proof fn lemma_no_image(e: Seq<char>)
    requires
        e.len() == 0 || (e[0] != 'p' && e[0] != 'g' && e[0] != 'w' && e[0] != 's'),
        e.len() >= 2 && e[0] == 'j' ==> e[1] != 'p',
        e.len() == 1 ==> e[0] != 'j',
    ensures
        !find::is_any(e, IMAGE_KINDS@),
{
    reveal_strlit("png");
    reveal_strlit("jpg");
    reveal_strlit("jpeg");
    reveal_strlit("gif");
    reveal_strlit("webp");
    reveal_strlit("svg");
    if find::is_any(e, IMAGE_KINDS@) {
        let k = choose|k: int| 0 <= k < IMAGE_KINDS@.len() && e == #[trigger] IMAGE_KINDS@[k]@;
        let t = IMAGE_KINDS@;
        assert(t.len() == 6 && t[0]@ == "png"@ && t[1]@ == "jpg"@ && t[2]@ == "jpeg"@ && t[3]@
            == "gif"@ && t[4]@ == "webp"@ && t[5]@ == "svg"@);
        assert(e.len() >= 3);
    }
}

} // verus!
