//! Indexing of folders: which files are looked at, what changed since the last
//! time, and how the work is counted and reported.
use vstd::prelude::*;

use crate::commands::context_guard;
use crate::embedding::EmbeddingError;
use crate::indexer::chunker;
use crate::indexer::chunker::Chunk;
use crate::parser;
use crate::parser::ParsedDocument;
use crate::search::vector_index::VectorMeta;
use crate::select;
use crate::text;
use crate::text::chars;
use crate::text::edit;
use crate::text::find;
use crate::text::number;
use crate::watcher;

verus! {

/// How far the indexing is.
#[derive(Debug)]
pub struct IndexStatus {
    /// All files.
    pub total_files: usize,
    /// The files that are indexed.
    pub indexed_files: usize,
    /// The files that are still to be indexed.
    pub pending_files: usize,
    /// The files that failed.
    pub error_files: usize,
    /// The indexing runs.
    pub is_indexing: bool,
    /// The file that is indexed.
    pub current_file: Option<String>,
}

/// How far the indexing of a folder is.
#[derive(Debug)]
pub struct IndexProgressEvent {
    /// The folder.
    pub folder_id: String,
    /// Its name.
    pub folder_name: String,
    /// "scanning", "parsing", "indexing", "done" or "stopped".
    pub phase: String,
    /// The file that is indexed.
    pub current_file: String,
    /// Its place among the files.
    pub current_index: usize,
    /// How many files there are.
    pub total_files: usize,
    /// How many are indexed.
    pub indexed_count: usize,
    /// How many failed.
    pub error_count: usize,
    /// How many vectors there are.
    pub total_vectors: usize,
    /// What is shown.
    pub message: String,
}

/// The deepest level of folders that is looked at.
pub const MAX_DEPTH: usize = 10;

/// The least size of a file, in bytes.
pub const MIN_FILE_SIZE: u64 = 10;

/// The greatest size of a file, in bytes.
pub const MAX_FILE_SIZE: u64 = 52_428_800;

/// Folders that are not looked at.
pub const SKIP_DIRS: [&'static str; 31] = [
    "node_modules", "__pycache__", ".git", ".svn", ".hg", ".vscode", ".idea", ".DS_Store",
    "target", "build", "dist", ".next", ".nuxt", "vendor", "venv", ".venv", "env", ".env", "cache",
    ".cache", "tmp", ".tmp", "logs", "log", ".Trash", ".Spotlight-V100", ".fseventsd",
    ".TemporaryItems", "Library", "$RECYCLE.BIN", "System Volume Information",
];

/// Whether the entries of a folder at this level are looked at.
pub fn within_depth(depth: usize) -> (r: bool)
    ensures
        r == (depth <= MAX_DEPTH),
{
    depth <= MAX_DEPTH
}

/// Whether a folder is looked at: not a hidden one, and none that tools keep
/// for themselves.
pub fn enters_folder(name: &str) -> (r: bool)
    ensures
        r == (!find::begins(name@, "."@) && !find::is_any(name@, SKIP_DIRS@)),
{
    !find::starts_with(name, ".") && !find::same_as_any(name, SKIP_DIRS.as_slice())
}

/// Whether a file of this size is indexed.
pub fn is_indexed_size(size: u64) -> (r: bool)
    ensures
        r == (MIN_FILE_SIZE <= size <= MAX_FILE_SIZE),
{
    MIN_FILE_SIZE <= size && size <= MAX_FILE_SIZE
}

/// Whether a file is indexed, by its extension and its size.
pub fn takes_file(extension: Option<&str>, size: u64) -> (r: bool)
    ensures
        r == (MIN_FILE_SIZE <= size <= MAX_FILE_SIZE && match extension {
            Some(e) => find::is_any(chars::lowercase(e@), parser::SUPPORTED_EXTENSIONS@),
            None => false,
        }),
{
    is_indexed_size(size) && parser::is_supported(extension)
}

/// What happened to a file since it was indexed.
#[derive(Clone, Copy, Debug, PartialEq, Eq, Structural)]
pub enum FileChange {
    /// It is not known.
    New,
    /// It is known with another time of change.
    Changed,
    /// It is known as it is.
    Unchanged,
}

/// What happened to a file since it was indexed.
pub open spec fn change_of(
    known: Seq<(Seq<char>, i64)>,
    path: Seq<char>,
    modified: i64,
) -> FileChange {
    match watcher::stamp_of(known, path) {
        None => FileChange::New,
        Some(last) => if last == modified {
            FileChange::Unchanged
        } else {
            FileChange::Changed
        },
    }
}

/// What happened to a file since it was indexed.
pub fn file_change(known: &Vec<(String, i64)>, path: &str, modified: i64) -> (r: FileChange)
    ensures
        r == change_of(watcher::stamps(known@), path@, modified),
{
    match watcher::find_stamp(known, path) {
        None => FileChange::New,
        Some(last) => if last == modified {
            FileChange::Unchanged
        } else {
            FileChange::Changed
        },
    }
}

/// The files to which this happened, in order.
pub open spec fn files_with(
    files: Seq<(Seq<char>, i64)>,
    known: Seq<(Seq<char>, i64)>,
    change: FileChange,
) -> Seq<Seq<char>>
    decreases files.len(),
{
    if files.len() == 0 {
        Seq::empty()
    } else {
        let before = files_with(files.drop_last(), known, change);
        if change_of(known, files.last().0, files.last().1) == change {
            before.push(files.last().0)
        } else {
            before
        }
    }
}

/// The files that are indexed: new ones and those that changed.
pub open spec fn stale_files(
    files: Seq<(Seq<char>, i64)>,
    known: Seq<(Seq<char>, i64)>,
) -> Seq<(Seq<char>, i64)>
    decreases files.len(),
{
    if files.len() == 0 {
        Seq::empty()
    } else {
        let before = stale_files(files.drop_last(), known);
        if change_of(known, files.last().0, files.last().1) == FileChange::Unchanged {
            before
        } else {
            before.push(files.last())
        }
    }
}

/// What is done to bring the index up to date.
#[derive(Debug)]
pub struct ChangePlan {
    /// The files that are indexed, with the time of their last change.
    pub to_index: Vec<(String, i64)>,
    /// The new files among them.
    pub added: Vec<String>,
    /// The files among them that are taken out first.
    pub replaced: Vec<String>,
    /// The files that stay as they are.
    pub unchanged: usize,
    /// The files that are taken out.
    pub deleted: Vec<String>,
}

/// The plan brings an index of the known files up to date.
pub open spec fn is_change_plan(
    plan: ChangePlan,
    files: Seq<(Seq<char>, i64)>,
    known: Seq<(Seq<char>, i64)>,
) -> bool {
    &&& watcher::stamps(plan.to_index@) == stale_files(files, known)
    &&& text::views(plan.added@) == files_with(files, known, FileChange::New)
    &&& text::views(plan.replaced@) == files_with(files, known, FileChange::Changed)
    &&& plan.unchanged == files_with(files, known, FileChange::Unchanged).len()
    &&& text::views(plan.deleted@) == watcher::lost_files(known, files)
}

/// What is done to bring the index up to date, given the files that are there
/// and those that are known, with the time of their last change.
pub fn plan_changes(files: &Vec<(String, i64)>, known: &Vec<(String, i64)>) -> (plan: ChangePlan)
    ensures
        is_change_plan(plan, watcher::stamps(files@), watcher::stamps(known@)),
        plan.to_index@.len() + plan.unchanged == files@.len(),
{
    let ghost fs = watcher::stamps(files@);
    let ghost ks = watcher::stamps(known@);
    let mut to_index: Vec<(String, i64)> = Vec::new();
    let mut added: Vec<String> = Vec::new();
    let mut replaced: Vec<String> = Vec::new();
    let mut unchanged: usize = 0;
    let mut i: usize = 0;
    while i < files.len()
        invariant
            i <= files@.len(),
            fs == watcher::stamps(files@),
            ks == watcher::stamps(known@),
            watcher::stamps(to_index@) == stale_files(fs.take(i as int), ks),
            text::views(added@) == files_with(fs.take(i as int), ks, FileChange::New),
            text::views(replaced@) == files_with(fs.take(i as int), ks, FileChange::Changed),
            unchanged == files_with(fs.take(i as int), ks, FileChange::Unchanged).len(),
            unchanged <= i,
        decreases files@.len() - i,
    {
        assert(fs.take(i + 1).drop_last() =~= fs.take(i as int));
        let path: &String = &files[i].0;
        let modified: i64 = files[i].1;
        let ghost stale = watcher::stamps(to_index@);
        let ghost news = text::views(added@);
        let ghost olds = text::views(replaced@);
        match file_change(known, path.as_str(), modified) {
            FileChange::Unchanged => {
                unchanged += 1;
            },
            FileChange::Changed => {
                to_index.push((path.clone(), modified));
                replaced.push(path.clone());
                assert(watcher::stamps(to_index@) =~= stale.push(fs[i as int]));
                assert(text::views(replaced@) =~= olds.push(path@));
            },
            FileChange::New => {
                to_index.push((path.clone(), modified));
                added.push(path.clone());
                assert(watcher::stamps(to_index@) =~= stale.push(fs[i as int]));
                assert(text::views(added@) =~= news.push(path@));
            },
        }
        i += 1;
    }
    assert(fs.take(fs.len() as int) =~= fs);
    let deleted: Vec<String> = watcher::find_lost(known, files);
    proof {
        law_plan_covers(fs, ks);
        assert(watcher::stamps(to_index@).len() == to_index@.len());
        assert(fs.len() == files@.len());
    }
    ChangePlan { to_index, added, replaced, unchanged, deleted }
}

/// Every file that is there is either indexed or left as it is, and of those
/// that are indexed each is either new or taken out first.
pub proof fn law_plan_covers(files: Seq<(Seq<char>, i64)>, known: Seq<(Seq<char>, i64)>)
    ensures
        stale_files(files, known).len() + files_with(files, known, FileChange::Unchanged).len()
            == files.len(),
        files_with(files, known, FileChange::New).len() + files_with(
            files,
            known,
            FileChange::Changed,
        ).len() == stale_files(files, known).len(),
    decreases files.len(),
{
    if files.len() > 0 {
        law_plan_covers(files.drop_last(), known);
    }
}

proof fn lemma_up_to_date(files: Seq<(Seq<char>, i64)>, all: Seq<(Seq<char>, i64)>)
    requires
        watcher::once_each(all),
        files.len() <= all.len(),
        files == all.take(files.len() as int),
    ensures
        stale_files(files, all).len() == 0,
    decreases files.len(),
{
    if files.len() > 0 {
        let n = files.len() - 1;
        assert(files.drop_last() =~= all.take(n));
        lemma_up_to_date(files.drop_last(), all);
        assert(files.last() == all[n]);
        watcher::lemma_stamp_at(all, n);
    }
}

/// Once the index knows the files as they are, nothing is done any more.
pub proof fn law_up_to_date(files: Seq<(Seq<char>, i64)>)
    requires
        watcher::once_each(files),
    ensures
        stale_files(files, files).len() == 0,
        watcher::lost_files(files, files).len() == 0,
        files_with(files, files, FileChange::Unchanged).len() == files.len(),
{
    assert(files.take(files.len() as int) =~= files);
    lemma_up_to_date(files, files);
    law_plan_covers(files, files);
    watcher::law_no_changes(files);
    assert(watcher::changes(files, files).len() == watcher::found_changes(files, files).len()
        + watcher::lost_files(files, files).len());
}

/// A file that was cut into chunks.
#[derive(Debug)]
pub struct ParsedFileResult {
    /// Its path.
    pub file_path: String,
    /// Its name.
    pub file_name: String,
    /// When it was changed last.
    pub file_modified: i64,
    /// Its chunks.
    pub chunks: Vec<Chunk>,
}

/// What came of reading a file.
#[derive(Debug)]
pub enum ParseOutcome {
    /// The work was stopped.
    Cancelled,
    /// It was not understood.
    Failed,
    /// The reader broke down.
    Panicked,
    /// Its text.
    Parsed(ParsedDocument),
}

/// `r` is what comes of a file: its chunks, or why there are none.
pub open spec fn is_cut_file(
    r: Result<ParsedFileResult, String>,
    path: Seq<char>,
    name: Seq<char>,
    modified: i64,
    outcome: ParseOutcome,
) -> bool {
    match outcome {
        ParseOutcome::Cancelled => r matches Err(m) && m@ == "cancelled"@,
        ParseOutcome::Failed => r matches Err(m) && m@ == "parse:"@ + name,
        ParseOutcome::Panicked => r matches Err(m) && m@ == "panic:"@ + name,
        ParseOutcome::Parsed(doc) => match r {
            Ok(f) => {
                &&& f.file_path@ == path
                &&& f.file_name@ == name
                &&& f.file_modified == modified
                &&& f.chunks@.len() > 0
                &&& chunker::are_chunks(f.chunks@, doc, path)
            },
            Err(m) => m@ == "empty:"@ + name && chunker::are_chunks(Seq::empty(), doc, path),
        },
    }
}

/// Cuts a file into chunks. Where there are none, the error says why.
pub fn cut_file(path: &str, name: &str, modified: i64, outcome: ParseOutcome) -> (r: Result<
    ParsedFileResult,
    String,
>)
    ensures
        is_cut_file(r, path@, name@, modified, outcome),
{
    match outcome {
        ParseOutcome::Cancelled => Err(edit::owned("cancelled")),
        ParseOutcome::Failed => Err(edit::concat2("parse:", name)),
        ParseOutcome::Panicked => Err(edit::concat2("panic:", name)),
        ParseOutcome::Parsed(doc) => {
            let chunks: Vec<Chunk> = chunker::document_chunks(&doc, path);
            if chunks.len() == 0 {
                assert(chunks@ =~= Seq::empty());
                Err(edit::concat2("empty:", name))
            } else {
                Ok(
                    ParsedFileResult {
                        file_path: edit::owned(path),
                        file_name: edit::owned(name),
                        file_modified: modified,
                        chunks,
                    },
                )
            }
        },
    }
}

/// The error counts: not where the work was stopped or the file has no text.
pub open spec fn counts_as_error(e: Seq<char>) -> bool {
    e != "cancelled"@ && !find::begins(e, "empty:"@)
}

/// The files that were cut.
pub open spec fn cut_files(results: Seq<Result<ParsedFileResult, String>>) -> Seq<ParsedFileResult>
    decreases results.len(),
{
    if results.len() == 0 {
        Seq::empty()
    } else {
        match results.last() {
            Ok(f) => cut_files(results.drop_last()).push(f),
            Err(_) => cut_files(results.drop_last()),
        }
    }
}

/// The errors that count.
pub open spec fn counted_errors(results: Seq<Result<ParsedFileResult, String>>) -> Seq<String>
    decreases results.len(),
{
    if results.len() == 0 {
        Seq::empty()
    } else {
        match results.last() {
            Err(e) => if counts_as_error(e@) {
                counted_errors(results.drop_last()).push(e)
            } else {
                counted_errors(results.drop_last())
            },
            Ok(_) => counted_errors(results.drop_last()),
        }
    }
}

/// Parts the files that were cut from the errors that count.
pub fn sort_results(results: Vec<Result<ParsedFileResult, String>>) -> (r: (
    Vec<ParsedFileResult>,
    Vec<String>,
))
    ensures
        r.0@ == cut_files(results@),
        r.1@ == counted_errors(results@),
        r.0@.len() + r.1@.len() <= results@.len(),
{
    let ghost all = results@;
    let mut files: Vec<ParsedFileResult> = Vec::new();
    let mut errors: Vec<String> = Vec::new();
    let mut rest: Vec<Result<ParsedFileResult, String>> = crate::select::turned(results);
    let ghost mut n: int = 0;
    assert(rest@ =~= all.skip(0).reverse());
    while rest.len() > 0
        invariant
            0 <= n <= all.len(),
            rest@ == all.skip(n).reverse(),
            files@ == cut_files(all.take(n)),
            errors@ == counted_errors(all.take(n)),
            files@.len() + errors@.len() <= n,
        decreases rest@.len(),
    {
        if let Some(result) = rest.pop() {
            proof {
                assert(result == all[n]);
                assert(rest@ =~= all.skip(n + 1).reverse());
                assert(all.take(n + 1).drop_last() =~= all.take(n));
                assert(all.take(n + 1).last() == all[n]);
                n = n + 1;
            }
            match result {
                Ok(f) => {
                    files.push(f);
                },
                Err(e) => {
                    if !find::same(e.as_str(), "cancelled") && !find::starts_with(
                        e.as_str(),
                        "empty:",
                    ) {
                        errors.push(e);
                    }
                },
            }
        }
    }
    assert(all.take(n) =~= all);
    (files, errors)
}

/// The indexing of a folder: what there is to do and what was done.
#[derive(Debug)]
pub struct IndexRun {
    /// The folder.
    pub folder_id: String,
    /// Its name.
    pub folder_name: String,
    /// All files that are there.
    pub total_files: usize,
    /// The files that are new or changed.
    pub to_index: usize,
    /// The files that were cut into chunks.
    pub parsed: usize,
    /// The files that stay as they are.
    pub unchanged: usize,
    /// The files that were taken out.
    pub deleted: usize,
    /// The files that were indexed.
    pub indexed: usize,
    /// The files that failed.
    pub errors: usize,
    /// The chunks that were indexed.
    pub chunks: usize,
    /// The vectors that were made.
    pub vectors: usize,
}

/// The end of a message on so many files, none where there are none.
pub open spec fn if_any(n: nat, tail: Seq<char>) -> Seq<char> {
    if n > 0 {
        ", "@ + number::decimal(n) + tail
    } else {
        Seq::empty()
    }
}

fn add_if_any(out: &mut String, n: usize, tail: &str)
    ensures
        final(out)@ == old(out)@ + if_any(n as nat, tail@),
{
    let ghost start = out@;
    if n > 0 {
        out.append(", ");
        out.append(number::to_decimal(n as u128).as_str());
        out.append(tail);
    }
    assert(out@ =~= start + if_any(n as nat, tail@));
}

impl IndexRun {
    /// The counts of the work in `e`, and no others.
    pub open spec fn is_event(
        self,
        e: IndexProgressEvent,
        phase: Seq<char>,
        file: Seq<char>,
        index: int,
        files: int,
        message: Seq<char>,
    ) -> bool {
        &&& e.folder_id@ == self.folder_id@
        &&& e.folder_name@ == self.folder_name@
        &&& e.phase@ == phase
        &&& e.current_file@ == file
        &&& e.current_index == index
        &&& e.total_files == files
        &&& e.indexed_count == self.indexed
        &&& e.error_count == self.errors
        &&& e.total_vectors == self.vectors
        &&& e.message@ == message
    }

    fn event(
        &self,
        phase: &str,
        file: &str,
        index: usize,
        files: usize,
        message: String,
    ) -> (e: IndexProgressEvent)
        ensures
            self.is_event(e, phase@, file@, index as int, files as int, message@),
    {
        IndexProgressEvent {
            folder_id: self.folder_id.clone(),
            folder_name: self.folder_name.clone(),
            phase: edit::owned(phase),
            current_file: edit::owned(file),
            current_index: index,
            total_files: files,
            indexed_count: self.indexed,
            error_count: self.errors,
            total_vectors: self.vectors,
            message,
        }
    }

    /// The work on a folder begins.
    pub fn new(folder_id: &str, folder_name: &str) -> (r: IndexRun)
        ensures
            r.folder_id@ == folder_id@,
            r.folder_name@ == folder_name@,
            r.total_files == 0,
            r.to_index == 0,
            r.parsed == 0,
            r.unchanged == 0,
            r.deleted == 0,
            r.indexed == 0,
            r.errors == 0,
            r.chunks == 0,
            r.vectors == 0,
    {
        IndexRun {
            folder_id: edit::owned(folder_id),
            folder_name: edit::owned(folder_name),
            total_files: 0,
            to_index: 0,
            parsed: 0,
            unchanged: 0,
            deleted: 0,
            indexed: 0,
            errors: 0,
            chunks: 0,
            vectors: 0,
        }
    }

    /// The folder is looked through.
    pub fn scanning(&self) -> (e: IndexProgressEvent)
        ensures
            self.is_event(
                e,
                "scanning"@,
                Seq::empty(),
                0,
                0,
                "Đang quét thư mục "@ + self.folder_name@ + "..."@,
            ),
    {
        let m: String = edit::concat3("Đang quét thư mục ", self.folder_name.as_str(), "...");
        proof {
            reveal_strlit("");
            assert(""@ =~= Seq::<char>::empty());
        }
        self.event("scanning", "", 0, 0, m)
    }

    /// No more files count as indexed or failed than there were to index, and no
    /// more of those and the unchanged ones than there are.
    pub open spec fn within(self) -> bool {
        &&& self.to_index + self.unchanged <= self.total_files
        &&& self.indexed + self.errors <= self.to_index
    }

    /// The first `i` files that were cut are counted, and there is room for the
    /// others.
    pub open spec fn counted(self, i: int) -> bool {
        &&& self.to_index + self.unchanged <= self.total_files
        &&& 0 <= i <= self.parsed
        &&& self.indexed + self.errors + (self.parsed - i) <= self.to_index
    }

    /// Takes the plan, and says whether the work ends with it: where there is no
    /// file at all, or nothing to index.
    pub fn begin(&mut self, files: usize, plan: &ChangePlan) -> (r: Option<IndexProgressEvent>)
        requires
            old(self).indexed == 0,
            old(self).errors == 0,
            old(self).vectors == 0,
            plan.to_index@.len() + plan.unchanged <= files,
        ensures
            final(self).within(),
            final(self).folder_id == old(self).folder_id,
            final(self).folder_name == old(self).folder_name,
            final(self).total_files == files,
            final(self).to_index == plan.to_index@.len(),
            final(self).unchanged == plan.unchanged,
            final(self).deleted == plan.deleted@.len(),
            final(self).parsed == old(self).parsed,
            final(self).indexed == 0,
            final(self).errors == 0,
            final(self).chunks == old(self).chunks,
            final(self).vectors == 0,
            files == 0 ==> (r matches Some(e) && final(self).is_event(
                e,
                "done"@,
                Seq::empty(),
                0,
                0,
                "Không tìm thấy file hỗ trợ trong "@ + old(self).folder_name@,
            )),
            files > 0 && plan.to_index@.len() == 0 ==> (r matches Some(e) && {
                &&& e.folder_id@ == old(self).folder_id@
                &&& e.folder_name@ == old(self).folder_name@
                &&& e.phase@ == "done"@
                &&& e.current_file@.len() == 0
                &&& e.current_index == 0
                &&& e.total_files == files
                &&& e.indexed_count == plan.unchanged
                &&& e.error_count == 0
                &&& e.total_vectors == 0
                &&& e.message@ == "✅ Không có thay đổi ("@ + number::decimal(
                    plan.unchanged as nat,
                ) + " file đã index"@ + if_any(plan.deleted@.len(), " file đã xóa"@) + ")"@
            }),
            files > 0 && plan.to_index@.len() > 0 ==> r is None,
    {
        self.total_files = files;
        self.to_index = plan.to_index.len();
        self.unchanged = plan.unchanged;
        self.deleted = plan.deleted.len();
        proof {
            reveal_strlit("");
            assert(""@ =~= Seq::<char>::empty());
        }
        if files == 0 {
            let m: String = edit::concat2(
                "Không tìm thấy file hỗ trợ trong ",
                self.folder_name.as_str(),
            );
            return Some(self.event("done", "", 0, 0, m));
        }
        if plan.to_index.len() == 0 {
            let mut m: String = edit::owned("✅ Không có thay đổi (");
            m.append(number::to_decimal(self.unchanged as u128).as_str());
            m.append(" file đã index");
            add_if_any(&mut m, self.deleted, " file đã xóa");
            m.append(")");
            let mut e: IndexProgressEvent = self.event("done", "", 0, files, m);
            e.indexed_count = self.unchanged;
            return Some(e);
        }
        None
    }

    /// The files are cut into chunks, on so many cores.
    pub fn parsing(&self, cores: usize) -> (e: IndexProgressEvent)
        ensures
            self.is_event(
                e,
                "parsing"@,
                Seq::empty(),
                0,
                self.to_index as int,
                "⚡ Đang parse "@ + number::decimal(self.to_index as nat)
                    + " files song song ("@ + number::decimal(cores as nat) + " CPU cores)..."@,
            ),
    {
        proof {
            reveal_strlit("");
            assert(""@ =~= Seq::<char>::empty());
        }
        let n: String = number::to_decimal(self.to_index as u128);
        let c: String = number::to_decimal(cores as u128);
        let mut m: String = edit::concat3("⚡ Đang parse ", n.as_str(), " files song song (");
        m.append(c.as_str());
        m.append(" CPU cores)...");
        self.event("parsing", "", 0, self.to_index, m)
    }

    /// Takes the number of files that were cut and of those that failed.
    pub fn parsed(&mut self, files: usize, errors: usize)
        requires
            old(self).within(),
            old(self).indexed + files + errors <= old(self).to_index,
        ensures
            *final(self) == (IndexRun { parsed: files, errors, ..*old(self) }),
            final(self).counted(0),
    {
        self.parsed = files;
        self.errors = errors;
    }

    /// A file is indexed, the one at a place from 0 on.
    pub fn file_begins(&self, i: usize, name: &str) -> (e: IndexProgressEvent)
        requires
            i < self.parsed,
        ensures
            self.is_event(
                e,
                "indexing"@,
                name@,
                i + 1,
                self.parsed as int,
                "Đang index: "@ + name@ + " ("@ + number::decimal((i + 1) as nat) + "/"@
                    + number::decimal(self.parsed as nat) + ")"@,
            ),
    {
        let n: String = number::to_decimal(i as u128 + 1);
        let p: String = number::to_decimal(self.parsed as u128);
        let mut m: String = edit::concat3("Đang index: ", name, " (");
        m.append(n.as_str());
        m.append("/");
        m.append(p.as_str());
        m.append(")");
        self.event("indexing", name, i + 1, self.parsed, m)
    }

    /// The vectors of a file are made.
    pub fn file_embeds(&self, i: usize, name: &str, chunks: usize) -> (e: IndexProgressEvent)
        requires
            i < self.parsed,
        ensures
            self.is_event(
                e,
                "indexing"@,
                name@,
                i + 1,
                self.parsed as int,
                "Đang embed: "@ + name@ + " ("@ + number::decimal(chunks as nat)
                    + " chunks, tổng "@ + number::decimal(self.vectors as nat) + " vectors)"@,
            ),
    {
        let c: String = number::to_decimal(chunks as u128);
        let v: String = number::to_decimal(self.vectors as u128);
        let mut m: String = edit::concat3("Đang embed: ", name, " (");
        m.append(c.as_str());
        m.append(" chunks, tổng ");
        m.append(v.as_str());
        m.append(" vectors)");
        self.event("indexing", name, i + 1, self.parsed, m)
    }

    /// So many vectors of a file were made so far.
    pub fn batch_done(&self, i: usize, name: &str, done: usize) -> (e: IndexProgressEvent)
        requires
            i < self.parsed,
            self.vectors + done <= usize::MAX,
        ensures
            e.folder_id@ == self.folder_id@,
            e.folder_name@ == self.folder_name@,
            e.phase@ == "indexing"@,
            e.current_file@ == name@,
            e.current_index == i + 1,
            e.total_files == self.parsed,
            e.indexed_count == self.indexed,
            e.error_count == self.errors,
            e.total_vectors == self.vectors + done,
            e.message@ == "Đang embed: "@ + number::decimal((self.vectors + done) as nat)
                + " vectors..."@,
    {
        let running: usize = self.vectors + done;
        let n: String = number::to_decimal(running as u128);
        let m: String = edit::concat3("Đang embed: ", n.as_str(), " vectors...");
        let mut e: IndexProgressEvent = self.event("indexing", name, i + 1, self.parsed, m);
        e.total_vectors = running;
        e
    }

    /// A file could not be indexed, the one at a place from 0 on.
    pub fn file_failed(&mut self, i: usize)
        requires
            i < old(self).parsed,
            old(self).counted(i as int),
        ensures
            *final(self) == (IndexRun { errors: (old(self).errors + 1) as usize, ..*old(self) }),
            final(self).counted(i + 1),
            final(self).within(),
    {
        self.errors = self.errors + 1;
    }

    /// The vectors of a file were made.
    pub fn embedded(&mut self, vectors: usize)
        requires
            old(self).vectors + vectors <= usize::MAX,
        ensures
            *final(self) == (IndexRun {
                vectors: (old(self).vectors + vectors) as usize,
                ..*old(self)
            }),
    {
        self.vectors = self.vectors + vectors;
    }

    /// A file was indexed.
    pub fn file_done(&mut self, i: usize, name: &str, chunks: usize) -> (e: IndexProgressEvent)
        requires
            i < old(self).parsed,
            old(self).counted(i as int),
            old(self).chunks + chunks <= usize::MAX,
        ensures
            final(self).counted(i + 1),
            final(self).within(),
            *final(self) == (IndexRun {
                indexed: (old(self).indexed + 1) as usize,
                chunks: (old(self).chunks + chunks) as usize,
                ..*old(self)
            }),
            final(self).is_event(
                e,
                "indexing"@,
                name@,
                i + 1,
                old(self).parsed as int,
                "Đã index: "@ + name@ + " ("@ + number::decimal(final(self).indexed as nat) + "/"@
                    + number::decimal(old(self).parsed as nat) + ") — "@ + number::decimal(
                    old(self).vectors as nat,
                ) + " vectors"@,
            ),
    {
        self.indexed = self.indexed + 1;
        self.chunks = self.chunks + chunks;
        let n: String = number::to_decimal(self.indexed as u128);
        let p: String = number::to_decimal(self.parsed as u128);
        let v: String = number::to_decimal(self.vectors as u128);
        let mut m: String = edit::concat3("Đã index: ", name, " (");
        m.append(n.as_str());
        m.append("/");
        m.append(p.as_str());
        m.append(") — ");
        m.append(v.as_str());
        m.append(" vectors");
        self.event("indexing", name, i + 1, self.parsed, m)
    }

    /// What is shown at the end.
    pub open spec fn end_message(self, stopped: bool) -> Seq<char> {
        if stopped {
            "Đã dừng: "@ + number::decimal(self.indexed as nat) + " files đã xử lý, "@
                + number::decimal(self.chunks as nat) + " chunks"@ + if_any(
                self.errors as nat,
                " lỗi"@,
            )
        } else {
            "Hoàn tất: "@ + number::decimal(self.indexed as nat)
                + " files mới/thay đổi, "@ + number::decimal(self.chunks as nat) + " chunks"@
                + if_any(self.errors as nat, " lỗi"@) + if_any(
                self.unchanged as nat,
                " file không đổi"@,
            ) + if_any(self.deleted as nat, " file đã xóa"@)
        }
    }

    /// The work ended, or was stopped: what is shown, and how many files there
    /// are and how many of them are indexed.
    pub fn finish(&self, stopped: bool) -> (r: (IndexProgressEvent, (usize, usize)))
        requires
            self.within(),
        ensures
            r.1 == (self.total_files, (self.indexed + self.unchanged) as usize),
            r.1.1 + self.errors <= r.1.0,
            r.0.folder_id@ == self.folder_id@,
            r.0.folder_name@ == self.folder_name@,
            r.0.phase@ == if stopped {
                "stopped"@
            } else {
                "done"@
            },
            r.0.current_file@.len() == 0,
            r.0.current_index == if stopped {
                self.indexed
            } else {
                self.to_index
            },
            r.0.total_files == self.to_index,
            r.0.indexed_count == self.indexed + self.unchanged,
            r.0.error_count == self.errors,
            r.0.total_vectors == self.vectors,
            r.0.message@ == self.end_message(stopped),
    {
        proof {
            reveal_strlit("");
            assert(""@ =~= Seq::<char>::empty());
        }
        let n: String = number::to_decimal(self.indexed as u128);
        let c: String = number::to_decimal(self.chunks as u128);
        let mut m: String = String::new();
        if stopped {
            m.append("Đã dừng: ");
            m.append(n.as_str());
            m.append(" files đã xử lý, ");
            m.append(c.as_str());
            m.append(" chunks");
            add_if_any(&mut m, self.errors, " lỗi");
        } else {
            m.append("Hoàn tất: ");
            m.append(n.as_str());
            m.append(" files mới/thay đổi, ");
            m.append(c.as_str());
            m.append(" chunks");
            add_if_any(&mut m, self.errors, " lỗi");
            add_if_any(&mut m, self.unchanged, " file không đổi");
            add_if_any(&mut m, self.deleted, " file đã xóa");
        }
        assert(m@ =~= self.end_message(stopped));
        let phase: &str = if stopped {
            "stopped"
        } else {
            "done"
        };
        let index: usize = if stopped {
            self.indexed
        } else {
            self.to_index
        };
        let mut e: IndexProgressEvent = self.event(phase, "", index, self.to_index, m);
        e.indexed_count = self.indexed + self.unchanged;
        (e, (self.total_files, self.indexed + self.unchanged))
    }
}

/// The hash of bytes: from 5381 on, times 33 and plus the byte, in 64 bits.
pub open spec fn djb2(bytes: Seq<u8>) -> u64
    decreases bytes.len(),
{
    if bytes.len() == 0 {
        5381
    } else {
        ((djb2(bytes.drop_last()) * 33 + bytes.last()) % 0x1_0000_0000_0000_0000) as u64
    }
}

/// The hash of the bytes of a text.
pub fn djb2_hash(input: &str) -> (r: u64)
    ensures
        r == djb2(vstd::utf8::encode_utf8(input@)),
{
    let bytes: &[u8] = input.as_bytes();
    let mut hash: u64 = 5381;
    let mut i: usize = 0;
    while i < bytes.len()
        invariant
            i <= bytes@.len(),
            hash == djb2(bytes@.take(i as int)),
        decreases bytes@.len() - i,
    {
        assert(bytes@.take(i + 1).drop_last() =~= bytes@.take(i as int));
        let ghost before = hash;
        hash = hash.wrapping_mul(33).wrapping_add(bytes[i] as u64);
        assert(hash as int == (before * 33 + bytes@[i as int]) % 0x1_0000_0000_0000_0000);
        i += 1;
    }
    assert(bytes@.take(bytes@.len() as int) =~= bytes@);
    hash
}

/// The fingerprint of a path: the hash in hexadecimal digits.
pub fn path_hash(path: &str) -> (r: String)
    ensures
        r@ == number::hex(djb2(vstd::utf8::encode_utf8(path@)) as nat),
{
    number::to_hex(djb2_hash(path) as u128)
}

/// Whether the records are cleared: there are files but no folder.
pub fn has_orphans(folders: usize, files: usize) -> (r: bool)
    ensures
        r == (folders == 0 && files > 0),
{
    folders == 0 && files > 0
}

/// How far the indexing is, given how many files there are, how many are
/// indexed and how many failed.
pub fn index_status(total: usize, indexed: usize, errors: usize) -> (r: IndexStatus)
    ensures
        r.total_files == total,
        r.indexed_files == indexed,
        r.error_files == errors,
        r.pending_files == if indexed + errors <= total {
            total - indexed - errors
        } else {
            0
        },
        !r.is_indexing,
        r.current_file is None,
{
    let rest: usize = if indexed <= total {
        total - indexed
    } else {
        0
    };
    IndexStatus {
        total_files: total,
        indexed_files: indexed,
        pending_files: if errors <= rest {
            rest - errors
        } else {
            0
        },
        error_files: errors,
        is_indexing: false,
        current_file: None,
    }
}

/// What came of making the vectors of a file again.
#[derive(Debug)]
pub enum RetryOutcome {
    /// The file is not there.
    Missing,
    /// It was not understood.
    Unparsed,
    /// It has no chunks.
    NoChunks,
    /// So many vectors were made.
    Embedded(usize),
    /// The vectors were not made.
    Failed(EmbeddingError),
}

/// Making the vectors of files again.
#[derive(Clone, Copy, Debug)]
pub struct RetryRun {
    /// How many files there are.
    pub total: usize,
    /// How many have vectors now.
    pub success: usize,
    /// How many failed.
    pub failed: usize,
}

impl RetryRun {
    /// The counts after a file, and whether the work ends: a quota that is used
    /// up ends it, and is no failure of the file.
    pub open spec fn after(self, outcome: RetryOutcome) -> (RetryRun, bool) {
        match outcome {
            RetryOutcome::Missing => (
                RetryRun { failed: (self.failed + 1) as usize, ..self },
                false,
            ),
            RetryOutcome::Unparsed => (
                RetryRun { failed: (self.failed + 1) as usize, ..self },
                false,
            ),
            RetryOutcome::NoChunks => (self, false),
            RetryOutcome::Embedded(n) => if n > 0 {
                (RetryRun { success: (self.success + 1) as usize, ..self }, false)
            } else {
                (self, false)
            },
            RetryOutcome::Failed(e) => if e is QuotaExhausted {
                (self, true)
            } else {
                (RetryRun { failed: (self.failed + 1) as usize, ..self }, false)
            },
        }
    }

    /// The work on so many files begins.
    pub fn new(total: usize) -> (r: RetryRun)
        ensures
            r == (RetryRun { total, success: 0, failed: 0 }),
    {
        RetryRun { total, success: 0, failed: 0 }
    }

    /// Counts what came of a file, and says whether the work ends.
    pub fn count(&mut self, outcome: RetryOutcome) -> (stop: bool)
        requires
            old(self).success + old(self).failed < old(self).total,
        ensures
            (*final(self), stop) == old(self).after(outcome),
            final(self).success + final(self).failed <= old(self).success + old(self).failed + 1,
    {
        match outcome {
            RetryOutcome::Missing => {
                self.failed = self.failed + 1;
                false
            },
            RetryOutcome::Unparsed => {
                self.failed = self.failed + 1;
                false
            },
            RetryOutcome::NoChunks => false,
            RetryOutcome::Embedded(n) => {
                if n > 0 {
                    self.success = self.success + 1;
                }
                false
            },
            RetryOutcome::Failed(e) => match e {
                EmbeddingError::QuotaExhausted(_, _) => true,
                _ => {
                    self.failed = self.failed + 1;
                    false
                },
            },
        }
    }

    /// What is shown at the end.
    pub fn message(&self) -> (r: String)
        ensures
            r@ == if self.total == 0 {
                "Không có file nào cần retry"@
            } else {
                "Retry xong: "@ + number::decimal(self.success as nat) + "/"@ + number::decimal(
                    self.total as nat,
                ) + " thành công"@
            },
    {
        if self.total == 0 {
            edit::owned("Không có file nào cần retry")
        } else {
            let s: String = number::to_decimal(self.success as u128);
            let t: String = number::to_decimal(self.total as u128);
            let mut m: String = edit::concat3("Retry xong: ", s.as_str(), "/");
            m.append(t.as_str());
            m.append(" thành công");
            m
        }
    }
}

/// A chunk as it is shown.
#[derive(Debug)]
pub struct ChunkRow {
    /// Its place.
    pub index: usize,
    /// The chunk.
    pub meta: VectorMeta,
    /// Its bytes.
    pub char_count: usize,
    /// Its tokens, as estimated.
    pub token_estimate: usize,
}

/// The chunks of a file as they are shown.
pub fn chunk_rows(metas: &Vec<VectorMeta>) -> (r: Vec<ChunkRow>)
    ensures
        r@.len() == metas@.len(),
        forall|i: int|
            0 <= i < r@.len() ==> {
                let row = #[trigger] r@[i];
                &&& row.index == i
                &&& row.meta == metas@[i]
                &&& row.char_count == chars::utf8_len(metas@[i].content@)
                &&& row.token_estimate == context_guard::tokens(metas@[i].content@)
            },
{
    let mut out: Vec<ChunkRow> = Vec::new();
    let mut i: usize = 0;
    while i < metas.len()
        invariant
            i <= metas@.len(),
            out@.len() == i,
            forall|k: int|
                0 <= k < i ==> {
                    let row = #[trigger] out@[k];
                    &&& row.index == k
                    &&& row.meta == metas@[k]
                    &&& row.char_count == chars::utf8_len(metas@[k].content@)
                    &&& row.token_estimate == context_guard::tokens(metas@[k].content@)
                },
        decreases metas@.len() - i,
    {
        let content: &str = metas[i].content.as_str();
        out.push(
            ChunkRow {
                index: i,
                meta: metas[i].clone(),
                char_count: chars::byte_len(content),
                token_estimate: context_guard::estimate_tokens(content),
            },
        );
        i += 1;
    }
    out
}

proof fn lemma_change_of(known: Seq<(Seq<char>, i64)>, file: (Seq<char>, i64))
    requires
        watcher::once_each(known),
    ensures
        change_of(known, file.0, file.1) == FileChange::Unchanged <==> known.contains(file),
        change_of(known, file.0, file.1) == FileChange::New <==> forall|k: int|
            0 <= k < known.len() ==> (#[trigger] known[k]).0 != file.0,
{
    watcher::lemma_stamp_of(known, file.0);
    if watcher::has_file(known, file.0) {
        let k = choose|k: int| 0 <= k < known.len() && (#[trigger] known[k]).0 == file.0;
        watcher::lemma_stamp_at(known, k);
        if known.contains(file) {
            let j = choose|j: int| 0 <= j < known.len() && known[j] == file;
            watcher::lemma_stamp_at(known, j);
        }
        if known[k].1 == file.1 {
            assert(known[k] == file);
        }
    } else if known.contains(file) {
        let j = choose|j: int| 0 <= j < known.len() && known[j] == file;
        assert(known[j].0 == file.0);
    }
}

/// What brings the index up to date: exactly those files are indexed, in order,
/// that are not known with the same time of change.
pub proof fn law_stale_files(files: Seq<(Seq<char>, i64)>, known: Seq<(Seq<char>, i64)>) -> (ps: Seq<
    int,
>)
    requires
        watcher::once_each(known),
    ensures
        select::exactly(ps, files.len() as int, |i: int| !known.contains(files[i])),
        stale_files(files, known) == Seq::new(ps.len(), |k: int| files[ps[k]]),
{
    let n = files.len() as int;
    let p = |i: int| !known.contains(files[i]);
    let f = |m: int| stale_files(files.take(m), known);
    assert forall|m: int| 0 < m <= n implies #[trigger] f(m) == if p(m - 1) {
        f(m - 1).push(files[m - 1])
    } else {
        f(m - 1)
    } by {
        assert(files.take(m).drop_last() =~= files.take(m - 1));
        lemma_change_of(known, files[m - 1]);
    }
    assert(files.take(n) =~= files);
    select::lemma_exactly(n, p, |i: int| files[i], f)
}

/// Of the files that are indexed exactly those are new that are not known at all.
pub proof fn law_new_files(files: Seq<(Seq<char>, i64)>, known: Seq<(Seq<char>, i64)>) -> (ps: Seq<
    int,
>)
    requires
        watcher::once_each(known),
    ensures
        select::exactly(
            ps,
            files.len() as int,
            |i: int| forall|k: int| 0 <= k < known.len() ==> (#[trigger] known[k]).0 != files[i].0,
        ),
        files_with(files, known, FileChange::New) == Seq::new(ps.len(), |k: int| files[ps[k]].0),
{
    let n = files.len() as int;
    let p = |i: int| forall|k: int| 0 <= k < known.len() ==> (#[trigger] known[k]).0 != files[i].0;
    let f = |m: int| files_with(files.take(m), known, FileChange::New);
    assert forall|m: int| 0 < m <= n implies #[trigger] f(m) == if p(m - 1) {
        f(m - 1).push(files[m - 1].0)
    } else {
        f(m - 1)
    } by {
        assert(files.take(m).drop_last() =~= files.take(m - 1));
        lemma_change_of(known, files[m - 1]);
    }
    assert(files.take(n) =~= files);
    select::lemma_exactly(n, p, |i: int| files[i].0, f)
}

/// Exactly those files are taken out before they are indexed that are known, but
/// with another time of change.
pub proof fn law_replaced_files(
    files: Seq<(Seq<char>, i64)>,
    known: Seq<(Seq<char>, i64)>,
) -> (ps: Seq<int>)
    requires
        watcher::once_each(known),
    ensures
        select::exactly(
            ps,
            files.len() as int,
            |i: int| watcher::has_file(known, files[i].0) && !known.contains(files[i]),
        ),
        files_with(files, known, FileChange::Changed) == Seq::new(
            ps.len(),
            |k: int| files[ps[k]].0,
        ),
{
    let n = files.len() as int;
    let p = |i: int| watcher::has_file(known, files[i].0) && !known.contains(files[i]);
    let f = |m: int| files_with(files.take(m), known, FileChange::Changed);
    assert forall|m: int| 0 < m <= n implies #[trigger] f(m) == if p(m - 1) {
        f(m - 1).push(files[m - 1].0)
    } else {
        f(m - 1)
    } by {
        assert(files.take(m).drop_last() =~= files.take(m - 1));
        lemma_change_of(known, files[m - 1]);
    }
    assert(files.take(n) =~= files);
    select::lemma_exactly(n, p, |i: int| files[i].0, f)
}

/// Every file that was cut is taken over, in order, and every error is, but for
/// those that say that the work was stopped or that a file has no text.
pub proof fn law_sorted_results(results: Seq<Result<ParsedFileResult, String>>) -> (r: (
    Seq<int>,
    Seq<int>,
))
    ensures
        select::exactly(r.0, results.len() as int, |i: int| results[i] is Ok),
        cut_files(results) == Seq::new(r.0.len(), |k: int| results[r.0[k]]->Ok_0),
        select::exactly(
            r.1,
            results.len() as int,
            |i: int|
                results[i] is Err && results[i]->Err_0@ != "cancelled"@ && !"empty:"@.is_prefix_of(
                    results[i]->Err_0@,
                ),
        ),
        counted_errors(results) == Seq::new(r.1.len(), |k: int| results[r.1[k]]->Err_0),
{
    let n = results.len() as int;
    let p = |i: int| results[i] is Ok;
    let q = |i: int|
        results[i] is Err && results[i]->Err_0@ != "cancelled"@ && !"empty:"@.is_prefix_of(
            results[i]->Err_0@,
        );
    let f = |m: int| cut_files(results.take(m));
    let g = |m: int| counted_errors(results.take(m));
    assert forall|m: int| 0 < m <= n implies #[trigger] f(m) == if p(m - 1) {
        f(m - 1).push(results[m - 1]->Ok_0)
    } else {
        f(m - 1)
    } by {
        assert(results.take(m).drop_last() =~= results.take(m - 1));
    }
    assert forall|m: int| 0 < m <= n implies #[trigger] g(m) == if q(m - 1) {
        g(m - 1).push(results[m - 1]->Err_0)
    } else {
        g(m - 1)
    } by {
        assert(results.take(m).drop_last() =~= results.take(m - 1));
        if results[m - 1] is Err {
            let e = results[m - 1]->Err_0@;
            let pat = "empty:"@;
            assert(find::begins(e, pat) == pat.is_prefix_of(e)) by {
                if pat.len() <= e.len() {
                    assert(e.subrange(0, (0 + pat.len()) as int) =~= e.subrange(0, pat.len() as int));
                }
            }
        }
    }
    assert(results.take(n) =~= results);
    let a = select::lemma_exactly(n, p, |i: int| results[i]->Ok_0, f);
    let b = select::lemma_exactly(n, q, |i: int| results[i]->Err_0, g);
    (a, b)
}

/// The hash of bytes takes them in one by one.
pub proof fn law_djb2(bytes: Seq<u8>, b: u8)
    ensures
        djb2(Seq::empty()) == 5381,
        djb2(bytes.push(b)) as int == (djb2(bytes) * 33 + b) % 0x1_0000_0000_0000_0000,
{
    assert(bytes.push(b).drop_last() =~= bytes);
}

impl RetryRun {
    /// A file counts as done where it has vectors now, and as failed where it is
    /// gone, cannot be read or the vectors were refused; only a quota that is used up
    /// ends the work, and counts as neither.
    pub proof fn law_after(self, outcome: RetryOutcome)
        requires
            self.success + self.failed < usize::MAX,
        ensures
            self.after(outcome).0.success == self.success + if outcome matches RetryOutcome::Embedded(
                n,
            ) && n > 0 {
                1int
            } else {
                0
            },
            self.after(outcome).0.failed == self.failed + if outcome is Missing || outcome
                is Unparsed || (outcome matches RetryOutcome::Failed(e) && !(e is QuotaExhausted)) {
                1int
            } else {
                0
            },
            self.after(outcome).1 <==> (outcome matches RetryOutcome::Failed(e) && e
                is QuotaExhausted),
            self.after(outcome).0.total == self.total,
    {
    }
}

/// A file whose work was not stopped comes to its chunks, under its path, its name and
/// its time, or to an error with its name; there is no file without a chunk, and
/// every reason has a front of its own.
pub proof fn law_cut_file(
    r: Result<ParsedFileResult, String>,
    path: Seq<char>,
    name: Seq<char>,
    modified: i64,
    outcome: ParseOutcome,
)
    requires
        is_cut_file(r, path, name, modified, outcome),
    ensures
        r matches Ok(f) ==> outcome is Parsed && f.file_path@ == path && f.file_name@ == name
            && f.file_modified == modified && f.chunks@.len() > 0 && forall|i: int|
            0 <= i < f.chunks@.len() ==> (#[trigger] f.chunks@[i]).file_path@ == path,
        r is Err && !(outcome is Cancelled) ==> name.is_suffix_of(r->Err_0@),
        r is Err && (outcome is Parsed || outcome is Cancelled) ==> !counts_as_error(r->Err_0@),
        outcome is Failed || outcome is Panicked ==> r is Err && counts_as_error(r->Err_0@),
{
    reveal_strlit("cancelled");
    reveal_strlit("parse:");
    reveal_strlit("panic:");
    reveal_strlit("empty:");
    if let Ok(f) = r {
        if let ParseOutcome::Parsed(doc) = outcome {
            chunker::law_document_chunks(f.chunks@, doc, path);
        }
    }
    if let Err(m) = r {
        if !(outcome is Cancelled) {
            assert(m@.subrange(m@.len() - name.len(), m@.len() as int) =~= name);
        }
        if outcome is Parsed {
            assert(m@.subrange(0, (0 + "empty:"@.len()) as int) =~= "empty:"@);
        }
        if outcome is Failed || outcome is Panicked {
            assert(m@[0] == 'p');
            assert("cancelled"@[0] == 'c' && "empty:"@[0] == 'e');
            if find::begins(m@, "empty:"@) {
                assert(m@.subrange(0, (0 + "empty:"@.len()) as int)[0] == m@[0]);
            }
        }
    }
}

impl IndexRun {
    /// What is reported of the work has its counts, each where it belongs.
    pub proof fn law_event(
        self,
        e: IndexProgressEvent,
        phase: Seq<char>,
        file: Seq<char>,
        index: int,
        files: int,
        message: Seq<char>,
    )
        requires
            self.is_event(e, phase, file, index, files, message),
        ensures
            e.indexed_count == self.indexed,
            e.error_count == self.errors,
            e.total_vectors == self.vectors,
            e.current_index == index,
            e.total_files == files,
            e.folder_id@ == self.folder_id@ && e.folder_name@ == self.folder_name@,
            e.phase@ == phase && e.current_file@ == file && e.message@ == message,
    {
    }
}

} // verus!
