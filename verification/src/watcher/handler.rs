//! From the change of a file to the chunks that are indexed.
use vstd::prelude::*;

use crate::identity;
use crate::indexer::chunker;
use crate::indexer::chunker::Chunk;
use crate::parser;
use crate::parser::DocumentMetadata;
use crate::parser::ParseError;
use crate::parser::ParsedDocument;
use crate::text::edit;
use crate::watcher::FileEvent;

verus! {

/// Handles the changes of files.
#[derive(Clone, Copy, Debug)]
pub struct EventHandler;

/// What came of reading the file.
#[derive(Debug)]
pub enum FileRead {
    /// Files of this kind are not read.
    Unsupported,
    /// It was not understood.
    Unparsed(ParseError),
    /// Its text was taken out, but its bytes could not be read.
    Unread(ParsedDocument, String),
    /// Its text and its bytes.
    Read(ParsedDocument, Vec<u8>),
}

/// What is done about a change.
#[derive(Debug)]
pub enum ProcessResult {
    /// The file is indexed.
    Processed {
        /// The path of the file.
        file_path: String,
        /// Its fingerprint.
        file_hash: String,
        /// How many chunks there are.
        chunk_count: usize,
        /// The chunks.
        chunks: Vec<Chunk>,
        /// What is known of the file.
        metadata: DocumentMetadata,
    },
    /// The file is taken out of the index.
    Deleted(String),
}

/// `r` is the indexing of the document with these bytes.
pub open spec fn is_processed(r: ProcessResult, doc: ParsedDocument, bytes: Seq<u8>) -> bool {
    match r {
        ProcessResult::Processed { file_path, file_hash, chunk_count, chunks, metadata } => {
            &&& file_path == doc.file_path
            &&& file_hash@ == identity::sha256_text(bytes)
            &&& chunk_count == chunks@.len()
            &&& chunker::are_text_chunks(chunks@, doc, doc.file_path@)
            &&& metadata == doc.metadata
        },
        ProcessResult::Deleted(_) => false,
    }
}

/// What is done about a file that is new or modified.
pub open spec fn file_outcome(
    path: Seq<char>,
    file: FileRead,
    r: Result<ProcessResult, String>,
) -> bool {
    match file {
        FileRead::Unsupported => r matches Err(m) && m@ == "Định dạng không hỗ trợ: "@ + path,
        FileRead::Unparsed(e) => r matches Err(m) && m@ == "Lỗi parse: "@ + parser::error_text(e),
        FileRead::Unread(_, e) => r matches Err(m) && m@ == "Lỗi đọc file: "@ + e@,
        FileRead::Read(doc, bytes) => r matches Ok(p) && is_processed(p, doc, bytes@),
    }
}

impl EventHandler {
    /// What is done about a change. A file that is gone is taken out, whatever
    /// was read; one that is new or modified is cut into chunks.
    pub fn handle_event(event: &FileEvent, file: FileRead) -> (r: Result<ProcessResult, String>)
        ensures
            match event {
                FileEvent::Created(path) => file_outcome(path@, file, r),
                FileEvent::Modified(path) => file_outcome(path@, file, r),
                FileEvent::Deleted(path) => r matches Ok(ProcessResult::Deleted(p)) && p@ == path@,
            },
    {
        match event {
            FileEvent::Created(path) => EventHandler::process_file(path.as_str(), file),
            FileEvent::Modified(path) => EventHandler::process_file(path.as_str(), file),
            FileEvent::Deleted(path) => Ok(ProcessResult::Deleted(path.clone())),
        }
    }

    /// What is done about a file that is new or modified.
    pub fn process_file(path: &str, file: FileRead) -> (r: Result<ProcessResult, String>)
        ensures
            file_outcome(path@, file, r),
    {
        match file {
            FileRead::Unsupported => Err(edit::concat2("Định dạng không hỗ trợ: ", path)),
            FileRead::Unparsed(e) => Err(edit::concat2("Lỗi parse: ", e.message().as_str())),
            FileRead::Unread(_, e) => Err(edit::concat2("Lỗi đọc file: ", e.as_str())),
            FileRead::Read(doc, bytes) => {
                let chunks: Vec<Chunk> = chunker::text_chunks(&doc, doc.file_path.as_str());
                let file_hash: String = identity::fingerprint(bytes.as_slice());
                Ok(
                    ProcessResult::Processed {
                        file_path: doc.file_path,
                        file_hash,
                        chunk_count: chunks.len(),
                        chunks,
                        metadata: doc.metadata,
                    },
                )
            },
        }
    }
}

/// A file that was read is indexed as a whole, under its path and with its
/// fingerprint; one that was not is an error that says why.
pub proof fn law_file_outcome(path: Seq<char>, file: FileRead, r: Result<ProcessResult, String>)
    requires
        file_outcome(path, file, r),
    ensures
        file is Read <==> r is Ok,
        file matches FileRead::Read(doc, bytes) ==> {
            let pieces = chunker::text_pieces(
                doc.content@,
                chunker::ChunkConfig { max_chunk_size: 512, overlap_size: 50 },
            );
            &&& r->Ok_0 is Processed
            &&& r->Ok_0->file_path == doc.file_path
            &&& r->Ok_0->metadata == doc.metadata
            &&& r->Ok_0->file_hash@ == identity::sha256_text(bytes@)
            &&& r->Ok_0->chunk_count == pieces.len()
            &&& r->Ok_0->chunks@.len() == pieces.len()
            &&& forall|i: int|
                0 <= i < pieces.len() ==> (#[trigger] r->Ok_0->chunks@[i]).content@
                    == pieces[i].content
        },
        file is Unsupported ==> path.is_suffix_of(r->Err_0@),
        file matches FileRead::Unread(_, e) ==> e@.is_suffix_of(r->Err_0@),
        file matches FileRead::Unparsed(e) ==> parser::error_text(e).is_suffix_of(r->Err_0@),
{
    if r is Err {
        let m = r->Err_0@;
        assert(m.subrange(m.len() - path.len(), m.len() as int) =~= path || !(file is Unsupported));
        if let FileRead::Unread(_, e) = file {
            assert(m.subrange(m.len() - e@.len(), m.len() as int) =~= e@);
        }
        if let FileRead::Unparsed(e) = file {
            let t = parser::error_text(e);
            assert(m.subrange(m.len() - t.len(), m.len() as int) =~= t);
        }
    }
}

} // verus!
