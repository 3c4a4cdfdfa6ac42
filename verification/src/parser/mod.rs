//! Which files can be read, how, and what a document holds once it was read.
use vstd::prelude::*;

use crate::text;
use crate::text::chars;
use crate::text::edit;
use crate::text::find;
use crate::text::split;

verus! {

/// Why a file could not be read.
#[derive(Debug)]
pub enum ParseError {
    /// There is no such file.
    FileNotFound(String),
    /// Files of this kind are not read.
    UnsupportedFormat(String),
    /// Reading failed.
    IoError(String),
    /// The file holds no text, or none that could be taken out.
    ParseFailed(String),
}

/// What an error says.
pub open spec fn error_text(e: ParseError) -> Seq<char> {
    match e {
        ParseError::FileNotFound(m) => "File không tồn tại: "@ + m@,
        ParseError::UnsupportedFormat(m) => "Định dạng không hỗ trợ: "@ + m@,
        ParseError::IoError(m) => "Lỗi đọc file: "@ + m@,
        ParseError::ParseFailed(m) => "Lỗi parse: "@ + m@,
    }
}

impl ParseError {
    /// What the error says.
    pub fn message(&self) -> (r: String)
        ensures
            r@ == error_text(*self),
    {
        match self {
            ParseError::FileNotFound(m) => edit::concat2("File không tồn tại: ", m.as_str()),
            ParseError::UnsupportedFormat(m) => edit::concat2(
                "Định dạng không hỗ trợ: ",
                m.as_str(),
            ),
            ParseError::IoError(m) => edit::concat2("Lỗi đọc file: ", m.as_str()),
            ParseError::ParseFailed(m) => edit::concat2("Lỗi parse: ", m.as_str()),
        }
    }
}

/// A chunk as the extractor cuts it.
#[derive(Debug)]
pub struct KreuzbergChunkData {
    /// Its text.
    pub content: String,
    /// The byte of the document where it starts.
    pub byte_start: usize,
    /// The byte of the document where it ends.
    pub byte_end: usize,
}

/// A document that was read.
#[derive(Debug)]
pub struct ParsedDocument {
    /// The path of its file.
    pub file_path: String,
    /// The name of its file.
    pub file_name: String,
    /// Its text.
    pub content: String,
    /// Its sections.
    pub sections: Vec<DocumentSection>,
    /// What is known of its file.
    pub metadata: DocumentMetadata,
    /// The chunks of the extractor, if it cut any.
    pub kreuzberg_chunks: Option<Vec<KreuzbergChunkData>>,
}

/// A section of a document.
#[derive(Debug)]
pub struct DocumentSection {
    /// Its title.
    pub title: Option<String>,
    /// Its text.
    pub content: String,
    /// Its page.
    pub page: Option<usize>,
}

/// What is known of a file.
#[derive(Debug)]
pub struct DocumentMetadata {
    /// Its extension.
    pub file_type: String,
    /// Its size.
    pub file_size: u64,
    /// Its pages.
    pub page_count: Option<usize>,
}

/// Files that hold plain text.
pub const PLAIN_TEXT_EXTENSIONS: [&'static str; 12] = [
    "txt", "md", "markdown", "rst", "log", "csv", "tsv", "json", "xml", "yaml", "yml", "toml",
];

/// Files that hold an image.
pub const IMAGE_EXTENSIONS: [&'static str; 7] = [
    "jpg", "jpeg", "png", "tiff", "tif", "bmp", "webp",
];

/// Files that hold tables.
pub const STRUCTURED_DATA_EXTENSIONS: [&'static str; 3] = ["xlsx", "xls", "ods"];

/// Files that are read.
pub const SUPPORTED_EXTENSIONS: [&'static str; 35] = [
    "pdf", "docx", "doc", "pptx", "ppt", "xlsx", "xls", "odt", "ods", "odp", "rtf", "txt", "md",
    "markdown", "rst", "csv", "tsv", "log", "html", "htm", "json", "xml", "yaml", "yml", "toml",
    "eml", "msg", "epub", "jpg", "jpeg", "png", "tiff", "tif", "bmp", "webp",
];

/// Whether files with an extension in lower case are read.
pub fn is_known(extension: &str) -> (r: bool)
    ensures
        r == find::is_any(extension@, SUPPORTED_EXTENSIONS@),
{
    find::same_as_any(extension, SUPPORTED_EXTENSIONS.as_slice())
}

/// Whether files with an extension are read, whatever its case; those without
/// one are not.
pub fn is_supported(extension: Option<&str>) -> (r: bool)
    ensures
        r == match extension {
            Some(e) => find::is_any(chars::lowercase(e@), SUPPORTED_EXTENSIONS@),
            None => false,
        },
        match extension {
            Some(e) => chars::all_ascii(e@) ==> r == find::is_any(
                chars::small(e@),
                SUPPORTED_EXTENSIONS@,
            ),
            None => true,
        },
{
    match extension {
        Some(e) => is_known(e.to_lowercase().as_str()),
        None => false,
    }
}

/// Whether files with an extension are read does not depend on the case of its
/// letters: two extensions in ASCII that differ in it alone are read or not
/// read alike.
pub proof fn law_case_of_extension(e: Seq<char>, f: Seq<char>)
    requires
        chars::all_ascii(e),
        e.len() == f.len(),
        forall|i: int|
            0 <= i < e.len() ==> chars::ascii_small(#[trigger] e[i]) == chars::ascii_small(f[i]),
    ensures
        chars::all_ascii(f),
        find::is_any(chars::small(e), SUPPORTED_EXTENSIONS@) == find::is_any(
            chars::small(f),
            SUPPORTED_EXTENSIONS@,
        ),
{
    assert(chars::small(e) =~= chars::small(f));
    assert forall|i: int| 0 <= i < f.len() implies (#[trigger] f[i]) as u32 <= 0x7f by {
        assert(chars::ascii_small(e[i]) == chars::ascii_small(f[i]));
        assert(e[i] as u32 <= 0x7f);
    }
}

/// How a file is read.
#[derive(Clone, Copy, Debug, PartialEq, Eq, Structural)]
pub enum Reading {
    /// As plain text.
    Plain,
    /// By the extractor.
    Extracted,
    /// By the extractor, as an image.
    Image,
}

/// How a file with an extension in lower case is read.
pub open spec fn reading_of(extension: Seq<char>) -> Reading {
    if find::is_any(extension, PLAIN_TEXT_EXTENSIONS@) {
        Reading::Plain
    } else if find::is_any(extension, IMAGE_EXTENSIONS@) {
        Reading::Image
    } else {
        Reading::Extracted
    }
}

/// How a file with an extension in lower case is read.
pub fn choose_reading(extension: &str) -> (r: Reading)
    ensures
        r == reading_of(extension@),
{
    if find::same_as_any(extension, PLAIN_TEXT_EXTENSIONS.as_slice()) {
        Reading::Plain
    } else if find::same_as_any(extension, IMAGE_EXTENSIONS.as_slice()) {
        Reading::Image
    } else {
        Reading::Extracted
    }
}

/// What is said of a file without an extension.
pub const NO_EXTENSION: &'static str = "Không có extension";

/// The extension of a file in lower case. The file has to be there and to have
/// an extension.
pub fn file_type(present: bool, path: &str, extension: Option<&str>) -> (r: Result<
    String,
    ParseError,
>)
    ensures
        match r {
            Ok(e) => present && extension is Some && e@ == chars::lowercase(extension->0@),
            Err(ParseError::FileNotFound(m)) => !present && m@ == path@,
            Err(ParseError::UnsupportedFormat(m)) => present && extension is None && m@
                == NO_EXTENSION@,
            Err(_) => false,
        },
{
    if !present {
        return Err(ParseError::FileNotFound(edit::owned(path)));
    }
    match extension {
        Some(e) => Ok(e.to_lowercase()),
        None => Err(ParseError::UnsupportedFormat(edit::owned(NO_EXTENSION))),
    }
}

/// What is said of a file without text, before its name.
pub const NO_TEXT: &'static str = "File không chứa nội dung text: ";

/// The document of a text: one section, the whole text.
pub open spec fn is_document(
    d: ParsedDocument,
    path: Seq<char>,
    name: Seq<char>,
    extension: Seq<char>,
    size: u64,
    content: Seq<char>,
    chunks: Option<Vec<KreuzbergChunkData>>,
) -> bool {
    &&& d.file_path@ == path
    &&& d.file_name@ == name
    &&& d.content@ == content
    &&& d.sections@.len() == 1
    &&& d.sections@[0].title is None
    &&& d.sections@[0].content@ == content
    &&& d.sections@[0].page is None
    &&& d.metadata.file_type@ == extension
    &&& d.metadata.file_size == size
    &&& d.metadata.page_count is None
    &&& d.kreuzberg_chunks == chunks
}

fn document(
    path: &str,
    name: &str,
    extension: &str,
    size: u64,
    content: String,
    chunks: Option<Vec<KreuzbergChunkData>>,
) -> (d: ParsedDocument)
    ensures
        is_document(d, path@, name@, extension@, size, content@, chunks),
{
    let mut sections: Vec<DocumentSection> = Vec::new();
    sections.push(DocumentSection { title: None, content: content.clone(), page: None });
    ParsedDocument {
        file_path: edit::owned(path),
        file_name: edit::owned(name),
        content,
        sections,
        metadata: DocumentMetadata {
            file_type: edit::owned(extension),
            file_size: size,
            page_count: None,
        },
        kreuzberg_chunks: chunks,
    }
}

/// The text that bytes spell, with a replacement for what is no UTF-8.
pub uninterp spec fn lossy_text(bytes: Seq<u8>) -> Seq<char>;

/// `String::from_utf8_lossy`: the text depends on the bytes alone, and where
/// they are UTF-8 it is the text that they encode.
#[verifier::external_body]
fn decode_lossy(bytes: &[u8]) -> (r: String)
    ensures
        r@ == lossy_text(bytes@),
        vstd::utf8::valid_utf8(bytes@) ==> r@ == vstd::utf8::decode_utf8(bytes@),
{
    String::from_utf8_lossy(bytes).into_owned()
}

/// The document of a text without white space at its ends; a blank text is
/// none.
pub fn plain_document(
    path: &str,
    name: &str,
    extension: &str,
    size: u64,
    content: &str,
) -> (r: Result<ParsedDocument, ParseError>)
    ensures
        match r {
            Ok(d) => split::stripped(content@).len() > 0 && is_document(
                d,
                path@,
                name@,
                extension@,
                size,
                split::stripped(content@),
                None,
            ),
            Err(ParseError::ParseFailed(m)) => split::stripped(content@).len() == 0 && m@
                == NO_TEXT@ + name@,
            Err(_) => false,
        },
{
    let stripped: String = split::strip(content);
    if stripped.as_str().is_empty() {
        return Err(ParseError::ParseFailed(edit::concat2(NO_TEXT, name)));
    }
    Ok(document(path, name, extension, size, stripped, None))
}

/// The document of a file of plain text, given its bytes.
pub fn parse_plain_text(
    path: &str,
    name: &str,
    extension: &str,
    size: u64,
    bytes: &[u8],
) -> (r: Result<ParsedDocument, ParseError>)
    ensures
        ({
            let content = split::stripped(lossy_text(bytes@));
            match r {
                Ok(d) => content.len() > 0 && is_document(
                    d,
                    path@,
                    name@,
                    extension@,
                    size,
                    content,
                    None,
                ),
                Err(ParseError::ParseFailed(m)) => content.len() == 0 && m@ == NO_TEXT@ + name@,
                Err(_) => false,
            }
        }),
{
    plain_document(path, name, extension, size, decode_lossy(bytes).as_str())
}

/// The document of a text that was taken out of a file; a blank text is none.
pub fn extracted_document(
    path: &str,
    name: &str,
    extension: &str,
    size: u64,
    content: String,
    chunks: Option<Vec<KreuzbergChunkData>>,
) -> (r: Result<ParsedDocument, ParseError>)
    ensures
        match r {
            Ok(d) => split::stripped(content@).len() > 0 && is_document(
                d,
                path@,
                name@,
                extension@,
                size,
                content@,
                chunks,
            ),
            Err(ParseError::ParseFailed(m)) => split::stripped(content@).len() == 0 && m@
                == NO_TEXT@ + name@,
            Err(_) => false,
        },
{
    if split::strip(content.as_str()).as_str().is_empty() {
        return Err(ParseError::ParseFailed(edit::concat2(NO_TEXT, name)));
    }
    Ok(document(path, name, extension, size, content, chunks))
}

/// How large the extractor cuts its chunks, in characters, and how much two
/// of them share: larger for tables.
pub fn chunking_config_for_ext(extension: &str) -> (r: (usize, usize))
    ensures
        r == if find::is_any(extension@, STRUCTURED_DATA_EXTENSIONS@) {
            (4000usize, 400usize)
        } else {
            (2000usize, 200usize)
        },
{
    if find::same_as_any(extension, STRUCTURED_DATA_EXTENSIONS.as_slice()) {
        (4000, 400)
    } else {
        (2000, 200)
    }
}

/// What the extractor took out of a file.
#[derive(Debug)]
pub struct Extracted {
    /// The text.
    pub content: String,
    /// The chunks.
    pub chunks: Option<Vec<KreuzbergChunkData>>,
}

/// What comes of the first pass, without reading images: the text and its
/// chunks, or nothing where it failed or the text is blank, and the second
/// pass is made.
pub fn first_pass(read: Result<Extracted, String>) -> (r: Option<Extracted>)
    ensures
        r == match read {
            Ok(e) => if split::stripped(e.content@).len() > 0 {
                Some(e)
            } else {
                None
            },
            Err(_) => None,
        },
{
    match read {
        Ok(e) => if split::strip(e.content.as_str()).as_str().is_empty() {
            None
        } else {
            Some(e)
        },
        Err(_) => None,
    }
}

/// What comes of the second pass, which reads images: the text without chunks,
/// or an error.
pub fn second_pass(read: Result<String, String>, name: &str) -> (r: Result<Extracted, ParseError>)
    ensures
        match read {
            Ok(content) => if split::stripped(content@).len() > 0 {
                r matches Ok(e) && e.content == content && e.chunks is None
            } else {
                r matches Err(ParseError::ParseFailed(m)) && m@ == NO_TEXT@ + name@
            },
            Err(e) => r matches Err(ParseError::ParseFailed(m)) && m@ == "OCR error: "@ + e@,
        },
{
    match read {
        Ok(content) => if split::strip(content.as_str()).as_str().is_empty() {
            Err(ParseError::ParseFailed(edit::concat2(NO_TEXT, name)))
        } else {
            Ok(Extracted { content, chunks: None })
        },
        Err(e) => Err(ParseError::ParseFailed(edit::concat2("OCR error: ", e.as_str()))),
    }
}

/// The languages that images are read in: English, and what else there is.
pub fn ocr_language(vietnamese: bool, japanese: bool) -> (r: String)
    ensures
        r@ == if vietnamese && japanese {
            "eng+vie+jpn"@
        } else if vietnamese {
            "eng+vie"@
        } else if japanese {
            "eng+jpn"@
        } else {
            "eng"@
        },
{
    if vietnamese && japanese {
        edit::owned("eng+vie+jpn")
    } else if vietnamese {
        edit::owned("eng+vie")
    } else if japanese {
        edit::owned("eng+jpn")
    } else {
        edit::owned("eng")
    }
}

/// Plain text is read as it is, images are read as images, and all other files by
/// the extractor.
pub proof fn law_reading(extension: Seq<char>)
    ensures
        find::is_any(extension, PLAIN_TEXT_EXTENSIONS@) ==> reading_of(extension) == Reading::Plain,
        !find::is_any(extension, PLAIN_TEXT_EXTENSIONS@) && find::is_any(
            extension,
            IMAGE_EXTENSIONS@,
        ) ==> reading_of(extension) == Reading::Image,
        !find::is_any(extension, PLAIN_TEXT_EXTENSIONS@) && !find::is_any(
            extension,
            IMAGE_EXTENSIONS@,
        ) ==> reading_of(extension) == Reading::Extracted,
{
}

/// A document keeps the whole text, as its content and as its one section, and what
/// is known of its file.
pub proof fn law_document(
    d: ParsedDocument,
    path: Seq<char>,
    name: Seq<char>,
    extension: Seq<char>,
    size: u64,
    content: Seq<char>,
    chunks: Option<Vec<KreuzbergChunkData>>,
)
    requires
        is_document(d, path, name, extension, size, content, chunks),
    ensures
        d.file_path@ == path,
        d.file_name@ == name,
        d.content@ == content,
        d.sections@.len() == 1 && d.sections@[0].content@ == content,
        d.sections@[0].title is None && d.sections@[0].page is None,
        d.metadata.file_type@ == extension && d.metadata.file_size == size,
        d.metadata.page_count is None,
        d.kreuzberg_chunks == chunks,
{
}

} // verus!
