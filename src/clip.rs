//! What passes through the system clipboard, and the clipboard payload of
//! the HTML format.
use vstd::prelude::*;
use crate::error::Error;
use crate::header::{
    FormatError, decoded, encoded, encode, decode, HEADER_LEN, lemma_decode_encode,
};
use crate::node::Node;
use crate::builder::create_html_for_clipboard;
use crate::html::{render, lemma_clipboard_document_framed};
use vstd::string::StringSliceAdditionalSpecFns;

verus! {

/// Clipboard contents, by format. `Html` holds the HTML clipboard payload:
/// the header, then the document.
#[derive(Debug, Clone)]
pub enum ClipboardFormat {
    Text(String),
    Html(String),
}

impl ClipboardFormat {
    pub open spec fn payload(&self) -> Seq<char> {
        match self {
            ClipboardFormat::Text(s) => s@,
            ClipboardFormat::Html(s) => s@,
        }
    }

    /// The contents, whatever the format.
    pub fn to_string(&self) -> (r: String)
        ensures
            r@ == self.payload(),
    {
        match self {
            ClipboardFormat::Text(s) => s.clone(),
            ClipboardFormat::Html(s) => s.clone(),
        }
    }
}

impl Default for ClipboardFormat {
    fn default() -> (r: ClipboardFormat)
        ensures
            r matches ClipboardFormat::Text(s) && s@.len() == 0,
    {
        ClipboardFormat::Text(String::new())
    }
}

/// The system clipboard as this platform has it.
pub struct Clipboard {}

/// Access to a clipboard: which format it holds, reading and writing.
pub trait Clip: Sized {
    fn new() -> Self;

    fn determine_format(&self) -> Result<ClipboardFormat, Error>;

    fn get_data(&mut self, format: &ClipboardFormat) -> Result<ClipboardFormat, Error>;

    fn set_data(&mut self, data: &ClipboardFormat) -> Result<(), Error>;
}

/// This platform offers no system clipboard: it reads as empty text and
/// takes every write.
impl Clip for Clipboard {
    fn new() -> Clipboard {
        Clipboard {  }
    }

    fn determine_format(&self) -> Result<ClipboardFormat, Error> {
        Ok(ClipboardFormat::Text(String::new()))
    }

    fn get_data(&mut self, format: &ClipboardFormat) -> Result<ClipboardFormat, Error> {
        Ok(ClipboardFormat::Text(String::new()))
    }

    fn set_data(&mut self, data: &ClipboardFormat) -> Result<(), Error> {
        Ok(())
    }
}

/// `name` is among `names`.
pub open spec fn has_name(names: Seq<String>, name: Seq<char>) -> bool {
    names.map_values(|n: String| n@).contains(name)
}

/// Whether `name` is among `names`.
fn contains_name(names: &Vec<String>, name: &str) -> (r: bool)
    ensures
        r == has_name(names@, name@),
{
    let ghost views = names@.map_values(|n: String| n@);
    let mut i: usize = 0;
    while i < names.len()
        invariant
            i <= names@.len(),
            views == names@.map_values(|n: String| n@),
            forall|j: int| 0 <= j < i ==> views[j] != name@,
        decreases names@.len() - i,
    {
        if crate::node::name_is(&names[i], name) {
            assert(views[i as int] == name@);
            return true;
        }
        i += 1;
    }
    false
}

impl Clipboard {
    /// The HTML clipboard payload for `contents`: the clipboard skeleton
    /// around them, rendered and framed with the header. It fails only where
    /// the payload would be too large for the header's offsets, and what it
    /// gives always decodes.
    pub fn html_payload(contents: Vec<Node>) -> (r: Result<Vec<u8>, FormatError>)
        ensures
            r matches Err(e) ==> e == FormatError::TooLarge,
            r matches Ok(v) ==> decoded(v@) is Ok,
    {
        let ghost cs = contents@;
        let document = create_html_for_clipboard(contents);
        let html = render(&document);
        let text = html.as_str();
        proof {
            lemma_clipboard_document_framed(document, cs);
            if HEADER_LEN + text.spec_bytes().len() <= u32::MAX {
                lemma_decode_encode(text.spec_bytes());
            }
        }
        encode(text)
    }

    /// Which format to read, from the names of the formats that the clipboard
    /// holds: HTML where `HTML Format` is among them, else plain text where
    /// `CF_UNICODETEXT` or `CF_OEMTEXT` is, else an error.
    pub fn format_from_names(names: &Vec<String>) -> (r: Result<ClipboardFormat, Error>)
        ensures
            has_name(names@, "HTML Format"@) ==> (r matches Ok(ClipboardFormat::Html(s))
                && s@.len() == 0),
            !has_name(names@, "HTML Format"@) && (has_name(names@, "CF_UNICODETEXT"@) || has_name(
                names@,
                "CF_OEMTEXT"@,
            )) ==> (r matches Ok(ClipboardFormat::Text(s)) && s@.len() == 0),
            r is Err <==> !has_name(names@, "HTML Format"@) && !has_name(
                names@,
                "CF_UNICODETEXT"@,
            ) && !has_name(names@, "CF_OEMTEXT"@),
            r matches Err(e) ==> e.message@ == "Clipboard format not available"@,
    {
        if contains_name(names, "HTML Format") {
            return Ok(ClipboardFormat::Html(String::new()));
        }
        if contains_name(names, "CF_UNICODETEXT") || contains_name(names, "CF_OEMTEXT") {
            return Ok(ClipboardFormat::Text(String::new()));
        }
        Err(Error::new("Clipboard format not available"))
    }
    /// The HTML clipboard payload for the serialized document `data`: the
    /// header with its offsets, then `data`.
    pub fn append_clipboard_data(data: &str) -> (r: Result<Vec<u8>, FormatError>)
        ensures
            match r {
                Ok(v) => encoded(data.spec_bytes()) == Ok::<Seq<u8>, FormatError>(v@),
                Err(e) => encoded(data.spec_bytes()) == Err::<Seq<u8>, FormatError>(e),
            },
    {
        encode(data)
    }

    /// The document region of the HTML clipboard payload `data`, the part
    /// that a parser reads.
    pub fn get_html(data: &[u8]) -> (r: Result<Vec<u8>, FormatError>)
        ensures
            match r {
                Ok(v) => decoded(data@) is Ok && v@ == decoded(data@)->Ok_0.html,
                Err(e) => decoded(data@) == Err::<crate::header::PayloadModel, FormatError>(e),
            },
    {
        match decode(data) {
            Ok(p) => Ok(p.html),
            Err(e) => Err(e),
        }
    }
}

} // verus!
