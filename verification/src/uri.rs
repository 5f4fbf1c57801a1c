//! Addresses of files as a language server wants them.

use lsp_types::Uri;
use std::str::FromStr;
use vstd::prelude::*;
use vstd::string::*;
use vstd::utf8::encode_utf8;

verus! {

/// `lsp_types::Uri`, carried along as an opaque value.
#[verifier::external_type_specification]
#[verifier::external_body]
pub struct ExUri(Uri);

/// Whether `lsp_types::Uri::from_str` accepts `text` as a URI reference.
pub uninterp spec fn is_uri_reference(text: Seq<char>) -> bool;

/// The text that a `Uri` spells, which `Uri::as_str` returns.
pub uninterp spec fn uri_text(uri: Uri) -> Seq<char>;

/// A text that is no URI reference.
#[derive(Debug)]
pub struct UriError {
    /// What the parser said of the text.
    pub message: String,
}

/// The longest text, in bytes, that the parser takes.
pub const MAX_URI_LENGTH: usize = 0x7fff_ffff;

/// `lsp_types::Uri::from_str`: the parser takes a text of at most
/// `i32::MAX` bytes, accepts it or not by its syntax alone, and a `Uri` that
/// it gives spells the text that it was given. Its error comes back as the
/// message that it displays.
#[verifier::external_body]
fn parse_uri(text: &str) -> (parsed: Result<Uri, UriError>)
    requires
        text.spec_bytes().len() <= MAX_URI_LENGTH,
    ensures
        parsed is Ok <==> is_uri_reference(text@),
        parsed is Ok ==> uri_text(parsed.unwrap()) == text@,
{
    Uri::from_str(text).map_err(|error| UriError { message: error.to_string() })
}

/// The text of the address of the file at `path`: `file://` and then the
/// path.
pub open spec fn file_uri_text(path: Seq<char>) -> Seq<char> {
    "file://"@ + path
}

/// The address of the file at `path`. There is one where `file://` and
/// the path make a URI reference. The address may be no longer than
/// `MAX_URI_LENGTH` bytes, seven of which go to `file://`.
pub fn file_uri(path: &str) -> (uri: Result<Uri, UriError>)
    requires
        encode_utf8(file_uri_text(path@)).len() <= MAX_URI_LENGTH,
    ensures
        uri is Ok <==> is_uri_reference(file_uri_text(path@)),
        uri is Ok ==> uri_text(uri.unwrap()) == file_uri_text(path@),
{
    let mut text = "file://".to_owned();
    text.append(path);
    parse_uri(text.as_str())
}

} // verus!
