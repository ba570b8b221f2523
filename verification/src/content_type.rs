//! The content type of a stream field, a `mime::Mime`, and its text.

use vstd::prelude::*;
use mime::Mime;

verus! {

/// `mime::Mime`, a parsed media type. Of what it holds only its text is
/// spoken of, under the name `mime_text`.
#[verifier::external_type_specification]
#[verifier::external_body]
pub struct ExMime(mime::Mime);

/// The text of a media type as it is written into a header, for instance
/// `text/plain; charset=utf-8`.
pub uninterp spec fn mime_text(m: Mime) -> Seq<char>;

/// The text that the default content type is written as.
pub open spec fn octet_stream_text() -> Seq<char> {
    "application/octet-stream"@
}

/// `Mime`'s `Display`, through `to_string`: it writes the text that the
/// media type holds, which is the text that it was declared with or, for a
/// parsed one, what the parser kept. That text is what `mime_text` names.
/// Not proved.
#[verifier::external_body]
pub(crate) fn mime_to_string(m: &Mime) -> (text: String)
    ensures
        text@ == mime_text(*m),
{
    m.to_string()
}

/// The constant `mime::APPLICATION_OCTET_STREAM`, which the `mime` crate
/// declares with the text `application/octet-stream`. Not proved.
#[verifier::external_body]
pub(crate) fn octet_stream() -> (m: Mime)
    ensures
        mime_text(m) == octet_stream_text(),
{
    mime::APPLICATION_OCTET_STREAM
}

} // verus!
