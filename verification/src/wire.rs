//! The wire format of `multipart/form-data`: what each piece of a body looks
//! like, as text, and the functions that render it.

use vstd::prelude::*;
use vstd::utf8::encode_utf8;

verus! {

/// The delimiter that stands before every field of a body: a line break,
/// two dashes and the boundary token.
pub open spec fn delimiter(boundary: Seq<char>) -> Seq<char> {
    "\r\n--"@ + boundary
}

/// A text field on the wire: the delimiter made of the boundary token, the
/// disposition header, a blank line and the value itself.
pub open spec fn text_part(boundary: Seq<char>, name: Seq<char>, value: Seq<char>) -> Seq<char> {
    "\r\n--"@ + boundary + "\r\nContent-Disposition: form-data; name=\""@ + name + "\"\r\n\r\n"@
        + value
}

/// What precedes the payload of a stream field: the delimiter, written as it
/// is given, the disposition header with the file name if there is one, the
/// content type and a blank line.
pub open spec fn stream_header(
    delimiter: Seq<char>,
    name: Seq<char>,
    filename: Option<Seq<char>>,
    content_type: Seq<char>,
) -> Seq<char> {
    delimiter + "\r\nContent-Disposition: form-data; name=\""@ + name + "\""@ + (
    match filename {
        Some(f) => "; filename=\""@ + f + "\""@,
        None => Seq::<char>::empty(),
    }) + "\r\nContent-Type: "@ + content_type + "\r\n\r\n"@
}

/// What an optional string stands for.
pub open spec fn opt_text(s: Option<&str>) -> Option<Seq<char>> {
    match s {
        Some(t) => Some(t@),
        None => None,
    }
}

/// The marker that closes a body. No line break follows it.
pub open spec fn closing_marker(boundary: Seq<char>) -> Seq<char> {
    "\r\n--"@ + boundary + "--"@
}

/// Encoding text as UTF-8 goes piece by piece.
pub proof fn lemma_encode_concat(a: Seq<char>, b: Seq<char>)
    ensures
        encode_utf8(a + b) == encode_utf8(a) + encode_utf8(b),
    decreases a.len(),
{
    if a.len() > 0 {
        assert((a + b).drop_first() =~= a.drop_first() + b);
        lemma_encode_concat(a.drop_first(), b);
    }
}

/// Every character takes at least one byte.
pub proof fn lemma_encode_len(chars: Seq<char>)
    ensures
        encode_utf8(chars).len() >= chars.len(),
    decreases chars.len(),
{
    if chars.len() > 0 {
        lemma_encode_len(chars.drop_first());
    }
}

/// A text field, the header of a stream field in a body and the closing
/// marker each begin with a line break and two dashes, so none of them is
/// empty.
pub proof fn lemma_parts_not_empty(
    boundary: Seq<char>,
    name: Seq<char>,
    value: Seq<char>,
    filename: Option<Seq<char>>,
    content_type: Seq<char>,
)
    ensures
        text_part(boundary, name, value).len() >= 4,
        stream_header(delimiter(boundary), name, filename, content_type).len() >= 4,
        closing_marker(boundary).len() >= 4,
{
    reveal_strlit("\r\n--");
}

/// Appends the wire form of a text field to `out`.
pub fn write_text_part(out: &mut String, boundary: &str, name: &str, value: &str)
    ensures
        final(out)@ == old(out)@ + text_part(boundary@, name@, value@),
{
    out.append("\r\n--");
    out.append(boundary);
    out.append("\r\nContent-Disposition: form-data; name=\"");
    out.append(name);
    out.append("\"\r\n\r\n");
    out.append(value);
}

/// Renders the delimiter for a boundary token.
pub fn render_delimiter(boundary: &str) -> (rendered: String)
    ensures
        rendered@ == delimiter(boundary@),
{
    let mut rendered = String::new();
    rendered.append("\r\n--");
    rendered.append(boundary);
    rendered
}

/// Renders what precedes the payload of a stream field. The delimiter is
/// written as it is given: nothing is put before it.
pub fn render_stream_header(
    delimiter: &str,
    name: &str,
    filename: Option<&str>,
    content_type: &str,
) -> (header: String)
    ensures
        header@ == stream_header(delimiter@, name@, opt_text(filename), content_type@),
{
    let mut header = String::new();
    header.append(delimiter);
    header.append("\r\nContent-Disposition: form-data; name=\"");
    header.append(name);
    header.append("\"");
    if let Some(f) = filename {
        header.append("; filename=\"");
        header.append(f);
        header.append("\"");
    }
    header.append("\r\nContent-Type: ");
    header.append(content_type);
    header.append("\r\n\r\n");
    header
}

/// Renders the marker that closes a body.
pub fn render_closing_marker(boundary: &str) -> (marker: String)
    ensures
        marker@ == closing_marker(boundary@),
{
    let mut marker = String::new();
    marker.append("\r\n--");
    marker.append(boundary);
    marker.append("--");
    marker
}

} // verus!
