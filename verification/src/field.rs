//! One stream field of a prepared body: its rendered header, then its
//! payload.

use vstd::prelude::*;
use vstd::utf8::encode_utf8;
use mime::Mime;
use crate::content_type::{mime_text, mime_to_string};
use crate::cursor::{cursor_at_end, min_len, Cursor, CursorView};
use crate::source::Source;
use crate::wire::{opt_text, render_stream_header, stream_header};

verus! {

/// What a [`PreparedField`] stands for: the header with its read position,
/// and the payload source.
pub struct PreparedFieldView<S> {
    pub header: CursorView,
    pub stream: S,
}

/// A stream field that is ready to be read: first the bytes of its header,
/// then whatever its payload delivers.
pub struct PreparedField<S> {
    header: Cursor,
    stream: S,
}

impl<S> View for PreparedField<S> {
    type V = PreparedFieldView<S>;

    closed spec fn view(&self) -> PreparedFieldView<S> {
        PreparedFieldView { header: self.header@, stream: self.stream }
    }
}

impl<S: Source> PreparedField<S> {
    /// Renders the header of a stream field and pairs it with the payload.
    /// `boundary` is the delimiter that the header begins with, a line break
    /// and two dashes before the token included: it is written as it is
    /// given. Nothing is read from `stream`.
    pub fn from_stream(
        name: &str,
        boundary: &str,
        content_type: &Mime,
        filename: Option<&str>,
        stream: S,
    ) -> (field: Self)
        ensures
            field@.header.data == encode_utf8(
                stream_header(boundary@, name@, opt_text(filename), mime_text(*content_type)),
            ),
            field@.header.pos == 0,
            field@.stream == stream,
    {
        let content_type_text = mime_to_string(content_type);
        let header = render_stream_header(boundary, name, filename, content_type_text.as_str());
        PreparedField { header: Cursor::new(header.as_str().as_bytes_vec()), stream }
    }
}

/// Reads go to the header until it is used up, and from then on straight to
/// the payload.
impl<S: Source> Source for PreparedField<S> {
    /// While the header lasts, its next bytes are copied and the payload is
    /// left alone. Once it is used up, the read is handed on to the payload,
    /// once and with the buffer as it is given, and the payload's answer is
    /// returned: there is a call of the payload's `read` which finds the
    /// payload and the buffer as they were, returns `r`, and leaves them as
    /// they are afterwards.
    fn read(&mut self, buf: &mut [u8]) -> (r: Result<usize, std::io::Error>)
        ensures
            old(self)@.header.wf(),
            final(self)@.header.data == old(self)@.header.data,
            !old(self)@.header.at_end() ==> (r matches Ok(n) && {
                &&& n == min_len(old(buf)@.len() as int, old(self)@.header.rest().len() as int)
                &&& final(buf)@ == old(self)@.header.rest().take(n as int) + old(buf)@.skip(
                    n as int,
                )
                &&& final(self)@.header.pos == old(self)@.header.pos + n
                &&& final(self)@.stream == old(self)@.stream
            }),
            old(self)@.header.at_end() ==> final(self)@.header == old(self)@.header,
            old(self)@.header.at_end() ==> (exists|inner: &mut S, given: &mut [u8]|
                #[trigger] call_ensures(S::read, (inner, given), r) && *inner == old(
                    self,
                )@.stream && *final(inner) == final(self)@.stream && given@ == old(buf)@
                    && final(given)@ == final(buf)@),
    {
        if !cursor_at_end(&self.header) {
            self.header.read(buf)
        } else {
            self.stream.read(buf)
        }
    }
}

} // verus!
