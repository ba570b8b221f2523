//! The set of fields from which a body is prepared.

use vstd::prelude::*;
use vstd::utf8::encode_utf8;
use mime::Mime;
use crate::body::{BodyView, PreparedFields};
use crate::boundary::{is_boundary_token, random_boundary};
use crate::content_type::{mime_text, octet_stream, octet_stream_text};
use crate::field::PreparedField;
use crate::source::Source;
use crate::wire::{
    closing_marker, delimiter, lemma_encode_len, lemma_parts_not_empty, opt_text,
    render_closing_marker, render_delimiter, stream_header, text_part, write_text_part,
};

verus! {

/// What a field of a [`Multipart`] stands for.
pub enum FieldView<S> {
    /// A value that is written into the body as it is.
    Text { name: Seq<char>, value: Seq<char> },
    /// A payload that is read when the body is, with the text of its content
    /// type.
    Stream { name: Seq<char>, filename: Option<Seq<char>>, content_type: Seq<char>, source: S },
}

/// A payload with what its header is to say of it.
struct Stream<S> {
    filename: Option<String>,
    content_type: Mime,
    stream: S,
}

/// What a field holds.
enum Data<S> {
    Text(String),
    Stream(Stream<S>),
}

/// The fields of a form, in the order in which they were added.
///
/// In the body the text fields come first, in that order. The stream fields
/// follow in reverse: the one that was added last is served first.
pub struct Multipart<S> {
    fields: Vec<(String, Data<S>)>,
}

spec fn opt_string_view(s: Option<String>) -> Option<Seq<char>> {
    match s {
        Some(t) => Some(t@),
        None => None,
    }
}

spec fn field_view<S>(field: (String, Data<S>)) -> FieldView<S> {
    match field.1 {
        Data::Text(text) => FieldView::Text { name: field.0@, value: text@ },
        Data::Stream(s) => FieldView::Stream {
            name: field.0@,
            filename: opt_string_view(s.filename),
            content_type: mime_text(s.content_type),
            source: s.stream,
        },
    }
}

impl<S> View for Multipart<S> {
    type V = Seq<FieldView<S>>;

    closed spec fn view(&self) -> Seq<FieldView<S>> {
        Seq::new(self.fields@.len(), |i: int| field_view(self.fields@[i]))
    }
}

/// The text block of a body: the text fields among `fields`, each in its
/// wire form, in the order in which they were added.
pub open spec fn text_block<S>(fields: Seq<FieldView<S>>, boundary: Seq<char>) -> Seq<char>
    decreases fields.len(),
{
    if fields.len() == 0 {
        Seq::<char>::empty()
    } else {
        text_block(fields.drop_last(), boundary) + (match fields.last() {
            FieldView::Text { name, value } => text_part(boundary, name, value),
            FieldView::Stream { .. } => Seq::<char>::empty(),
        })
    }
}

/// The rendered headers of the stream fields among `fields`, in the order in
/// which they were added.
pub open spec fn stream_headers<S>(fields: Seq<FieldView<S>>, boundary: Seq<char>) -> Seq<
    Seq<u8>,
>
    decreases fields.len(),
{
    if fields.len() == 0 {
        Seq::<Seq<u8>>::empty()
    } else {
        match fields.last() {
            FieldView::Text { .. } => stream_headers(fields.drop_last(), boundary),
            FieldView::Stream { name, filename, content_type, .. } => stream_headers(
                fields.drop_last(),
                boundary,
            ).push(encode_utf8(stream_header(delimiter(boundary), name, filename, content_type))),
        }
    }
}

/// The payload sources of the stream fields among `fields`, in the order in
/// which they were added.
pub open spec fn stream_sources<S>(fields: Seq<FieldView<S>>) -> Seq<S>
    decreases fields.len(),
{
    if fields.len() == 0 {
        Seq::<S>::empty()
    } else {
        match fields.last() {
            FieldView::Text { .. } => stream_sources(fields.drop_last()),
            FieldView::Stream { source, .. } => stream_sources(fields.drop_last()).push(source),
        }
    }
}

/// The body that `fields` and `boundary` make, before anything is read from
/// it. The stream field that was added last is served first. Without any
/// field the body is empty: it has no closing marker either.
pub open spec fn prepared<S>(fields: Seq<FieldView<S>>, boundary: Seq<char>) -> BodyView<S> {
    let headers = stream_headers(fields, boundary).reverse();
    BodyView {
        boundary,
        text: encode_utf8(text_block(fields, boundary)),
        headers,
        tail: if fields.len() == 0 {
            Seq::<u8>::empty()
        } else {
            encode_utf8(closing_marker(boundary))
        },
        text_pos: 0,
        served: 0,
        header_pos: 0,
        payloads: Seq::new(headers.len(), |i: int| Seq::<u8>::empty()),
        tail_pos: 0,
        pending: stream_sources(fields).reverse(),
    }
}

/// Every field leaves its mark: with a field in the form, the text block or
/// the list of headers is not empty.
pub proof fn lemma_fields_leave_bytes<S>(fields: Seq<FieldView<S>>, boundary: Seq<char>)
    requires
        fields.len() > 0,
    ensures
        text_block(fields, boundary).len() > 0 || stream_headers(fields, boundary).len() > 0,
{
    match fields.last() {
        FieldView::Text { name, value } => {
            lemma_parts_not_empty(boundary, name, value, None, Seq::<char>::empty());
        },
        FieldView::Stream { .. } => {},
    }
}

impl<S: Source> Multipart<S> {
    /// A form without fields.
    pub fn new() -> (form: Self)
        ensures
            form@ == Seq::<FieldView<S>>::empty(),
    {
        let form = Multipart { fields: Vec::new() };
        form
    }

    /// Adds a text field. A name may be used more than once.
    pub fn add_text(&mut self, name: &str, text: &str)
        ensures
            final(self)@ == old(self)@.push(FieldView::Text { name: name@, value: text@ }),
    {
        self.fields.push((name.to_owned(), Data::Text(text.to_owned())));
    }

    /// Adds a stream field. Its payload is `stream`, which is read only when
    /// the prepared body is. Without `mime` the content type is
    /// `application/octet-stream`.
    pub fn add_stream(
        &mut self,
        name: &str,
        stream: S,
        filename: Option<&str>,
        mime: Option<Mime>,
    )
        ensures
            final(self)@ == old(self)@.push(
                FieldView::Stream {
                    name: name@,
                    filename: opt_text(filename),
                    content_type: match mime {
                        Some(m) => mime_text(m),
                        None => octet_stream_text(),
                    },
                    source: stream,
                },
            ),
    {
        let data = Stream {
            content_type: mime.unwrap_or(octet_stream()),
            filename: match filename {
                Some(f) => Some(f.to_owned()),
                None => None,
            },
            stream,
        };
        self.fields.push((name.to_owned(), Data::Stream(data)));
    }

    /// Takes every field out of the form and renders the body that they make
    /// with the given boundary token.
    pub fn prepare_with_boundary(&mut self, boundary: &str) -> (body: PreparedFields<S>)
        ensures
            final(self)@.len() == 0,
            body.wf(),
            body@ == prepared(old(self)@, boundary@),
    {
        let mut fields: Vec<(String, Data<S>)> = Vec::new();
        core::mem::swap(&mut self.fields, &mut fields);
        let ghost views = old(self)@;
        let delim = render_delimiter(boundary);
        let mut text = String::new();
        let mut streams: Vec<PreparedField<S>> = Vec::new();
        for field in it: fields.into_iter()
            invariant
                delim@ == delimiter(boundary@),
                it.seq() == fields@,
                views.len() == fields@.len(),
                forall|k: int| 0 <= k < views.len() ==> views[k] == field_view(fields@[k]),
                text@ == text_block(views.take(it.index() as int), boundary@),
                streams@.len() == stream_headers(views.take(it.index() as int), boundary@).len(),
                streams@.len() == stream_sources(views.take(it.index() as int)).len(),
                forall|k: int|
                    0 <= k < streams@.len() ==> {
                        &&& (#[trigger] streams@[k])@.header.pos == 0
                        &&& streams@[k]@.header.data == stream_headers(
                            views.take(it.index() as int),
                            boundary@,
                        )[k]
                        &&& streams@[k]@.stream == stream_sources(
                            views.take(it.index() as int),
                        )[k]
                    },
        {
            proof {
                let i = it.index() as int;
                assert(views.take(i + 1).drop_last() =~= views.take(i));
            }
            match field.1 {
                Data::Text(value) => {
                    write_text_part(&mut text, boundary, field.0.as_str(), value.as_str());
                },
                Data::Stream(stream) => {
                    let filename: Option<&str> = match &stream.filename {
                        Some(f) => Some(f.as_str()),
                        None => None,
                    };
                    streams.push(
                        PreparedField::from_stream(
                            field.0.as_str(),
                            delim.as_str(),
                            &stream.content_type,
                            filename,
                            stream.stream,
                        ),
                    );
                },
            }
        }
        assert(views.take(views.len() as int) =~= views);
        let text_data = text.as_str().as_bytes_vec();
        proof {
            lemma_encode_len(text@);
            lemma_encode_len(closing_marker(boundary@));
            lemma_parts_not_empty(
                boundary@,
                Seq::<char>::empty(),
                Seq::<char>::empty(),
                None,
                Seq::<char>::empty(),
            );
            if views.len() > 0 {
                lemma_fields_leave_bytes(views, boundary@);
            }
        }
        let end_boundary = if text_data.is_empty() && streams.is_empty() {
            Vec::new()
        } else {
            render_closing_marker(boundary).as_str().as_bytes_vec()
        };
        let body = PreparedFields::assemble(boundary.to_owned(), text_data, streams, end_boundary);
        proof {
            let want = prepared(views, boundary@);
            assert(body@.headers =~= want.headers);
            assert(body@.pending =~= want.pending);
            assert forall|j: int| 0 <= j < body@.payloads.len() implies body@.payloads[j]
                == want.payloads[j] by {
                assert(body@.payloads[j] =~= want.payloads[j]);
            }
            assert(body@.payloads =~= want.payloads);
        }
        body
    }

    /// Takes every field out of the form and renders the body that they make,
    /// with a boundary token that is drawn at random.
    pub fn prepare(&mut self) -> (r: Result<PreparedFields<S>, std::io::Error>)
        ensures
            final(self)@.len() == 0,
            r matches Ok(body) && {
                &&& body.wf()
                &&& is_boundary_token(body@.boundary)
                &&& body@ == prepared(old(self)@, body@.boundary)
            },
    {
        let boundary = random_boundary();
        Ok(self.prepare_with_boundary(boundary.as_str()))
    }
}

} // verus!
