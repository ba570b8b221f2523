//! What holds of every prepared body, however it is read.

use vstd::prelude::*;
use vstd::utf8::encode_utf8;
use crate::body::{frames, BodyView};
use crate::multipart::{prepared, stream_headers, stream_sources, text_block, FieldView};
use crate::wire::{
    closing_marker, lemma_encode_concat, lemma_encode_len, lemma_parts_not_empty, text_part,
};

verus! {

/// The chunks of a sequence of reads, put end to end.
pub open spec fn concat(chunks: Seq<Seq<u8>>) -> Seq<u8>
    decreases chunks.len(),
{
    if chunks.len() == 0 {
        Seq::<u8>::empty()
    } else {
        concat(chunks.drop_last()) + chunks.last()
    }
}

/// The read number `i` of a sequence of reads: it finds the body in
/// `states[i]`, returns the bytes `chunks[i]` and leaves the body in
/// `states[i + 1]`, as `PreparedFields::read` promises of a read that
/// succeeds.
pub open spec fn is_step<S>(states: Seq<BodyView<S>>, chunks: Seq<Seq<u8>>, i: int) -> bool {
    &&& states[i + 1].follows(states[i])
    &&& states[i + 1].drawn() == states[i].drawn() + chunks[i]
}

/// A sequence of successful reads of one body, with buffers of any sizes.
pub open spec fn is_run<S>(states: Seq<BodyView<S>>, chunks: Seq<Seq<u8>>) -> bool {
    &&& states.len() == chunks.len() + 1
    &&& forall|i: int| 0 <= i < states.len() ==> (#[trigger] states[i]).wf()
    &&& forall|i: int| 0 <= i < chunks.len() ==> #[trigger] is_step(states, chunks, i)
}

/// Before the first read nothing has been drawn.
pub proof fn lemma_untouched_drawn<S>(v: BodyView<S>)
    requires
        v.wf(),
        v.untouched(),
    ensures
        v.drawn() == Seq::<u8>::empty(),
{
}

/// While bytes of the text block remain, nothing else has been drawn: the
/// text fields come before every stream field and before the closing marker.
pub proof fn lemma_text_first<S>(v: BodyView<S>)
    requires
        v.wf(),
        v.text_pos < v.text.len(),
    ensures
        v.drawn() == v.text.take(v.text_pos as int),
{
}

/// Once a byte of the closing marker has been drawn, the text block and
/// every stream field have been drawn in full: the closing marker comes
/// last.
pub proof fn lemma_tail_last<S>(v: BodyView<S>)
    requires
        v.wf(),
        v.tail_pos > 0,
    ensures
        v.drawn() == v.text + frames(v.headers, v.payloads, v.headers.len()) + v.tail.take(
            v.tail_pos as int,
        ),
{
}

/// A body that has ended has given the text block, then every stream field,
/// header and payload, in the order served, then the closing marker.
pub proof fn lemma_drained_body<S>(v: BodyView<S>)
    requires
        v.wf(),
        v.exhausted(),
    ensures
        v.drawn() == v.body(),
{
    if v.tail.len() > 0 {
        lemma_tail_last(v);
    }
}

/// The reads of a run return, end to end, what was drawn between its first
/// state and its last, and the last state is a state of the same body.
pub proof fn lemma_run_output<S>(states: Seq<BodyView<S>>, chunks: Seq<Seq<u8>>)
    requires
        is_run(states, chunks),
    ensures
        states.last().drawn() == states[0].drawn() + concat(chunks),
        states.last().same_body(states[0]),
    decreases chunks.len(),
{
    if chunks.len() > 0 {
        let n = chunks.len() as int;
        let shorter = states.drop_last();
        let fewer = chunks.drop_last();
        assert forall|i: int| 0 <= i < fewer.len() implies #[trigger] is_step(
            shorter,
            fewer,
            i,
        ) by {
            assert(is_step(states, chunks, i));
        }
        lemma_run_output(shorter, fewer);
        assert(is_step(states, chunks, n - 1));
    }
}

/// A run that starts before the first read and goes on until the body has
/// ended returns the whole body: the text fields first, the closing marker
/// last, whatever the sizes of the buffers.
pub proof fn lemma_run_layout<S>(states: Seq<BodyView<S>>, chunks: Seq<Seq<u8>>)
    requires
        is_run(states, chunks),
        states[0].untouched(),
        states.last().exhausted(),
    ensures
        concat(chunks) == states[0].text + frames(
            states[0].headers,
            states.last().payloads,
            states[0].headers.len(),
        ) + states[0].tail,
{
    lemma_run_output(states, chunks);
    lemma_untouched_drawn(states[0]);
    lemma_drained_body(states.last());
}

/// The sizes of the buffers make no difference to what is read in all: two
/// runs over the same prepared body, each from before the first read until
/// the body has ended, return the same bytes, provided that the payloads
/// delivered the same bytes in both.
pub proof fn lemma_chunking_invariance<S>(
    states1: Seq<BodyView<S>>,
    chunks1: Seq<Seq<u8>>,
    states2: Seq<BodyView<S>>,
    chunks2: Seq<Seq<u8>>,
)
    requires
        is_run(states1, chunks1),
        is_run(states2, chunks2),
        states1[0].untouched(),
        states2[0].untouched(),
        states1[0].same_body(states2[0]),
        states1.last().exhausted(),
        states2.last().exhausted(),
        states1.last().payloads == states2.last().payloads,
    ensures
        concat(chunks1) == concat(chunks2),
{
    lemma_run_layout(states1, chunks1);
    lemma_run_layout(states2, chunks2);
}

/// For a body without stream fields nothing is left to the payloads: any two
/// complete runs over it return the same bytes, the text block followed by
/// the closing marker.
pub proof fn lemma_chunking_invariance_text_only<S>(
    states1: Seq<BodyView<S>>,
    chunks1: Seq<Seq<u8>>,
    states2: Seq<BodyView<S>>,
    chunks2: Seq<Seq<u8>>,
)
    requires
        is_run(states1, chunks1),
        is_run(states2, chunks2),
        states1[0].untouched(),
        states2[0].untouched(),
        states1[0].same_body(states2[0]),
        states1[0].headers.len() == 0,
        states1.last().exhausted(),
        states2.last().exhausted(),
    ensures
        concat(chunks1) == states1[0].text + states1[0].tail,
        concat(chunks2) == concat(chunks1),
{
    lemma_run_layout(states1, chunks1);
    lemma_run_layout(states2, chunks2);
}

/// What a form makes is a body of which nothing has been read, and so
/// nothing has been drawn from it.
pub proof fn lemma_prepared_untouched<S>(fields: Seq<FieldView<S>>, boundary: Seq<char>)
    ensures
        prepared(fields, boundary).wf(),
        prepared(fields, boundary).untouched(),
        prepared(fields, boundary).drawn() == Seq::<u8>::empty(),
{
    let v = prepared(fields, boundary);
    lemma_stream_lists_match(fields, boundary);
    if fields.len() > 0 {
        lemma_encode_len(closing_marker(boundary));
        lemma_parts_not_empty(
            boundary,
            Seq::<char>::empty(),
            Seq::<char>::empty(),
            None,
            Seq::<char>::empty(),
        );
    }
    lemma_untouched_drawn(v);
}

/// A form has as many headers of stream fields as payload sources.
pub proof fn lemma_stream_lists_match<S>(fields: Seq<FieldView<S>>, boundary: Seq<char>)
    ensures
        stream_headers(fields, boundary).len() == stream_sources(fields).len(),
    decreases fields.len(),
{
    if fields.len() > 0 {
        lemma_stream_lists_match(fields.drop_last(), boundary);
    }
}

/// A form without fields makes a body without bytes, not even a closing
/// marker. The boundary token is kept all the same.
pub proof fn lemma_empty_form<S>(boundary: Seq<char>)
    ensures
        prepared(Seq::<FieldView<S>>::empty(), boundary).wf(),
        prepared(Seq::<FieldView<S>>::empty(), boundary).exhausted(),
        prepared(Seq::<FieldView<S>>::empty(), boundary).body() == Seq::<u8>::empty(),
        prepared(Seq::<FieldView<S>>::empty(), boundary).boundary == boundary,
{
}

/// A form with one text field makes the body that consists of that field in
/// its wire form and the closing marker.
pub proof fn lemma_single_text_field<S>(boundary: Seq<char>, name: Seq<char>, value: Seq<char>)
    ensures
        prepared(seq![FieldView::<S>::Text { name, value }], boundary).body() == encode_utf8(
            text_part(boundary, name, value) + closing_marker(boundary),
        ),
{
    let fields = seq![FieldView::<S>::Text { name, value }];
    assert(text_block(fields.drop_last(), boundary) =~= Seq::<char>::empty());
    assert(stream_headers(fields.drop_last(), boundary) =~= Seq::<Seq<u8>>::empty());
    lemma_encode_concat(text_part(boundary, name, value), closing_marker(boundary));
}

} // verus!
