//! The prepared body: a text block, a queue of stream fields and a closing
//! marker, read as one sequence of bytes.

use vstd::prelude::*;
use crate::cursor::{cursor_at_end, min_len, Cursor};
use crate::field::PreparedField;
use crate::source::Source;

verus! {

/// The bytes of the first `k` stream fields: each header, followed by the
/// payload of that field.
pub open spec fn frames(headers: Seq<Seq<u8>>, payloads: Seq<Seq<u8>>, k: nat) -> Seq<u8>
    decreases k,
{
    if k == 0 {
        Seq::<u8>::empty()
    } else {
        frames(headers, payloads, (k - 1) as nat) + headers[k - 1] + payloads[k - 1]
    }
}

/// `a` is how `b` begins.
pub open spec fn begins(a: Seq<u8>, b: Seq<u8>) -> bool {
    a.len() <= b.len() && b.take(a.len() as int) == a
}

/// What a [`PreparedFields`] stands for.
///
/// The first four fields are laid down when the body is prepared and never
/// change. The others say how far the body has been read. Stream fields are
/// numbered in the order in which they are served.
pub struct BodyView<S> {
    /// The boundary token.
    pub boundary: Seq<char>,
    /// The rendered text fields.
    pub text: Seq<u8>,
    /// The rendered header of each stream field.
    pub headers: Seq<Seq<u8>>,
    /// The closing marker; empty if the body has no field.
    pub tail: Seq<u8>,
    /// How many bytes of `text` were read.
    pub text_pos: nat,
    /// How many stream fields have ended.
    pub served: nat,
    /// How many bytes were read of the header of the stream field that is
    /// being served.
    pub header_pos: nat,
    /// What the payload of each stream field has delivered so far.
    pub payloads: Seq<Seq<u8>>,
    /// How many bytes of `tail` were read.
    pub tail_pos: nat,
    /// The payload sources of the stream fields that have not ended, the one
    /// being served first.
    pub pending: Seq<S>,
}

impl<S> BodyView<S> {
    /// The pieces are read in order: the text block before any stream field,
    /// one stream field after the other, header before payload, and the
    /// closing marker after everything else.
    pub open spec fn wf(self) -> bool {
        &&& self.payloads.len() == self.headers.len()
        &&& self.served + self.pending.len() == self.headers.len()
        &&& self.text_pos <= self.text.len()
        &&& self.tail_pos <= self.tail.len()
        &&& self.served < self.headers.len() ==> self.header_pos
            <= self.headers[self.served as int].len()
        &&& self.served == self.headers.len() ==> self.header_pos == 0
        &&& forall|j: int|
            self.served < j < self.headers.len() ==> (#[trigger] self.payloads[j]).len() == 0
        &&& self.served < self.headers.len() && self.payloads[self.served as int].len() > 0
            ==> self.header_pos == self.headers[self.served as int].len()
        &&& self.text_pos < self.text.len() ==> self.served == 0 && self.header_pos == 0 && (
        self.headers.len() > 0 ==> self.payloads[0].len() == 0)
        &&& self.text_pos < self.text.len() || self.served < self.headers.len() ==> self.tail_pos
            == 0
        &&& self.tail.len() == 0 ==> self.text.len() == 0 && self.headers.len() == 0
    }

    /// Nothing was read yet.
    pub open spec fn untouched(self) -> bool {
        &&& self.text_pos == 0
        &&& self.served == 0
        &&& self.header_pos == 0
        &&& self.tail_pos == 0
        &&& forall|j: int| 0 <= j < self.payloads.len() ==> (#[trigger] self.payloads[j]).len() == 0
    }

    /// The body has ended: the closing marker was read to its end.
    pub open spec fn exhausted(self) -> bool {
        self.tail_pos == self.tail.len()
    }

    /// What the stream field that is being served has given so far.
    pub open spec fn current(self) -> Seq<u8> {
        if self.served < self.headers.len() {
            self.headers[self.served as int].take(self.header_pos as int)
                + self.payloads[self.served as int]
        } else {
            Seq::<u8>::empty()
        }
    }

    /// All the bytes that were read from the body so far.
    pub open spec fn drawn(self) -> Seq<u8> {
        self.text.take(self.text_pos as int) + frames(self.headers, self.payloads, self.served)
            + self.current() + self.tail.take(self.tail_pos as int)
    }

    /// The whole body, with the payloads as they were delivered.
    pub open spec fn body(self) -> Seq<u8> {
        self.text + frames(self.headers, self.payloads, self.headers.len()) + self.tail
    }

    /// The bytes that are due next and are held in memory, so that reading
    /// them asks nothing of a payload: the rest of the text block, and after
    /// it the rest of the header of the stream field that is being served
    /// or, where no stream field is left, the rest of the closing marker.
    pub open spec fn ready(self) -> Seq<u8> {
        self.text.skip(self.text_pos as int) + (if self.served < self.headers.len() {
            self.headers[self.served as int].skip(self.header_pos as int)
        } else {
            self.tail.skip(self.tail_pos as int)
        })
    }

    /// The state after the stream field that is being served has ended.
    pub open spec fn end_field(self) -> Self {
        BodyView {
            served: self.served + 1,
            header_pos: 0,
            pending: self.pending.skip(1),
            ..self
        }
    }

    /// The state after the payload of the stream field that is being served
    /// has delivered `chunk`.
    pub open spec fn deliver(self, chunk: Seq<u8>) -> Self {
        BodyView {
            payloads: self.payloads.update(
                self.served as int,
                self.payloads[self.served as int] + chunk,
            ),
            ..self
        }
    }

    /// What is left of the piece that is read next and is held in memory: of
    /// the text block, or of the header of the stream field that is being
    /// served, or of the closing marker. It is empty when the next bytes are
    /// for a payload to deliver, and when the body has ended.
    pub open spec fn due(self) -> Seq<u8> {
        if self.text_pos < self.text.len() {
            self.text.skip(self.text_pos as int)
        } else if self.served < self.headers.len() {
            self.headers[self.served as int].skip(self.header_pos as int)
        } else {
            self.tail.skip(self.tail_pos as int)
        }
    }

    /// The state after `n` bytes of `due` were read.
    pub open spec fn taken(self, n: nat) -> Self {
        if self.text_pos < self.text.len() {
            BodyView { text_pos: self.text_pos + n, ..self }
        } else if self.served < self.headers.len() {
            BodyView { header_pos: self.header_pos + n, ..self }
        } else {
            BodyView { tail_pos: self.tail_pos + n, ..self }
        }
    }

    /// The state after one read of the payload that is being served, which
    /// answered `answer`, left its source as `source` and the buffer holding
    /// `buf`. A count of zero ends the field: it leaves the queue. Any other
    /// count adds the first bytes of the buffer, as many, to what the payload
    /// has delivered. After an error nothing is added and the field stays
    /// where it is.
    pub open spec fn answered(
        self,
        answer: Result<usize, std::io::Error>,
        source: S,
        buf: Seq<u8>,
    ) -> Self {
        match answer {
            Ok(n) => if n == 0 {
                self.end_field()
            } else {
                BodyView {
                    pending: self.pending.update(0, source),
                    ..self.deliver(buf.take(n as int))
                }
            },
            Err(_) => BodyView { pending: self.pending.update(0, source), ..self },
        }
    }

    /// Both are states of one prepared body.
    pub open spec fn same_body(self, other: Self) -> bool {
        &&& self.boundary == other.boundary
        &&& self.text == other.text
        &&& self.headers == other.headers
        &&& self.tail == other.tail
    }

    /// `self` is a state that reading leads to from `earlier`: no position
    /// moves back, no payload loses a byte that it had delivered, and the
    /// sources of the fields that are not being served yet are as they were.
    pub open spec fn follows(self, earlier: Self) -> bool {
        &&& self.same_body(earlier)
        &&& earlier.text_pos <= self.text_pos
        &&& earlier.served <= self.served
        &&& earlier.served == self.served ==> earlier.header_pos <= self.header_pos
        &&& earlier.tail_pos <= self.tail_pos
        &&& forall|j: int|
            0 <= j < self.headers.len() ==> begins(earlier.payloads[j], #[trigger] self.payloads[j])
        &&& forall|i: int|
            1 <= i < self.pending.len() ==> #[trigger] self.pending[i] == earlier.pending[i
                + self.served - earlier.served]
    }
}

/// Every state follows itself.
pub proof fn lemma_follows_self<S>(v: BodyView<S>)
    ensures
        v.follows(v),
{
    assert forall|j: int| 0 <= j < v.headers.len() implies begins(
        v.payloads[j],
        #[trigger] v.payloads[j],
    ) by {
        assert(v.payloads[j].take(v.payloads[j].len() as int) =~= v.payloads[j]);
    }
}

/// A state that follows one that follows `a` follows `a`.
pub proof fn lemma_follows_trans<S>(a: BodyView<S>, b: BodyView<S>, c: BodyView<S>)
    requires
        a.wf(),
        b.wf(),
        c.wf(),
        b.follows(a),
        c.follows(b),
    ensures
        c.follows(a),
{
    assert forall|j: int| 0 <= j < c.headers.len() implies begins(
        a.payloads[j],
        #[trigger] c.payloads[j],
    ) by {
        assert(c.payloads[j].take(a.payloads[j].len() as int) =~= b.payloads[j].take(
            a.payloads[j].len() as int,
        ));
    }
    assert forall|i: int| 1 <= i < c.pending.len() implies #[trigger] c.pending[i]
        == a.pending[i + c.served - a.served] by {
        assert(c.pending[i] == b.pending[i + c.served - b.served]);
    }
}

/// The stream fields `0 .. k` give the same bytes under two records of the
/// payloads that agree on those fields.
pub proof fn lemma_frames_agree(
    headers: Seq<Seq<u8>>,
    a: Seq<Seq<u8>>,
    b: Seq<Seq<u8>>,
    k: nat,
)
    requires
        forall|j: int| 0 <= j < k ==> a[j] == b[j],
    ensures
        frames(headers, a, k) == frames(headers, b, k),
    decreases k,
{
    if k > 0 {
        lemma_frames_agree(headers, a, b, (k - 1) as nat);
    }
}

/// What reading `n` bytes that are held in memory comes to.
pub proof fn lemma_taken<S>(v: BodyView<S>, n: nat)
    requires
        v.wf(),
        n <= v.due().len(),
    ensures
        v.taken(n).wf(),
        v.taken(n).follows(v),
        v.taken(n).drawn() == v.drawn() + v.due().take(n as int),
        v.taken(n).pending == v.pending,
        v.taken(n).served == v.served,
        n <= v.ready().len(),
        v.ready().take(n as int) == v.due().take(n as int),
        v.taken(n).ready() == v.ready().skip(n as int),
{
    let w = v.taken(n);
    lemma_follows_self(v);
    assert(w.follows(v));
    assert(w.drawn() =~= v.drawn() + v.due().take(n as int));
    assert(v.ready().take(n as int) =~= v.due().take(n as int));
    assert(w.ready() =~= v.ready().skip(n as int));
}

/// Nothing is due from memory exactly when nothing is ready; in a body that
/// has not ended, a payload is then being served.
pub proof fn lemma_due_ready<S>(v: BodyView<S>)
    requires
        v.wf(),
    ensures
        v.due().len() == 0 <==> v.ready().len() == 0,
        v.due().len() == 0 && !v.exhausted() ==> v.served < v.headers.len() && v.text_pos
            == v.text.len() && v.header_pos == v.headers[v.served as int].len(),
{
}

/// What one answer of the payload that is being served comes to.
pub proof fn lemma_answered<S>(
    v: BodyView<S>,
    answer: Result<usize, std::io::Error>,
    source: S,
    buf: Seq<u8>,
)
    requires
        v.wf(),
        v.due().len() == 0,
        !v.exhausted(),
        answer matches Ok(n) ==> n <= buf.len(),
    ensures
        v.answered(answer, source, buf).wf(),
        v.answered(answer, source, buf).follows(v),
        answer matches Ok(n) ==> {
            &&& v.answered(answer, source, buf).drawn() == v.drawn() + buf.take(n as int)
            &&& n == 0 ==> v.answered(answer, source, buf).served == v.served + 1
            &&& n > 0 ==> v.answered(answer, source, buf).served == v.served
        },
        answer is Err ==> {
            &&& v.answered(answer, source, buf).drawn() == v.drawn()
            &&& v.answered(answer, source, buf).served == v.served
            &&& v.answered(answer, source, buf).ready().len() == 0
        },
{
    let w = v.answered(answer, source, buf);
    lemma_due_ready(v);
    lemma_follows_self(v);
    let k = v.served as int;
    match answer {
        Ok(n) => {
            if n == 0 {
                assert(buf.take(0) =~= Seq::<u8>::empty());
                assert(w.drawn() =~= v.drawn());
                assert(w.follows(v));
            } else {
                let chunk = buf.take(n as int);
                lemma_frames_agree(v.headers, v.payloads, w.payloads, v.served);
                assert(w.payloads[k].take(v.payloads[k].len() as int) =~= v.payloads[k]);
                assert(w.drawn() =~= v.drawn() + chunk);
                assert(w.follows(v));
            }
        },
        Err(_) => {
            assert(w.drawn() =~= v.drawn());
            assert(w.follows(v));
        },
    }
}

/// How many bytes the first `i` of `answers` have placed in the buffer.
pub open spec fn placed(answers: Seq<Result<usize, std::io::Error>>, i: int) -> int
    decreases i,
{
    if i <= 0 {
        0
    } else {
        placed(answers, i - 1) + (match answers[i - 1] {
            Ok(n) => n as int,
            Err(_) => 0,
        })
    }
}

/// The step number `i` of a read, as far as it asks nothing of a payload.
/// The step finds the body in `states[i]` and the buffer holding `bufs[i]`,
/// and leaves them as `states[i + 1]` and `bufs[i + 1]`; its answer is
/// `answers[i]`. It is taken only while the buffer has room and the body has
/// not ended, and it leaves alone what was placed before it. Where bytes
/// held in memory are due, it places as many of them as fit behind what was
/// placed before.
pub open spec fn is_read_step<S>(
    states: Seq<BodyView<S>>,
    bufs: Seq<Seq<u8>>,
    answers: Seq<Result<usize, std::io::Error>>,
    i: int,
) -> bool {
    let at = placed(answers, i);
    let given = bufs[i].skip(at);
    let left = bufs[i + 1].skip(at);
    &&& states[i].wf()
    &&& !states[i].exhausted()
    &&& 0 <= at < bufs[i].len()
    &&& bufs[i + 1].len() == bufs[i].len()
    &&& bufs[i + 1].take(at) == bufs[i].take(at)
    &&& answers[i] matches Ok(n) ==> n <= given.len()
    &&& states[i].due().len() > 0 ==> (answers[i] matches Ok(n) && {
        &&& n == min_len(given.len() as int, states[i].due().len() as int)
        &&& left == states[i].due().take(n as int) + given.skip(n as int)
        &&& states[i + 1] == states[i].taken(n as nat)
    })
}

/// A read as a sequence of steps, each taken with what is left of the
/// buffer. Only the last step may fail, and then its error is the result.
/// Otherwise the result is the number of bytes placed, and the steps end
/// because the buffer is full or the body has ended.
pub open spec fn is_read_trace<S>(
    states: Seq<BodyView<S>>,
    bufs: Seq<Seq<u8>>,
    answers: Seq<Result<usize, std::io::Error>>,
    r: Result<usize, std::io::Error>,
) -> bool {
    &&& states.len() == answers.len() + 1
    &&& bufs.len() == answers.len() + 1
    &&& forall|i: int| 0 <= i < answers.len() ==> #[trigger] is_read_step(states, bufs, answers, i)
    &&& forall|i: int| 0 <= i < answers.len() - 1 ==> (#[trigger] answers[i]) is Ok
    &&& match r {
        Ok(n) => {
            &&& answers.len() > 0 ==> answers.last() is Ok
            &&& n == placed(answers, answers.len() as int)
            &&& n == bufs.last().len() || states.last().exhausted()
        },
        Err(_) => answers.len() > 0 && answers.last() == r,
    }
}

/// A further answer leaves what the earlier answers have placed as it is.
pub proof fn lemma_placed_push(
    answers: Seq<Result<usize, std::io::Error>>,
    next: Result<usize, std::io::Error>,
    i: int,
)
    requires
        i <= answers.len(),
    ensures
        placed(answers.push(next), i) == placed(answers, i),
    decreases i,
{
    if i > 0 {
        lemma_placed_push(answers, next, i - 1);
    }
}

/// A further step leaves the earlier steps as they are.
pub proof fn lemma_read_step_push<S>(
    states: Seq<BodyView<S>>,
    bufs: Seq<Seq<u8>>,
    answers: Seq<Result<usize, std::io::Error>>,
    state: BodyView<S>,
    buf: Seq<u8>,
    next: Result<usize, std::io::Error>,
    i: int,
)
    requires
        states.len() == answers.len() + 1,
        bufs.len() == answers.len() + 1,
        0 <= i < answers.len(),
    ensures
        is_read_step(states.push(state), bufs.push(buf), answers.push(next), i) == is_read_step(
            states,
            bufs,
            answers,
            i,
        ),
{
    lemma_placed_push(answers, next, i);
}

/// A sequence of steps with one more step at its end is a sequence of steps.
pub proof fn lemma_trace_push<S>(
    states: Seq<BodyView<S>>,
    bufs: Seq<Seq<u8>>,
    answers: Seq<Result<usize, std::io::Error>>,
    state: BodyView<S>,
    buf: Seq<u8>,
    next: Result<usize, std::io::Error>,
)
    requires
        states.len() == answers.len() + 1,
        bufs.len() == answers.len() + 1,
        forall|i: int| 0 <= i < answers.len() ==> #[trigger] is_read_step(states, bufs, answers, i),
        is_read_step(
            states.push(state),
            bufs.push(buf),
            answers.push(next),
            answers.len() as int,
        ),
    ensures
        forall|i: int|
            0 <= i < answers.len() + 1 ==> #[trigger] is_read_step(
                states.push(state),
                bufs.push(buf),
                answers.push(next),
                i,
            ),
        placed(answers.push(next), answers.len() as int + 1) == placed(
            answers,
            answers.len() as int,
        ) + (
        match next {
            Ok(n) => n as int,
            Err(_) => 0,
        }),
{
    assert forall|i: int| 0 <= i < answers.len() + 1 implies #[trigger] is_read_step(
        states.push(state),
        bufs.push(buf),
        answers.push(next),
        i,
    ) by {
        if i < answers.len() {
            lemma_read_step_push(states, bufs, answers, state, buf, next, i);
            assert(is_read_step(states, bufs, answers, i));
        }
    }
    lemma_placed_push(answers, next, answers.len() as int);
}

/// One round of filling a buffer. Before it, the first `total` bytes of the
/// buffer begin with the bytes `owed`, as far as they go; the round leaves
/// those bytes alone and adds `n` more. If `owed` was not used up, `ready`
/// being what was left of it, the new bytes are the next of `owed`.
proof fn lemma_fill_round(
    owed: Seq<u8>,
    before: Seq<u8>,
    after: Seq<u8>,
    total: int,
    n: int,
    owing: bool,
    ready: Seq<u8>,
)
    requires
        0 <= total,
        0 <= n,
        total + n <= after.len(),
        after.len() == before.len(),
        after.take(total) == before.take(total),
        before.take(min_len(total, owed.len() as int)) == owed.take(
            min_len(total, owed.len() as int),
        ),
        owing ==> total <= owed.len() && ready == owed.skip(total) && n <= ready.len()
            && after.subrange(total, total + n) == ready.take(n),
        !owing ==> total >= owed.len(),
    ensures
        after.take(min_len(total + n, owed.len() as int)) == owed.take(
            min_len(total + n, owed.len() as int),
        ),
        owing ==> total + n <= owed.len() && ready.skip(n) == owed.skip(total + n),
{
    if owing {
        assert(owed.take(total + n) =~= owed.take(total) + owed.skip(total).take(n));
    }
}

/// A prepared body: every field rendered, ready to be read front to back.
pub struct PreparedFields<S> {
    text_data: Cursor,
    streams: Vec<PreparedField<S>>,
    end_boundary: Cursor,
    boundary: String,
    headers: Ghost<Seq<Seq<u8>>>,
    payloads: Ghost<Seq<Seq<u8>>>,
}

impl<S> View for PreparedFields<S> {
    type V = BodyView<S>;

    closed spec fn view(&self) -> BodyView<S> {
        let queued = self.streams@.len() as int;
        BodyView {
            boundary: self.boundary@,
            text: self.text_data@.data,
            headers: self.headers@,
            tail: self.end_boundary@.data,
            text_pos: self.text_data@.pos,
            served: (self.headers@.len() - queued) as nat,
            header_pos: if queued > 0 {
                self.streams@[queued - 1]@.header.pos
            } else {
                0
            },
            payloads: self.payloads@,
            tail_pos: self.end_boundary@.pos,
            pending: Seq::new(queued as nat, |i: int| self.streams@[queued - 1 - i]@.stream),
        }
    }
}

impl<S> PreparedFields<S> {
    /// The value is one that preparing and reading lead to.
    pub open spec fn wf(&self) -> bool {
        &&& self@.wf()
        &&& self.queue_wf()
    }

    /// The queue holds the stream fields that have not ended, the one that is
    /// served next at its end, and only that one may have been read from.
    pub closed spec fn queue_wf(&self) -> bool {
        &&& self.streams@.len() <= self.headers@.len()
        &&& forall|i: int|
            0 <= i < self.streams@.len() ==> (#[trigger] self.streams@[i])@.header.data
                == self.headers@[self.headers@.len() - 1 - i]
        &&& forall|i: int|
            0 <= i < self.streams@.len() - 1 ==> (#[trigger] self.streams@[i])@.header.pos == 0
    }
}

impl<S: Source> PreparedFields<S> {
    /// Puts the rendered pieces together. `streams` holds the stream fields
    /// in the order in which they were added; the last one is served first.
    pub(crate) fn assemble(
        boundary: String,
        text_data: Vec<u8>,
        streams: Vec<PreparedField<S>>,
        end_boundary: Vec<u8>,
    ) -> (body: Self)
        requires
            forall|i: int| 0 <= i < streams@.len() ==> (#[trigger] streams@[i])@.header.pos == 0,
            end_boundary@.len() == 0 ==> text_data@.len() == 0 && streams@.len() == 0,
        ensures
            body.wf(),
            body@.untouched(),
            body@.boundary == boundary@,
            body@.text == text_data@,
            body@.tail == end_boundary@,
            body@.headers == Seq::new(
                streams@.len(),
                |i: int| streams@[streams@.len() - 1 - i]@.header.data,
            ),
            body@.pending == Seq::new(
                streams@.len(),
                |i: int| streams@[streams@.len() - 1 - i]@.stream,
            ),
    {
        let ghost headers = Seq::new(
            streams@.len(),
            |i: int| streams@[streams@.len() - 1 - i]@.header.data,
        );
        let ghost payloads = Seq::new(streams@.len(), |i: int| Seq::<u8>::empty());
        PreparedFields {
            text_data: Cursor::new(text_data),
            streams,
            end_boundary: Cursor::new(end_boundary),
            boundary,
            headers: Ghost(headers),
            payloads: Ghost(payloads),
        }
    }

    /// The boundary token, for the `Content-Type` header of the request.
    pub fn boundary(&self) -> (token: &str)
        ensures
            token@ == self@.boundary,
    {
        self.boundary.as_str()
    }

    /// Books what one read from the stream field at the head of the queue
    /// has come to. The outcome is handed on as it is. A count of zero ends
    /// the field, which leaves the queue; payload bytes are added to what the
    /// field has delivered; after an error the field stays where it is.
    fn settle(
        &mut self,
        outcome: Result<usize, std::io::Error>,
        Ghost(from_header): Ghost<bool>,
        Ghost(chunk): Ghost<Seq<u8>>,
    ) -> (r: Result<usize, std::io::Error>)
        requires
            old(self).wf(),
            old(self)@.served < old(self)@.headers.len(),
            old(self)@.text_pos == old(self)@.text.len(),
            !from_header ==> old(self)@.header_pos == old(self)@.headers[old(self)@.served as int].len(),
            from_header ==> old(self)@.payloads[old(self)@.served as int].len() == 0,
            outcome matches Ok(n) ==> chunk.len() == n && (from_header ==> n > 0),
        ensures
            final(self).wf(),
            r == outcome,
            final(self)@ == (match outcome {
                Ok(n) => if n == 0 {
                    old(self)@.end_field()
                } else if from_header {
                    old(self)@
                } else {
                    old(self)@.deliver(chunk)
                },
                Err(_) => old(self)@,
            }),
    {
        match outcome {
            Ok(n) => {
                if n == 0 {
                    self.streams.pop();
                    proof {
                        assert(self@.pending =~= old(self)@.pending.skip(1));
                    }
                } else {
                    proof {
                        if !from_header {
                            let k = self@.served as int;
                            self.payloads@ = self.payloads@.update(k, self.payloads@[k] + chunk);
                        }
                    }
                }
                Ok(n)
            },
            Err(e) => Err(e),
        }
    }

    /// Reads once from the stream field at the head of the queue: from its
    /// header, or from its payload when the header is used up.
    fn serve(&mut self, sub: &mut [u8]) -> (r: Result<usize, std::io::Error>)
        requires
            old(self).wf(),
            old(sub)@.len() > 0,
            old(self)@.text_pos == old(self)@.text.len(),
            old(self)@.served < old(self)@.headers.len(),
        ensures
            final(self).wf(),
            final(sub)@.len() == old(sub)@.len(),
            old(self)@.due().len() > 0 ==> (r matches Ok(n) && {
                &&& n == min_len(old(sub)@.len() as int, old(self)@.due().len() as int)
                &&& final(sub)@ == old(self)@.due().take(n as int) + old(sub)@.skip(n as int)
                &&& final(self)@ == old(self)@.taken(n as nat)
            }),
            old(self)@.due().len() == 0 ==> (exists|inner: &mut S, given: &mut [u8]|
                #[trigger] call_ensures(S::read, (inner, given), r)
                    && *inner == old(self)@.pending[0]
                    && given@ == old(sub)@
                    && final(given)@ == final(sub)@
                    && final(self)@ == old(self)@.answered(r, *final(inner), final(sub)@)),
    {
        let ghost before = self@;
        let top: usize = self.streams.len() - 1;
        let ghost from_header = !self.streams@[top as int]@.header.at_end();
        let outcome = self.streams[top].read(sub);
        let ghost chunk = match outcome {
            Ok(n) => sub@.take(n as int),
            Err(_) => Seq::<u8>::empty(),
        };
        let ghost read = self@;
        proof {
            if from_header {
                assert(outcome is Ok);
                assert(chunk.len() == outcome->Ok_0);
                assert(read.pending =~= before.pending);
                assert(read.header_pos == before.header_pos + chunk.len());
                assert(read == before.taken(chunk.len()));
                lemma_taken(before, chunk.len());
            } else {
                assert(read.pending =~= before.pending.update(0, read.pending[0]));
                assert(read.header_pos == before.header_pos);
                assert(read == BodyView {
                    pending: before.pending.update(0, read.pending[0]),
                    ..before
                });
            }
        }
        let r = self.settle(outcome, Ghost(from_header), Ghost(chunk));
        proof {
            if !from_header {
                if r is Ok && r->Ok_0 == 0 {
                    assert(read.pending.skip(1) =~= before.pending.skip(1));
                    assert(read.end_field() == before.end_field());
                } else if r is Ok {
                    assert(read.deliver(chunk) == BodyView {
                        pending: before.pending.update(0, read.pending[0]),
                        ..before.deliver(chunk)
                    });
                }
                assert(self@ == before.answered(r, read.pending[0], sub@));
            }
        }
        r
    }

    /// One step of reading: takes the next bytes from the piece that is due.
    ///
    /// With an empty buffer, or when the body has ended, nothing is done.
    /// Where bytes held in memory are due, of the text block, of a header or
    /// of the closing marker, as many of them as fit are copied to the front
    /// of `buf`, and no payload is touched. Where none is due, the payload
    /// that is being served is read, once and with `buf` as it is given:
    /// there is a call of its `read` which finds the payload and the buffer
    /// as they were, returns `r`, and leaves them as they are afterwards, and
    /// the body is left as `answered` says. So an error is the payload's own,
    /// `Ok(0)` ends the field, and the bytes are those that the payload put
    /// into the buffer.
    pub fn pull(&mut self, buf: &mut [u8]) -> (r: Result<usize, std::io::Error>)
        requires
            old(self).wf(),
        ensures
            final(self).wf(),
            final(buf)@.len() == old(buf)@.len(),
            old(buf)@.len() == 0 || old(self)@.exhausted() ==> (r matches Ok(n) && n == 0
                && *final(self) == *old(self) && final(buf)@ == old(buf)@),
            old(buf)@.len() > 0 && old(self)@.due().len() > 0 ==> (r matches Ok(n) && {
                &&& n == min_len(old(buf)@.len() as int, old(self)@.due().len() as int)
                &&& final(buf)@ == old(self)@.due().take(n as int) + old(buf)@.skip(n as int)
                &&& final(self)@ == old(self)@.taken(n as nat)
            }),
            old(buf)@.len() > 0 && !old(self)@.exhausted() && old(self)@.due().len() == 0 ==> (
            exists|inner: &mut S, given: &mut [u8]|
                #[trigger] call_ensures(S::read, (inner, given), r)
                    && *inner == old(self)@.pending[0]
                    && given@ == old(buf)@
                    && final(given)@ == final(buf)@
                    && final(self)@ == old(self)@.answered(r, *final(inner), final(buf)@)),
    {
        if buf.len() == 0 || cursor_at_end(&self.end_boundary) {
            return Ok(0);
        }
        let ghost before = self@;
        proof {
            lemma_due_ready(before);
        }
        if !cursor_at_end(&self.text_data) {
            let n: usize = self.text_data.read(buf)?;
            proof {
                lemma_taken(before, n as nat);
                assert(self@ =~= before.taken(n as nat));
            }
            Ok(n)
        } else if self.streams.len() > 0 {
            self.serve(buf)
        } else {
            let n: usize = self.end_boundary.read(buf)?;
            proof {
                lemma_taken(before, n as nat);
                assert(self@ =~= before.taken(n as nat));
            }
            Ok(n)
        }
    }

    /// One step of `read`, with what follows from the contract of `pull` for
    /// the body as a whole.
    fn advance(&mut self, sub: &mut [u8]) -> (r: Result<usize, std::io::Error>)
        requires
            old(self).wf(),
            old(sub)@.len() > 0,
            !old(self)@.exhausted(),
        ensures
            final(self).wf(),
            final(sub)@.len() == old(sub)@.len(),
            final(self)@.follows(old(self)@),
            r matches Ok(n) ==> {
                &&& n <= old(sub)@.len()
                &&& final(self)@.drawn() == old(self)@.drawn() + final(sub)@.take(n as int)
                &&& n == 0 ==> final(self)@.served == old(self)@.served + 1
            },
            r is Err ==> {
                &&& final(self)@.served == old(self)@.served
                &&& final(self)@.served < final(self)@.headers.len()
                &&& final(self)@.ready().len() == 0
                &&& final(self)@.drawn() == old(self)@.drawn()
            },
            old(self)@.ready().len() > 0 ==> (r matches Ok(n) && {
                &&& 0 < n <= old(self)@.ready().len()
                &&& final(sub)@.take(n as int) == old(self)@.ready().take(n as int)
                &&& final(self)@.ready() == old(self)@.ready().skip(n as int)
                &&& final(self)@.pending == old(self)@.pending
            }),
            old(self)@.served == old(self)@.headers.len() ==> old(self)@.ready().len() > 0,
            old(self)@.due().len() > 0 <==> old(self)@.ready().len() > 0,
            final(self)@.tail_pos <= old(self)@.tail_pos + (match r {
                Ok(n) => n as int,
                Err(_) => 0,
            }),
            old(self)@.due().len() > 0 ==> (r matches Ok(n) && {
                &&& n == min_len(old(sub)@.len() as int, old(self)@.due().len() as int)
                &&& final(sub)@ == old(self)@.due().take(n as int) + old(sub)@.skip(n as int)
                &&& final(self)@ == old(self)@.taken(n as nat)
            }),
            old(self)@.ready().len() == 0 ==> (exists|inner: &mut S, given: &mut [u8]|
                #[trigger] call_ensures(S::read, (inner, given), r)
                    && *inner == old(self)@.pending[0]
                    && given@ == old(sub)@
                    && final(given)@ == final(sub)@
                    && final(self)@ == old(self)@.answered(r, *final(inner), final(sub)@)),
    {
        let ghost before = self@;
        let r = self.pull(sub);
        proof {
            lemma_due_ready(before);
            if before.due().len() > 0 {
                let n = r->Ok_0;
                lemma_taken(before, n as nat);
                assert(sub@.take(n as int) =~= before.due().take(n as int));
            } else {
                let source = if r is Ok && r->Ok_0 == 0 {
                    before.pending[0]
                } else {
                    self@.pending[0]
                };
                assert(self@ == before.answered(r, source, sub@));
                lemma_answered(before, r, source, sub@);
            }
        }
        r
    }

    /// Fills `buf` from the front with the next bytes of the body and
    /// reports how many. It takes one step after the other, as `pull` does,
    /// each with what is left of the buffer, until the buffer is full or the
    /// body has ended. The count falls short of the buffer only when the
    /// body ends; `Ok(0)` for a buffer that is not empty says that it has
    /// ended.
    ///
    /// The bytes that are held in memory, `ready`, are owed: they come
    /// first, and until they are used up nothing can fail. What follows them
    /// is what the payloads deliver. Where none is ready, the first thing
    /// done is one read of the payload that is being served, with the whole
    /// buffer: its error is returned as it is, its `Ok(0)` ends the field,
    /// its bytes are the next bytes. An error is always the answer of a
    /// payload's `read`, handed on unchanged, and the bytes placed earlier in
    /// the same call are lost with it.
    ///
    /// The last clause gives the whole account: the steps of the read, one
    /// by one, with the state of the body and the contents of the buffer
    /// between them. A step that asks a payload is one call of that payload's
    /// `read` with what is left of the buffer, and the body goes on from what
    /// `answered` makes of its answer. So what a read returns and leaves
    /// behind is fixed by the body and by what the payloads answer.
    #[verifier::rlimit(50)]
    pub fn read(&mut self, buf: &mut [u8]) -> (r: Result<usize, std::io::Error>)
        requires
            old(self).wf(),
        ensures
            final(self).wf(),
            final(buf)@.len() == old(buf)@.len(),
            final(self)@.follows(old(self)@),
            old(buf)@.len() == 0 || old(self)@.exhausted() ==> (r matches Ok(n) && n == 0
                && *final(self) == *old(self) && final(buf)@ == old(buf)@),
            old(buf)@.len() <= old(self)@.ready().len() ==> (r matches Ok(n) && n == old(buf)@.len()
                && final(self)@.pending == old(self)@.pending),
            old(self)@.served == old(self)@.headers.len() ==> (r matches Ok(n) && n == min_len(
                old(buf)@.len() as int,
                old(self)@.ready().len() as int,
            )),
            r matches Ok(n) ==> {
                &&& n <= old(buf)@.len()
                &&& n == old(buf)@.len() || final(self)@.exhausted()
                &&& n == 0 <==> old(buf)@.len() == 0 || old(self)@.exhausted()
                &&& final(self)@.drawn() == old(self)@.drawn() + final(buf)@.take(n as int)
                &&& final(buf)@.take(min_len(n as int, old(self)@.ready().len() as int))
                    == old(self)@.ready().take(
                    min_len(n as int, old(self)@.ready().len() as int),
                )
            },
            r is Err ==> {
                &&& final(self)@.served < final(self)@.headers.len()
                &&& final(self)@.ready().len() == 0
                &&& final(buf)@.take(old(self)@.ready().len() as int) == old(self)@.ready()
                &&& exists|k: int|
                    old(self)@.ready().len() <= k < old(buf)@.len() && final(self)@.drawn()
                        == old(self)@.drawn() + #[trigger] final(buf)@.take(k)
                &&& exists|inner: &mut S, given: &mut [u8]|
                    #[trigger] call_ensures(S::read, (inner, given), r) && *final(inner)
                        == final(self)@.pending[0]
            },
            old(buf)@.len() > 0 && !old(self)@.exhausted() && old(self)@.ready().len() == 0 ==> (
            exists|inner: &mut S, given: &mut [u8], answer: Result<usize, std::io::Error>|
                #[trigger] call_ensures(S::read, (inner, given), answer)
                    && *inner == old(self)@.pending[0]
                    && given@ == old(buf)@
                    && (answer is Err || answer->Ok_0 == old(buf)@.len() ==> r == answer
                        && final(buf)@ == final(given)@
                        && final(self)@ == old(self)@.answered(
                        answer,
                        *final(inner),
                        final(given)@,
                    ))
                    && (answer matches Ok(n) ==> (r matches Ok(m) ==> n <= m)
                        && final(buf)@.take(n as int) == final(given)@.take(n as int)
                        && final(self)@.follows(
                        old(self)@.answered(answer, *final(inner), final(given)@),
                    ))),
            (exists|
                states: Seq<BodyView<S>>,
                bufs: Seq<Seq<u8>>,
                answers: Seq<Result<usize, std::io::Error>>,
            |
                #[trigger] is_read_trace(states, bufs, answers, r)
                    && states[0] == old(self)@
                    && bufs[0] == old(buf)@
                    && states.last() == final(self)@
                    && bufs.last() == final(buf)@
                    && (forall|i: int|
                    0 <= i < answers.len() && (#[trigger] states[i]).due().len() == 0 ==> (
                    exists|inner: &mut S, given: &mut [u8]|
                        #[trigger] call_ensures(S::read, (inner, given), answers[i])
                            && *inner == states[i].pending[0]
                            && given@ == bufs[i].skip(placed(answers, i))
                            && final(given)@ == bufs[i + 1].skip(placed(answers, i))
                            && states[i + 1] == states[i].answered(
                            answers[i],
                            *final(inner),
                            final(given)@,
                        )))),
    {
        let ghost owed = self@.ready();
        let ghost mut states = seq![self@];
        let ghost mut bufs = seq![buf@];
        let ghost mut answers = Seq::<Result<usize, std::io::Error>>::empty();
        if buf.len() == 0 {
            proof {
                lemma_follows_self(self@);
                assert(is_read_trace(states, bufs, answers, Ok::<usize, std::io::Error>(0usize)));
            }
            return Ok(0);
        }
        let mut total_read: usize = 0;
        let ghost mut rounds: nat = 0;
        let ghost mut answer: Result<usize, std::io::Error> = Ok(0);
        let ghost mut mid = self@;
        let ghost mut first_buf = buf@;
        proof {
            lemma_follows_self(self@);
        }
        while total_read < buf.len() && !cursor_at_end(&self.end_boundary)
            invariant
                buf@.len() == old(buf)@.len(),
                total_read <= buf@.len(),
                self.wf(),
                old(self).wf(),
                owed == old(self)@.ready(),
                self@.follows(old(self)@),
                self@.drawn() == old(self)@.drawn() + buf@.take(total_read as int),
                rounds == 0 ==> *self == *old(self) && buf@ == old(buf)@ && total_read == 0,
                self@.tail_pos <= old(self)@.tail_pos + total_read,
                buf@.take(min_len(total_read as int, owed.len() as int)) == owed.take(
                    min_len(total_read as int, owed.len() as int),
                ),
                total_read < owed.len() || old(self)@.served == old(self)@.headers.len() ==> {
                    &&& total_read <= owed.len()
                    &&& self@.ready() == owed.skip(total_read as int)
                },
                buf@.len() <= owed.len() ==> self@.pending == old(self)@.pending,
                rounds > 0 && owed.len() == 0 ==> {
                    &&& exists|inner: &mut S, given: &mut [u8]|
                        #[trigger] call_ensures(S::read, (inner, given), answer)
                            && *inner == old(self)@.pending[0]
                            && given@ == old(buf)@
                            && final(given)@ == first_buf
                            && mid == old(self)@.answered(answer, *final(inner), first_buf)
                    &&& answer matches Ok(n) && n <= total_read && buf@.take(n as int)
                        == first_buf.take(n as int)
                    &&& mid.wf()
                    &&& self@.follows(mid)
                    &&& rounds == 1 ==> self@ == mid && buf@ == first_buf && total_read
                        == answer->Ok_0
                    &&& rounds > 1 ==> answer->Ok_0 < buf@.len()
                },
                states.len() == answers.len() + 1,
                bufs.len() == answers.len() + 1,
                states[0] == old(self)@,
                bufs[0] == old(buf)@,
                states.last() == self@,
                bufs.last() == buf@,
                placed(answers, answers.len() as int) == total_read,
                forall|i: int| 0 <= i < answers.len() ==> (#[trigger] answers[i]) is Ok,
                forall|i: int|
                    0 <= i < answers.len() ==> #[trigger] is_read_step(states, bufs, answers, i),
                forall|i: int|
                    0 <= i < answers.len() && (#[trigger] states[i]).due().len() == 0 ==> (
                    exists|inner: &mut S, given: &mut [u8]|
                        #[trigger] call_ensures(S::read, (inner, given), answers[i]) && *inner
                            == states[i].pending[0] && given@ == bufs[i].skip(placed(answers, i))
                            && final(given)@ == bufs[i + 1].skip(placed(answers, i)) && states[i
                            + 1] == states[i].answered(answers[i], *final(inner), final(given)@)),
            decreases buf@.len() - total_read, self@.headers.len() - self@.served,
        {
            let ghost before = self@;
            let ghost buf_before = buf@;
            let ghost owing = total_read < owed.len() || old(self)@.served
                == old(self)@.headers.len();
            let (_, sub) = buf.split_at_mut(total_read);
            let ghost sub_before = sub@;
            let outcome = self.advance(sub);
            proof {
                lemma_follows_trans(old(self)@, before, self@);
                assert(buf@.take(total_read as int) =~= buf_before.take(total_read as int));
                if rounds == 0 {
                    answer = outcome;
                    mid = self@;
                    first_buf = buf@;
                    assert(sub_before =~= old(buf)@);
                    assert(buf@ =~= sub@);
                    lemma_follows_self(mid);
                } else if owed.len() == 0 {
                    lemma_follows_trans(mid, before, self@);
                    assert(buf@.take(answer->Ok_0 as int) =~= buf_before.take(
                        total_read as int,
                    ).take(answer->Ok_0 as int));
                    assert(buf_before.take(answer->Ok_0 as int) =~= buf_before.take(
                        total_read as int,
                    ).take(answer->Ok_0 as int));
                }
                rounds = rounds + 1;
            }
            proof {
                let k = answers.len() as int;
                let states1 = states.push(self@);
                let bufs1 = bufs.push(buf@);
                let answers1 = answers.push(outcome);
                lemma_placed_push(answers, outcome, k);
                assert(buf_before.skip(total_read as int) =~= sub_before);
                assert(buf@.skip(total_read as int) =~= sub@);
                assert(is_read_step(states1, bufs1, answers1, k));
                lemma_trace_push(states, bufs, answers, self@, buf@, outcome);
                assert forall|i: int|
                    0 <= i < answers1.len() && (#[trigger] states1[i]).due().len() == 0 implies (
                exists|inner: &mut S, given: &mut [u8]|
                    #[trigger] call_ensures(S::read, (inner, given), answers1[i]) && *inner
                        == states1[i].pending[0] && given@ == bufs1[i].skip(placed(answers1, i))
                        && final(given)@ == bufs1[i + 1].skip(placed(answers1, i)) && states1[i
                        + 1] == states1[i].answered(answers1[i], *final(inner), final(given)@)) by {
                    lemma_placed_push(answers, outcome, i);
                    if i < k {
                        assert(states1[i] == states[i]);
                        assert(states1[i + 1] == states[i + 1]);
                        assert(bufs1[i] == bufs[i]);
                        assert(bufs1[i + 1] == bufs[i + 1]);
                        assert(answers1[i] == answers[i]);
                        assert(states[i].due().len() == 0);
                    } else {
                        assert(states1[k] == before);
                        assert(states1[k + 1] == self@);
                        assert(bufs1[k] == buf_before);
                        assert(bufs1[k + 1] == buf@);
                        assert(answers1[k] == outcome);
                        assert(before.ready().len() == 0);
                    }
                }
                assert forall|i: int| 0 <= i < answers1.len() - 1 implies (
                #[trigger] answers1[i]) is Ok by {
                    assert(answers1[i] == answers[i]);
                }
                states = states1;
                bufs = bufs1;
                answers = answers1;
            }
            match outcome {
                Ok(n) => {
                    proof {
                        assert(buf@.subrange(total_read as int, total_read + n) =~= sub@.take(
                            n as int,
                        ));
                        lemma_fill_round(
                            owed,
                            buf_before,
                            buf@,
                            total_read as int,
                            n as int,
                            owing,
                            before.ready(),
                        );
                    }
                    total_read = total_read + n;
                    proof {
                        assert forall|i: int| 0 <= i < answers.len() implies (
                        #[trigger] answers[i]) is Ok by {
                            if i == answers.len() - 1 {
                                assert(answers[i] == outcome);
                            }
                        }
                    }
                },
                Err(e) => {
                    proof {
                        lemma_fill_round(
                            owed,
                            buf_before,
                            buf@,
                            total_read as int,
                            0,
                            false,
                            before.ready(),
                        );
                        assert(answers.last() == outcome);
                        assert(is_read_trace(states, bufs, answers, outcome));
                    }
                    return Err(e);
                },
            }
        }
        proof {
            assert(is_read_trace(
                states,
                bufs,
                answers,
                Ok::<usize, std::io::Error>(total_read),
            ));
        }
        Ok(total_read)
    }
}

} // verus!
