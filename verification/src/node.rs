//! Node-to-node communication.
//!
//! A connection is served by a session: a state and a function that takes what
//! happened (bytes came, a request was queued, a response is ready) and says
//! what is to be done next (write these bytes, hand this message on, wait).
//! The caller owns the socket and the queues, does what the step says and
//! comes back with the next event.

use crate::channels::{Callback, NodeCallback};
use crate::messages::{Message, NodeRequest, NodeRequestView, NodeResponse, NodeResponseView};
use crate::protobuf_tcp::{frame, next_frame, Fault, Next, Reader, Writer};
use crate::table::Table;
use vstd::prelude::*;

verus! {

/// Largest payload length, in bytes, that a frame may announce.
pub const MAX_LEN: usize = 8388608;

/// The time to wait before an outgoing connection is tried again, in
/// milliseconds.
pub const OUTGOING_CONNECTION_RETRY_INTERVAL: u64 = 200;

/// Node-to-node communication error.
#[derive(Debug)]
pub enum Error {
    /// The TLS handshake failed.
    Tls(std::io::Error),
    /// The socket failed.
    Socket(std::io::Error),
    /// The client named no server.
    Sni,
    /// The client named a server that is no configured node.
    UnknownServerName,
    /// A frame could not be read or written.
    Protocol(crate::protobuf_tcp::Error),
    /// A response came for a request that is not in flight.
    UnexpectedResponse(Vec<u8>),
}

/// What an [`Error`] says, without what the outside errors hold.
pub enum Failure {
    Tls,
    Socket,
    Sni,
    UnknownServerName,
    Protocol(Fault),
    UnexpectedResponse(Seq<u8>),
}

impl View for Error {
    type V = Failure;

    open spec fn view(&self) -> Failure {
        match self {
            Error::Tls(_) => Failure::Tls,
            Error::Socket(_) => Failure::Socket,
            Error::Sni => Failure::Sni,
            Error::UnknownServerName => Failure::UnknownServerName,
            Error::Protocol(error) => Failure::Protocol(error@),
            Error::UnexpectedResponse(request_id) => Failure::UnexpectedResponse(request_id@),
        }
    }
}

/// Completes a one-shot channel with `message`, by `Sender::send` of
/// `futures`. Where the receiving half is gone the message comes back.
#[verifier::external_body]
fn complete(
    callback: futures::channel::oneshot::Sender<NodeResponse>,
    message: NodeResponse,
) -> (r: Result<(), NodeResponse>)
    ensures
        r matches Err(back) ==> back == message,
{
    callback.send(message)
}

/// A response on its way to the caller that waits for it.
pub struct Reply {
    /// The return channel of the request.
    pub callback: futures::channel::oneshot::Sender<NodeResponse>,
    /// The response.
    pub message: NodeResponse,
}

impl Reply {
    /// Hands the response to the caller that waits for it. Where the caller
    /// waits no longer, the response comes back as it was; the session goes
    /// on either way.
    pub fn deliver(self) -> (r: Result<(), NodeResponse>)
        ensures
            r matches Err(back) ==> back == self.message,
    {
        complete(self.callback, self.message)
    }
}

/// The state of an established outgoing connection.
pub struct Outbound {
    reader: Reader,
    writer: Writer,
    callbacks: Table<Vec<u8>, futures::channel::oneshot::Sender<NodeResponse>>,
}

/// What an [`Outbound`] holds.
pub struct OutboundView {
    /// The requests in flight: the return channel of each, by request id.
    pub pending: Map<Seq<u8>, futures::channel::oneshot::Sender<NodeResponse>>,
    /// The bytes that came and that no response was made of yet.
    pub unread: Seq<u8>,
    /// The largest payload of a frame.
    pub max_len: usize,
}

/// What happened on an outgoing connection.
pub enum OutboundEvent {
    /// The last step was carried out.
    Resume,
    /// The outgoing queue gave a request.
    Envelope(NodeCallback),
    /// The outgoing queue has ended.
    QueueClosed,
    /// The stream gave bytes.
    Bytes(Vec<u8>),
    /// The stream has ended.
    StreamClosed,
}

/// What is to be done next on an outgoing connection.
pub enum OutboundStep {
    /// Write these bytes to the stream and flush it.
    Write(Vec<u8>),
    /// Deliver this response.
    Deliver(Reply),
    /// Wait for the queue or the stream.
    Wait,
    /// The session is over.
    Finished,
}

/// What a step of an outgoing connection came to.
pub enum OutboundOutcome {
    Write(Seq<u8>),
    Deliver(futures::channel::oneshot::Sender<NodeResponse>, NodeResponseView),
    Wait,
    Finished,
    Failed(Failure),
}

/// The outcome that a result of [`serve_outgoing`] stands for.
pub open spec fn outbound_outcome(r: Result<OutboundStep, Error>) -> OutboundOutcome {
    match r {
        Ok(OutboundStep::Write(bytes)) => OutboundOutcome::Write(bytes@),
        Ok(OutboundStep::Deliver(reply)) => OutboundOutcome::Deliver(
            reply.callback,
            reply.message@,
        ),
        Ok(OutboundStep::Wait) => OutboundOutcome::Wait,
        Ok(OutboundStep::Finished) => OutboundOutcome::Finished,
        Err(error) => OutboundOutcome::Failed(error@),
    }
}

/// The next response among the bytes that came: it goes to the request in
/// flight with its id, which is then no longer in flight. A response with
/// another id is an error, as is a frame that holds no response or is too
/// long.
pub open spec fn outbound_resume(pre: OutboundView) -> (OutboundView, OutboundOutcome) {
    match next_frame(pre.unread, pre.max_len) {
        Next::Incomplete => (pre, OutboundOutcome::Wait),
        Next::Oversize => (pre, OutboundOutcome::Failed(Failure::Protocol(Fault::InvalidLen))),
        Next::Complete(payload) => {
            let rest = OutboundView { unread: pre.unread.skip(4 + payload.len() as int), ..pre };
            match NodeResponse::parse(payload) {
                None => (rest, OutboundOutcome::Failed(Failure::Protocol(Fault::Decode))),
                Some(response) => if pre.pending.contains_key(response.request_id) {
                    (
                        OutboundView { pending: pre.pending.remove(response.request_id), ..rest },
                        OutboundOutcome::Deliver(pre.pending[response.request_id], response),
                    )
                } else {
                    (
                        rest,
                        OutboundOutcome::Failed(Failure::UnexpectedResponse(response.request_id)),
                    )
                },
            }
        },
    }
}

/// One step of an outgoing connection.
///
/// A request whose id is in flight is dropped: nothing is written and what is
/// in flight stays. Any other request is in flight from now on, and its frame
/// is to be written; a request too long for a frame is an error, and is not
/// in flight. The end of the queue, or of the stream between two frames, ends
/// the session.
pub open spec fn outbound_step(pre: OutboundView, event: OutboundEvent) -> (
    OutboundView,
    OutboundOutcome,
) {
    match event {
        OutboundEvent::Resume => outbound_resume(pre),
        OutboundEvent::Bytes(bytes) => outbound_resume(
            OutboundView { unread: pre.unread + bytes@, ..pre },
        ),
        OutboundEvent::QueueClosed => (pre, OutboundOutcome::Finished),
        OutboundEvent::StreamClosed => if pre.unread.len() == 0 {
            (pre, OutboundOutcome::Finished)
        } else {
            (pre, OutboundOutcome::Failed(Failure::Protocol(Fault::Io)))
        },
        OutboundEvent::Envelope(envelope) => {
            let request_id = envelope.message@.request_id;
            if pre.pending.contains_key(request_id) {
                outbound_resume(pre)
            } else if NodeRequest::wire(envelope.message@).len() <= pre.max_len {
                (
                    OutboundView {
                        pending: pre.pending.insert(request_id, envelope.callback),
                        ..pre
                    },
                    OutboundOutcome::Write(frame(NodeRequest::wire(envelope.message@))),
                )
            } else {
                (pre, OutboundOutcome::Failed(Failure::Protocol(Fault::InvalidLen)))
            }
        },
    }
}

impl View for Outbound {
    type V = OutboundView;

    closed spec fn view(&self) -> OutboundView {
        OutboundView {
            pending: self.callbacks@,
            unread: self.reader.unread(),
            max_len: self.reader.max_len(),
        }
    }
}

impl Outbound {
    /// The session is in order: no request id is in flight twice, and nothing
    /// written waits to be handed out.
    pub closed spec fn wf(&self) -> bool {
        &&& self.reader.wf()
        &&& self.writer.wf()
        &&& self.callbacks.wf()
        &&& self.writer.max_len() == self.reader.max_len()
        &&& self.writer.pending() == Seq::<u8>::empty()
    }

    /// The state of a connection that was just established: nothing in
    /// flight, nothing read.
    pub fn new(max_len: usize) -> (session: Self)
        requires
            max_len <= u32::MAX,
        ensures
            session.wf(),
            session@ == (OutboundView {
                pending: Map::empty(),
                unread: Seq::empty(),
                max_len,
            }),
    {
        let (reader, writer) = crate::protobuf_tcp::new(max_len);
        Outbound { reader, writer, callbacks: Table::new() }
    }

    /// Whether a request with the id `request_id` is in flight.
    pub fn in_flight(&self, request_id: &Vec<u8>) -> (b: bool)
        requires
            self.wf(),
        ensures
            b == self@.pending.contains_key(request_id@),
    {
        self.callbacks.contains_key(request_id)
    }

    /// Whether no request is in flight.
    pub fn is_idle(&self) -> (b: bool)
        requires
            self.wf(),
        ensures
            b <==> forall|request_id: Seq<u8>| !self@.pending.contains_key(request_id),
    {
        let b = self.callbacks.is_empty();
        assert(self@.pending == self.callbacks@);
        b
    }

    fn resume(&mut self) -> (r: Result<OutboundStep, Error>)
        requires
            old(self).wf(),
        ensures
            final(self).wf(),
            final(self)@ == outbound_resume(old(self)@).0,
            outbound_outcome(r) == outbound_resume(old(self)@).1,
    {
        match self.reader.read::<NodeResponse>() {
            Ok(None) => Ok(OutboundStep::Wait),
            Ok(Some(message)) => {
                match self.callbacks.remove(&message.request_id) {
                    Some(callback) => Ok(OutboundStep::Deliver(Reply { callback, message })),
                    None => {
                        assert(self.callbacks@ =~= old(self).callbacks@);
                        Err(Error::UnexpectedResponse(message.request_id))
                    },
                }
            },
            Err(error) => Err(Error::Protocol(error)),
        }
    }
}

/// Takes one event of an established outgoing connection and says what is to
/// be done next.
pub fn serve_outgoing(session: &mut Outbound, event: OutboundEvent) -> (r: Result<
    OutboundStep,
    Error,
>)
    requires
        old(session).wf(),
    ensures
        final(session).wf(),
        final(session)@ == outbound_step(old(session)@, event).0,
        outbound_outcome(r) == outbound_step(old(session)@, event).1,
{
    match event {
        OutboundEvent::Resume => session.resume(),
        OutboundEvent::Bytes(bytes) => {
            session.reader.feed(bytes.as_slice());
            session.resume()
        },
        OutboundEvent::QueueClosed => Ok(OutboundStep::Finished),
        OutboundEvent::StreamClosed => match session.reader.finish() {
            Ok(()) => Ok(OutboundStep::Finished),
            Err(error) => Err(Error::Protocol(error)),
        },
        OutboundEvent::Envelope(envelope) => {
            let Callback { message, callback } = envelope;
            if session.callbacks.contains_key(&message.request_id) {
                return session.resume();
            }
            let request_id = vstd::slice::slice_to_vec(message.request_id.as_slice());
            match session.writer.write(message) {
                Ok(()) => {
                    let _ = session.callbacks.try_insert(request_id, callback);
                    Ok(OutboundStep::Write(session.writer.flush()))
                },
                Err(error) => Err(Error::Protocol(error)),
            }
        },
    }
}

/// The state of a session before the `k`th of `events`, where it began in
/// `start`.
pub open spec fn outbound_before(
    start: OutboundView,
    events: Seq<OutboundEvent>,
    k: int,
) -> OutboundView
    decreases k,
{
    if k <= 0 {
        start
    } else {
        outbound_step(outbound_before(start, events, k - 1), events[k - 1]).0
    }
}

/// What the `k`th of `events` came to.
pub open spec fn outbound_at(
    start: OutboundView,
    events: Seq<OutboundEvent>,
    k: int,
) -> OutboundOutcome {
    outbound_step(outbound_before(start, events, k), events[k]).1
}

/// The `j`th event was a request with the id `request_id` and the return
/// channel `callback`, and its frame was written.
pub open spec fn sent_at(
    start: OutboundView,
    events: Seq<OutboundEvent>,
    j: int,
    request_id: Seq<u8>,
    callback: futures::channel::oneshot::Sender<NodeResponse>,
) -> bool {
    &&& events[j] matches OutboundEvent::Envelope(envelope)
    &&& envelope.message@.request_id == request_id
    &&& envelope.callback == callback
    &&& outbound_at(start, events, j) is Write
}

/// The `j`th event delivered a response with the id `request_id`.
pub open spec fn answered_at(
    start: OutboundView,
    events: Seq<OutboundEvent>,
    j: int,
    request_id: Seq<u8>,
) -> bool {
    outbound_at(start, events, j) matches OutboundOutcome::Deliver(_, response)
        && response.request_id == request_id
}

/// The request `request_id` with the return channel `callback` was written at
/// the `j`th event, and no event from there to the `k`th delivered a response
/// to it.
pub open spec fn open_since(
    start: OutboundView,
    events: Seq<OutboundEvent>,
    j: int,
    k: int,
    request_id: Seq<u8>,
    callback: futures::channel::oneshot::Sender<NodeResponse>,
) -> bool {
    &&& 0 <= j < k
    &&& sent_at(start, events, j, request_id, callback)
    &&& forall|i: int| j < i < k ==> !answered_at(start, events, i, request_id)
}

/// The limit of a session stays what it was.
pub proof fn lemma_limit_stays(start: OutboundView, events: Seq<OutboundEvent>, k: int)
    ensures
        outbound_before(start, events, k).max_len == start.max_len,
    decreases k,
{
    if k > 0 {
        lemma_limit_stays(start, events, k - 1);
    }
}

/// On a connection that began with nothing in flight, a request id is in
/// flight exactly while its request was written and no response to it was
/// delivered since, and it is in flight with the return channel of that
/// request.
pub proof fn lemma_in_flight(
    start: OutboundView,
    events: Seq<OutboundEvent>,
    k: int,
    request_id: Seq<u8>,
)
    requires
        forall|id: Seq<u8>| !start.pending.contains_key(id),
        0 <= k <= events.len(),
    ensures
        ({
            let state = outbound_before(start, events, k);
            &&& state.pending.contains_key(request_id) ==> exists|j: int|
                open_since(start, events, j, k, request_id, state.pending[request_id])
            &&& forall|j: int, callback: futures::channel::oneshot::Sender<NodeResponse>|
                open_since(start, events, j, k, request_id, callback)
                    ==> state.pending.contains_key(request_id) && state.pending[request_id]
                    == callback
        }),
    decreases k,
{
    if k > 0 {
        lemma_in_flight(start, events, k - 1, request_id);
        let pre = outbound_before(start, events, k - 1);
        let post = outbound_before(start, events, k);
        let outcome = outbound_at(start, events, k - 1);
        assert(post == outbound_step(pre, events[k - 1]).0);
        if outcome is Write && (events[k - 1] matches OutboundEvent::Envelope(envelope)
            && envelope.message@.request_id == request_id) {
            let envelope = events[k - 1]->Envelope_0;
            assert(!pre.pending.contains_key(request_id));
            assert(post.pending == pre.pending.insert(request_id, envelope.callback));
            assert(open_since(start, events, k - 1, k, request_id, envelope.callback));
            assert forall|j: int, callback: futures::channel::oneshot::Sender<NodeResponse>|
                open_since(start, events, j, k, request_id, callback) implies post.pending.contains_key(
                request_id,
            ) && post.pending[request_id] == callback by {
                if j < k - 1 {
                    assert(open_since(start, events, j, k - 1, request_id, callback));
                }
            }
        } else if answered_at(start, events, k - 1, request_id) {
            assert(!post.pending.contains_key(request_id));
            assert forall|j: int, callback: futures::channel::oneshot::Sender<NodeResponse>|
                !open_since(start, events, j, k, request_id, callback) by {
                if open_since(start, events, j, k, request_id, callback) {
                    if j < k - 1 {
                        assert(answered_at(start, events, k - 1, request_id));
                    }
                }
            }
        } else {
            assert(post.pending.contains_key(request_id) == pre.pending.contains_key(request_id));
            if post.pending.contains_key(request_id) {
                assert(post.pending[request_id] == pre.pending[request_id]);
                let j = choose|j: int| #[trigger]
                    open_since(start, events, j, k - 1, request_id, pre.pending[request_id]);
                assert(open_since(start, events, j, k, request_id, post.pending[request_id]));
            }
            assert forall|j: int, callback: futures::channel::oneshot::Sender<NodeResponse>|
                open_since(start, events, j, k, request_id, callback) implies post.pending.contains_key(
                request_id,
            ) && post.pending[request_id] == callback by {
                assert(j < k - 1);
                assert(open_since(start, events, j, k - 1, request_id, callback));
            }
        }
    }
}

/// Bytes are written only for a request that the queue gave, and they are the
/// frame of that request: four bytes more than its encoding, which is within
/// the limit, and read back as the request that was given.
pub proof fn lemma_request_is_written_as_given(pre: OutboundView, event: OutboundEvent)
    requires
        pre.max_len <= u32::MAX,
        outbound_step(pre, event).1 is Write,
    ensures
        event matches OutboundEvent::Envelope(envelope) && {
            let payload = NodeRequest::wire(envelope.message@);
            &&& outbound_step(pre, event).1 == OutboundOutcome::Write(frame(payload))
            &&& payload.len() <= pre.max_len
            &&& frame(payload).len() == 4 + payload.len()
            &&& next_frame(frame(payload), pre.max_len) == Next::Complete(payload)
            &&& NodeRequest::parse(payload) == Some(envelope.message@)
        },
{
    match event {
        OutboundEvent::Envelope(envelope) => {
            let payload = NodeRequest::wire(envelope.message@);
            crate::protobuf_tcp::lemma_round_trip::<NodeRequest>(
                envelope.message@,
                Seq::empty(),
                pre.max_len,
            );
            crate::protobuf_tcp::lemma_frame(payload);
            assert(frame(payload) + Seq::<u8>::empty() =~= frame(payload));
        },
        OutboundEvent::Bytes(bytes) => {
            let fed = OutboundView { unread: pre.unread + bytes@, ..pre };
            assert(outbound_step(pre, event) == outbound_resume(fed));
        },
        _ => {},
    }
}

/// A response is delivered only to a request in flight with its id, to the
/// return channel that is in flight with that id, and the id is not in flight
/// afterwards.
pub proof fn lemma_delivered_was_in_flight(pre: OutboundView, event: OutboundEvent)
    requires
        outbound_step(pre, event).1 is Deliver,
    ensures
        ({
            let callback = outbound_step(pre, event).1->Deliver_0;
            let response = outbound_step(pre, event).1->Deliver_1;
            &&& pre.pending.contains_key(response.request_id)
            &&& pre.pending[response.request_id] == callback
            &&& outbound_step(pre, event).0.pending == pre.pending.remove(response.request_id)
        }),
{
    match event {
        OutboundEvent::Resume => {},
        OutboundEvent::Bytes(bytes) => {
            let fed = OutboundView { unread: pre.unread + bytes@, ..pre };
            assert(outbound_step(pre, event) == outbound_resume(fed));
        },
        OutboundEvent::QueueClosed => {},
        OutboundEvent::StreamClosed => {},
        OutboundEvent::Envelope(envelope) => {},
    }
}

/// Every response that is delivered answers a request that was written on
/// the same connection before and not answered since, and goes to the return
/// channel of that very request.
pub proof fn lemma_reply_was_requested(
    start: OutboundView,
    events: Seq<OutboundEvent>,
    k: int,
)
    requires
        forall|id: Seq<u8>| !start.pending.contains_key(id),
        0 <= k < events.len(),
        outbound_at(start, events, k) is Deliver,
    ensures
        ({
            let callback = outbound_at(start, events, k)->Deliver_0;
            let response = outbound_at(start, events, k)->Deliver_1;
            exists|j: int| open_since(start, events, j, k, response.request_id, callback)
        }),
{
    let response = outbound_at(start, events, k)->Deliver_1;
    lemma_delivered_was_in_flight(outbound_before(start, events, k), events[k]);
    lemma_in_flight(start, events, k, response.request_id);
}

/// A request that was written and not answered since gets the response that
/// comes for it: where the `k`th event completes a frame that holds a response
/// with the request's id, that response is delivered to the request's return
/// channel, and the request is no longer in flight.
pub proof fn lemma_reply_is_delivered(
    start: OutboundView,
    events: Seq<OutboundEvent>,
    j: int,
    k: int,
    callback: futures::channel::oneshot::Sender<NodeResponse>,
    response: NodeResponseView,
    rest: Seq<u8>,
)
    requires
        forall|id: Seq<u8>| !start.pending.contains_key(id),
        start.max_len <= u32::MAX,
        0 <= k < events.len(),
        open_since(start, events, j, k, response.request_id, callback),
        NodeResponse::wire(response).len() <= start.max_len,
        events[k] matches OutboundEvent::Bytes(bytes) && outbound_before(start, events, k).unread
            + bytes@ == frame(NodeResponse::wire(response)) + rest,
    ensures
        outbound_at(start, events, k) == OutboundOutcome::Deliver(callback, response),
        !outbound_before(start, events, k + 1).pending.contains_key(response.request_id),
        outbound_before(start, events, k + 1).unread == rest,
{
    let pre = outbound_before(start, events, k);
    let bytes = events[k]->Bytes_0;
    let fed = OutboundView { unread: pre.unread + bytes@, ..pre };
    assert(pre.pending.contains_key(response.request_id) && pre.pending[response.request_id]
        == callback) by {
        lemma_in_flight(start, events, k, response.request_id);
    }
    assert(pre.max_len == start.max_len) by {
        lemma_limit_stays(start, events, k);
    }
    let payload = NodeResponse::wire(response);
    assert(next_frame(fed.unread, fed.max_len) == Next::Complete(payload) && fed.unread.skip(
        4 + payload.len() as int,
    ) == rest && NodeResponse::parse(payload) == Some(response)) by {
        crate::protobuf_tcp::lemma_round_trip::<NodeResponse>(response, rest, start.max_len);
        crate::protobuf_tcp::lemma_next_frame(payload, rest, start.max_len);
    }
    assert(outbound_step(pre, events[k]) == outbound_resume(fed));
    assert(outbound_before(start, events, k + 1) == outbound_step(pre, events[k]).0);
}

/// A response to a request that is not in flight, be it that none was written
/// or that it was answered already, is refused: no request gets two
/// responses.
pub proof fn lemma_second_reply_is_refused(pre: OutboundView, response: NodeResponseView, rest: Seq<u8>)
    requires
        pre.max_len <= u32::MAX,
        NodeResponse::wire(response).len() <= pre.max_len,
        pre.unread == frame(NodeResponse::wire(response)) + rest,
        !pre.pending.contains_key(response.request_id),
    ensures
        outbound_resume(pre).1 == OutboundOutcome::Failed(
            Failure::UnexpectedResponse(response.request_id),
        ),
{
    crate::protobuf_tcp::lemma_round_trip::<NodeResponse>(response, rest, pre.max_len);
    crate::protobuf_tcp::lemma_next_frame(NodeResponse::wire(response), rest, pre.max_len);
}

/// The events of requests that the queue gives one after the other.
pub open spec fn submissions(envelopes: Seq<NodeCallback>) -> Seq<OutboundEvent> {
    Seq::new(envelopes.len(), |i: int| OutboundEvent::Envelope(envelopes[i]))
}

/// Requests with ids that differ from each other and from those in flight,
/// none too long for a frame, are all written, each as the frame of its
/// message, and all are in flight afterwards, each with its own return
/// channel.
pub proof fn lemma_requests_are_written(
    start: OutboundView,
    envelopes: Seq<NodeCallback>,
    k: int,
)
    requires
        0 <= k <= envelopes.len(),
        forall|i: int|
            0 <= i < envelopes.len() ==> !start.pending.contains_key(
                #[trigger] envelopes[i].message@.request_id,
            ),
        forall|i: int, j: int|
            0 <= i < j < envelopes.len() ==> envelopes[i].message@.request_id
                != envelopes[j].message@.request_id,
        forall|i: int|
            0 <= i < envelopes.len() ==> NodeRequest::wire(#[trigger] envelopes[i].message@).len()
                <= start.max_len,
    ensures
        ({
            let state = outbound_before(start, submissions(envelopes), k);
            &&& state.unread == start.unread
            &&& state.max_len == start.max_len
            &&& forall|i: int|
                0 <= i < k ==> #[trigger] outbound_at(start, submissions(envelopes), i)
                    == OutboundOutcome::Write(frame(NodeRequest::wire(envelopes[i].message@)))
            &&& forall|id: Seq<u8>|
                state.pending.contains_key(id) <==> start.pending.contains_key(id) || exists|
                    i: int,
                | 0 <= i < k && #[trigger] envelopes[i].message@.request_id == id
            &&& forall|i: int|
                0 <= i < k ==> state.pending[#[trigger] envelopes[i].message@.request_id]
                    == envelopes[i].callback
            &&& forall|id: Seq<u8>|
                start.pending.contains_key(id) ==> state.pending[id] == start.pending[id]
        }),
    decreases k,
{
    if k > 0 {
        lemma_requests_are_written(start, envelopes, k - 1);
        let events = submissions(envelopes);
        let pre = outbound_before(start, events, k - 1);
        let post = outbound_before(start, events, k);
        let envelope = envelopes[k - 1];
        let request_id = envelope.message@.request_id;
        assert(events[k - 1] == OutboundEvent::Envelope(envelope));
        assert(!pre.pending.contains_key(request_id)) by {
            if pre.pending.contains_key(request_id) {
                let i = choose|i: int|
                    0 <= i < k - 1 && #[trigger] envelopes[i].message@.request_id == request_id;
                assert(envelopes[i].message@.request_id != envelopes[k - 1].message@.request_id);
            }
        }
        assert(post.pending == pre.pending.insert(request_id, envelope.callback));
        assert forall|i: int| 0 <= i < k implies #[trigger] outbound_at(start, events, i)
            == OutboundOutcome::Write(frame(NodeRequest::wire(envelopes[i].message@))) by {}
        assert forall|i: int| 0 <= i < k implies post.pending[#[trigger] envelopes[i].message@.request_id]
            == envelopes[i].callback by {
            if i < k - 1 {
                assert(envelopes[i].message@.request_id != envelopes[k - 1].message@.request_id);
            }
        }
    }
}

/// What is to be done when the serving of an outgoing connection has come to
/// an end: nothing more after a clean end, and a new connection after the
/// time given, in milliseconds, after a failure.
pub fn outgoing(served: &Result<(), Error>) -> (retry: Option<u64>)
    ensures
        served is Ok ==> retry is None,
        served is Err ==> retry == Some(OUTGOING_CONNECTION_RETRY_INTERVAL),
{
    match served {
        Ok(()) => None,
        Err(_) => Some(OUTGOING_CONNECTION_RETRY_INTERVAL),
    }
}

/// Responses to requests in flight, one to each and each in a frame of its
/// own, are all delivered, each to the return channel of its request, and
/// none of those requests is in flight afterwards.
pub proof fn lemma_replies_are_delivered(
    start: OutboundView,
    events: Seq<OutboundEvent>,
    responses: Seq<NodeResponseView>,
    k: int,
)
    requires
        start.max_len <= u32::MAX,
        start.unread.len() == 0,
        events.len() == responses.len(),
        0 <= k <= responses.len(),
        forall|i: int|
            0 <= i < events.len() ==> (#[trigger] events[i] matches OutboundEvent::Bytes(bytes)
                && bytes@ == frame(NodeResponse::wire(responses[i]))),
        forall|i: int|
            0 <= i < responses.len() ==> NodeResponse::wire(#[trigger] responses[i]).len()
                <= start.max_len,
        forall|i: int|
            0 <= i < responses.len() ==> start.pending.contains_key(
                #[trigger] responses[i].request_id,
            ),
        forall|i: int, j: int|
            0 <= i < j < responses.len() ==> responses[i].request_id != responses[j].request_id,
    ensures
        ({
            let state = outbound_before(start, events, k);
            &&& state.unread.len() == 0
            &&& state.max_len == start.max_len
            &&& forall|i: int|
                0 <= i < k ==> #[trigger] outbound_at(start, events, i) == OutboundOutcome::Deliver(
                    start.pending[responses[i].request_id],
                    responses[i],
                )
            &&& forall|id: Seq<u8>|
                state.pending.contains_key(id) <==> start.pending.contains_key(id) && !exists|
                    i: int,
                | 0 <= i < k && #[trigger] responses[i].request_id == id
            &&& forall|id: Seq<u8>|
                state.pending.contains_key(id) ==> state.pending[id] == start.pending[id]
        }),
    decreases k,
{
    if k > 0 {
        lemma_replies_are_delivered(start, events, responses, k - 1);
        let pre = outbound_before(start, events, k - 1);
        let post = outbound_before(start, events, k);
        let response = responses[k - 1];
        let request_id = response.request_id;
        let payload = NodeResponse::wire(response);
        let bytes = events[k - 1]->Bytes_0;
        let fed = OutboundView { unread: pre.unread + bytes@, ..pre };
        assert(events[k - 1] is Bytes && bytes@ == frame(payload));
        assert(fed.unread =~= frame(payload) + Seq::<u8>::empty());
        crate::protobuf_tcp::lemma_round_trip::<NodeResponse>(
            response,
            Seq::empty(),
            start.max_len,
        );
        crate::protobuf_tcp::lemma_next_frame(payload, Seq::empty(), start.max_len);
        assert(start.pending.contains_key(responses[k - 1].request_id));
        assert(pre.pending.contains_key(request_id)) by {
            if exists|i: int| 0 <= i < k - 1 && #[trigger] responses[i].request_id == request_id {
                let i = choose|i: int|
                    0 <= i < k - 1 && #[trigger] responses[i].request_id == request_id;
                assert(responses[i].request_id != responses[k - 1].request_id);
            }
        }
        assert(outbound_step(pre, events[k - 1]) == outbound_resume(fed));
        assert(post.pending == pre.pending.remove(request_id));
        assert(post.unread.len() == 0);
        assert forall|i: int| 0 <= i < k implies #[trigger] outbound_at(start, events, i)
            == OutboundOutcome::Deliver(start.pending[responses[i].request_id], responses[i]) by {}
        assert forall|id: Seq<u8>|
            post.pending.contains_key(id) <==> start.pending.contains_key(id) && !exists|i: int|
                0 <= i < k && #[trigger] responses[i].request_id == id by {
            if id == request_id {
                assert(responses[k - 1].request_id == id);
            } else {
                if exists|i: int| 0 <= i < k && #[trigger] responses[i].request_id == id {
                    let i = choose|i: int| 0 <= i < k && #[trigger] responses[i].request_id == id;
                    assert(i < k - 1);
                }
            }
        }
    }
}

/// The state of an accepted incoming connection.
pub struct Inbound {
    reader: Reader,
    writer: Writer,
}

/// What an [`Inbound`] holds.
pub struct InboundView {
    /// The bytes that came and that no request was made of yet.
    pub unread: Seq<u8>,
    /// The largest payload of a frame.
    pub max_len: usize,
}

/// What happened on an incoming connection.
pub enum InboundEvent {
    /// The last step was carried out.
    Resume,
    /// The stream gave bytes.
    Bytes(Vec<u8>),
    /// The stream has ended.
    StreamClosed,
    /// The return channel of a request has answered: with the response, or
    /// with the news that the application dropped it.
    Reply(Result<NodeResponse, futures::channel::oneshot::Canceled>),
}

/// What is to be done next on an incoming connection.
pub enum InboundStep {
    /// Put this envelope into the node's incoming queue, and wait on the
    /// return channel along with the others.
    Deliver(NodeCallback, futures::channel::oneshot::Receiver<NodeResponse>),
    /// Write these bytes to the stream and flush it.
    Write(Vec<u8>),
    /// Wait for the stream or the return channels.
    Wait,
    /// The session is over.
    Finished,
}

/// What a step of an incoming connection came to.
pub enum InboundOutcome {
    Deliver(NodeRequestView),
    Write(Seq<u8>),
    Wait,
    Finished,
    Failed(Failure),
}

/// The outcome that a result of [`serve_incoming`] stands for.
pub open spec fn inbound_outcome(r: Result<InboundStep, Error>) -> InboundOutcome {
    match r {
        Ok(InboundStep::Deliver(envelope, _)) => InboundOutcome::Deliver(envelope.message@),
        Ok(InboundStep::Write(bytes)) => InboundOutcome::Write(bytes@),
        Ok(InboundStep::Wait) => InboundOutcome::Wait,
        Ok(InboundStep::Finished) => InboundOutcome::Finished,
        Err(error) => InboundOutcome::Failed(error@),
    }
}

/// The next request among the bytes that came.
pub open spec fn inbound_resume(pre: InboundView) -> (InboundView, InboundOutcome) {
    match next_frame(pre.unread, pre.max_len) {
        Next::Incomplete => (pre, InboundOutcome::Wait),
        Next::Oversize => (pre, InboundOutcome::Failed(Failure::Protocol(Fault::InvalidLen))),
        Next::Complete(payload) => {
            let rest = InboundView { unread: pre.unread.skip(4 + payload.len() as int), ..pre };
            match NodeRequest::parse(payload) {
                None => (rest, InboundOutcome::Failed(Failure::Protocol(Fault::Decode))),
                Some(request) => (rest, InboundOutcome::Deliver(request)),
            }
        },
    }
}

/// One step of an incoming connection.
///
/// A response is framed and is to be written as it is; one too long for a
/// frame is an error. Where the application dropped the return channel,
/// nothing is written for that request.
pub open spec fn inbound_step(pre: InboundView, event: InboundEvent) -> (
    InboundView,
    InboundOutcome,
) {
    match event {
        InboundEvent::Resume => inbound_resume(pre),
        InboundEvent::Bytes(bytes) => inbound_resume(
            InboundView { unread: pre.unread + bytes@, ..pre },
        ),
        InboundEvent::StreamClosed => if pre.unread.len() == 0 {
            (pre, InboundOutcome::Finished)
        } else {
            (pre, InboundOutcome::Failed(Failure::Protocol(Fault::Io)))
        },
        InboundEvent::Reply(Ok(response)) => {
            let payload = NodeResponse::wire(response@);
            if payload.len() <= pre.max_len {
                (pre, InboundOutcome::Write(frame(payload)))
            } else {
                (pre, InboundOutcome::Failed(Failure::Protocol(Fault::InvalidLen)))
            }
        },
        InboundEvent::Reply(Err(_)) => inbound_resume(pre),
    }
}

impl View for Inbound {
    type V = InboundView;

    closed spec fn view(&self) -> InboundView {
        InboundView { unread: self.reader.unread(), max_len: self.reader.max_len() }
    }
}

impl Inbound {
    /// The session is in order: nothing written waits to be handed out.
    pub closed spec fn wf(&self) -> bool {
        &&& self.reader.wf()
        &&& self.writer.wf()
        &&& self.writer.max_len() == self.reader.max_len()
        &&& self.writer.pending() == Seq::<u8>::empty()
    }

    /// The state of a connection that was just accepted: nothing read.
    pub fn new(max_len: usize) -> (session: Self)
        requires
            max_len <= u32::MAX,
        ensures
            session.wf(),
            session@ == (InboundView { unread: Seq::empty(), max_len }),
    {
        let (reader, writer) = crate::protobuf_tcp::new(max_len);
        Inbound { reader, writer }
    }

    fn resume(&mut self) -> (r: Result<InboundStep, Error>)
        requires
            old(self).wf(),
        ensures
            final(self).wf(),
            final(self)@ == inbound_resume(old(self)@).0,
            inbound_outcome(r) == inbound_resume(old(self)@).1,
    {
        match self.reader.read::<NodeRequest>() {
            Ok(None) => Ok(InboundStep::Wait),
            Ok(Some(message)) => {
                let (envelope, rx) = Callback::new(message);
                Ok(InboundStep::Deliver(envelope, rx))
            },
            Err(error) => Err(Error::Protocol(error)),
        }
    }
}

/// Finds the incoming queue of the node that a client named in its TLS
/// handshake. A client that named none, or one that is not configured, is
/// refused.
pub fn accept<'a>(
    server_name: Option<&String>,
    incoming: &'a Table<String, futures::channel::mpsc::Sender<NodeCallback>>,
) -> (r: Result<&'a futures::channel::mpsc::Sender<NodeCallback>, Error>)
    requires
        incoming.wf(),
    ensures
        match server_name {
            None => r matches Err(Error::Sni),
            Some(name) => if incoming@.contains_key(name@) {
                r == Ok::<&futures::channel::mpsc::Sender<NodeCallback>, Error>(&incoming@[name@])
            } else {
                r matches Err(Error::UnknownServerName)
            },
        },
{
    match server_name {
        None => Err(Error::Sni),
        Some(name) => match incoming.get(name) {
            Some(queue) => Ok(queue),
            None => Err(Error::UnknownServerName),
        },
    }
}

/// Takes one event of an accepted incoming connection and says what is to be
/// done next.
pub fn serve_incoming(session: &mut Inbound, event: InboundEvent) -> (r: Result<
    InboundStep,
    Error,
>)
    requires
        old(session).wf(),
    ensures
        final(session).wf(),
        final(session)@ == inbound_step(old(session)@, event).0,
        inbound_outcome(r) == inbound_step(old(session)@, event).1,
{
    match event {
        InboundEvent::Resume => session.resume(),
        InboundEvent::Bytes(bytes) => {
            session.reader.feed(bytes.as_slice());
            session.resume()
        },
        InboundEvent::StreamClosed => match session.reader.finish() {
            Ok(()) => Ok(InboundStep::Finished),
            Err(error) => Err(Error::Protocol(error)),
        },
        InboundEvent::Reply(Ok(response)) => match session.writer.write(response) {
            Ok(()) => Ok(InboundStep::Write(session.writer.flush())),
            Err(error) => Err(Error::Protocol(error)),
        },
        InboundEvent::Reply(Err(_)) => session.resume(),
    }
}

/// The state of a session before the `k`th of `events`, where it began in
/// `start`.
pub open spec fn inbound_before(
    start: InboundView,
    events: Seq<InboundEvent>,
    k: int,
) -> InboundView
    decreases k,
{
    if k <= 0 {
        start
    } else {
        inbound_step(inbound_before(start, events, k - 1), events[k - 1]).0
    }
}

/// What the `k`th of `events` came to.
pub open spec fn inbound_at(
    start: InboundView,
    events: Seq<InboundEvent>,
    k: int,
) -> InboundOutcome {
    inbound_step(inbound_before(start, events, k), events[k]).1
}

/// The `j`th event completed the frame of a request with the id
/// `request_id`, which was handed to the application.
pub open spec fn received_at(
    start: InboundView,
    events: Seq<InboundEvent>,
    j: int,
    request_id: Seq<u8>,
) -> bool {
    inbound_at(start, events, j) matches InboundOutcome::Deliver(request) && request.request_id
        == request_id
}

/// The application answers only requests that this connection gave it, each
/// with the id of the request.
pub open spec fn echoes(start: InboundView, events: Seq<InboundEvent>) -> bool {
    forall|k: int|
        0 <= k < events.len() ==> (#[trigger] events[k] matches InboundEvent::Reply(Ok(response))
            ==> exists|j: int|
            0 <= j < k && received_at(start, events, j, response@.request_id))
}

/// The limit of a session stays what it was.
pub proof fn lemma_inbound_limit_stays(start: InboundView, events: Seq<InboundEvent>, k: int)
    ensures
        inbound_before(start, events, k).max_len == start.max_len,
    decreases k,
{
    if k > 0 {
        lemma_inbound_limit_stays(start, events, k - 1);
    }
}

/// Bytes are written only for a response that the application gave, and they
/// are the frame of that response: what the other side reads from them is the
/// response as it was given, request id included.
pub proof fn lemma_reply_is_written_as_given(pre: InboundView, event: InboundEvent)
    requires
        pre.max_len <= u32::MAX,
        inbound_step(pre, event).1 is Write,
    ensures
        event matches InboundEvent::Reply(Ok(response)) && {
            let payload = NodeResponse::wire(response@);
            &&& inbound_step(pre, event).1 == InboundOutcome::Write(frame(payload))
            &&& next_frame(frame(payload), pre.max_len) == Next::Complete(payload)
            &&& NodeResponse::parse(payload) == Some(response@)
        },
{
    match event {
        InboundEvent::Reply(Ok(response)) => {
            let payload = NodeResponse::wire(response@);
            crate::protobuf_tcp::lemma_round_trip::<NodeResponse>(
                response@,
                Seq::empty(),
                pre.max_len,
            );
            assert(frame(payload) + Seq::<u8>::empty() =~= frame(payload));
        },
        InboundEvent::Bytes(bytes) => {
            let fed = InboundView { unread: pre.unread + bytes@, ..pre };
            assert(inbound_step(pre, event) == inbound_resume(fed));
        },
        _ => {},
    }
}

/// Where the application answers only the requests that a connection gave
/// it, each with the id of the request, every response written on the
/// connection carries the id of a request that was received on it before.
pub proof fn lemma_written_reply_was_requested(
    start: InboundView,
    events: Seq<InboundEvent>,
    k: int,
)
    requires
        start.max_len <= u32::MAX,
        echoes(start, events),
        0 <= k < events.len(),
        inbound_at(start, events, k) is Write,
    ensures
        exists|response: NodeResponseView, j: int|
            {
                &&& inbound_at(start, events, k) == InboundOutcome::Write(
                    frame(NodeResponse::wire(response)),
                )
                &&& NodeResponse::parse(NodeResponse::wire(response)) == Some(response)
                &&& 0 <= j < k
                &&& #[trigger] received_at(start, events, j, response.request_id)
            },
{
    let pre = inbound_before(start, events, k);
    lemma_inbound_limit_stays(start, events, k);
    lemma_reply_is_written_as_given(pre, events[k]);
    let response = events[k]->Reply_0->Ok_0;
    let j = choose|j: int| 0 <= j < k && received_at(start, events, j, response@.request_id);
    assert(received_at(start, events, j, response@.request_id));
}

/// What the task of an incoming connection reports when the serving has come
/// to an end: success, whatever the end was. A failed connection is dropped,
/// and the node on the other side opens a new one.
pub fn incoming(served: Result<(), Error>) -> (r: Result<(), crate::Error>)
    ensures
        r is Ok,
{
    Ok(())
}

} // verus!
