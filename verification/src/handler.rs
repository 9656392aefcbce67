//! The rules of one connection: which cache operation a request stands for,
//! what is answered, and how a connection moves between waiting, dispatching,
//! responding and closing.
//!
//! Nothing here reads or writes a socket. The caller does the reading and the
//! writing, reports what happened as an [`Event`], and is told by an
//! [`Action`] what to do next. The cache is touched in [`apply`] alone, so a
//! caller that shares the cache behind a lock holds the lock for the length of
//! that call and never across its own input and output.

use crate::message::{Request, Response};
use crate::recency::{after_get, after_insert, has_key, value_of, Entries};
use crate::store::KVStore;
use crate::wire::{
    decode_frame, decode_text, frame_payload, frame_ready, frame_size, ProtocolError,
};
use vstd::prelude::*;
use vstd::utf8::{decode_utf8, valid_utf8};

verus! {

/// The entries of the cache after `request` has been applied to it.
pub open spec fn entries_after(
    entries: Entries<String>,
    capacity: nat,
    request: Request,
) -> Entries<String> {
    match request {
        Request::Get(key) => after_get(entries, key@),
        Request::Put { key, value } => after_insert(entries, capacity, key@, value),
        Request::Size => entries,
        Request::Stop => entries,
    }
}

/// The answer to `request` from a cache that holds `entries`. `Stop` has no
/// answer.
pub open spec fn response_to(entries: Entries<String>, request: Request) -> Option<Response> {
    match request {
        Request::Get(key) => if has_key(entries, key@) {
            Some(Response::GetResult(value_of(entries, key@)))
        } else {
            Some(Response::NotFoundError(key))
        },
        Request::Put { key, value } => Some(Response::SetAck),
        Request::Size => Some(Response::SizeResult(entries.len() as u64)),
        Request::Stop => None,
    }
}

/// Performs the one cache operation that `request` stands for, and returns
/// the response to send. A miss is an answer like any other. `Stop` leaves
/// the cache alone and has no response.
pub fn apply(store: &mut KVStore<String>, request: Request) -> (reply: Option<Response>)
    requires
        old(store).wf(),
    ensures
        final(store).wf(),
        final(store).spec_capacity() == old(store).spec_capacity(),
        final(store)@ == entries_after(old(store)@, old(store).spec_capacity() as nat, request),
        reply == response_to(old(store)@, request),
{
    match request {
        Request::Get(key) => {
            let found = match store.get(key.as_str()) {
                Some(value) => Some(value.clone()),
                None => None,
            };
            match found {
                Some(value) => Some(Response::GetResult(value)),
                None => Some(Response::NotFoundError(key)),
            }
        },
        Request::Put { key, value } => {
            store.insert(key, value);
            Some(Response::SetAck)
        },
        Request::Size => {
            let count = store.size();
            Some(Response::SizeResult(count as u64))
        },
        Request::Stop => None,
    }
}

/// Where a connection stands.
#[derive(Debug, Clone, Copy, PartialEq, Eq)]
pub enum ConnState {
    /// Waiting for the next frame.
    AwaitFrame,
    /// A request has been decoded and is being applied to the cache.
    Dispatch,
    /// A response is being written.
    Respond,
    /// The connection is over.
    Closed,
}

/// Why a connection ended.
#[derive(Debug, Clone, Copy, PartialEq, Eq)]
pub enum CloseReason {
    /// The peer closed the stream between two frames.
    PeerClosed,
    /// The peer asked to stop.
    StopRequested,
    /// A frame was truncated or could not be decoded.
    Protocol(ProtocolError),
    /// Reading or writing failed.
    ConnectionFailed,
    /// An event was reported that cannot occur in the connection's state.
    OutOfTurn,
}

/// What the side that does the reading and writing reports.
#[derive(Debug, Clone, PartialEq, Eq)]
pub enum Event {
    /// A frame arrived and was decoded into a request.
    Request(Request),
    /// The stream ended; `pending` bytes of an unfinished frame had arrived.
    EndOfStream { pending: usize },
    /// A frame arrived that could not be decoded.
    Rejected(ProtocolError),
    /// Reading failed.
    ReadFailed,
    /// The cache operation is done; this is the response.
    Applied(Response),
    /// The response has been written.
    Written,
    /// Writing the response failed.
    WriteFailed,
}

/// What the side that does the reading and writing is to do next.
#[derive(Debug, Clone, PartialEq, Eq)]
pub enum Action {
    /// Wait for the next frame.
    Read,
    /// Apply this request to the cache, holding the cache for that long only.
    Apply(Request),
    /// Encode this response and write it.
    Send(Response),
    /// End the connection.
    Close(CloseReason),
    /// The connection is over already; there is nothing to do.
    Nothing,
}

/// The state a connection moves to when `event` is reported in `state`.
pub open spec fn next_state(state: ConnState, event: Event) -> ConnState {
    match (state, event) {
        (ConnState::AwaitFrame, Event::Request(Request::Stop)) => ConnState::Closed,
        (ConnState::AwaitFrame, Event::Request(_)) => ConnState::Dispatch,
        (ConnState::Dispatch, Event::Applied(_)) => ConnState::Respond,
        (ConnState::Respond, Event::Written) => ConnState::AwaitFrame,
        _ => ConnState::Closed,
    }
}

/// What is to be done when `event` is reported in `state`.
pub open spec fn next_action(state: ConnState, event: Event) -> Action {
    match (state, event) {
        (ConnState::Closed, _) => Action::Nothing,
        (ConnState::AwaitFrame, Event::Request(Request::Stop)) => Action::Close(
            CloseReason::StopRequested,
        ),
        (ConnState::AwaitFrame, Event::Request(request)) => Action::Apply(request),
        (ConnState::AwaitFrame, Event::EndOfStream { pending }) => if pending == 0 {
            Action::Close(CloseReason::PeerClosed)
        } else {
            Action::Close(CloseReason::Protocol(ProtocolError::Truncated))
        },
        (ConnState::AwaitFrame, Event::Rejected(error)) => Action::Close(
            CloseReason::Protocol(error),
        ),
        (ConnState::AwaitFrame, Event::ReadFailed) => Action::Close(CloseReason::ConnectionFailed),
        (ConnState::Dispatch, Event::Applied(response)) => Action::Send(response),
        (ConnState::Respond, Event::Written) => Action::Read,
        (ConnState::Respond, Event::WriteFailed) => Action::Close(CloseReason::ConnectionFailed),
        _ => Action::Close(CloseReason::OutOfTurn),
    }
}

/// The protocol state of one connection.
#[derive(Debug)]
pub struct Handler {
    state: ConnState,
}

impl Handler {
    /// Where the connection stands.
    pub closed spec fn spec_state(&self) -> ConnState {
        self.state
    }

    /// The handler of a connection that has just been accepted: it waits for
    /// the first frame.
    pub fn new() -> (result: Self)
        ensures
            result.spec_state() == ConnState::AwaitFrame,
    {
        Handler { state: ConnState::AwaitFrame }
    }

    /// Where the connection stands.
    #[verifier::when_used_as_spec(spec_state)]
    pub fn state(&self) -> (result: ConnState)
        ensures
            result == self.spec_state(),
    {
        self.state
    }

    /// Moves the connection on by one event, and says what is to be done
    /// next.
    pub fn handle(&mut self, event: Event) -> (action: Action)
        ensures
            final(self).spec_state() == next_state(old(self).spec_state(), event),
            action == next_action(old(self).spec_state(), event),
    {
        let (state, action) = match self.state {
            ConnState::Closed => (ConnState::Closed, Action::Nothing),
            ConnState::AwaitFrame => match event {
                Event::Request(request) => match request {
                    Request::Stop => (
                        ConnState::Closed,
                        Action::Close(CloseReason::StopRequested),
                    ),
                    _ => (ConnState::Dispatch, Action::Apply(request)),
                },
                Event::EndOfStream { pending } => if pending == 0 {
                    (ConnState::Closed, Action::Close(CloseReason::PeerClosed))
                } else {
                    (
                        ConnState::Closed,
                        Action::Close(CloseReason::Protocol(ProtocolError::Truncated)),
                    )
                },
                Event::Rejected(error) => (
                    ConnState::Closed,
                    Action::Close(CloseReason::Protocol(error)),
                ),
                Event::ReadFailed => (
                    ConnState::Closed,
                    Action::Close(CloseReason::ConnectionFailed),
                ),
                _ => (ConnState::Closed, Action::Close(CloseReason::OutOfTurn)),
            },
            ConnState::Dispatch => match event {
                Event::Applied(response) => (ConnState::Respond, Action::Send(response)),
                _ => (ConnState::Closed, Action::Close(CloseReason::OutOfTurn)),
            },
            ConnState::Respond => match event {
                Event::Written => (ConnState::AwaitFrame, Action::Read),
                Event::WriteFailed => (
                    ConnState::Closed,
                    Action::Close(CloseReason::ConnectionFailed),
                ),
                _ => (ConnState::Closed, Action::Close(CloseReason::OutOfTurn)),
            },
        };
        self.state = state;
        action
    }
}

/// What the bytes received so far amount to.
#[derive(Debug, Clone, PartialEq, Eq)]
pub enum Arrival {
    /// No whole frame yet, and the stream is still open: read on.
    Incomplete,
    /// A whole frame whose payload is text. `consumed` bytes of the buffer
    /// are used up.
    Text { text: String, consumed: usize },
    /// The connection cannot go on: this is the event to report.
    Failed(Event),
}

/// Takes the next message's text off the bytes received so far. `ended` says
/// that the stream has ended and no more bytes will come.
///
/// A whole frame is taken as soon as it is there. A stream that ends with
/// nothing in the buffer has been closed in good order; one that ends inside
/// a frame has not. A payload that is not text is rejected.
pub fn read_message(buf: &[u8], ended: bool) -> (result: Arrival)
    ensures
        result is Text <==> frame_ready(buf@) && valid_utf8(frame_payload(buf@)),
        result matches Arrival::Text { text, consumed } ==> {
            &&& text@ == decode_utf8(frame_payload(buf@))
            &&& consumed == frame_size(buf@)
        },
        result is Incomplete <==> !frame_ready(buf@) && !ended,
        result matches Arrival::Failed(event) ==> event == if frame_ready(buf@) {
            Event::Rejected(ProtocolError::InvalidText)
        } else {
            Event::EndOfStream { pending: buf@.len() as usize }
        },
{
    match decode_frame(buf) {
        Some((payload, consumed)) => match decode_text(payload) {
            Ok(text) => Arrival::Text { text, consumed },
            Err(error) => Arrival::Failed(Event::Rejected(error)),
        },
        None => if ended {
            Arrival::Failed(Event::EndOfStream { pending: buf.len() })
        } else {
            Arrival::Incomplete
        },
    }
}

/// A closed connection stays closed, whatever is reported.
pub proof fn lemma_closed_is_final(event: Event)
    ensures
        next_state(ConnState::Closed, event) == ConnState::Closed,
        next_action(ConnState::Closed, event) == Action::Nothing,
{
}

/// A connection closes exactly when it is told to, and is never told
/// anything once it is closed.
pub proof fn lemma_close_is_announced(state: ConnState, event: Event)
    ensures
        next_action(state, event) is Close <==> state != ConnState::Closed && next_state(
            state,
            event,
        ) == ConnState::Closed,
        next_action(state, event) is Nothing <==> state == ConnState::Closed,
{
}

/// `Stop` never reaches the cache: the only requests handed on for
/// application are those that were just received, and `Stop` is not among
/// them.
pub proof fn lemma_stop_is_not_applied(state: ConnState, event: Event)
    ensures
        next_action(state, event) matches Action::Apply(request) ==> {
            &&& state == ConnState::AwaitFrame
            &&& event == Event::Request(request)
            &&& request != Request::Stop
            &&& next_state(state, event) == ConnState::Dispatch
        },
{
}

/// A response is written only as the outcome of a cache operation, and the
/// next frame is awaited only after that response has been written: one
/// request, one operation, one response.
pub proof fn lemma_one_response_per_request(state: ConnState, event: Event)
    ensures
        next_action(state, event) matches Action::Send(response) ==> {
            &&& state == ConnState::Dispatch
            &&& event == Event::Applied(response)
            &&& next_state(state, event) == ConnState::Respond
        },
        next_action(state, event) is Read ==> {
            &&& state == ConnState::Respond
            &&& event == Event::Written
            &&& next_state(state, event) == ConnState::AwaitFrame
        },
{
}

/// A frame that is cut short or cannot be decoded closes the connection and
/// nothing is sent.
pub proof fn lemma_violation_closes(state: ConnState, event: Event)
    requires
        state == ConnState::AwaitFrame,
        event is Rejected || (event matches Event::EndOfStream { pending } && pending > 0),
    ensures
        next_state(state, event) == ConnState::Closed,
        next_action(state, event) matches Action::Close(CloseReason::Protocol(_)),
{
}

/// The state of a connection that has seen `events`, first to last, since it
/// was accepted.
pub open spec fn state_after(events: Seq<Event>) -> ConnState
    decreases events.len(),
{
    if events.len() == 0 {
        ConnState::AwaitFrame
    } else {
        next_state(state_after(events.drop_last()), events.last())
    }
}

/// What was to be done when the event at place `at` was reported.
pub open spec fn action_at(events: Seq<Event>, at: int) -> Action
    recommends
        0 <= at < events.len(),
{
    next_action(state_after(events.take(at)), events[at])
}

/// A connection is closed at most once, and once it is closed nothing more
/// is done on it: in the whole life of a connection, whatever follows a
/// `Close` is `Nothing`.
pub proof fn lemma_nothing_follows_close(events: Seq<Event>, closed_at: int, later: int)
    requires
        0 <= closed_at < later < events.len(),
        action_at(events, closed_at) is Close,
    ensures
        state_after(events.take(later)) == ConnState::Closed,
        action_at(events, later) is Nothing,
    decreases later - closed_at,
{
    let so_far = events.take(later);
    assert(so_far.drop_last() =~= events.take(later - 1));
    assert(so_far.last() == events[later - 1]);
    if later - 1 == closed_at {
        lemma_close_is_announced(state_after(events.take(closed_at)), events[closed_at]);
    } else {
        lemma_nothing_follows_close(events, closed_at, later - 1);
        lemma_closed_is_final(events[later - 1]);
    }
}

} // verus!
