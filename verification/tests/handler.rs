use pastebuff::handler::{
    apply, read_message, Action, Arrival, CloseReason, ConnState, Event, Handler,
};
use pastebuff::message::{Request, Response};
use pastebuff::store::KVStore;
use pastebuff::wire::{encode_text, ProtocolError};

fn text(s: &str) -> String {
    s.to_string()
}

fn put(key: &str, value: &str) -> Request {
    Request::Put { key: text(key), value: text(value) }
}

fn in_state(state: ConnState) -> Handler {
    let mut handler = Handler::new();
    match state {
        ConnState::AwaitFrame => {}
        ConnState::Dispatch => {
            handler.handle(Event::Request(Request::Size));
        }
        ConnState::Respond => {
            handler.handle(Event::Request(Request::Size));
            handler.handle(Event::Applied(Response::SizeResult(0)));
        }
        ConnState::Closed => {
            handler.handle(Event::ReadFailed);
        }
    }
    assert_eq!(handler.state(), state);
    handler
}

fn all_events() -> Vec<Event> {
    vec![
        Event::Request(Request::Get(text("k"))),
        Event::Request(put("k", "v")),
        Event::Request(Request::Size),
        Event::Request(Request::Stop),
        Event::EndOfStream { pending: 0 },
        Event::EndOfStream { pending: 3 },
        Event::Rejected(ProtocolError::InvalidText),
        Event::Rejected(ProtocolError::Malformed),
        Event::ReadFailed,
        Event::Applied(Response::SetAck),
        Event::Written,
        Event::WriteFailed,
    ]
}

#[test]
fn get_answers_with_the_value_or_a_miss() {
    let mut store: KVStore<String> = KVStore::new(2).unwrap();
    assert_eq!(
        apply(&mut store, Request::Get(text("a"))),
        Some(Response::NotFoundError(text("a")))
    );
    assert_eq!(apply(&mut store, put("a", "1")), Some(Response::SetAck));
    assert_eq!(
        apply(&mut store, Request::Get(text("a"))),
        Some(Response::GetResult(text("1")))
    );
}

#[test]
fn size_answers_with_the_count() {
    let mut store: KVStore<String> = KVStore::new(2).unwrap();
    assert_eq!(apply(&mut store, Request::Size), Some(Response::SizeResult(0)));
    apply(&mut store, put("a", "1"));
    assert_eq!(apply(&mut store, Request::Size), Some(Response::SizeResult(1)));
    apply(&mut store, put("b", "2"));
    apply(&mut store, put("c", "3"));
    assert_eq!(apply(&mut store, Request::Size), Some(Response::SizeResult(2)));
}

#[test]
fn stop_has_no_answer_and_leaves_the_cache_alone() {
    let mut store: KVStore<String> = KVStore::new(2).unwrap();
    apply(&mut store, put("a", "1"));
    assert_eq!(apply(&mut store, Request::Stop), None);
    assert_eq!(store.size(), 1);
    assert_eq!(store.get("a"), Some(&text("1")));
}

#[test]
fn requests_follow_the_eviction_example() {
    let mut store: KVStore<String> = KVStore::new(2).unwrap();
    apply(&mut store, put("a", "1"));
    apply(&mut store, put("b", "2"));
    apply(&mut store, put("c", "3"));
    assert_eq!(
        apply(&mut store, Request::Get(text("a"))),
        Some(Response::NotFoundError(text("a")))
    );
    assert_eq!(
        apply(&mut store, Request::Get(text("b"))),
        Some(Response::GetResult(text("2")))
    );
    assert_eq!(
        apply(&mut store, Request::Get(text("c"))),
        Some(Response::GetResult(text("3")))
    );
}

#[test]
fn a_get_through_the_protocol_promotes() {
    let mut store: KVStore<String> = KVStore::new(2).unwrap();
    apply(&mut store, put("a", "1"));
    apply(&mut store, put("b", "2"));
    apply(&mut store, Request::Get(text("a")));
    apply(&mut store, put("c", "3"));
    assert_eq!(
        apply(&mut store, Request::Get(text("b"))),
        Some(Response::NotFoundError(text("b")))
    );
    assert_eq!(
        apply(&mut store, Request::Get(text("a"))),
        Some(Response::GetResult(text("1")))
    );
}

#[test]
fn a_new_connection_awaits_a_frame() {
    assert_eq!(Handler::new().state(), ConnState::AwaitFrame);
}

#[test]
fn one_request_is_applied_answered_and_then_the_next_awaited() {
    let mut handler = Handler::new();
    let request = Request::Get(text("k"));
    assert_eq!(handler.handle(Event::Request(request.clone())), Action::Apply(request));
    assert_eq!(handler.state(), ConnState::Dispatch);
    let response = Response::NotFoundError(text("k"));
    assert_eq!(handler.handle(Event::Applied(response.clone())), Action::Send(response));
    assert_eq!(handler.state(), ConnState::Respond);
    assert_eq!(handler.handle(Event::Written), Action::Read);
    assert_eq!(handler.state(), ConnState::AwaitFrame);
}

#[test]
fn stop_closes_without_touching_the_cache() {
    let mut handler = Handler::new();
    assert_eq!(
        handler.handle(Event::Request(Request::Stop)),
        Action::Close(CloseReason::StopRequested)
    );
    assert_eq!(handler.state(), ConnState::Closed);
}

#[test]
fn end_of_stream_between_frames_is_orderly() {
    let mut handler = Handler::new();
    assert_eq!(
        handler.handle(Event::EndOfStream { pending: 0 }),
        Action::Close(CloseReason::PeerClosed)
    );
    assert_eq!(handler.state(), ConnState::Closed);
}

#[test]
fn end_of_stream_inside_a_frame_is_a_protocol_error() {
    let mut handler = Handler::new();
    assert_eq!(
        handler.handle(Event::EndOfStream { pending: 1 }),
        Action::Close(CloseReason::Protocol(ProtocolError::Truncated))
    );
    assert_eq!(handler.state(), ConnState::Closed);
}

#[test]
fn a_frame_that_cannot_be_decoded_closes_the_connection() {
    for error in [ProtocolError::InvalidText, ProtocolError::Malformed, ProtocolError::Truncated] {
        let mut handler = Handler::new();
        assert_eq!(
            handler.handle(Event::Rejected(error)),
            Action::Close(CloseReason::Protocol(error))
        );
        assert_eq!(handler.state(), ConnState::Closed);
    }
}

#[test]
fn failed_reads_and_writes_close_the_connection() {
    let mut handler = Handler::new();
    assert_eq!(handler.handle(Event::ReadFailed), Action::Close(CloseReason::ConnectionFailed));
    assert_eq!(handler.state(), ConnState::Closed);
    let mut handler = in_state(ConnState::Respond);
    assert_eq!(handler.handle(Event::WriteFailed), Action::Close(CloseReason::ConnectionFailed));
    assert_eq!(handler.state(), ConnState::Closed);
}

#[test]
fn a_closed_connection_stays_closed() {
    for event in all_events() {
        let mut handler = in_state(ConnState::Closed);
        assert_eq!(handler.handle(event), Action::Nothing);
        assert_eq!(handler.state(), ConnState::Closed);
    }
}

#[test]
fn events_out_of_turn_close_the_connection() {
    for event in all_events() {
        let expected = matches!(event, Event::Applied(_));
        let mut handler = in_state(ConnState::Dispatch);
        let action = handler.handle(event);
        if expected {
            assert_eq!(handler.state(), ConnState::Respond);
        } else {
            assert_eq!(action, Action::Close(CloseReason::OutOfTurn));
            assert_eq!(handler.state(), ConnState::Closed);
        }
    }
    for event in all_events() {
        let expected = matches!(event, Event::Written | Event::WriteFailed);
        let mut handler = in_state(ConnState::Respond);
        let action = handler.handle(event);
        if !expected {
            assert_eq!(action, Action::Close(CloseReason::OutOfTurn));
            assert_eq!(handler.state(), ConnState::Closed);
        }
    }
    for event in [Event::Applied(Response::SetAck), Event::Written, Event::WriteFailed] {
        let mut handler = in_state(ConnState::AwaitFrame);
        assert_eq!(handler.handle(event), Action::Close(CloseReason::OutOfTurn));
        assert_eq!(handler.state(), ConnState::Closed);
    }
}

#[test]
fn a_whole_frame_of_text_is_read() {
    let mut buf = encode_text("{\"Get\":\"k\"}").unwrap();
    let len = buf.len();
    buf.extend_from_slice(&[0, 0]);
    for ended in [false, true] {
        assert_eq!(
            read_message(&buf, ended),
            Arrival::Text { text: text("{\"Get\":\"k\"}"), consumed: len }
        );
    }
}

#[test]
fn an_unfinished_frame_waits_while_the_stream_is_open() {
    let frame = encode_text("hello").unwrap();
    for cut in 0..frame.len() {
        assert_eq!(read_message(&frame[..cut], false), Arrival::Incomplete);
    }
}

#[test]
fn the_end_of_the_stream_is_reported_with_what_was_pending() {
    assert_eq!(read_message(&[], true), Arrival::Failed(Event::EndOfStream { pending: 0 }));
    let frame = encode_text("hello").unwrap();
    for cut in 1..frame.len() {
        assert_eq!(
            read_message(&frame[..cut], true),
            Arrival::Failed(Event::EndOfStream { pending: cut })
        );
    }
}

#[test]
fn a_frame_that_is_not_text_is_rejected() {
    let buf = [0u8, 0, 0, 2, 0xff, 0xff];
    for ended in [false, true] {
        assert_eq!(
            read_message(&buf, ended),
            Arrival::Failed(Event::Rejected(ProtocolError::InvalidText))
        );
    }
}

#[test]
fn a_connection_runs_from_bytes_to_bytes() {
    let mut store: KVStore<String> = KVStore::new(2).unwrap();
    let mut handler = Handler::new();
    // the peer sends nothing and closes
    let event = match read_message(&[], true) {
        Arrival::Failed(event) => event,
        other => panic!("unexpected {:?}", other),
    };
    assert_eq!(handler.handle(event), Action::Close(CloseReason::PeerClosed));
    // another peer sets a key and reads it back
    let mut handler = Handler::new();
    let request = put("k", "v");
    let action = handler.handle(Event::Request(request));
    let reply = match action {
        Action::Apply(request) => apply(&mut store, request).unwrap(),
        other => panic!("unexpected {:?}", other),
    };
    assert_eq!(handler.handle(Event::Applied(reply)), Action::Send(Response::SetAck));
    assert_eq!(handler.handle(Event::Written), Action::Read);
    let action = handler.handle(Event::Request(Request::Get(text("k"))));
    let reply = match action {
        Action::Apply(request) => apply(&mut store, request).unwrap(),
        other => panic!("unexpected {:?}", other),
    };
    assert_eq!(reply, Response::GetResult(text("v")));
}
