use pastebuff::message::{Request, Response};

fn text(s: &str) -> String {
    s.to_string()
}

#[test]
fn responses_are_shown_as_one_line() {
    assert_eq!(Response::GetResult(text("value")).display(), "value");
    assert_eq!(Response::SetAck.display(), "OK");
    assert_eq!(Response::SizeResult(0).display(), "0");
    assert_eq!(Response::SizeResult(200).display(), "200");
    assert_eq!(
        Response::NotFoundError(text("k")).display(),
        "Could not find key k in store"
    );
    assert_eq!(Response::GenericError(text("boom")).display(), "boom");
}

#[test]
fn failures_go_to_the_error_stream() {
    assert!(!Response::GetResult(text("v")).is_error());
    assert!(!Response::SetAck.is_error());
    assert!(!Response::SizeResult(1).is_error());
    assert!(Response::NotFoundError(text("k")).is_error());
    assert!(Response::GenericError(text("m")).is_error());
}

#[test]
fn requests_compare_by_content() {
    assert_eq!(Request::Get(text("a")), Request::Get(text("a")));
    assert_ne!(Request::Get(text("a")), Request::Get(text("b")));
    assert_ne!(
        Request::Put { key: text("a"), value: text("1") },
        Request::Put { key: text("a"), value: text("2") }
    );
    assert_ne!(Request::Size, Request::Stop);
}
