use pastebuff::handler::{read_message, Arrival};
use pastebuff::wire::{decode_frame, decode_text, encode_text};
use serde_json::Value;

fn tagged(tag: &str, body: Value) -> Value {
    let mut object = serde_json::Map::new();
    object.insert(tag.to_string(), body);
    Value::Object(object)
}

fn get(key: &str) -> Value {
    tagged("Get", Value::String(key.to_string()))
}

fn set(key: &str, value: &str) -> Value {
    let mut fields = serde_json::Map::new();
    fields.insert("key".to_string(), Value::String(key.to_string()));
    fields.insert("value".to_string(), Value::String(value.to_string()));
    tagged("Set", Value::Object(fields))
}

fn through_a_frame(message: &Value) -> Value {
    let text = serde_json::to_string(message).unwrap();
    let mut stream = encode_text(&text).unwrap();
    // whatever follows on the stream must not disturb the frame
    stream.extend_from_slice(&[0, 0, 0, 1]);
    let (payload, consumed) = decode_frame(&stream).unwrap();
    assert_eq!(consumed, 4 + text.len());
    let back = decode_text(payload).unwrap();
    assert_eq!(back, text);
    assert_eq!(
        read_message(&stream, false),
        Arrival::Text { text: text.clone(), consumed: 4 + text.len() }
    );
    serde_json::from_str(&back).unwrap()
}

#[test]
fn every_request_survives_its_frame() {
    let requests = vec![
        get("k"),
        get(""),
        set("k", "v"),
        set("", ""),
        Value::String("Size".to_string()),
        Value::String("Stop".to_string()),
    ];
    for request in requests {
        assert_eq!(through_a_frame(&request), request);
    }
}

#[test]
fn multi_byte_text_survives_its_frame() {
    for text in ["żółć", "日本語のテキスト", "🦀🦀🦀", "a\u{0301}", "\u{10FFFF}", "line\nbreak \"quoted\" \\ back"] {
        assert_eq!(through_a_frame(&get(text)), get(text));
        assert_eq!(through_a_frame(&set(text, text)), set(text, text));
    }
}

#[test]
fn values_that_look_like_a_length_survive_their_frame() {
    for text in ["\u{0}\u{0}\u{0}\u{5}", "\u{0}\u{0}\u{0}\u{0}", "\u{7f}\u{7f}\u{7f}\u{7f}rest"] {
        assert_eq!(through_a_frame(&set("k", text)), set("k", text));
        assert_eq!(through_a_frame(&set(text, "v")), set(text, "v"));
    }
}

#[test]
fn every_response_survives_its_frame() {
    let responses = vec![
        tagged("GetResult", Value::String("v".to_string())),
        Value::String("SetAck".to_string()),
        tagged("NotFoundError", Value::String("k".to_string())),
        tagged("SizeResult", Value::from(200u64)),
        tagged("GenericError", Value::String("boom".to_string())),
    ];
    for response in responses {
        assert_eq!(through_a_frame(&response), response);
    }
}
