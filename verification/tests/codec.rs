use vsp::json::{JsonValue, json_encode, json_parse};
use vsp::message::VSPMessage;
use vsp::VSPError;

fn s(v: &str) -> String {
    v.to_string()
}

fn sample_value() -> JsonValue {
    JsonValue::Obj(vec![
        (s("id"), JsonValue::Int(42)),
        (s("negative"), JsonValue::Int(-7)),
        (s("flag"), JsonValue::Bool(true)),
        (s("off"), JsonValue::Bool(false)),
        (s("nothing"), JsonValue::Null),
        (s("text"), JsonValue::Str(s("plain"))),
        (
            s("items"),
            JsonValue::Arr(vec![
                JsonValue::Int(1),
                JsonValue::Str(s("two")),
                JsonValue::Arr(vec![]),
                JsonValue::Obj(vec![]),
            ]),
        ),
    ])
}

#[test]
fn json_encode_is_valid_json() {
    let bytes = json_encode(&sample_value());
    let parsed: serde_json::Value = serde_json::from_slice(&bytes).expect("must be valid JSON");
    assert_eq!(parsed["id"], serde_json::Value::from(42));
    assert_eq!(parsed["negative"], serde_json::Value::from(-7));
    assert_eq!(parsed["text"], serde_json::Value::from("plain"));
    assert_eq!(parsed["items"][1], serde_json::Value::from("two"));
}

#[test]
fn json_round_trip_nested() {
    let v = sample_value();
    let bytes = json_encode(&v);
    let back = json_parse(&bytes).expect("canonical form must parse");
    assert_eq!(json_encode(&back), bytes);
}

#[test]
fn json_round_trip_escapes() {
    let v = JsonValue::Obj(vec![
        (s("q"), JsonValue::Str(s("say \"hi\""))),
        (s("b"), JsonValue::Str(s("a\\b"))),
        (s("nl"), JsonValue::Str(s("line1\nline2\ttabbed\r"))),
        (s("unicode"), JsonValue::Str(s("caf\u{e9} \u{2603}"))),
        (s("ctl"), JsonValue::Str(s("\u{01}\u{1f}"))),
    ]);
    let bytes = json_encode(&v);
    let back = json_parse(&bytes).expect("escaped strings must parse");
    assert_eq!(json_encode(&back), bytes);
    let parsed: serde_json::Value = serde_json::from_slice(&bytes).expect("valid JSON");
    assert_eq!(parsed["q"], serde_json::Value::from("say \"hi\""));
    assert_eq!(parsed["unicode"], serde_json::Value::from("caf\u{e9} \u{2603}"));
}

#[test]
fn json_int_bounds_round_trip() {
    for n in [0i64, 1, -1, 10, 99, i64::MAX, i64::MIN] {
        let bytes = json_encode(&JsonValue::Int(n));
        match json_parse(&bytes) {
            Some(JsonValue::Int(m)) => assert_eq!(m, n),
            _ => panic!("integer did not round-trip"),
        }
    }
}

#[test]
fn json_rejects_out_of_range_int() {
    let too_big = b"9223372036854775808".to_vec();
    assert!(json_parse(&too_big).is_none());
    let way_too_big = b"123456789012345678901234567890123456789012".to_vec();
    assert!(json_parse(&way_too_big).is_none());
    let min_ok = b"-9223372036854775808".to_vec();
    match json_parse(&min_ok) {
        Some(JsonValue::Int(m)) => assert_eq!(m, i64::MIN),
        _ => panic!("i64::MIN must parse"),
    }
}

#[test]
fn json_accepts_interstitial_whitespace() {
    let spaced = b" { \"a\" : [ 1 , 2 ] , \"b\" : { } , \"c\" : true }  ".to_vec();
    let v = json_parse(&spaced).expect("whitespace between tokens is insignificant");
    let compact = json_encode(&v);
    assert_eq!(compact, b"{\"a\":[1,2],\"b\":{},\"c\":true}".to_vec());
    let pretty = b"{\n  \"k\": null,\n  \"l\": \"v\"\n}\n".to_vec();
    let v2 = json_parse(&pretty).expect("pretty-printed JSON parses");
    assert_eq!(json_encode(&v2), b"{\"k\":null,\"l\":\"v\"}".to_vec());
    assert!(json_parse(&b" [ ] ".to_vec()).is_some());
    assert!(
        json_parse(&b"\"a b\"".to_vec()).is_some(),
        "whitespace inside strings is content"
    );
}

#[test]
fn message_decodes_pretty_printed_payload() {
    let payload = b"{\n \"header\": { \"request_id\": \"r\", \"service\": \"s\", \"endpoint\": \"e\", \"is_response\": false },\n \"body\": { \"n\": 1 }\n}"
        .to_vec();
    let m = VSPMessage::from_bytes(&payload).expect("a spec-conformant peer may pretty-print");
    assert_eq!(m.request_id(), "r");
    assert_eq!(m.get_body().len(), 1);
}

#[test]
fn json_unicode_escapes_decode_to_utf8() {
    let cases: Vec<(&[u8], &str)> = vec![
        (br#""\u0041""#, "A"),
        (br#""\u00e9""#, "\u{e9}"),
        (br#""\u2603""#, "\u{2603}"),
        (br#""\ud83d\ude00""#, "\u{1f600}"),
        (br#""a\u00e9b""#, "a\u{e9}b"),
    ];
    for (input, expected) in cases {
        match json_parse(&input.to_vec()) {
            Some(JsonValue::Str(v)) => assert_eq!(v, expected),
            _ => panic!("{:?} must decode as a string", input),
        }
    }
}

#[test]
fn json_rejects_lone_or_misordered_surrogates() {
    for bad in [
        &br#""\ud83d""#[..],
        &br#""\ud83dx""#[..],
        &br#""\ude00""#[..],
        &br#""\ude00\ud83d""#[..],
        &br#""\ud83d\u0041""#[..],
    ] {
        assert!(json_parse(&bad.to_vec()).is_none(), "{:?} should be rejected", bad);
    }
}

#[test]
fn json_rejects_malformed() {
    for bad in [
        &b"{"[..],
        &b"{\"a\":}"[..],
        &b"tru"[..],
        &b"[1,]"[..],
        &b"\"unterminated"[..],
        &b"{\"a\":1}extra"[..],
        &b""[..],
    ] {
        assert!(json_parse(&bad.to_vec()).is_none(), "{:?} should be rejected", bad);
    }
}

#[test]
fn message_round_trip() {
    let body = vec![
        (s("ask"), JsonValue::Str(s("value with \"quotes\""))),
        (s("count"), JsonValue::Int(31)),
    ];
    let mut m = VSPMessage::new(s("req-1"), s("echo"), s("/ping"), body, false);
    let bytes = m.to_bytes();
    let back = VSPMessage::from_bytes(&bytes).expect("own payload must decode");
    assert_eq!(back.request_id(), "req-1");
    assert_eq!(back.service(), "echo");
    assert_eq!(back.endpoint(), "/ping");
    assert!(!back.is_response());
    assert_eq!(back.get_body().len(), 2);
    assert_eq!(back.get_body()[0].0, "ask");
    match &back.get_body()[1].1 {
        JsonValue::Int(n) => assert_eq!(*n, 31),
        _ => panic!("body value type lost"),
    }
}

#[test]
fn message_to_bytes_is_cached_and_stable() {
    let mut m = VSPMessage::new(s("id"), s("svc"), s("/e"), vec![], true);
    let a = m.to_bytes();
    let b = m.to_bytes();
    assert_eq!(a, b);
    m.clear_cache();
    let c = m.to_bytes();
    assert_eq!(a, c);
}

#[test]
fn message_decode_requires_header_and_body() {
    let no_header = b"{\"body\":{}}".to_vec();
    match VSPMessage::from_bytes(&no_header) {
        Err(e) => assert_eq!(e, VSPError::ProtocolError),
        Ok(_) => panic!("a payload without a header must be rejected"),
    }
    let no_body =
        b"{\"header\":{\"request_id\":\"r\",\"service\":\"s\",\"endpoint\":\"e\",\"is_response\":false}}"
            .to_vec();
    match VSPMessage::from_bytes(&no_body) {
        Err(e) => assert_eq!(e, VSPError::ProtocolError),
        Ok(_) => panic!("a payload without a body member must be rejected"),
    }
    let bad_json = b"not json at all".to_vec();
    match VSPMessage::from_bytes(&bad_json) {
        Err(e) => assert_eq!(e, VSPError::ProtocolError),
        Ok(_) => panic!("malformed JSON must be rejected"),
    }
}

#[test]
fn message_decode_tolerates_non_object_body() {
    let payload =
        b"{\"header\":{\"request_id\":\"r\",\"service\":\"s\",\"endpoint\":\"e\",\"is_response\":true},\"body\":7}"
            .to_vec();
    let m = VSPMessage::from_bytes(&payload).expect("non-object body defaults to empty");
    assert!(m.is_response());
    assert_eq!(m.get_body().len(), 0);
}

#[test]
fn generate_request_id_is_36_chars_and_fresh() {
    let a = VSPMessage::generate_request_id();
    let b = VSPMessage::generate_request_id();
    assert_eq!(a.len(), 36);
    assert_eq!(b.len(), 36);
    assert_ne!(a, b);
}
