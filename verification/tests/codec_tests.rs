use localcomm::errors::CodecError;
use localcomm::message::{Message, MessageType};

fn msg(kind: MessageType, from: &str, to: &str, content: &str, ts: i64) -> Message {
    let mut m = Message::new(kind, from.to_string(), to.to_string(), content.to_string());
    m.timestamp = ts;
    m
}

#[test]
fn round_trip_text() {
    let m = Message::text("alice".to_string(), "bob".to_string(), "hi".to_string());
    let json = m.to_json();
    let back = Message::from_json(&json).unwrap();
    assert_eq!(back, m);
}

#[test]
fn round_trip_metadata() {
    let m = Message::new(
        MessageType::File,
        "a".to_string(),
        "b".to_string(),
        "body".to_string(),
    )
    .with_metadata("filename".to_string(), "notes.txt".to_string())
    .with_metadata("extra".to_string(), "v1".to_string());
    let back = Message::from_json(&m.to_json()).unwrap();
    assert_eq!(back, m);
    assert_eq!(back.metadata.len(), 2);
}

#[test]
fn round_trip_awkward_strings() {
    let m = msg(
        MessageType::Error,
        "a\"b\\c",
        "x\ny",
        "tab\there\r\nand \u{1}control\u{1f600}",
        -1234567890123,
    )
    .with_metadata("k\n1".to_string(), "v\"2\\".to_string());
    let back = Message::from_json(&m.to_json()).unwrap();
    assert_eq!(back, m);
}

#[test]
fn round_trip_extreme_timestamps() {
    for ts in [i64::MIN, -1, 0, 1, i64::MAX] {
        let m = msg(MessageType::Ack, "s", "r", "c", ts);
        let back = Message::from_json(&m.to_json()).unwrap();
        assert_eq!(back, m);
    }
}

#[test]
fn round_trip_all_kinds() {
    for kind in [
        MessageType::Text,
        MessageType::File,
        MessageType::FileChunk,
        MessageType::FileComplete,
        MessageType::Heartbeat,
        MessageType::Ack,
        MessageType::Error,
    ] {
        let m = msg(kind, "from", "to", "content", 7);
        let back = Message::from_json(&m.to_json()).unwrap();
        assert_eq!(back, m);
    }
}

#[test]
fn serialized_form_never_holds_a_raw_delimiter() {
    let m = msg(MessageType::Text, "a\nb", "c", "line1\nline2\n", 1)
        .with_metadata("key\n".to_string(), "val\n".to_string());
    let json = m.to_json();
    assert!(!json.contains('\n'));
    assert!(json.contains("\\u000a"));
    let frame = localcomm::codec::encode_frame(&m);
    assert_eq!(frame.matches('\n').count(), 1);
    assert!(frame.ends_with('\n'));
}

#[test]
fn concrete_serialized_form() {
    let mut m = msg(MessageType::Text, "alice", "bob", "hi", 42);
    m.id = "abc".to_string();
    assert_eq!(
        m.to_json(),
        "{\"id\":\"abc\",\"type\":\"text\",\"from\":\"alice\",\"to\":\"bob\",\"content\":\"hi\",\"timestamp\":42,\"metadata\":{}}"
    );
}

#[test]
fn missing_metadata_reads_back_empty() {
    let json = "{\"id\":\"x\",\"type\":\"heartbeat\",\"from\":\"a\",\"to\":\"b\",\"content\":\"\",\"timestamp\":-3}";
    let m = Message::from_json(json).unwrap();
    assert_eq!(m.msg_type, MessageType::Heartbeat);
    assert_eq!(m.timestamp, -3);
    assert!(m.metadata.is_empty());
}

#[test]
fn malformed_inputs_are_rejected() {
    let bad = [
        "",
        "{}",
        "not json at all",
        "{\"id\":\"x\",\"type\":\"nope\",\"from\":\"a\",\"to\":\"b\",\"content\":\"\",\"timestamp\":1}",
        "{\"id\":\"x\",\"from\":\"a\",\"to\":\"b\",\"content\":\"\",\"timestamp\":1}",
        "{\"id\":\"x\",\"type\":\"text\",\"from\":\"a\",\"to\":\"b\",\"content\":\"\",\"timestamp\":}",
        "{\"id\":\"x\",\"type\":\"text\",\"from\":\"a\",\"to\":\"b\",\"content\":\"\",\"timestamp\":9223372036854775808}",
        "{\"id\":\"x\",\"type\":\"text\",\"from\":\"a\",\"to\":\"b\",\"content\":\"raw\ncontrol\",\"timestamp\":1}",
        // a member given twice
        "{\"id\":\"x\",\"id\":\"y\",\"type\":\"text\",\"from\":\"a\",\"to\":\"b\",\"content\":\"\",\"timestamp\":1}",
        // a member outside the schema
        "{\"id\":\"x\",\"type\":\"text\",\"from\":\"a\",\"to\":\"b\",\"content\":\"\",\"timestamp\":1,\"extra\":\"z\"}",
        // a lone low surrogate in a string
        "{\"id\":\"\\uDC00\",\"type\":\"text\",\"from\":\"a\",\"to\":\"b\",\"content\":\"\",\"timestamp\":1}",
        // JSON numbers take no plus sign and no redundant leading zero
        "{\"id\":\"x\",\"type\":\"text\",\"from\":\"a\",\"to\":\"b\",\"content\":\"\",\"timestamp\":+5}",
        "{\"id\":\"x\",\"type\":\"text\",\"from\":\"a\",\"to\":\"b\",\"content\":\"\",\"timestamp\":05}",
        // text after the closing brace
        "{\"id\":\"x\",\"type\":\"text\",\"from\":\"a\",\"to\":\"b\",\"content\":\"\",\"timestamp\":1}{}",
    ];
    for json in bad {
        assert_eq!(
            Message::from_json(json),
            Err(CodecError::MalformedMessage),
            "input should be rejected: {json:?}"
        );
    }
}

#[test]
fn members_in_any_order_with_whitespace() {
    let json = " { \"type\" : \"text\" ,\t\"from\" : \"a\" , \"timestamp\" : -7 , \"to\" : \"b\" , \"content\" : \"c\" , \"id\" : \"x\" } ";
    let m = Message::from_json(json).unwrap();
    assert_eq!(m.msg_type, MessageType::Text);
    assert_eq!(m.id, "x");
    assert_eq!(m.from, "a");
    assert_eq!(m.to, "b");
    assert_eq!(m.content, "c");
    assert_eq!(m.timestamp, -7);
    assert!(m.metadata.is_empty());
}

#[test]
fn standard_escapes_decode() {
    let json = "{\"id\":\"x\",\"type\":\"text\",\"from\":\"a\",\"to\":\"b\",\"content\":\"nl\\nret\\rtab\\tq\\\"bs\\\\sl\\/bell\\bff\\fhex\\u0041sur\\uD83D\\uDE00\",\"timestamp\":0}";
    let m = Message::from_json(json).unwrap();
    assert_eq!(
        m.content,
        "nl\nret\rtab\tq\"bs\\sl/bell\u{8}ff\u{c}hexAsur\u{1f600}"
    );
}

#[test]
fn metadata_with_whitespace_and_duplicate_key() {
    let json = "{\"id\":\"x\",\"type\":\"file\",\"from\":\"a\",\"to\":\"b\",\"content\":\"\",\"timestamp\":1,\"metadata\":{ \"k\" : \"v1\" , \"k\" : \"v2\" , \"other\" : \"w\" }}";
    let m = Message::from_json(json).unwrap();
    assert_eq!(m.metadata.len(), 2);
    assert_eq!(m.get_metadata("k"), Some(&"v2".to_string()));
    assert_eq!(m.get_metadata("other"), Some(&"w".to_string()));
}

#[test]
fn negative_zero_timestamp_reads_as_zero() {
    let json = "{\"id\":\"x\",\"type\":\"ack\",\"from\":\"a\",\"to\":\"b\",\"content\":\"\",\"timestamp\":-0}";
    assert_eq!(Message::from_json(json).unwrap().timestamp, 0);
}

#[test]
fn decode_frame_tolerates_the_delimiter() {
    let m = msg(MessageType::Text, "a", "b", "c", 5);
    let frame = localcomm::codec::encode_frame(&m);
    let back = localcomm::codec::decode_frame(&frame).unwrap();
    assert_eq!(back, m);
}

#[test]
fn fresh_ids_differ() {
    let a = Message::text("f".to_string(), "t".to_string(), "x".to_string());
    let b = Message::text("f".to_string(), "t".to_string(), "x".to_string());
    assert_eq!(a.id.len(), 36);
    assert_ne!(a.id, b.id);
}

#[test]
fn metadata_insert_replaces() {
    let m = Message::text("f".to_string(), "t".to_string(), "x".to_string())
        .with_metadata("k".to_string(), "v1".to_string())
        .with_metadata("k".to_string(), "v2".to_string());
    assert_eq!(m.metadata.len(), 1);
    assert_eq!(m.get_metadata("k"), Some(&"v2".to_string()));
    assert_eq!(m.get_metadata("missing"), None);
}
