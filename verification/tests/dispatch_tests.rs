use localcomm::dispatch::{dispatch, reader_step, Dispatch, ReaderStep};
use localcomm::message::{Message, MessageType};

#[test]
fn text_is_shown_with_sender_and_timestamp() {
    let mut m = Message::text("alice".to_string(), "bob".to_string(), "hi".to_string());
    m.timestamp = 99;
    match dispatch(&m) {
        Dispatch::ShowText { from, content, timestamp } => {
            assert_eq!(from, "alice");
            assert_eq!(content, "hi");
            assert_eq!(timestamp, 99);
        }
        other => panic!("expected ShowText, got {other:?}"),
    }
}

#[test]
fn file_announcement_carries_its_filename() {
    let m = Message::new(
        MessageType::File,
        "a".to_string(),
        "b".to_string(),
        String::new(),
    )
    .with_metadata("filename".to_string(), "notes.txt".to_string());
    match dispatch(&m) {
        Dispatch::ShowFile { from, filename } => {
            assert_eq!(from, "a");
            assert_eq!(filename, Some("notes.txt".to_string()));
        }
        other => panic!("expected ShowFile, got {other:?}"),
    }
    let bare = Message::new(MessageType::File, "a".to_string(), "b".to_string(), String::new());
    assert!(matches!(dispatch(&bare), Dispatch::ShowFile { filename: None, .. }));
}

#[test]
fn heartbeat_is_silent_and_the_rest_unknown() {
    let hb = Message::new(MessageType::Heartbeat, "a".to_string(), "b".to_string(), String::new());
    assert!(matches!(dispatch(&hb), Dispatch::Silent));
    for kind in [MessageType::FileChunk, MessageType::FileComplete, MessageType::Ack, MessageType::Error] {
        let m = Message::new(kind, "a".to_string(), "b".to_string(), String::new());
        assert!(matches!(dispatch(&m), Dispatch::Unknown));
    }
}

#[test]
fn reader_step_decides_close_deliver_malformed() {
    assert!(matches!(reader_step(0, ""), ReaderStep::Closed));
    let m = Message::text("a".to_string(), "b".to_string(), "c".to_string());
    let frame = localcomm::codec::encode_frame(&m);
    match reader_step(frame.len(), &frame) {
        ReaderStep::Deliver(got) => assert_eq!(got, m),
        other => panic!("expected Deliver, got {other:?}"),
    }
    assert!(matches!(reader_step(8, "garbage\n"), ReaderStep::Malformed));
}
