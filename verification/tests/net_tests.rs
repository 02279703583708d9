//! Receive-loop scenarios over in-memory byte streams: one reader per
//! connection, decoded frames forwarded to one shared queue, exactly
//! as the server's receive loop runs them.

use std::time::Duration;

use localcomm::dispatch::{reader_step, ReaderStep};
use localcomm::message::{Message, MessageType};
use tokio::io::{AsyncBufReadExt, AsyncWriteExt, BufReader, DuplexStream};
use tokio::net::{TcpListener, TcpStream};
use tokio::sync::mpsc;

fn rt() -> tokio::runtime::Runtime {
    tokio::runtime::Builder::new_multi_thread().enable_all().build().unwrap()
}

/// One "connection": the returned half is the client's; a reader task
/// drains the other half and forwards decoded messages, tagged with
/// the connection's label, until the peer closes or a frame is
/// malformed.
fn open_connection(label: &str, tx: mpsc::UnboundedSender<(Message, String)>) -> DuplexStream {
    let (client, server) = tokio::io::duplex(64 * 1024);
    let label = label.to_string();
    tokio::spawn(async move {
        let mut reader = BufReader::new(server);
        let mut line = String::new();
        loop {
            line.clear();
            let n = match reader.read_line(&mut line).await {
                Ok(n) => n,
                Err(_) => break,
            };
            match reader_step(n, &line) {
                ReaderStep::Deliver(m) => {
                    let _ = tx.send((m, label.clone()));
                }
                ReaderStep::Closed => break,
                ReaderStep::Malformed => break,
            }
        }
    });
    client
}

async fn send_frame(stream: &mut DuplexStream, m: &Message) {
    let frame = localcomm::codec::encode_frame(m);
    stream.write_all(frame.as_bytes()).await.unwrap();
    stream.flush().await.unwrap();
}

async fn recv_within(
    rx: &mut mpsc::UnboundedReceiver<(Message, String)>,
    secs: u64,
) -> Option<(Message, String)> {
    tokio::time::timeout(Duration::from_secs(secs), rx.recv()).await.ok().flatten()
}

#[test]
fn text_message_reaches_the_queue() {
    rt().block_on(async {
        let (tx, mut rx) = mpsc::unbounded_channel();
        let mut conn = open_connection("peer-1", tx);
        let m = Message::text("alice".to_string(), "bob".to_string(), "hi".to_string());
        send_frame(&mut conn, &m).await;
        let (got, addr) = recv_within(&mut rx, 5).await.expect("one message");
        assert!(matches!(got.msg_type, MessageType::Text));
        assert_eq!(got.content, "hi");
        assert_eq!(got.from, "alice");
        assert_eq!(got.to, "bob");
        assert_eq!(got.id.len(), 36);
        assert_eq!(addr, "peer-1");
        let m2 = Message::text("alice".to_string(), "bob".to_string(), "again".to_string());
        assert_ne!(m2.id, got.id, "every construction draws a fresh id");
        send_frame(&mut conn, &m2).await;
        let (got2, _) = recv_within(&mut rx, 5).await.expect("second message");
        assert_ne!(got2.id, got.id);
    });
}

#[test]
fn same_connection_preserves_send_order() {
    rt().block_on(async {
        let (tx, mut rx) = mpsc::unbounded_channel();
        let mut conn = open_connection("peer-1", tx);
        let m1 = Message::text("s".to_string(), "r".to_string(), "first".to_string());
        let m2 = Message::text("s".to_string(), "r".to_string(), "second".to_string());
        send_frame(&mut conn, &m1).await;
        send_frame(&mut conn, &m2).await;
        let (got1, _) = recv_within(&mut rx, 5).await.expect("first");
        let (got2, _) = recv_within(&mut rx, 5).await.expect("second");
        assert_eq!(got1.content, "first");
        assert_eq!(got2.content, "second");
    });
}

#[test]
fn malformed_frame_does_not_disturb_other_connections() {
    rt().block_on(async {
        let (tx, mut rx) = mpsc::unbounded_channel();
        let mut bad = open_connection("bad", tx.clone());
        let mut good = open_connection("good", tx);
        bad.write_all(b"this is not a frame\n").await.unwrap();
        bad.flush().await.unwrap();
        // a message sent on the poisoned connection is not delivered:
        // the malformed frame terminated that connection's reader, which
        // may already have hung up, so the write itself may also fail
        let lost = Message::text("s".to_string(), "r".to_string(), "lost".to_string());
        let lost_frame = localcomm::codec::encode_frame(&lost);
        let _ = bad.write_all(lost_frame.as_bytes()).await;
        let _ = bad.flush().await;
        let m = Message::text("s".to_string(), "r".to_string(), "survives".to_string());
        send_frame(&mut good, &m).await;
        let (got, addr) = recv_within(&mut rx, 5).await.expect("the well-formed frame");
        assert_eq!(got.content, "survives");
        assert_eq!(addr, "good");
        assert!(recv_within(&mut rx, 1).await.is_none());
    });
}

#[test]
fn two_clients_deliver_without_interleaving() {
    rt().block_on(async {
        let (tx, mut rx) = mpsc::unbounded_channel();
        let mut a = open_connection("a", tx.clone());
        let mut b = open_connection("b", tx);
        let ma = Message::text("client-a".to_string(), "srv".to_string(), "hello-A".to_string());
        let mb = Message::text("client-b".to_string(), "srv".to_string(), "hello-B".to_string());
        send_frame(&mut a, &ma).await;
        send_frame(&mut b, &mb).await;
        let mut contents = Vec::new();
        for _ in 0..2 {
            let (got, _) = recv_within(&mut rx, 5).await.expect("message");
            contents.push((got.from.clone(), got.content.clone()));
        }
        contents.sort();
        assert_eq!(
            contents,
            vec![
                ("client-a".to_string(), "hello-A".to_string()),
                ("client-b".to_string(), "hello-B".to_string()),
            ]
        );
    });
}

#[test]
fn connect_with_nothing_listening_fails_fast() {
    rt().block_on(async {
        let port = match TcpListener::bind("127.0.0.1:0").await {
            Ok(probe) => probe.local_addr().unwrap().port(),
            // no sockets at all: any port will refuse
            Err(_) => 9,
        };
        let attempt = tokio::time::timeout(
            Duration::from_secs(5),
            TcpStream::connect(("127.0.0.1", port)),
        )
        .await;
        match attempt {
            Ok(result) => assert!(result.is_err(), "connect must fail, not succeed"),
            Err(_) => panic!("connect must fail promptly, not hang"),
        }
    });
}
