//! File round-trips: a source file streamed through the transfer
//! protocol over an in-memory byte stream, landing byte-identical in a
//! destination file, with both independently computed checksums equal.

use localcomm::transfer::{
    encode_header, next_read_len, parse_header, ReceiveProgress, StreamHasher,
};
use tokio::io::{AsyncReadExt, AsyncWriteExt};

fn rt() -> tokio::runtime::Runtime {
    tokio::runtime::Builder::new_multi_thread().enable_all().build().unwrap()
}

fn pattern(len: usize) -> Vec<u8> {
    (0..len).map(|i| (i % 251) as u8).collect()
}

/// Send `data` as a file through the protocol and receive it on the
/// other end; check name, byte identity and checksum agreement.
async fn transfer_once(dir: &str, name: &str, data: Vec<u8>) {
    tokio::fs::create_dir_all(dir).await.unwrap();
    let src_path = format!("{dir}/{name}");
    tokio::fs::write(&src_path, &data).await.unwrap();

    let (mut send_side, mut recv_side) = tokio::io::duplex(64 * 1024);

    let recv_task = tokio::spawn(async move {
        // header: scan byte by byte for two newline-terminated lines
        let mut buf: Vec<u8> = Vec::new();
        let mut newlines = 0;
        let mut one = [0u8; 1];
        while newlines < 2 {
            recv_side.read_exact(&mut one).await.unwrap();
            buf.push(one[0]);
            if one[0] == b'\n' {
                newlines += 1;
            }
        }
        let (header, used) = parse_header(&buf).unwrap();
        assert_eq!(used, buf.len());
        // body: bounded chunks, stopping early if the peer closes
        let mut progress = ReceiveProgress::start(header.file_size);
        let mut received: u64 = 0;
        let mut out: Vec<u8> = Vec::new();
        let mut chunk = vec![0u8; 64 * 1024];
        while received < header.file_size {
            let want = next_read_len(received, header.file_size, chunk.len());
            let n = recv_side.read(&mut chunk[..want]).await.unwrap();
            if n == 0 {
                break;
            }
            progress.ingest(&chunk[..n]);
            out.extend_from_slice(&chunk[..n]);
            received += n as u64;
        }
        let (count, hex) = progress.finish();
        (header.file_name, count, hex, out)
    });

    // sender: header, then 64 KiB chunks folded into a running hash
    let size = tokio::fs::metadata(&src_path).await.unwrap().len();
    let header = encode_header(name, size);
    send_side.write_all(header.as_bytes()).await.unwrap();
    let mut file = tokio::fs::File::open(&src_path).await.unwrap();
    let mut hasher = StreamHasher::new();
    let mut buf = vec![0u8; 64 * 1024];
    loop {
        let n = file.read(&mut buf).await.unwrap();
        if n == 0 {
            break;
        }
        send_side.write_all(&buf[..n]).await.unwrap();
        hasher.update(&buf[..n]);
    }
    send_side.flush().await.unwrap();
    drop(send_side);
    let sender_hex = hasher.finalize_hex();

    let (got_name, count, receiver_hex, out) = recv_task.await.unwrap();
    assert_eq!(got_name, name);
    assert_eq!(count, data.len() as u64);
    assert_eq!(out, data, "destination must be byte-identical to the source");
    assert_eq!(sender_hex, receiver_hex, "both checksums must agree");

    // the received bytes land in a destination file, byte-identical
    let dst_path = format!("{dir}/received-{name}");
    tokio::fs::write(&dst_path, &out).await.unwrap();
    let back = tokio::fs::read(&dst_path).await.unwrap();
    assert_eq!(back, data);
}

#[test]
fn file_round_trip_boundary_sizes() {
    rt().block_on(async {
        let dir = "/tmp/localcomm_transfer_small";
        for (i, len) in [0usize, 1, 64 * 1024 - 1, 64 * 1024, 64 * 1024 + 1].into_iter().enumerate()
        {
            transfer_once(dir, &format!("case{i}.bin"), pattern(len)).await;
        }
    });
}

#[test]
fn file_round_trip_several_megabytes() {
    rt().block_on(async {
        let dir = "/tmp/localcomm_transfer_large";
        transfer_once(dir, "big.bin", pattern(3 * 1024 * 1024 + 7)).await;
    });
}
