use relay_proxy::error::ClientError;
use relay_proxy::reader::{ReadStatus, StreamReader, CHUNK_SIZE};

#[test]
fn short_chunk_completes() {
    let mut r = StreamReader::new();
    assert_eq!(r.feed(b"GET / HTTP/1.1\r\n"), Ok(ReadStatus::Complete));
    assert_eq!(r.bytes, b"GET / HTTP/1.1\r\n".to_vec());
    assert_eq!(r.text, "GET / HTTP/1.1\r\n");
}

#[test]
fn empty_read_completes() {
    let mut r = StreamReader::new();
    assert_eq!(r.feed(b""), Ok(ReadStatus::Complete));
    assert!(r.bytes.is_empty());
    assert_eq!(r.text, "");
}

#[test]
fn full_chunk_asks_for_more() {
    let mut r = StreamReader::new();
    let chunk = vec![b'a'; CHUNK_SIZE];
    assert_eq!(r.feed(&chunk), Ok(ReadStatus::More));
    assert_eq!(r.bytes.len(), 1024);
}

#[test]
fn message_at_chunk_boundary_is_not_truncated() {
    let mut r = StreamReader::new();
    let mut first = vec![b'x'; CHUNK_SIZE];
    first[0] = b'G';
    assert_eq!(r.feed(&first), Ok(ReadStatus::More));
    assert_eq!(r.feed(b"tail"), Ok(ReadStatus::Complete));
    assert_eq!(r.bytes.len(), CHUNK_SIZE + 4);
    assert!(r.text.ends_with("xtail"));
    assert!(r.text.starts_with('G'));
}

#[test]
fn exactly_one_full_chunk_then_close() {
    let mut r = StreamReader::new();
    let chunk = vec![b'z'; CHUNK_SIZE];
    assert_eq!(r.feed(&chunk), Ok(ReadStatus::More));
    assert_eq!(r.feed(b""), Ok(ReadStatus::Complete));
    assert_eq!(r.text.len(), CHUNK_SIZE);
}

#[test]
fn invalid_utf8_fails() {
    let mut r = StreamReader::new();
    assert_eq!(r.feed(&[0x66, 0xff, 0x66]), Err(ClientError::Utf8DecodeError));
}

#[test]
fn character_split_across_chunks_fails() {
    let mut r = StreamReader::new();
    let mut chunk = vec![b'a'; CHUNK_SIZE];
    // "é" is 0xc3 0xa9: only its first byte fits in this chunk.
    chunk[CHUNK_SIZE - 1] = 0xc3;
    assert_eq!(r.feed(&chunk), Err(ClientError::Utf8DecodeError));
}

#[test]
fn multibyte_text_decodes() {
    let mut r = StreamReader::new();
    assert_eq!(r.feed("héllo".as_bytes()), Ok(ReadStatus::Complete));
    assert_eq!(r.text, "héllo");
    assert_eq!(r.bytes.len(), 6);
}

#[test]
fn failed_chunk_leaves_reader_unchanged() {
    let mut r = StreamReader::new();
    assert_eq!(r.feed(&vec![b'a'; CHUNK_SIZE]), Ok(ReadStatus::More));
    assert_eq!(r.feed(&[0xc3]), Err(ClientError::Utf8DecodeError));
    assert_eq!(r.bytes, vec![b'a'; CHUNK_SIZE]);
    assert_eq!(r.text.len(), CHUNK_SIZE);
}
