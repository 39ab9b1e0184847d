use vissue::frame::{
    classify_first_line, is_header_line, read_message, write_message, FrameError, Framing, IoKind,
    MAX_HEADER_LINES, MAX_MESSAGE_BYTES,
};

fn encode_decode(payload: &[u8], framing: Framing) -> (Vec<u8>, Framing) {
    let mut buf = Vec::new();
    write_message(&mut buf, payload, framing).unwrap();
    read_message(&buf).unwrap()
}

#[test]
fn jsonl_request_roundtrips() {
    let payload = br#"{"jsonrpc":"2.0","id":1,"method":"initialize"}"#;
    let (got, framing) = encode_decode(payload, Framing::Jsonl);
    assert_eq!(framing, Framing::Jsonl);
    assert_eq!(got, payload);
}

#[test]
fn content_length_request_roundtrips() {
    let payload = br#"{"jsonrpc":"2.0","id":1,"method":"identity/get"}"#;
    let (got, framing) = encode_decode(payload, Framing::Headers);
    assert_eq!(framing, Framing::Headers);
    assert_eq!(got, payload);
}

#[test]
fn first_line_that_is_not_brace_is_still_jsonl() {
    let payload = br#""not-an-object""#;
    assert_eq!(classify_first_line(payload), Framing::Jsonl);
    assert_eq!(classify_first_line(b"[1,2,3]\n"), Framing::Jsonl);
    assert_eq!(classify_first_line(b"\n"), Framing::Jsonl);
    assert_eq!(
        classify_first_line(b"\xef\xbb\xbf{\"a\":1}"),
        Framing::Jsonl
    );
    let (got, framing) = encode_decode(payload, Framing::Jsonl);
    assert_eq!(framing, Framing::Jsonl);
    assert_eq!(got, payload);
}

#[test]
fn header_line_is_classified_as_headers() {
    assert_eq!(
        classify_first_line(b"Content-Length: 12\r\n"),
        Framing::Headers
    );
    assert_eq!(
        classify_first_line(b"Content-Type: application/vscode-jsonrpc; charset=utf-8\r\n"),
        Framing::Headers
    );
    assert!(is_header_line(b"Content-Length: 1"));
    assert!(!is_header_line(b"{"));
    assert!(!is_header_line(b"1: not a header name start"));
}

#[test]
fn headers_accept_content_type_before_length() {
    let payload = br#"{"ok":true}"#;
    let mut buf = Vec::new();
    buf.extend_from_slice(b"Content-Type: application/vscode-jsonrpc\r\n");
    buf.extend_from_slice(format!("Content-Length: {}\r\n\r\n", payload.len()).as_bytes());
    buf.extend_from_slice(payload);
    let (got, framing) = read_message(&buf).unwrap();
    assert_eq!(framing, Framing::Headers);
    assert_eq!(got, payload);
}

#[test]
fn missing_content_length_is_an_error() {
    let buf = b"Content-Type: application/json\r\n\r\n";
    let err = read_message(&buf[..]).unwrap_err();
    assert!(matches!(err, FrameError::MissingContentLength));
}

#[test]
fn invalid_content_length_is_an_error() {
    let buf = b"Content-Length: nope\r\n\r\n";
    let err = read_message(&buf[..]).unwrap_err();
    assert!(matches!(err, FrameError::InvalidContentLength));
}

#[test]
fn too_many_headers_is_an_error() {
    let mut buf = Vec::new();
    for _ in 0..(MAX_HEADER_LINES + 1) {
        buf.extend_from_slice(b"X-Extra: 1\r\n");
    }
    buf.extend_from_slice(b"\r\n");
    let err = read_message(&buf).unwrap_err();
    assert!(matches!(err, FrameError::TooManyHeaders));
}

#[test]
fn oversized_jsonl_is_rejected() {
    let mut line = vec![b'x'; MAX_MESSAGE_BYTES + 2];
    line.push(b'\n');
    let err = read_message(&line).unwrap_err();
    assert!(matches!(err, FrameError::MessageTooLarge));
}

#[test]
fn oversized_content_length_is_rejected() {
    let buf = format!("Content-Length: {}\r\n\r\n", MAX_MESSAGE_BYTES + 1);
    let err = read_message(buf.as_bytes()).unwrap_err();
    assert!(matches!(err, FrameError::MessageTooLarge));
}

#[test]
fn empty_reader_is_incomplete() {
    let err = read_message(&b""[..]).unwrap_err();
    assert!(matches!(err, FrameError::Incomplete));
}

#[test]
fn exact_max_payload_roundtrips_jsonl_and_headers() {
    let payload = vec![b'a'; MAX_MESSAGE_BYTES];
    let (got, framing) = encode_decode(&payload, Framing::Jsonl);
    assert_eq!(framing, Framing::Jsonl);
    assert_eq!(got, payload);
    let (got, framing) = encode_decode(&payload, Framing::Headers);
    assert_eq!(framing, Framing::Headers);
    assert_eq!(got, payload);
}

#[test]
fn write_rejects_oversized_payload() {
    let payload = vec![b'a'; MAX_MESSAGE_BYTES + 1];
    let err = write_message(&mut Vec::new(), &payload, Framing::Jsonl).unwrap_err();
    assert_eq!(err.kind(), IoKind::InvalidInput);
}

#[test]
fn frame_error_display_names_the_limit() {
    assert_eq!(
        FrameError::MessageTooLarge.message(),
        "message exceeds size limit"
    );
    assert_eq!(
        FrameError::TooManyHeaders.message(),
        "too many framing headers"
    );
}

#[test]
fn a_body_shorter_than_its_length_is_incomplete() {
    let err = read_message(b"Content-Length: 10\r\n\r\nabc").unwrap_err();
    assert_eq!(err, FrameError::Incomplete);
}

#[test]
fn a_plus_signed_length_is_read() {
    let (got, framing) = read_message(b"content-length: +3\r\n\r\nabc").unwrap();
    assert_eq!(framing, Framing::Headers);
    assert_eq!(got, b"abc");
}

#[test]
fn a_written_header_frame_has_the_documented_bytes() {
    let mut buf = Vec::new();
    write_message(&mut buf, b"{}", Framing::Headers).unwrap();
    assert_eq!(buf, b"Content-Length: 2\r\n\r\n{}");
    let mut buf = Vec::new();
    write_message(&mut buf, b"{}", Framing::Jsonl).unwrap();
    assert_eq!(buf, b"{}\n");
}
