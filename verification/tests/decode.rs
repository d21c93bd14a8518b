use bytes::BytesMut;
use mpd_protocol::{MpdCodec, MpdCodecError, Response};

fn buf(bytes: &[u8]) -> BytesMut {
    BytesMut::from(bytes)
}

fn fields(pairs: &[(&str, &str)]) -> Response {
    Response::Fields(
        pairs.iter().map(|(k, v)| (k.to_string(), v.to_string())).collect(),
    )
}

#[test]
fn greeting_gate() {
    // nothing is decoded before the greeting; the message after it is
    let mut codec = MpdCodec::new();
    let mut b = buf(b"OK MPD 0.21.0\nvolume: 50\nOK\n");
    let r = codec.decode(&mut b).unwrap();
    assert_eq!(r, Some(fields(&[("volume", "50")])));
    assert_eq!(&b[..], b"");
}

#[test]
fn greeting_alone_yields_no_message() {
    let mut codec = MpdCodec::new();
    let mut b = buf(b"OK MPD 0.21.0\n");
    assert_eq!(codec.decode(&mut b).unwrap(), None);
    assert_eq!(&b[..], b"");
}

#[test]
fn greeting_rejection() {
    let mut codec = MpdCodec::new();
    let mut b = buf(b"HELLO\nvolume: 50\nOK\n");
    let r = codec.decode(&mut b);
    assert_eq!(r, Err(MpdCodecError::InvalidGreeting));
    // only the greeting line was consumed
    assert_eq!(&b[..], b"volume: 50\nOK\n");
}

#[test]
fn greeting_too_short_rejected() {
    let mut codec = MpdCodec::new();
    let mut b = buf(b"OK M\n");
    assert_eq!(codec.decode(&mut b), Err(MpdCodecError::InvalidGreeting));
}

#[test]
fn greeting_split_across_chunks() {
    let mut codec = MpdCodec::new();
    let mut b = buf(b"OK MP");
    assert_eq!(codec.decode(&mut b).unwrap(), None);
    b.extend_from_slice(b"D 0.21.0\nOK\n");
    assert_eq!(codec.decode(&mut b).unwrap(), Some(Response::Empty));
    assert_eq!(&b[..], b"");
}

#[test]
fn empty_success() {
    let mut codec = MpdCodec::new_greeted();
    let mut b = buf(b"OK\n");
    assert_eq!(codec.decode(&mut b).unwrap(), Some(Response::Empty));
    assert_eq!(&b[..], b"");
}

#[test]
fn value_containing_terminator_text() {
    // the embedded "OK\n" is not line-initial, so it is ordinary content
    let mut codec = MpdCodec::new_greeted();
    let mut b = buf(b"comment: OK\nOK\n");
    let r = codec.decode(&mut b).unwrap();
    assert_eq!(r, Some(fields(&[("comment", "OK")])));
    assert_eq!(&b[..], b"");
}

#[test]
fn duplicate_keys_preserved_in_order() {
    let mut codec = MpdCodec::new_greeted();
    let mut b = buf(b"file: a\ntitle: x\nfile: b\ntitle: y\nOK\n");
    let r = codec.decode(&mut b).unwrap();
    assert_eq!(
        r,
        Some(fields(&[("file", "a"), ("title", "x"), ("file", "b"), ("title", "y")]))
    );
}

#[test]
fn error_parsing() {
    let mut codec = MpdCodec::new_greeted();
    let mut b = buf(b"ACK [5@0] {play} not playing\n");
    let r = codec.decode(&mut b).unwrap();
    assert_eq!(
        r,
        Some(Response::Error {
            error_code: 5,
            command_list_index: 0,
            current_command: "play".to_string(),
            message: "not playing".to_string(),
        })
    );
    assert_eq!(&b[..], b"");
}

#[test]
fn error_with_empty_command() {
    let mut codec = MpdCodec::new_greeted();
    let mut b = buf(b"ACK [50@2] {} unknown command\n");
    let r = codec.decode(&mut b).unwrap();
    assert_eq!(
        r,
        Some(Response::Error {
            error_code: 50,
            command_list_index: 2,
            current_command: String::new(),
            message: "unknown command".to_string(),
        })
    );
}

#[test]
fn malformed_error_line() {
    let mut codec = MpdCodec::new_greeted();
    let mut b = buf(b"ACK nonsense\n");
    assert_eq!(codec.decode(&mut b), Err(MpdCodecError::InvalidErrorMessage));
}

#[test]
fn error_code_overflow_is_malformed() {
    let mut codec = MpdCodec::new_greeted();
    let mut b = buf(b"ACK [99999999999999999999@0] {play} x\n");
    assert_eq!(codec.decode(&mut b), Err(MpdCodecError::InvalidErrorMessage));
}

#[test]
fn malformed_line_no_colon() {
    let mut codec = MpdCodec::new_greeted();
    let mut b = buf(b"nocolon\nOK\n");
    assert_eq!(codec.decode(&mut b), Err(MpdCodecError::InvalidKeyValueSequence));
}

#[test]
fn malformed_line_colon_last() {
    let mut codec = MpdCodec::new_greeted();
    let mut b = buf(b"key:\nOK\n");
    assert_eq!(codec.decode(&mut b), Err(MpdCodecError::InvalidKeyValueSequence));
}

#[test]
fn invalid_utf8_rejected() {
    let mut codec = MpdCodec::new_greeted();
    let mut b = buf(b"key: \xff\xfe\nOK\n");
    assert_eq!(codec.decode(&mut b), Err(MpdCodecError::InvalidEncoding));
}

#[test]
fn chunking_invariance_byte_by_byte() {
    // the same stream, whole and split at every byte, gives the same messages
    let stream: &[u8] = b"OK MPD 0.21.0\nfile: a\ntitle: OK\nOK\nOK\nACK [5@0] {play} no\n";
    let mut whole_codec = MpdCodec::new();
    let mut whole_buf = buf(stream);
    let mut expected = Vec::new();
    loop {
        match whole_codec.decode(&mut whole_buf).unwrap() {
            Some(r) => expected.push(r),
            None => break,
        }
    }
    assert_eq!(expected.len(), 3);

    let mut codec = MpdCodec::new();
    let mut b = BytesMut::new();
    let mut got = Vec::new();
    for byte in stream {
        b.extend_from_slice(&[*byte]);
        loop {
            match codec.decode(&mut b).unwrap() {
                Some(r) => got.push(r),
                None => break,
            }
        }
    }
    assert_eq!(got, expected);
}

#[test]
fn split_inside_terminator() {
    let mut codec = MpdCodec::new_greeted();
    let mut b = buf(b"volume: 50\nO");
    assert_eq!(codec.decode(&mut b).unwrap(), None);
    b.extend_from_slice(b"K");
    assert_eq!(codec.decode(&mut b).unwrap(), None);
    b.extend_from_slice(b"\n");
    assert_eq!(codec.decode(&mut b).unwrap(), Some(fields(&[("volume", "50")])));
}

#[test]
fn partial_scan_idempotent() {
    // with no new bytes, decode keeps reporting "incomplete" and consumes nothing
    let mut codec = MpdCodec::new_greeted();
    let mut b = buf(b"volume: 50\nOK");
    for _ in 0..5 {
        assert_eq!(codec.decode(&mut b).unwrap(), None);
        assert_eq!(&b[..], b"volume: 50\nOK");
    }
    b.extend_from_slice(b"\n");
    assert_eq!(codec.decode(&mut b).unwrap(), Some(fields(&[("volume", "50")])));
}

#[test]
fn two_messages_in_one_buffer() {
    let mut codec = MpdCodec::new_greeted();
    let mut b = buf(b"OK\nvolume: 50\nOK\n");
    assert_eq!(codec.decode(&mut b).unwrap(), Some(Response::Empty));
    assert_eq!(codec.decode(&mut b).unwrap(), Some(fields(&[("volume", "50")])));
    assert_eq!(codec.decode(&mut b).unwrap(), None);
}

#[test]
fn ack_text_not_at_start_is_content() {
    let mut codec = MpdCodec::new_greeted();
    let mut b = buf(b"note: ACK [5@0] {x} y\nOK\n");
    let r = codec.decode(&mut b).unwrap();
    assert_eq!(r, Some(fields(&[("note", "ACK [5@0] {x} y")])));
}

#[test]
fn error_split_across_chunks() {
    let mut codec = MpdCodec::new_greeted();
    let mut b = buf(b"AC");
    assert_eq!(codec.decode(&mut b).unwrap(), None);
    b.extend_from_slice(b"K [5@0] {play} not playing");
    assert_eq!(codec.decode(&mut b).unwrap(), None);
    b.extend_from_slice(b"\n");
    let r = codec.decode(&mut b).unwrap();
    assert_eq!(
        r,
        Some(Response::Error {
            error_code: 5,
            command_list_index: 0,
            current_command: "play".to_string(),
            message: "not playing".to_string(),
        })
    );
}

#[test]
fn describe_names_each_error() {
    assert_eq!(
        MpdCodecError::InvalidKeyValueSequence.describe(),
        "response contained invalid key-sequence"
    );
    assert_eq!(
        MpdCodecError::InvalidErrorMessage.describe(),
        "response contained invalid error message"
    );
    assert_eq!(MpdCodecError::InvalidEncoding.describe(), "response contained invalid unicode");
    assert_eq!(MpdCodecError::InvalidGreeting.describe(), "did not receive expected greeting");
}
