use mpd_protocol::error_line::parse_error_line;
use mpd_protocol::fields::parse_key_value_response;
use mpd_protocol::playlist::{Playlist, Timestamp, TypedResponseError};
use mpd_protocol::{MpdCodecError, Response};

fn pairs(ps: &[(&str, &str)]) -> Vec<(String, String)> {
    ps.iter().map(|(k, v)| (k.to_string(), v.to_string())).collect()
}

#[test]
fn key_value_basic() {
    let r = parse_key_value_response(&b"volume: 50".to_vec()).unwrap();
    assert_eq!(r, pairs(&[("volume", "50")]));
}

#[test]
fn key_value_trims_value() {
    let r = parse_key_value_response(&b"key:   spaced value  \t".to_vec()).unwrap();
    assert_eq!(r, pairs(&[("key", "spaced value")]));
}

#[test]
fn key_value_empty_body_gives_no_pairs() {
    let r = parse_key_value_response(&b"".to_vec()).unwrap();
    assert_eq!(r, pairs(&[]));
}

#[test]
fn key_value_skips_empty_lines() {
    let r = parse_key_value_response(&b"a: 1\n\nb: 2".to_vec()).unwrap();
    assert_eq!(r, pairs(&[("a", "1"), ("b", "2")]));
}

#[test]
fn key_value_no_colon_fails() {
    assert_eq!(
        parse_key_value_response(&b"a: 1\nnocolon".to_vec()),
        Err(MpdCodecError::InvalidKeyValueSequence)
    );
}

#[test]
fn key_value_colon_last_fails() {
    assert_eq!(
        parse_key_value_response(&b"key:".to_vec()),
        Err(MpdCodecError::InvalidKeyValueSequence)
    );
}

#[test]
fn key_value_invalid_utf8_fails() {
    assert_eq!(
        parse_key_value_response(&b"key: \xc3\x28".to_vec()),
        Err(MpdCodecError::InvalidEncoding)
    );
}

#[test]
fn key_value_unicode_value() {
    let v: Vec<u8> = "title: caf\u{e9}".as_bytes().to_vec();
    let r = parse_key_value_response(&v).unwrap();
    assert_eq!(r, pairs(&[("title", "caf\u{e9}")]));
}

#[test]
fn error_line_basic() {
    let r = parse_error_line(&b"ACK [5@0] {play} not playing".to_vec()).unwrap();
    assert_eq!(
        r,
        Response::Error {
            error_code: 5,
            command_list_index: 0,
            current_command: "play".to_string(),
            message: "not playing".to_string(),
        }
    );
}

#[test]
fn error_line_missing_message_fails() {
    assert_eq!(
        parse_error_line(&b"ACK [5@0] {play} ".to_vec()),
        Err(MpdCodecError::InvalidErrorMessage)
    );
}

#[test]
fn error_line_no_digits_fails() {
    assert_eq!(
        parse_error_line(&b"ACK [@0] {play} x".to_vec()),
        Err(MpdCodecError::InvalidErrorMessage)
    );
}

#[test]
fn error_line_bad_command_char_fails() {
    assert_eq!(
        parse_error_line(&b"ACK [5@0] {pl ay} x".to_vec()),
        Err(MpdCodecError::InvalidErrorMessage)
    );
}

#[test]
fn error_line_huge_code_fails() {
    assert_eq!(
        parse_error_line(&b"ACK [18446744073709551616@0] {x} y".to_vec()),
        Err(MpdCodecError::InvalidErrorMessage)
    );
}

#[test]
fn error_line_max_code_parses() {
    let r = parse_error_line(&b"ACK [18446744073709551615@1] {x} y".to_vec()).unwrap();
    match r {
        Response::Error { error_code, command_list_index, .. } => {
            assert_eq!(error_code, u64::MAX);
            assert_eq!(command_list_index, 1);
        },
        _ => panic!("expected an error response"),
    }
}

#[test]
fn playlist_parse_frame_groups_pairs() {
    let fs = pairs(&[
        ("playlist", "morning"),
        ("Last-Modified", "2024-01-01T00:00:00Z"),
        ("playlist", "evening"),
        ("Last-Modified", "2024-02-02T00:00:00Z"),
    ]);
    let r = Playlist::parse_frame(fs).unwrap();
    assert_eq!(
        r,
        vec![
            Playlist {
                name: "morning".to_string(),
                last_modified: Timestamp::from_value("2024-01-01T00:00:00Z".to_string()),
            },
            Playlist {
                name: "evening".to_string(),
                last_modified: Timestamp::from_value("2024-02-02T00:00:00Z".to_string()),
            },
        ]
    );
}

#[test]
fn playlist_unexpected_first_key_fails() {
    let r = Playlist::parse_frame(pairs(&[("file", "x")]));
    assert_eq!(
        r,
        Err(TypedResponseError::unexpected_field("playlist".to_string(), "file".to_string()))
    );
}

#[test]
fn playlist_missing_timestamp_key_fails() {
    let r = Playlist::parse_frame(pairs(&[("playlist", "a"), ("playlist", "b")]));
    assert_eq!(
        r,
        Err(TypedResponseError::unexpected_field(
            "Last-Modified".to_string(),
            "playlist".to_string()
        ))
    );
}

#[test]
fn playlist_trailing_name_dropped() {
    let r = Playlist::parse_frame(pairs(&[
        ("playlist", "a"),
        ("Last-Modified", "t"),
        ("playlist", "dangling"),
    ]))
    .unwrap();
    assert_eq!(r.len(), 1);
    assert_eq!(r[0].name, "a");
}

#[test]
fn playlist_empty_frame() {
    let r = Playlist::parse_frame(Vec::new()).unwrap();
    assert_eq!(r, Vec::new());
}
