use rhytm::codec::{decode, encode, encode_frame, parse_len_prefix, CodecError};
use rhytm::msg::{LogLevel, Message};

fn round_trip(m: Message) {
    let bytes = encode(&m);
    assert_eq!(decode(&bytes), Ok(m));
}

#[test]
fn greeting_round_trips() {
    round_trip(Message::Greeting(0));
    round_trip(Message::Greeting(7));
    round_trip(Message::Greeting(usize::MAX));
}

#[test]
fn log_round_trips() {
    round_trip(Message::Log {
        thr_id: 3,
        level: LogLevel::Info,
        target: "Thread".to_string(),
        msg: "finished downloading video ID v7".to_string(),
    });
    round_trip(Message::Log {
        thr_id: 0,
        level: LogLevel::Trace,
        target: String::new(),
        msg: String::new(),
    });
}

#[test]
fn log_round_trips_every_level() {
    for level in [
        LogLevel::Error,
        LogLevel::Warn,
        LogLevel::Info,
        LogLevel::Debug,
        LogLevel::Trace,
    ] {
        round_trip(Message::Log {
            thr_id: 1,
            level,
            target: "t".to_string(),
            msg: "m".to_string(),
        });
    }
}

#[test]
fn batch_round_trips() {
    round_trip(Message::Batch(vec![]));
    round_trip(Message::Batch(vec!["v1".to_string()]));
    round_trip(Message::Batch(vec![
        "v1".to_string(),
        "v2".to_string(),
        "v3".to_string(),
        "v4".to_string(),
        "v5".to_string(),
    ]));
}

#[test]
fn json_round_trips() {
    round_trip(Message::JSON("{\"status\": \"finished\"}".to_string()));
    round_trip(Message::JSON(String::new()));
}

#[test]
fn unit_variants_round_trip() {
    round_trip(Message::BatchRequest);
    round_trip(Message::DownloadStart);
    round_trip(Message::DownloadEnd);
    round_trip(Message::EndRequest);
}

#[test]
fn non_ascii_strings_round_trip() {
    round_trip(Message::JSON("größe – 動画 ✓".to_string()));
    round_trip(Message::Batch(vec!["ряд".to_string(), "κόσμος".to_string()]));
}

#[test]
fn frame_carries_length_prefix_and_payload() {
    let m = Message::Batch(vec!["v1".to_string(), "v2".to_string()]);
    let frame = encode_frame(&m);
    let payload_len = parse_len_prefix(&frame[0..8]).expect("length prefix must parse");
    assert_eq!(frame.len(), 8 + payload_len);
    assert_eq!(decode(&frame[8..]), Ok(m));
}

#[test]
fn empty_payload_is_truncated() {
    assert_eq!(decode(&[]), Err(CodecError::Truncated));
}

#[test]
fn unknown_tag_is_rejected() {
    assert_eq!(decode(&[42]), Err(CodecError::UnknownTag(42)));
    assert_eq!(decode(&[255, 0, 0]), Err(CodecError::UnknownTag(255)));
}

#[test]
fn truncated_greeting_is_rejected() {
    assert_eq!(decode(&[0, 1, 2, 3]), Err(CodecError::Truncated));
}

#[test]
fn trailing_bytes_are_rejected() {
    assert_eq!(decode(&[2, 0]), Err(CodecError::TrailingBytes));
    let mut bytes = encode(&Message::Greeting(5));
    bytes.push(0);
    assert_eq!(decode(&bytes), Err(CodecError::TrailingBytes));
}

#[test]
fn bad_level_byte_is_rejected() {
    let mut bytes = vec![1u8];
    bytes.extend_from_slice(&0u64.to_le_bytes());
    bytes.push(99);
    assert_eq!(decode(&bytes), Err(CodecError::BadLevel(99)));
}

#[test]
fn invalid_utf8_is_rejected() {
    let mut bytes = vec![4u8];
    bytes.extend_from_slice(&1u64.to_le_bytes());
    bytes.push(0xFF);
    assert_eq!(decode(&bytes), Err(CodecError::InvalidUtf8));
}

#[test]
fn string_length_field_beyond_payload_is_truncated() {
    let mut bytes = vec![4u8];
    bytes.extend_from_slice(&100u64.to_le_bytes());
    bytes.push(b'a');
    assert_eq!(decode(&bytes), Err(CodecError::Truncated));
}

#[test]
fn tampered_payload_does_not_decode_to_original() {
    let m = Message::JSON("abc".to_string());
    let mut bytes = encode(&m);
    let last = bytes.len() - 1;
    bytes[last] = b'z';
    assert_eq!(decode(&bytes), Ok(Message::JSON("abz".to_string())));
}
