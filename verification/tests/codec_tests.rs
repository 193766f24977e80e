use broker::codec::{decode_all, decode_batch, encode_batch, DecodeResult};
use broker::models::{Batch, Message};

fn msg(payload: &str, key: Option<&str>, timestamp: Option<u64>) -> Message {
    Message {
        payload: payload.as_bytes().to_vec(),
        key: key.map(|k| k.to_string()),
        timestamp,
    }
}

#[test]
fn round_trip_single_batch() {
    let batch = Batch {
        records: vec![
            msg("hello", Some("k1"), None),
            msg("", None, Some(42)),
            msg("payload with spaces", Some("another key"), Some(u64::MAX)),
        ],
    };
    let bytes = encode_batch(&batch);
    match decode_batch(&bytes, 0) {
        DecodeResult::Complete(decoded, consumed) => {
            assert_eq!(decoded, batch);
            assert_eq!(consumed, bytes.len());
        }
        _ => panic!("expected a complete batch"),
    }
}

#[test]
fn encoding_is_deterministic() {
    let batch = Batch {
        records: vec![msg("abc", Some("k"), Some(7))],
    };
    let first = encode_batch(&batch);
    let second = encode_batch(&batch);
    assert_eq!(first, second);
}

#[test]
fn exact_encoding_of_bare_message() {
    // payload [1, 2], no key, no timestamp:
    // body = 02 00 00 00 | 01 02 | 00 | 00   (8 bytes)
    // batch = 08 00 00 00 | body
    let batch = Batch {
        records: vec![Message { payload: vec![1u8, 2u8], key: None, timestamp: None }],
    };
    let bytes = encode_batch(&batch);
    assert_eq!(bytes, vec![8u8, 0, 0, 0, 2, 0, 0, 0, 1, 2, 0, 0]);
}

#[test]
fn exact_encoding_with_key_and_timestamp() {
    // payload "a", key "b", timestamp 0x0102:
    // body = 01 00 00 00 | 61 | 01 | 01 00 00 00 | 62 | 01 | 02 01 00 00 00 00 00 00
    let batch = Batch {
        records: vec![msg("a", Some("b"), Some(0x0102))],
    };
    let bytes = encode_batch(&batch);
    let body = vec![
        1u8, 0, 0, 0, 0x61, 1, 1, 0, 0, 0, 0x62, 1, 0x02, 0x01, 0, 0, 0, 0, 0, 0,
    ];
    let mut expected = vec![body.len() as u8, 0, 0, 0];
    expected.extend_from_slice(&body);
    assert_eq!(bytes, expected);
}

#[test]
fn round_trip_concatenated_batches() {
    let b1 = Batch {
        records: vec![msg("first", Some("k"), Some(1)), msg("second", None, None)],
    };
    let b2 = Batch {
        records: vec![msg("third", Some("k2"), None)],
    };
    let mut buf = encode_batch(&b1);
    buf.extend_from_slice(&encode_batch(&b2));
    let decoded = decode_all(&buf).expect("two clean batches");
    assert_eq!(decoded.len(), 2);
    assert_eq!(decoded[0], b1);
    assert_eq!(decoded[1], b2);
}

#[test]
fn partial_input_returns_need_more_never_error() {
    let batch = Batch {
        records: vec![msg("some payload", Some("some key"), Some(123))],
    };
    let bytes = encode_batch(&batch);
    for k in 0..bytes.len() {
        let prefix: Vec<u8> = bytes[..k].to_vec();
        match decode_batch(&prefix, 0) {
            DecodeResult::NeedMore => {}
            _ => panic!("a strict prefix of {} bytes must ask for more input", k),
        }
    }
}

#[test]
fn empty_buffer_needs_more() {
    let buf: Vec<u8> = Vec::new();
    assert!(matches!(decode_batch(&buf, 0), DecodeResult::NeedMore));
}

#[test]
fn bad_flag_byte_is_malformed() {
    // body: payload length 0, then key flag 2 (invalid)
    let buf = vec![5u8, 0, 0, 0, 0, 0, 0, 0, 2];
    assert!(matches!(decode_batch(&buf, 0), DecodeResult::Malformed));
}

#[test]
fn empty_declared_body_is_malformed() {
    let buf = vec![0u8, 0, 0, 0];
    assert!(matches!(decode_batch(&buf, 0), DecodeResult::Malformed));
}

#[test]
fn truncation_inside_declared_body_is_malformed() {
    // declared body of 3 bytes cannot hold even a payload length field
    let buf = vec![3u8, 0, 0, 0, 1, 0, 0];
    assert!(matches!(decode_batch(&buf, 0), DecodeResult::Malformed));
}

#[test]
fn key_bytes_must_be_utf8() {
    // payload length 0, key flag 1, key length 1, key byte 0xFF (not UTF-8),
    // timestamp flag 0
    let body = vec![0u8, 0, 0, 0, 1, 1, 0, 0, 0, 0xFF, 0];
    let mut buf = vec![body.len() as u8, 0, 0, 0];
    buf.extend_from_slice(&body);
    assert!(matches!(decode_batch(&buf, 0), DecodeResult::Malformed));
}

#[test]
fn decode_batch_consumes_only_one_batch() {
    let b1 = Batch {
        records: vec![msg("one", None, None)],
    };
    let b2 = Batch {
        records: vec![msg("two", None, Some(2))],
    };
    let e1 = encode_batch(&b1);
    let mut buf = e1.clone();
    buf.extend_from_slice(&encode_batch(&b2));
    match decode_batch(&buf, 0) {
        DecodeResult::Complete(decoded, consumed) => {
            assert_eq!(decoded, b1);
            assert_eq!(consumed, e1.len());
            match decode_batch(&buf, consumed) {
                DecodeResult::Complete(decoded2, consumed2) => {
                    assert_eq!(decoded2, b2);
                    assert_eq!(consumed2, buf.len());
                }
                _ => panic!("expected the second batch"),
            }
        }
        _ => panic!("expected the first batch"),
    }
}

#[test]
fn decode_all_rejects_trailing_garbage() {
    let batch = Batch {
        records: vec![msg("data", None, None)],
    };
    let mut buf = encode_batch(&batch);
    buf.push(0xAB);
    assert!(decode_all(&buf).is_none());
}
