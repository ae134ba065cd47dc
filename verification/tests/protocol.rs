use lan_mouse_clipboard::item::{ClipboardItem, DEFAULT_MAX_ITEM_SIZE};
use lan_mouse_clipboard::protocol::{
    control_frame, max_payload_size, FrameReader, Message, ProtocolError, KIND_ANNOUNCE, KIND_PING,
    KIND_PONG, MAX_PAYLOAD_SIZE,
};
use lan_mouse_clipboard::test_util::Rng;

fn sample_item() -> ClipboardItem {
    ClipboardItem {
        origin: [0xab; 8],
        serial: 42,
        reps: vec![
            ("text/plain;charset=utf-8".into(), b"hello world".to_vec()),
            ("text/html".into(), b"<b>hello</b>".to_vec()),
        ],
    }
}

#[test]
fn announce_roundtrip() {
    let item = sample_item();
    let frame = Message::Announce(item.clone())
        .encode(64 * 1024 * 1024)
        .unwrap();
    let payload = &frame[4..];
    let decoded = Message::decode(payload).unwrap();
    assert_eq!(decoded, Message::Announce(item));
}

#[test]
fn reject_over_size_cap() {
    let item = ClipboardItem {
        origin: [1; 8],
        serial: 1,
        reps: vec![("text/plain".into(), vec![0u8; 1000])],
    };
    assert!(matches!(
        Message::Announce(item).encode(100),
        Err(ProtocolError::TooLarge(_, 100))
    ));
}

#[test]
fn reject_unknown_kind() {
    assert!(matches!(
        Message::decode(&[0xff, 0, 0, 0]),
        Err(ProtocolError::UnknownKind(0xff))
    ));
}

#[test]
fn reject_truncated() {
    let item = sample_item();
    let frame = Message::Announce(item).encode(64 * 1024 * 1024).unwrap();
    let payload = &frame[4..];
    // cut it off mid-way
    assert!(matches!(
        Message::decode(&payload[..payload.len() - 3]),
        Err(ProtocolError::Invalid(_))
    ));
}

#[test]
fn decode_rejects_empty_payload() {
    assert!(matches!(
        Message::decode(&[]),
        Err(ProtocolError::Invalid(_))
    ));
}

#[test]
fn decode_rejects_trailing_bytes() {
    let item = sample_item();
    let frame = Message::Announce(item).encode(64 * 1024 * 1024).unwrap();
    let mut payload = frame[4..].to_vec();
    payload.push(0x00); // extra trailing byte after a well-formed message
    assert!(matches!(
        Message::decode(&payload),
        Err(ProtocolError::Invalid(_))
    ));
}

#[test]
fn decode_rejects_non_utf8_mime() {
    // kind + origin(8) + serial(8) + n_mimes(2=1) + mime_len(2=2) + bad bytes + data_len(0)
    let mut p = Vec::new();
    p.push(KIND_ANNOUNCE);
    p.extend_from_slice(&[0u8; 8]);
    p.extend_from_slice(&1u64.to_be_bytes());
    p.extend_from_slice(&1u16.to_be_bytes());
    p.extend_from_slice(&2u16.to_be_bytes());
    p.extend_from_slice(&[0xff, 0xff]); // not valid UTF-8
    p.extend_from_slice(&0u32.to_be_bytes());
    assert!(matches!(
        Message::decode(&p),
        Err(ProtocolError::Invalid(_))
    ));
}

#[test]
fn encode_rejects_mime_too_long() {
    let item = ClipboardItem {
        origin: [1; 8],
        serial: 1,
        reps: vec![("a".repeat(u16::MAX as usize + 1), Vec::new())],
    };
    assert!(matches!(
        Message::Announce(item).encode(64 * 1024 * 1024),
        Err(ProtocolError::Invalid(_))
    ));
}

fn random_item(rng: &mut Rng) -> ClipboardItem {
    let mut reps = Vec::new();
    for _ in 0..rng.range(4) {
        let mime_len = 1 + rng.range(16);
        let mime: String = (0..mime_len)
            .map(|_| (b'a' + (rng.next() % 26) as u8) as char)
            .collect();
        let data: Vec<u8> = (0..rng.range(64)).map(|_| rng.next() as u8).collect();
        reps.push((mime, data));
    }
    if reps.is_empty() {
        reps.push(("text/plain".into(), b"x".to_vec()));
    }
    ClipboardItem {
        origin: [rng.next() as u8; 8],
        serial: rng.next(),
        reps,
    }
}

#[test]
fn random_items_roundtrip() {
    let mut rng = Rng::new(0xC0FFEE);
    for _ in 0..200 {
        let item = random_item(&mut rng);
        let frame = Message::Announce(item.clone())
            .encode(64 * 1024 * 1024)
            .unwrap_or_else(|e| panic!("encode failed for {item:?}: {}", e.message()));
        let decoded = Message::decode(&frame[4..]).unwrap();
        assert_eq!(decoded, Message::Announce(item));
    }
}

#[test]
fn random_frames_reassembled_through_random_chunks() {
    let mut rng = Rng::new(0xBEEF);
    let mut all = Vec::new();
    let mut expected = Vec::new();
    for _ in 0..10 {
        let item = random_item(&mut rng);
        let frame = Message::Announce(item).encode(64 * 1024 * 1024).unwrap();
        expected.push(frame[4..].to_vec());
        all.extend_from_slice(&frame);
    }

    let mut reader = FrameReader::new();
    let mut got = Vec::new();
    let mut idx = 0;
    while idx < all.len() {
        let chunk = 1 + rng.range(all.len() - idx);
        reader.push(&all[idx..idx + chunk]);
        idx += chunk;
        while let Some(p) = reader.next_frame().unwrap() {
            got.push(p);
        }
    }
    while let Some(p) = reader.next_frame().unwrap() {
        got.push(p);
    }
    assert_eq!(got, expected);
}

#[test]
fn frame_stream_splits_multiple_frames() {
    let item = sample_item();
    let f1 = Message::Announce(item.clone())
        .encode(64 * 1024 * 1024)
        .unwrap();
    let f2 = Message::Announce(item).encode(64 * 1024 * 1024).unwrap();

    let all: Vec<u8> = f1.iter().chain(f2.iter()).copied().collect();

    let mut reader = FrameReader::new();
    // Feed in small chunks to exercise partial reads.
    let mut payloads = Vec::new();
    for chunk in all.chunks(7) {
        reader.push(chunk);
        while let Some(p) = reader.next_frame().unwrap() {
            payloads.push(p);
        }
    }
    assert_eq!(payloads.len(), 2);
}

#[test]
fn frame_stream_handles_partial_header() {
    let item = sample_item();
    let f1 = Message::Announce(item).encode(64 * 1024 * 1024).unwrap();
    let mut reader = FrameReader::new();
    // not enough for the 4-byte header
    reader.push(&f1[..3]);
    assert!(reader.next_frame().unwrap().is_none());
    // push the rest of the header + a bit
    reader.push(&f1[3..7]);
    assert!(reader.next_frame().unwrap().is_none());
    // push the whole body
    reader.push(&f1[7..]);
    assert!(reader.next_frame().unwrap().is_some());
}

#[test]
fn frame_rejects_huge_length() {
    let mut reader = FrameReader::new();
    // claim 4 GiB payload length
    reader.push(&[0xff, 0xff, 0xff, 0xff]);
    assert!(matches!(
        reader.next_frame(),
        Err(ProtocolError::PayloadTooLarge(_, _))
    ));
}

#[test]
fn the_wire_format_is_fixed() {
    let item = ClipboardItem {
        origin: [1, 2, 3, 4, 5, 6, 7, 8],
        serial: 0x0102_0304_0506_0708,
        reps: vec![("a/b".into(), vec![0xee, 0xff])],
    };
    let frame = Message::Announce(item).encode(100).unwrap();
    assert_eq!(
        frame,
        vec![
            0, 0, 0, 30, // length of the payload
            1,  // kind
            1, 2, 3, 4, 5, 6, 7, 8, // origin
            1, 2, 3, 4, 5, 6, 7, 8, // serial
            0, 1, // representations
            0, 3, b'a', b'/', b'b', // MIME type
            0, 0, 0, 2, 0xee, 0xff, // data
        ]
    );
}

#[test]
fn every_truncation_is_invalid() {
    let frame = Message::Announce(sample_item()).encode(1000).unwrap();
    let payload = &frame[4..];
    for len in 0..payload.len() {
        assert!(matches!(
            Message::decode(&payload[..len]),
            Err(ProtocolError::Invalid(_))
        ));
    }
}

#[test]
fn decode_errors_say_why() {
    fn reason(payload: &[u8]) -> String {
        match Message::decode(payload) {
            Err(ProtocolError::Invalid(reason)) => reason,
            _ => panic!("not invalid"),
        }
    }
    let frame = Message::Announce(sample_item()).encode(1000).unwrap();
    let mut payload = frame[4..].to_vec();
    assert_eq!(reason(&[]), "empty payload");
    assert_eq!(reason(&payload[..10]), "truncated");
    payload.push(0);
    assert_eq!(reason(&payload), "trailing bytes");
    let mut p = vec![KIND_ANNOUNCE];
    p.extend_from_slice(&[0; 16]);
    p.extend_from_slice(&[0, 1, 0, 1, 0xff, 0, 0, 0, 0]);
    assert_eq!(reason(&p), "mime not utf-8");
}

#[test]
fn a_payload_that_decodes_encodes_to_itself() {
    let frame = Message::Announce(sample_item()).encode(1000).unwrap();
    let message = Message::decode(&frame[4..]).unwrap();
    assert_eq!(message.encode(1000).unwrap(), frame);
    assert_eq!(message.clone(), message);
}

#[test]
fn the_size_cap_is_inclusive() {
    let item = ClipboardItem {
        origin: [1; 8],
        serial: 1,
        reps: vec![("text/plain".into(), vec![0u8; 90])],
    };
    assert!(Message::Announce(item.clone()).encode(100).is_ok());
    match Message::Announce(item).encode(99) {
        Err(ProtocolError::TooLarge(size, max)) => assert_eq!((size, max), (100, 99)),
        _ => panic!("must be too large"),
    }
}

#[test]
fn too_many_reps_are_rejected() {
    let reps: Vec<(String, Vec<u8>)> = (0..65536).map(|_| (String::new(), Vec::new())).collect();
    let item = ClipboardItem {
        origin: [1; 8],
        serial: 1,
        reps,
    };
    match Message::Announce(item).encode(100) {
        Err(ProtocolError::Invalid(reason)) => assert_eq!(reason, "too many mime reps: 65536"),
        _ => panic!("must be invalid"),
    }
}

#[test]
fn payloads_over_the_frame_cap_are_rejected() {
    // Eight representations take more framing than the cap leaves room for.
    let mut reps: Vec<(String, Vec<u8>)> = (0..7).map(|_| (String::new(), Vec::new())).collect();
    reps.push((String::new(), vec![0u8; DEFAULT_MAX_ITEM_SIZE]));
    let item = ClipboardItem {
        origin: [1; 8],
        serial: 1,
        reps,
    };
    match Message::Announce(item).encode(DEFAULT_MAX_ITEM_SIZE) {
        Err(ProtocolError::PayloadTooLarge(size, max)) => {
            assert_eq!(size, DEFAULT_MAX_ITEM_SIZE + 67);
            assert_eq!(max, MAX_PAYLOAD_SIZE);
        }
        _ => panic!("must be too large"),
    }
}

#[test]
fn error_messages() {
    assert_eq!(
        ProtocolError::TooLarge(12, 3).message(),
        "item too large: 12 bytes exceeds cap of 3"
    );
    assert_eq!(
        ProtocolError::PayloadTooLarge(120, 30).message(),
        "payload too large: 120 bytes exceeds cap of 30"
    );
    assert_eq!(
        ProtocolError::UnknownKind(255).message(),
        "unknown message kind: 255"
    );
    assert_eq!(
        ProtocolError::Invalid("truncated".into()).message(),
        "invalid payload: truncated"
    );
}

#[test]
fn control_frames_are_one_byte_payloads() {
    assert_eq!(control_frame(KIND_PING), vec![0, 0, 0, 1, KIND_PING]);
    let mut reader = FrameReader::new();
    reader.push(&control_frame(KIND_PONG));
    assert_eq!(reader.next_frame().unwrap(), Some(vec![KIND_PONG]));
    assert!(matches!(
        Message::decode(&[KIND_PING]),
        Err(ProtocolError::UnknownKind(_))
    ));
}

#[test]
fn the_payload_cap_follows_the_item_cap() {
    assert_eq!(max_payload_size(1000), 1064);
    assert_eq!(max_payload_size(DEFAULT_MAX_ITEM_SIZE), MAX_PAYLOAD_SIZE);
    assert_eq!(max_payload_size(usize::MAX), usize::MAX);
    let mut reader = FrameReader::with_max_payload(2);
    reader.push(&[0, 0, 0, 2, 7, 8]);
    assert_eq!(reader.next_frame().unwrap(), Some(vec![7, 8]));
    reader.push(&[0, 0, 0, 3, 7, 8, 9]);
    match reader.next_frame() {
        Err(ProtocolError::PayloadTooLarge(len, max)) => assert_eq!((len, max), (3, 2)),
        _ => panic!("must be too large"),
    }
    // The rejected frame stays buffered until the reader is reset.
    assert!(reader.next_frame().is_err());
    reader.reset();
    assert_eq!(reader.next_frame().unwrap(), None);
    assert_eq!(FrameReader::default().next_frame().unwrap(), None);
}
