use libp2p_identify::{decode_varint, push_varint, read_frame, write_frame, IdentifyError};

#[test]
fn frame_round_trip_including_empty_payload() {
    let payloads: &[&[u8]] = &[
        b"",
        b"a",
        b"hello world",
        &[0u8; 127],
        &[7u8; 128],
        &[42u8; 300],
    ];
    for payload in payloads {
        let framed = write_frame(payload);
        let back = read_frame(&framed).unwrap().unwrap();
        assert_eq!(&back, payload, "payload of length {}", payload.len());
    }
}

#[test]
fn empty_buffer_is_clean_end_of_stream() {
    assert_eq!(read_frame(&[]).unwrap(), None);
}

#[test]
fn truncated_length_prefix_is_malformed() {
    assert_eq!(read_frame(&[0x80]).unwrap_err(), IdentifyError::MalformedFrame);
    assert_eq!(
        read_frame(&[0x80, 0x80]).unwrap_err(),
        IdentifyError::MalformedFrame
    );
}

#[test]
fn payload_shorter_than_announced_is_malformed() {
    assert_eq!(
        read_frame(&[3, 1, 2]).unwrap_err(),
        IdentifyError::MalformedFrame
    );
    // A length too large for any real message.
    assert_eq!(
        read_frame(&[0xff, 0xff, 0xff, 0xff, 0xff, 0xff, 0xff, 0xff, 0xff, 0x01, 0])
            .unwrap_err(),
        IdentifyError::MalformedFrame
    );
}

#[test]
fn frame_length_prefix_is_a_varint() {
    let framed = write_frame(&[9u8; 200]);
    // 200 encodes as two varint bytes: 0xc8, 0x01.
    assert_eq!(framed[0], 0xc8);
    assert_eq!(framed[1], 0x01);
    assert_eq!(framed.len(), 202);
}

#[test]
fn varint_round_trip() {
    let values: &[u64] = &[0, 1, 127, 128, 129, 300, 16383, 16384, u64::MAX];
    for &v in values {
        let mut enc: Vec<u8> = Vec::new();
        push_varint(&mut enc, v);
        let (back, used) = decode_varint(&enc, 0).unwrap();
        assert_eq!(back, v);
        assert_eq!(used, enc.len());
    }
}

#[test]
fn varint_accepts_padded_zero_groups() {
    // 5 written with a redundant zero continuation group.
    let (v, used) = decode_varint(&[0x85, 0x00], 0).unwrap();
    assert_eq!(v, 5);
    assert_eq!(used, 2);
}

#[test]
fn varint_rejects_overflow_and_truncation() {
    // 2^64 does not fit in 64 bits.
    assert!(decode_varint(&[0x80, 0x80, 0x80, 0x80, 0x80, 0x80, 0x80, 0x80, 0x80, 0x02], 0)
        .is_none());
    assert!(decode_varint(&[0x80], 0).is_none());
    assert!(decode_varint(&[], 0).is_none());
}
