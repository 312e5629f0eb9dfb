use libp2p_identify::{
    decode_message, encode_message, Address, AddressField, Endpoint, IdentifyError,
    IdentifyProtocol, Segment,
};
use libp2p_identify::{decode_address, write_frame};

fn addr(s: &str) -> Address {
    decode_address(s.as_bytes()).unwrap()
}

fn sample() -> IdentifyProtocol {
    IdentifyProtocol {
        public_key: vec![1, 2, 3, 4],
        protocol_version: "ipfs/1.0.0".to_string(),
        agent_version: "agent/version".to_string(),
        listen_addrs: vec![addr("/ip4/5.6.7.8/tcp/12345")],
        protocols: vec!["ping".to_string(), "kad".to_string()],
    }
}

#[test]
fn basic() {
    let with_proto = sample();
    let server_addr = addr("/ip4/127.0.0.1/tcp/0");
    let server = with_proto
        .clone()
        .upgrade(Endpoint::Listener, &server_addr, &[])
        .unwrap();
    let dialer = with_proto
        .upgrade(Endpoint::Dialer, &server_addr, &server.output)
        .unwrap();
    let should_be_empty = server.info;
    assert!(should_be_empty.is_none());
    let recv = dialer.info.unwrap();
    assert_eq!(recv.public_key, &[1, 2, 3, 4]);
}

#[test]
fn end_to_end_full_fields() {
    let proto = IdentifyProtocol {
        public_key: vec![1, 2, 3, 4],
        protocol_version: "proto/1.0.0".to_string(),
        agent_version: "agent/version".to_string(),
        listen_addrs: vec![addr("/ip4/5.6.7.8/tcp/12345")],
        protocols: vec!["ping".to_string(), "kad".to_string()],
    };
    let observed = addr("/ip4/9.8.7.6/tcp/44444");
    let sent = proto
        .clone()
        .upgrade(Endpoint::Listener, &observed, &[])
        .unwrap();
    assert!(sent.info.is_none());
    let got = proto
        .clone()
        .upgrade(Endpoint::Dialer, &observed, &sent.output)
        .unwrap();
    let info = got.info.unwrap();
    assert_eq!(info.public_key, vec![1, 2, 3, 4]);
    assert_eq!(info.protocol_version, "proto/1.0.0");
    assert_eq!(info.agent_version, "agent/version");
    assert_eq!(info.listen_addrs, proto.listen_addrs);
    assert_eq!(info.observed_addr, observed);
    assert_eq!(info.protocols, proto.protocols);
}

#[test]
fn message_round_trip_field_for_field() {
    let proto = IdentifyProtocol {
        public_key: vec![],
        protocol_version: "p/2".to_string(),
        agent_version: String::new(),
        listen_addrs: vec![
            addr("/ip4/0.0.0.0/tcp/0"),
            addr("/ip4/255.255.255.255/tcp/65535"),
            addr("/tcp/80"),
        ],
        protocols: vec![String::new(), "a\u{00e9}\u{4e2d}".to_string()],
    };
    let observed = addr("/ip4/10.0.0.1/tcp/4001/ip4/1.2.3.4/tcp/5");
    let bytes = encode_message(&proto, &observed);
    let info = decode_message(&bytes).unwrap();
    assert_eq!(info.public_key, proto.public_key);
    assert_eq!(info.protocol_version, proto.protocol_version);
    assert_eq!(info.agent_version, proto.agent_version);
    assert_eq!(info.listen_addrs, proto.listen_addrs);
    assert_eq!(info.observed_addr, observed);
    assert_eq!(info.protocols, proto.protocols);
}

#[test]
fn listener_result_ignores_received_bytes() {
    let observed = addr("/ip4/9.9.9.9/tcp/1");
    let quiet = sample()
        .upgrade(Endpoint::Listener, &observed, &[])
        .unwrap();
    let noisy = sample()
        .upgrade(Endpoint::Listener, &observed, &[0xff, 0x80, 0x00])
        .unwrap();
    assert!(quiet.info.is_none());
    assert!(noisy.info.is_none());
    assert_eq!(quiet.output, noisy.output);
    assert!(!quiet.output.is_empty());
}

#[test]
fn dialer_empty_stream_is_no_information() {
    let observed = addr("/ip4/9.9.9.9/tcp/1");
    let got = sample().upgrade(Endpoint::Dialer, &observed, &[]).unwrap();
    assert!(got.info.is_none());
    assert!(got.output.is_empty());
}

#[test]
fn dialer_truncated_varint_is_malformed_frame() {
    let observed = addr("/ip4/9.9.9.9/tcp/1");
    let err = sample()
        .upgrade(Endpoint::Dialer, &observed, &[0x80])
        .unwrap_err();
    assert_eq!(err, IdentifyError::MalformedFrame);
}

#[test]
fn dialer_short_payload_is_malformed_frame() {
    let observed = addr("/ip4/9.9.9.9/tcp/1");
    let err = sample()
        .upgrade(Endpoint::Dialer, &observed, &[5, 1, 2])
        .unwrap_err();
    assert_eq!(err, IdentifyError::MalformedFrame);
}

#[test]
fn dialer_non_utf8_observed_address_is_invalid_address() {
    // One field: observed address (tag 4 shifted, length-prefixed) holding a
    // byte that is not valid UTF-8.
    let message = vec![34u8, 1, 0xff];
    let framed = write_frame(&message);
    let observed = addr("/ip4/9.9.9.9/tcp/1");
    let err = sample()
        .upgrade(Endpoint::Dialer, &observed, &framed)
        .unwrap_err();
    assert_eq!(
        err,
        IdentifyError::InvalidAddress(AddressField::ObservedAddr)
    );
}

#[test]
fn dialer_trailing_bytes_after_frame_are_ignored() {
    let observed = addr("/ip4/6.7.8.9/tcp/42");
    let sent = sample()
        .upgrade(Endpoint::Listener, &observed, &[])
        .unwrap();
    let mut stream = sent.output.clone();
    stream.extend_from_slice(&[0xde, 0xad]);
    let got = sample()
        .upgrade(Endpoint::Dialer, &observed, &stream)
        .unwrap();
    assert_eq!(got.info.unwrap().public_key, vec![1, 2, 3, 4]);
}

#[test]
fn decode_bad_listen_address_is_invalid_address() {
    // One listen address field (tag 2 shifted) holding an unparseable value.
    let message = vec![18u8, 1, 0xff];
    let err = decode_message(&message).unwrap_err();
    assert_eq!(err, IdentifyError::InvalidAddress(AddressField::ListenAddrs));
}

#[test]
fn decode_non_utf8_string_field_is_malformed_message() {
    // Protocol version (tag 5 shifted) holding a byte that is not UTF-8.
    let message = vec![42u8, 1, 0xff];
    let err = decode_message(&message).unwrap_err();
    assert_eq!(err, IdentifyError::MalformedMessage);
}

#[test]
fn decode_corrupt_structure_is_malformed_message() {
    // A tag announcing a non-length-prefixed field.
    assert_eq!(
        decode_message(&[8u8, 1]).unwrap_err(),
        IdentifyError::MalformedMessage
    );
    // A field running past the end of the message.
    assert_eq!(
        decode_message(&[10u8, 5, 1]).unwrap_err(),
        IdentifyError::MalformedMessage
    );
    // A truncated tag.
    assert_eq!(
        decode_message(&[0x80u8]).unwrap_err(),
        IdentifyError::MalformedMessage
    );
}

#[test]
fn decode_empty_message_has_empty_defaults_but_no_observed_address() {
    // Every field absent: string fields default to empty, but the observed
    // address is mandatory and the empty value does not parse.
    let err = decode_message(&[]).unwrap_err();
    assert_eq!(
        err,
        IdentifyError::InvalidAddress(AddressField::ObservedAddr)
    );
}

#[test]
fn decode_repeated_scalar_keeps_last_and_skips_unknown_fields() {
    let observed = addr("/tcp/7");
    let mut message = encode_message(&sample(), &observed);
    // Append an unknown field (number 9) and a second protocol version.
    message.extend_from_slice(&[74u8, 2, 0xff, 0xff]);
    message.extend_from_slice(&[42u8, 3, 110, 101, 119]);
    let info = decode_message(&message).unwrap();
    assert_eq!(info.protocol_version, "new");
    assert_eq!(info.agent_version, "agent/version");
    assert_eq!(info.observed_addr, observed);
}

#[test]
fn protocol_names_is_the_identify_token() {
    let names = sample().protocol_names();
    assert_eq!(names.len(), 1);
    assert_eq!(names[0], b"/ipfs/id/1.0.0".to_vec());
}

#[test]
fn error_descriptions_are_distinct() {
    let all = [
        IdentifyError::MalformedFrame,
        IdentifyError::MalformedMessage,
        IdentifyError::InvalidAddress(AddressField::ListenAddrs),
        IdentifyError::InvalidAddress(AddressField::ObservedAddr),
    ];
    assert_eq!(all[0].describe(), "malformed frame");
    assert_eq!(all[1].describe(), "malformed message");
    assert_eq!(all[2].describe(), "invalid listen address");
    assert_eq!(all[3].describe(), "invalid observed address");
}

#[test]
fn segments_are_plain_values() {
    let a = addr("/ip4/5.6.7.8/tcp/12345");
    assert_eq!(
        a.segments,
        vec![Segment::Ip4(5, 6, 7, 8), Segment::Tcp(12345)]
    );
}
