use libp2p_identify::{decode_address, encode_address, Address, Segment};

fn round_trips(text: &str, segments: Vec<Segment>) {
    let parsed = decode_address(text.as_bytes()).unwrap();
    assert_eq!(parsed.segments, segments);
    let rendered = encode_address(&parsed);
    assert_eq!(rendered, text.as_bytes().to_vec());
    let again = decode_address(&rendered).unwrap();
    assert_eq!(again, parsed);
}

#[test]
fn canonical_addresses_round_trip() {
    round_trips("/ip4/5.6.7.8/tcp/12345", vec![
        Segment::Ip4(5, 6, 7, 8),
        Segment::Tcp(12345),
    ]);
    round_trips("/ip4/127.0.0.1/tcp/0", vec![
        Segment::Ip4(127, 0, 0, 1),
        Segment::Tcp(0),
    ]);
    round_trips("/ip4/0.0.0.0/tcp/65535", vec![
        Segment::Ip4(0, 0, 0, 0),
        Segment::Tcp(65535),
    ]);
    round_trips("/tcp/80", vec![Segment::Tcp(80)]);
    round_trips("/ip4/255.255.255.255", vec![Segment::Ip4(255, 255, 255, 255)]);
    round_trips("/ip4/1.2.3.4/tcp/1/ip4/9.9.9.9/tcp/2", vec![
        Segment::Ip4(1, 2, 3, 4),
        Segment::Tcp(1),
        Segment::Ip4(9, 9, 9, 9),
        Segment::Tcp(2),
    ]);
}

#[test]
fn encode_of_built_address_round_trips() {
    let a = Address {
        segments: vec![Segment::Ip4(10, 20, 30, 40), Segment::Tcp(4001)],
    };
    let rendered = encode_address(&a);
    assert_eq!(rendered, b"/ip4/10.20.30.40/tcp/4001".to_vec());
    assert_eq!(decode_address(&rendered).unwrap(), a);
}

#[test]
fn malformed_addresses_are_rejected() {
    let bad: &[&[u8]] = &[
        b"",
        b"/",
        b"ip4/1.2.3.4",
        b"/ip4",
        b"/ip4/",
        b"/ip4/1.2.3",
        b"/ip4/1.2.3.4.5",
        b"/ip4/256.0.0.1",
        b"/ip4/1.2.3.4/",
        b"/ip4/01.2.3.4",
        b"/ip4/1.2.3.4x",
        b"/tcp/",
        b"/tcp/65536",
        b"/tcp/01",
        b"/tcp/1 2",
        b"/tcp/-1",
        b"/udp/53",
        b"/ip6/::1",
        b"/ip4/1.2.3.4/tcp",
        b"/ip4/1.2.3.4//tcp/1",
        b"\xff\xfe",
    ];
    for case in bad {
        assert!(decode_address(case).is_err(), "accepted {:?}", case);
    }
}

#[test]
fn non_canonical_utf8_text_is_rejected_not_a_crash() {
    // Valid UTF-8 that is not an address.
    assert!(decode_address("/ip4/cinq.six.sept.huit".as_bytes()).is_err());
    assert!(decode_address("/tcp/\u{00e9}".as_bytes()).is_err());
}
