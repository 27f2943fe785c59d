use dnsforward::dns::{
    Name, Packet, PacketKind, Question, RRData, ResourceRecord, Soa, OP_QUERY, RCODE_NX_DOMAIN,
    RRC_IN, RRK_A, RRK_AAAA, RRK_CNAME, RRK_MX, RRK_SOA,
};
use dnsforward::wire::DecodeError;

fn name(s: &str) -> Name {
    s.parse().unwrap()
}

#[test]
fn name_text_forms() {
    assert_eq!(name("Example.COM").to_text(), "example.com");
    assert_eq!(name(".").to_text(), ".");
    assert!(name(".").is_root());
    assert!("".parse::<Name>().is_err());
    assert!("a..b".parse::<Name>().is_err());
    assert!(".a".parse::<Name>().is_err());
    assert_eq!(name("a.").to_text(), "a.");
    assert!("a_b".parse::<Name>().is_err());
    assert!("a".repeat(64).parse::<Name>().is_ok());
    // text that parses but has no wire form
    assert!(!name("a.").is_encodable());
    assert!(!name(&"a".repeat(64)).is_encodable());
    assert_eq!(name("www.example.com").parent(), name("example.com"));
    assert_eq!(name("com").parent(), name("."));
    assert_eq!(name(".").parent(), name("."));
}

#[test]
fn name_label_chars() {
    assert!(Name::is_valid_label_char(b'a'));
    assert!(Name::is_valid_label_char(b'Z'));
    assert!(Name::is_valid_label_char(b'7'));
    assert!(Name::is_valid_label_char(b'-'));
    assert!(!Name::is_valid_label_char(b'.'));
    assert!(!Name::is_valid_label_char(b'_'));
    let mut s = b"ab".to_vec();
    assert_eq!(Name::decode_label(&mut s, b"CdE"), Ok(()));
    assert_eq!(s, b"abcde".to_vec());
    assert_eq!(Name::decode_label(&mut s, b"x y"), Err(DecodeError));
    assert_eq!(s, b"abcde".to_vec());
}

#[test]
fn name_encode_and_decode() {
    let mut buf = Vec::new();
    name("www.example.com").encode(&mut buf);
    assert_eq!(buf, b"\x03www\x07example\x03com\x00".to_vec());
    let mut cursor = 0;
    assert_eq!(Name::decode(&buf, &mut cursor), Ok(name("www.example.com")));
    assert_eq!(cursor, buf.len());
    let mut root = Vec::new();
    name(".").encode(&mut root);
    assert_eq!(root, vec![0u8]);
}

#[test]
fn name_decode_follows_pointers() {
    // "example.com" at 0, then "www" + pointer to 0
    let mut pkt = b"\x07EXAMPLE\x03com\x00".to_vec();
    let start = pkt.len();
    pkt.extend_from_slice(b"\x03www\xc0\x00");
    let mut cursor = start;
    assert_eq!(Name::decode(&pkt, &mut cursor), Ok(name("www.example.com")));
    assert_eq!(cursor, pkt.len());
    // a pointer to itself loops: too many hops
    let looping = vec![0xc0u8, 0x00];
    let mut cursor = 0;
    assert_eq!(Name::decode(&looping, &mut cursor), Err(DecodeError));
    // truncated label
    let mut cursor = 0;
    assert_eq!(Name::decode(b"\x05ab", &mut cursor), Err(DecodeError));
}

#[test]
fn question_encode() {
    let q = Question { name: name("a.b"), kind: RRK_AAAA, class: RRC_IN };
    let mut buf = Vec::new();
    q.encode(&mut buf);
    assert_eq!(buf, b"\x01a\x01b\x00\x00\x1c\x00\x01".to_vec());
    let mut cursor = 0;
    assert_eq!(Question::decode(&buf, &mut cursor), Ok(q));
}

fn sample() -> Packet {
    let mut p = Packet::new(0x1234, PacketKind::Response, OP_QUERY, Question {
        name: name("host.example"),
        kind: RRK_A,
        class: RRC_IN,
    });
    p.recursion_desired = true;
    p.recursion_available = true;
    p.response_code = RCODE_NX_DOMAIN;
    p.answers.push(ResourceRecord {
        name: name("host.example"),
        kind: RRK_CNAME,
        class: RRC_IN,
        ttl_secs: 30,
        data: RRData::Name(name("other.example")),
    });
    p.answers.push(ResourceRecord {
        name: name("other.example"),
        kind: RRK_A,
        class: RRC_IN,
        ttl_secs: 30,
        data: RRData::Ipv4Addr(0xc0a80001),
    });
    p.authorities.push(ResourceRecord {
        name: name("example"),
        kind: RRK_SOA,
        class: RRC_IN,
        ttl_secs: 3600,
        data: RRData::Soa(Soa {
            primary_name: name("ns.example"),
            responsible_name: name("hostmaster.example"),
            serial: 2024,
            refresh_secs: 7200,
            retry_secs: 900,
            expire_secs: 1209600,
            min_ttl_secs: 300,
        }),
    });
    p.additional_rrs.push(ResourceRecord {
        name: name("ns.example"),
        kind: RRK_AAAA,
        class: RRC_IN,
        ttl_secs: 60,
        data: RRData::Ipv6Addr(0x2001_0db8_0000_0000_0000_0000_0000_0001),
    });
    p
}

#[test]
fn packet_round_trip() {
    let p = sample();
    let mut buf = Vec::new();
    p.encode(&mut buf);
    assert_eq!(&buf[..4], &[0x12, 0x34, 0x81, 0x83]);
    assert_eq!(&buf[4..12], &[0, 1, 0, 2, 0, 1, 0, 1]);
    assert_eq!(Packet::decode(&buf), Ok(p));
}

#[test]
fn packet_decode_errors() {
    assert_eq!(Packet::decode(&[0u8; 11]), Err(DecodeError));
    // no question
    assert_eq!(Packet::decode(&[0u8; 12]), Err(DecodeError));
    // one answer announced, none present
    let mut buf = Vec::new();
    let mut p = sample();
    p.answers.clear();
    p.authorities.clear();
    p.additional_rrs.clear();
    p.encode(&mut buf);
    buf[7] = 1;
    assert_eq!(Packet::decode(&buf), Err(DecodeError));
}

#[test]
fn unknown_records_are_skipped_and_removed() {
    let mut p = sample();
    p.answers.clear();
    p.authorities.clear();
    p.additional_rrs.clear();
    let mut buf = Vec::new();
    p.encode(&mut buf);
    buf[7] = 1;
    // an MX record: 2-byte preference and a name, kept opaque
    buf.extend_from_slice(b"\x01m\x00\x00\x0f\x00\x01\x00\x00\x00\x05\x00\x05\x00\x0a\x01x\x00");
    let mut d = Packet::decode(&buf).unwrap();
    assert_eq!(d.answers.len(), 1);
    assert_eq!(d.answers[0].kind, RRK_MX);
    assert_eq!(d.answers[0].data, RRData::Unknown);
    d.remove_unknown_rrs();
    assert!(d.answers.is_empty());
}

#[test]
fn extra_questions_are_dropped() {
    let p = Packet::new(9, PacketKind::Query, OP_QUERY, Question { name: name("a.b"), kind: RRK_A, class: RRC_IN });
    let mut buf = Vec::new();
    p.encode(&mut buf);
    buf[5] = 2;
    buf.extend_from_slice(b"\x01c\x00\x00\x01\x00\x01");
    assert_eq!(Packet::decode(&buf), Ok(p));
}

#[test]
fn record_ttl_as_duration() {
    let r = ResourceRecord { name: name("a.b"), kind: RRK_A, class: RRC_IN, ttl_secs: 3, data: RRData::Ipv4Addr(1) };
    assert_eq!(r.ttl().nanos, 3_000_000_000);
}

#[test]
fn encodable_packets() {
    let mut p = sample();
    assert!(p.is_encodable());
    p.answers.push(ResourceRecord {
        name: name("x.example"),
        kind: RRK_MX,
        class: RRC_IN,
        ttl_secs: 1,
        data: RRData::Unknown,
    });
    assert!(!p.is_encodable());
    p.remove_unknown_rrs();
    assert!(p.is_encodable());
    p.response_code = 16;
    assert!(!p.is_encodable());
    assert!(name("a.b").is_encodable());
    assert!(name(".").is_encodable());
}
