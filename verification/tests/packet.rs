use toydns::bpb::BytePacketBuffer;
use toydns::dns::{DNSPacket, DNSQuestion, DNSRecord, Ipv4Addr, QueryType, ResultCode};
use toydns::error::DnsError;

#[test]
fn new_packet_is_empty() {
    let p = DNSPacket::new();
    assert_eq!(p.header.id, 0);
    assert!(p.questions.is_empty());
    assert!(p.answers.is_empty());
    assert!(p.authorities.is_empty());
    assert!(p.resources.is_empty());
}

#[test]
fn write_then_from_buffer_roundtrip() {
    let mut original = DNSPacket::new();
    original.header.id = 0xBEEF;
    original.header.recursion_desired = true;
    original.header.response = true;
    original.header.questions = 1;
    original.header.answers = 1;

    original
        .questions
        .push(DNSQuestion::new("example.com".to_string(), QueryType::A));
    original.answers.push(DNSRecord::A {
        domain: "example.com".to_string(),
        addr: Ipv4Addr::new(93, 184, 216, 34),
        ttl: 3600,
    });

    let mut buf = BytePacketBuffer::new();
    original.write(&mut buf).unwrap();
    buf.seek(0).unwrap();

    let parsed = DNSPacket::from_buffer(&mut buf).unwrap();
    assert_eq!(parsed.header.id, original.header.id);
    assert_eq!(parsed.questions, original.questions);
    assert_eq!(parsed.answers, original.answers);
}

#[test]
fn packet_roundtrip_all_sections() {
    let mut original = DNSPacket::new();
    original.header.id = 7;
    original.header.rescode = ResultCode::NXDOMAIN;
    original.header.questions = 2;
    original.header.answers = 1;
    original.header.authoritative_entries = 1;
    original.header.resource_entries = 1;
    original
        .questions
        .push(DNSQuestion::new("a.b".to_string(), QueryType::UNKNOWN(28)));
    original
        .questions
        .push(DNSQuestion::new("".to_string(), QueryType::A));
    original.answers.push(DNSRecord::UNKNOWN {
        domain: "x.y.z".to_string(),
        qtype: 16,
        data_len: 3,
        ttl: 60,
    });
    original.authorities.push(DNSRecord::A {
        domain: "ns.example".to_string(),
        addr: Ipv4Addr::new(10, 0, 0, 1),
        ttl: 86400,
    });
    original.resources.push(DNSRecord::A {
        domain: "ünï.example".to_string(),
        addr: Ipv4Addr::new(1, 2, 3, 4),
        ttl: 1,
    });
    let mut buf = BytePacketBuffer::new();
    original.write(&mut buf).unwrap();
    let end = buf.position();
    buf.seek(0).unwrap();
    let parsed = DNSPacket::from_buffer(&mut buf).unwrap();
    assert_eq!(buf.position(), end);
    assert_eq!(parsed.header, original.header);
    assert_eq!(parsed.questions, original.questions);
    assert_eq!(parsed.answers, original.answers);
    assert_eq!(parsed.authorities, original.authorities);
    assert_eq!(parsed.resources, original.resources);
}

#[test]
fn packet_with_too_few_bytes_overflows() {
    let mut buf = BytePacketBuffer::new();
    // A header that claims one answer, with the answer's name running to the end.
    buf.buf[7] = 1;
    for i in 12..512 {
        buf.buf[i] = 1;
    }
    assert_eq!(
        DNSPacket::from_buffer(&mut buf).unwrap_err(),
        DnsError::BufferOverflow
    );
}

#[test]
fn packet_write_too_long_label_is_refused() {
    let mut p = DNSPacket::new();
    p.questions
        .push(DNSQuestion::new("a".repeat(64), QueryType::A));
    let mut buf = BytePacketBuffer::new();
    assert_eq!(p.write(&mut buf), Err(DnsError::LabelTooLong));
    assert_eq!(buf.position(), 12);
}

#[test]
fn packet_too_large_overflows() {
    let mut p = DNSPacket::new();
    for _ in 0..40 {
        p.answers.push(DNSRecord::UNKNOWN {
            domain: "example.com".to_string(),
            qtype: 99,
            data_len: 10,
            ttl: 0,
        });
    }
    let mut buf = BytePacketBuffer::new();
    assert_eq!(p.write(&mut buf), Err(DnsError::BufferOverflow));
    assert_eq!(buf.position(), 512);
}

#[test]
fn record_a_read_from_bytes() {
    let mut buf = BytePacketBuffer::new();
    let bytes = [
        1, b'a', 0, // name "a"
        0, 1, // type A
        0, 1, // class IN
        0, 0, 0x0E, 0x10, // ttl 3600
        0, 4, // data length
        93, 184, 216, 34,
    ];
    buf.buf[..bytes.len()].copy_from_slice(&bytes);
    let rec = DNSRecord::read(&mut buf).unwrap();
    assert_eq!(
        rec,
        DNSRecord::A {
            domain: "a".to_string(),
            addr: Ipv4Addr::new(93, 184, 216, 34),
            ttl: 3600,
        }
    );
    assert_eq!(buf.position(), bytes.len());
}

#[test]
fn record_unknown_data_is_skipped() {
    let mut buf = BytePacketBuffer::new();
    let bytes = [0, 0, 5, 0, 1, 0, 0, 0, 9, 0, 3, 0xAA, 0xBB, 0xCC];
    buf.buf[..bytes.len()].copy_from_slice(&bytes);
    let rec = DNSRecord::read(&mut buf).unwrap();
    assert_eq!(
        rec,
        DNSRecord::UNKNOWN {
            domain: "".to_string(),
            qtype: 5,
            data_len: 3,
            ttl: 9,
        }
    );
    assert_eq!(buf.position(), bytes.len());
}

#[test]
fn record_unknown_data_past_end_overflows() {
    let mut buf = BytePacketBuffer::new();
    buf.seek(500).unwrap();
    // name 0, type 5, class 1, ttl 0, data length 0x100: the step goes past the end.
    buf.buf[500] = 0;
    buf.buf[502] = 5;
    buf.buf[504] = 1;
    buf.buf[509] = 1;
    assert_eq!(DNSRecord::read(&mut buf), Err(DnsError::BufferOverflow));
    assert_eq!(buf.position(), 511 + 0x100);
}

#[test]
fn record_written_bytes() {
    let rec = DNSRecord::A {
        domain: "ab".to_string(),
        addr: Ipv4Addr::new(1, 2, 3, 4),
        ttl: 0x01020304,
    };
    let mut buf = BytePacketBuffer::new();
    rec.write(&mut buf).unwrap();
    assert_eq!(
        &buf.buf[..buf.position()],
        &[2, b'a', b'b', 0, 0, 1, 0, 1, 1, 2, 3, 4, 0, 4, 1, 2, 3, 4]
    );
    let unknown = DNSRecord::UNKNOWN {
        domain: "".to_string(),
        qtype: 0x1234,
        data_len: 2,
        ttl: 5,
    };
    let mut buf = BytePacketBuffer::new();
    buf.buf[11] = 0xFF;
    unknown.write(&mut buf).unwrap();
    assert_eq!(
        &buf.buf[..buf.position()],
        &[0, 0x12, 0x34, 0, 1, 0, 0, 0, 5, 0, 2, 0, 0]
    );
}

#[test]
fn ipv4_octets() {
    assert_eq!(Ipv4Addr::new(93, 184, 216, 34).octets(), [93, 184, 216, 34]);
}

#[test]
fn compressed_response_is_parsed() {
    // A response as resolvers send it: the answer names the question by a
    // pointer to offset 12, and two answers follow one another.
    let mut bytes: Vec<u8> = vec![0xAB, 0xCD, 0x81, 0x80, 0, 1, 0, 2, 0, 0, 0, 0];
    bytes.extend_from_slice(&[1, b'a', 3, b'c', b'o', b'm', 0, 0, 1, 0, 1]);
    bytes.extend_from_slice(&[0xC0, 12, 0, 1, 0, 1, 0, 0, 1, 0, 0, 4, 10, 0, 0, 1]);
    bytes.extend_from_slice(&[0xC0, 12, 0, 1, 0, 1, 0, 0, 0, 30, 0, 4, 10, 0, 0, 2]);
    let mut buf = BytePacketBuffer::new();
    buf.buf[..bytes.len()].copy_from_slice(&bytes);
    let p = DNSPacket::from_buffer(&mut buf).unwrap();
    assert_eq!(buf.position(), bytes.len());
    assert_eq!(p.header.id, 0xABCD);
    assert_eq!(
        p.questions,
        vec![DNSQuestion::new("a.com".to_string(), QueryType::A)]
    );
    assert_eq!(
        p.answers,
        vec![
            DNSRecord::A {
                domain: "a.com".to_string(),
                addr: Ipv4Addr::new(10, 0, 0, 1),
                ttl: 256,
            },
            DNSRecord::A {
                domain: "a.com".to_string(),
                addr: Ipv4Addr::new(10, 0, 0, 2),
                ttl: 30,
            },
        ]
    );
}
