use toydns::dns::{DNSHeader, DNSPacket, DNSQuestion, DNSRecord, Ipv4Addr, QueryType, ResultCode};
use toydns::bpb::BytePacketBuffer;
use toydns::server::{build_response, lookup_query, take_question};

#[test]
fn lookup_query_asks_one_question() {
    let p = lookup_query("google.com", QueryType::A);
    let mut expected = DNSHeader::new();
    expected.id = 6666;
    expected.questions = 1;
    expected.recursion_desired = true;
    assert_eq!(p.header, expected);
    assert_eq!(
        p.questions,
        vec![DNSQuestion::new("google.com".to_string(), QueryType::A)]
    );
    assert!(p.answers.is_empty() && p.authorities.is_empty() && p.resources.is_empty());
}

#[test]
fn response_without_question_is_formerr() {
    let p = build_response(0x1234, None, None);
    assert_eq!(p.header.id, 0x1234);
    assert!(p.header.response);
    assert!(p.header.recursion_desired && p.header.recursion_available);
    assert_eq!(p.header.rescode, ResultCode::FORMERR);
    assert!(p.questions.is_empty() && p.answers.is_empty());
}

#[test]
fn response_to_failed_lookup_is_servfail() {
    let q = DNSQuestion::new("a.b".to_string(), QueryType::A);
    let p = build_response(9, Some(q), None);
    assert_eq!(p.header.id, 9);
    assert_eq!(p.header.rescode, ResultCode::SERVFAIL);
    assert!(p.questions.is_empty());
}

#[test]
fn response_carries_upstream_records() {
    let q = DNSQuestion::new("a.b".to_string(), QueryType::A);
    let mut up = DNSPacket::new();
    up.header.id = 6666;
    up.header.rescode = ResultCode::NXDOMAIN;
    let rec = DNSRecord::A {
        domain: "a.b".to_string(),
        addr: Ipv4Addr::new(1, 1, 1, 1),
        ttl: 5,
    };
    up.answers.push(rec.clone());
    up.resources.push(rec.clone());
    let p = build_response(42, Some(q.clone()), Some(up));
    assert_eq!(p.header.id, 42);
    assert_eq!(p.header.rescode, ResultCode::NXDOMAIN);
    assert_eq!(p.header.questions, 1);
    assert_eq!(p.header.answers, 1);
    assert_eq!(p.header.authoritative_entries, 0);
    assert_eq!(p.header.resource_entries, 1);
    assert_eq!(p.questions, vec![q]);
    assert_eq!(p.answers, vec![rec.clone()]);
    assert!(p.authorities.is_empty());
    assert_eq!(p.resources, vec![rec]);
}

#[test]
fn response_datagram_reads_back_with_its_sections() {
    let q = DNSQuestion::new("a.com".to_string(), QueryType::A);
    let mut up = DNSPacket::new();
    let rec = DNSRecord::A {
        domain: "a.com".to_string(),
        addr: Ipv4Addr::new(1, 2, 3, 4),
        ttl: 60,
    };
    up.answers.push(rec.clone());
    let p = build_response(0x1234, Some(q.clone()), Some(up));
    let mut buf = BytePacketBuffer::new();
    p.write(&mut buf).unwrap();
    let mut expected: Vec<u8> = vec![0x12, 0x34, 0x81, 0x80, 0, 1, 0, 1, 0, 0, 0, 0];
    let name: [u8; 7] = [1, b'a', 3, b'c', b'o', b'm', 0];
    expected.extend_from_slice(&name);
    expected.extend_from_slice(&[0, 1, 0, 1]);
    expected.extend_from_slice(&name);
    expected.extend_from_slice(&[0, 1, 0, 1, 0, 0, 0, 60, 0, 4, 1, 2, 3, 4]);
    assert_eq!(buf.position(), expected.len());
    assert_eq!(&buf.buf[..expected.len()], &expected[..]);
    buf.seek(0).unwrap();
    let back = DNSPacket::from_buffer(&mut buf).unwrap();
    assert_eq!(back.header, p.header);
    assert_eq!(back.questions, vec![q]);
    assert_eq!(back.answers, vec![rec]);
    assert!(back.authorities.is_empty() && back.resources.is_empty());
}

#[test]
fn take_question_takes_the_last() {
    let mut req = DNSPacket::new();
    let q1 = DNSQuestion::new("a.b".to_string(), QueryType::A);
    let q2 = DNSQuestion::new("c.d".to_string(), QueryType::UNKNOWN(28));
    req.questions.push(q1.clone());
    req.questions.push(q2.clone());
    assert_eq!(take_question(&mut req), Some(q2));
    assert_eq!(req.questions, vec![q1.clone()]);
    assert_eq!(take_question(&mut req), Some(q1));
    assert_eq!(take_question(&mut req), None);
    assert!(req.questions.is_empty());
}
