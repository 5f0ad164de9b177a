use toydns::bpb::BytePacketBuffer;
use toydns::dns::{DNSQuestion, QueryType};
use toydns::error::DnsError;

#[test]
fn query_type_numbers() {
    assert_eq!(QueryType::A.to_num(), 1);
    assert_eq!(QueryType::UNKNOWN(28).to_num(), 28);
    assert_eq!(QueryType::from_num(1), QueryType::A);
    assert_eq!(QueryType::from_num(5), QueryType::UNKNOWN(5));
    for n in [0u16, 1, 2, 255, 65535] {
        assert_eq!(QueryType::from_num(n).to_num(), n);
    }
    // UNKNOWN(1) is written as 1, which reads back as A.
    assert_eq!(QueryType::from_num(QueryType::UNKNOWN(1).to_num()), QueryType::A);
}

#[test]
fn question_write_then_read() {
    let q = DNSQuestion::new("example.com".to_string(), QueryType::A);
    let mut buf = BytePacketBuffer::new();
    q.write(&mut buf).unwrap();
    assert_eq!(buf.position(), 17);
    assert_eq!(&buf.buf[13..17], &[0, 1, 0, 1]);
    buf.seek(0).unwrap();
    let mut back = DNSQuestion::new(String::new(), QueryType::UNKNOWN(0));
    back.read(&mut buf).unwrap();
    assert_eq!(back, q);
    assert_eq!(back.qname(), "example.com");
    assert_eq!(back.qtype(), QueryType::A);
}

#[test]
fn question_read_without_class_overflows() {
    let mut buf = BytePacketBuffer::new();
    buf.seek(508).unwrap();
    buf.buf[510] = 15;
    let mut q = DNSQuestion::new(String::new(), QueryType::A);
    assert_eq!(q.read(&mut buf), Err(DnsError::BufferOverflow));
    // The type was read; the class was not there.
    assert_eq!(q.qtype(), QueryType::UNKNOWN(15));
    assert_eq!(buf.position(), 512);
}
