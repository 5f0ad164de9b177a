use toydns::bpb::BytePacketBuffer;
use toydns::dns::{DNSHeader, ResultCode};
use toydns::error::DnsError;

#[test]
fn result_code_roundtrip_all_known() {
    for n in 0u8..=5 {
        assert_eq!(ResultCode::try_from(n).unwrap().to_num(), n);
    }
}

#[test]
fn result_code_invalid_errors() {
    assert!(ResultCode::try_from(99).is_err());
}

#[test]
fn new_header_has_sane_defaults() {
    let h = DNSHeader::default();
    assert_eq!(h.id, 0);
    assert_eq!(h.questions, 0);
    assert_eq!(h.rescode, ResultCode::NOERROR);
    assert!(!h.response);
}

#[test]
fn write_then_read_roundtrip() {
    let mut original = DNSHeader::default();
    original.id = 6666;
    original.recursion_desired = true;
    original.recursion_available = true;
    original.response = true;
    original.opcode = 0;
    original.rescode = ResultCode::NXDOMAIN;
    original.questions = 1;
    original.answers = 2;
    original.authoritative_entries = 3;
    original.resource_entries = 4;
    original.authoritative_answer = true;
    original.truncated_message = true;
    original.checking_disabled = true;
    original.authed_data = true;
    original.z = true;

    let mut buf = BytePacketBuffer::new();
    original.write(&mut buf).unwrap();
    buf.seek(0).unwrap();

    let mut read_back = DNSHeader::default();
    read_back.read(&mut buf).unwrap();

    assert_eq!(read_back.id, original.id);
    assert_eq!(read_back.recursion_desired, original.recursion_desired);
    assert_eq!(read_back.recursion_available, original.recursion_available);
    assert_eq!(read_back.response, original.response);
    assert_eq!(read_back.opcode, original.opcode);
    assert_eq!(read_back.rescode, original.rescode);
    assert_eq!(read_back.questions, original.questions);
    assert_eq!(read_back.answers, original.answers);
    assert_eq!(
        read_back.authoritative_entries,
        original.authoritative_entries
    );
    assert_eq!(read_back.resource_entries, original.resource_entries);
    assert_eq!(
        read_back.authoritative_answer,
        original.authoritative_answer
    );
    assert_eq!(read_back.truncated_message, original.truncated_message);
    assert_eq!(read_back.checking_disabled, original.checking_disabled);
    assert_eq!(read_back.authed_data, original.authed_data);
    assert_eq!(read_back.z, original.z);
}

#[test]
fn result_code_numbers() {
    assert_eq!(ResultCode::NOERROR.to_num(), 0);
    assert_eq!(ResultCode::FORMERR.to_num(), 1);
    assert_eq!(ResultCode::SERVFAIL.to_num(), 2);
    assert_eq!(ResultCode::NXDOMAIN.to_num(), 3);
    assert_eq!(ResultCode::NOTIMP.to_num(), 4);
    assert_eq!(ResultCode::REFUSED.to_num(), 5);
    assert_eq!(ResultCode::try_from(6), Err(DnsError::InvalidResultCode(6)));
    assert_eq!(ResultCode::from_num(4), Ok(ResultCode::NOTIMP));
}

#[test]
fn header_written_as_twelve_bytes() {
    let mut h = DNSHeader::new();
    h.id = 0xBEEF;
    h.recursion_desired = true;
    h.opcode = 2;
    h.response = true;
    h.rescode = ResultCode::REFUSED;
    h.recursion_available = true;
    h.questions = 0x0102;
    h.resource_entries = 7;
    let mut buf = BytePacketBuffer::new();
    h.write(&mut buf).unwrap();
    assert_eq!(buf.position(), 12);
    assert_eq!(
        &buf.buf[0..12],
        &[0xBE, 0xEF, 0x91, 0x85, 0x01, 0x02, 0, 0, 0, 0, 0, 7]
    );
}

#[test]
fn header_opcode_keeps_four_bits() {
    let mut h = DNSHeader::new();
    h.opcode = 0x1F;
    let mut buf = BytePacketBuffer::new();
    h.write(&mut buf).unwrap();
    buf.seek(0).unwrap();
    let mut back = DNSHeader::new();
    back.read(&mut buf).unwrap();
    assert_eq!(back.opcode, 0x0F);
}

#[test]
fn header_read_rejects_unknown_code() {
    let mut buf = BytePacketBuffer::new();
    buf.buf[0] = 0x12;
    buf.buf[1] = 0x34;
    buf.buf[2] = 0x01;
    buf.buf[3] = 0x0A;
    let mut h = DNSHeader::new();
    assert_eq!(h.read(&mut buf), Err(DnsError::InvalidResultCode(10)));
    // The id and the first flag byte were taken before the code was refused.
    assert_eq!(h.id, 0x1234);
    assert!(h.recursion_desired);
    assert_eq!(buf.position(), 4);
}

#[test]
fn header_read_near_end_overflows() {
    let mut buf = BytePacketBuffer::new();
    buf.seek(506).unwrap();
    let mut h = DNSHeader::new();
    assert_eq!(h.read(&mut buf), Err(DnsError::BufferOverflow));
    assert_eq!(buf.position(), 512);
}

#[test]
fn header_write_near_end_overflows() {
    let mut buf = BytePacketBuffer::new();
    buf.seek(505).unwrap();
    let mut h = DNSHeader::new();
    h.id = 0xFFFF;
    assert_eq!(h.write(&mut buf), Err(DnsError::BufferOverflow));
    assert_eq!(buf.position(), 512);
    assert_eq!(buf.buf[505], 0xFF);
    assert_eq!(buf.buf[506], 0xFF);
}
