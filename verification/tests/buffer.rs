use toydns::bpb::BytePacketBuffer;
use toydns::error::DnsError;

fn buffer_with(bytes: &[u8]) -> BytePacketBuffer {
    let mut buf = BytePacketBuffer::new();
    buf.buf[..bytes.len()].copy_from_slice(bytes);
    buf
}

#[test]
fn new_buffer_is_zeroed_at_start() {
    let buf = BytePacketBuffer::new();
    assert_eq!(buf.position(), 0);
    assert!(buf.buf.iter().all(|b| *b == 0));
}

#[test]
fn step_and_seek() {
    let mut buf = BytePacketBuffer::new();
    assert_eq!(buf.step(500), Ok(()));
    assert_eq!(buf.position(), 500);
    assert_eq!(buf.step(12), Ok(()));
    assert_eq!(buf.position(), 512);
    assert_eq!(buf.step(1), Err(DnsError::BufferOverflow));
    assert_eq!(buf.position(), 513);
    assert_eq!(buf.seek(513), Err(DnsError::BufferOverflow));
    assert_eq!(buf.position(), 513);
    assert_eq!(buf.seek(512), Ok(()));
    assert_eq!(buf.position(), 512);
}

#[test]
fn read_big_endian_values() {
    let mut buf = buffer_with(&[0x12, 0x34, 0xDE, 0xAD, 0xBE, 0xEF]);
    assert_eq!(buf.read_u16(), Ok(0x1234));
    assert_eq!(buf.read_u32(), Ok(0xDEADBEEF));
    assert_eq!(buf.position(), 6);
}

#[test]
fn read_past_end_stops_at_end() {
    let mut buf = BytePacketBuffer::new();
    buf.seek(511).unwrap();
    assert_eq!(buf.read_u16(), Err(DnsError::BufferOverflow));
    assert_eq!(buf.position(), 512);
    buf.seek(510).unwrap();
    assert_eq!(buf.read_u32(), Err(DnsError::BufferOverflow));
    assert_eq!(buf.position(), 512);
    buf.seek(510).unwrap();
    assert_eq!(buf.read_u16(), Ok(0));
}

#[test]
fn write_big_endian_values() {
    let mut buf = BytePacketBuffer::new();
    buf.write_u8(0x7F).unwrap();
    buf.write_u16(0xABCD).unwrap();
    buf.write_u32(0x01020304).unwrap();
    assert_eq!(&buf.buf[..7], &[0x7F, 0xAB, 0xCD, 1, 2, 3, 4]);
    assert_eq!(buf.position(), 7);
}

#[test]
fn write_past_end_writes_what_fits() {
    let mut buf = BytePacketBuffer::new();
    buf.seek(510).unwrap();
    assert_eq!(buf.write_u32(0x01020304), Err(DnsError::BufferOverflow));
    assert_eq!(buf.position(), 512);
    assert_eq!(&buf.buf[510..], &[1, 2]);
    assert_eq!(buf.write_u8(9), Err(DnsError::BufferOverflow));
}

#[test]
fn read_plain_name() {
    let mut buf = buffer_with(&[7, b'e', b'x', b'a', b'm', b'p', b'l', b'e', 3, b'c', b'o', b'm', 0]);
    let mut name = String::new();
    buf.read_qname(&mut name).unwrap();
    assert_eq!(name, "example.com");
    assert_eq!(buf.position(), 13);
}

#[test]
fn read_root_name() {
    let mut buf = buffer_with(&[0]);
    let mut name = String::new();
    buf.read_qname(&mut name).unwrap();
    assert_eq!(name, "");
    assert_eq!(buf.position(), 1);
}

#[test]
fn read_name_appends() {
    let mut buf = buffer_with(&[1, b'b', 0]);
    let mut name = String::from("a.");
    buf.read_qname(&mut name).unwrap();
    assert_eq!(name, "a.b");
    // The root name drops the last character of what was there.
    let mut buf = buffer_with(&[0]);
    let mut name = String::from("xy");
    buf.read_qname(&mut name).unwrap();
    assert_eq!(name, "x");
}

#[test]
fn read_compressed_name() {
    // "com" at 0, then "example" + pointer to 0 at 5.
    let mut buf = buffer_with(&[
        3, b'c', b'o', b'm', 0, 7, b'e', b'x', b'a', b'm', b'p', b'l', b'e', 0xC0, 0x00,
    ]);
    buf.seek(5).unwrap();
    let mut name = String::new();
    buf.read_qname(&mut name).unwrap();
    assert_eq!(name, "example.com");
    // After a pointer, the position is just past the pointer's two bytes.
    assert_eq!(buf.position(), 15);
}

#[test]
fn read_name_then_fields_after_pointer() {
    // "com" at 0; at 5 a name that is only a pointer to 0, then a 16-bit field.
    let mut buf = buffer_with(&[3, b'c', b'o', b'm', 0, 0xC0, 0x00, 0x12, 0x34]);
    buf.seek(5).unwrap();
    let mut name = String::new();
    buf.read_qname(&mut name).unwrap();
    assert_eq!(name, "com");
    assert_eq!(buf.position(), 7);
    assert_eq!(buf.read_u16(), Ok(0x1234));
}

#[test]
fn read_name_loop_leaves_position_after_first_pointer() {
    let mut buf = buffer_with(&[1, b'a', 0xC0, 0x00]);
    let mut name = String::new();
    assert_eq!(buf.read_qname(&mut name), Err(DnsError::PointerLoop));
    assert_eq!(buf.position(), 4);
}

#[test]
fn read_name_pointer_loop_is_refused() {
    let mut buf = buffer_with(&[1, b'a', 0xC0, 0x00]);
    let mut name = String::new();
    assert_eq!(buf.read_qname(&mut name), Err(DnsError::PointerLoop));
}

#[test]
fn read_name_pointer_past_end_overflows() {
    let mut buf = buffer_with(&[0xC3, 0xFF]);
    let mut name = String::new();
    assert_eq!(buf.read_qname(&mut name), Err(DnsError::BufferOverflow));
    assert_eq!(buf.position(), 0);
}

#[test]
fn read_name_invalid_utf8_is_refused() {
    let mut buf = buffer_with(&[2, b'o', b'k', 1, 0xFF, 0]);
    let mut name = String::new();
    assert_eq!(buf.read_qname(&mut name), Err(DnsError::InvalidUtf8Label));
    // The labels read before the error stay.
    assert_eq!(name, "ok.");
}

#[test]
fn read_name_label_past_end_overflows() {
    let mut buf = BytePacketBuffer::new();
    buf.seek(510).unwrap();
    buf.buf[510] = 5;
    let mut name = String::new();
    assert_eq!(buf.read_qname(&mut name), Err(DnsError::BufferOverflow));
    assert_eq!(buf.position(), 510);
}

#[test]
fn write_name() {
    let mut buf = BytePacketBuffer::new();
    buf.write_qname("example.com").unwrap();
    assert_eq!(
        &buf.buf[..13],
        &[7, b'e', b'x', b'a', b'm', b'p', b'l', b'e', 3, b'c', b'o', b'm', 0]
    );
    assert_eq!(buf.position(), 13);
}

#[test]
fn write_empty_name_and_trailing_dot() {
    let mut buf = BytePacketBuffer::new();
    buf.write_qname("").unwrap();
    assert_eq!(buf.position(), 1);
    buf.write_qname("a.").unwrap();
    assert_eq!(&buf.buf[..4], &[0, 1, b'a', 0]);
    assert_eq!(buf.position(), 4);
}

#[test]
fn write_name_long_label_is_refused() {
    let mut buf = BytePacketBuffer::new();
    let name = format!("ok.{}", "x".repeat(64));
    assert_eq!(buf.write_qname(&name), Err(DnsError::LabelTooLong));
    assert_eq!(&buf.buf[..3], &[2, b'o', b'k']);
    assert_eq!(buf.position(), 3);
    let mut buf = BytePacketBuffer::new();
    assert_eq!(buf.write_qname(&"y".repeat(63)), Ok(()));
    assert_eq!(buf.position(), 65);
}

#[test]
fn write_then_read_name() {
    let mut buf = BytePacketBuffer::new();
    buf.write_qname("mail.ünï.example").unwrap();
    buf.seek(0).unwrap();
    let mut name = String::new();
    buf.read_qname(&mut name).unwrap();
    assert_eq!(name, "mail.ünï.example");
}

#[test]
fn buffer_from_received_bytes() {
    let mut raw = [0u8; 512];
    raw[0] = 0xAB;
    raw[1] = 0xCD;
    raw[511] = 7;
    let mut buf = BytePacketBuffer::from_bytes(raw);
    assert_eq!(buf.position(), 0);
    assert_eq!(buf.read_u16(), Ok(0xABCD));
    assert_eq!(buf.buf[511], 7);
}
