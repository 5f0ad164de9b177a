use vstd::prelude::*;
use vstd::utf8::encode_utf8;

use crate::bpb::{
    advance, be_u16, be_u32, emit_result, fits, lemma_emit_first_fails, lemma_emit_chain,
    lemma_wrote_nothing, lemma_wrote_then, plain, put_result, chain, u16_bytes, u32_bytes, wrote,
    BytePacketBuffer, Emission,
};
use crate::bpb::{lemma_holds_split, MAX_JUMPS};
use crate::name::{
    lemma_fit_accepted, lemma_name_roundtrip, lemma_walk_cursor_nonneg, name_emission, name_text,
    name_wire, plain_name, read_name, split_labels,
};
use crate::dns::question::{type_of, QueryType};
use crate::error::DnsError;

verus! {

broadcast use BytePacketBuffer::lemma_buffer_shape;

/// An IPv4 address, as its four octets.
#[derive(Copy, Clone, Debug, PartialEq, Eq, Hash, PartialOrd, Ord, Structural)]
pub struct Ipv4Addr {
    a: u8,
    b: u8,
    c: u8,
    d: u8,
}

impl View for Ipv4Addr {
    type V = Seq<u8>;

    closed spec fn view(&self) -> Seq<u8> {
        seq![self.a, self.b, self.c, self.d]
    }
}

impl Ipv4Addr {
    /// An address is four octets.
    pub broadcast proof fn lemma_four_octets(ip: Ipv4Addr)
        ensures
            #[trigger] ip@.len() == 4,
    {
    }

    /// The address `a.b.c.d`.
    pub fn new(a: u8, b: u8, c: u8, d: u8) -> (ip: Ipv4Addr)
        ensures
            ip@ == seq![a, b, c, d],
    {
        Ipv4Addr { a, b, c, d }
    }

    /// The four octets, most significant first.
    pub fn octets(&self) -> (o: [u8; 4])
        ensures
            o@ == self@,
    {
        let o = [self.a, self.b, self.c, self.d];
        assert(o@ =~= self@);
        o
    }
}

/// What a resource record holds.
pub enum RecordView {
    Unknown { domain: Seq<char>, qtype: u16, data_len: u16, ttl: u32 },
    A { domain: Seq<char>, addr: Seq<u8>, ttl: u32 },
}

/// A resource record of a DNS message: an address record, or a record of
/// another type, of which only the length of its data is kept.
#[derive(Debug, Clone, PartialEq, Eq, Hash, PartialOrd, Ord)]
pub enum DNSRecord {
    UNKNOWN { domain: String, qtype: u16, data_len: u16, ttl: u32 },
    A { domain: String, addr: Ipv4Addr, ttl: u32 },
}

impl View for DNSRecord {
    type V = RecordView;

    open spec fn view(&self) -> RecordView {
        match self {
            DNSRecord::UNKNOWN { domain, qtype, data_len, ttl } => RecordView::Unknown {
                domain: domain@,
                qtype: *qtype,
                data_len: *data_len,
                ttl: *ttl,
            },
            DNSRecord::A { domain, addr, ttl } => RecordView::A {
                domain: domain@,
                addr: addr@,
                ttl: *ttl,
            },
        }
    }
}

/// The domain name of a record.
pub open spec fn record_domain(r: RecordView) -> Seq<char> {
    match r {
        RecordView::Unknown { domain, .. } => domain,
        RecordView::A { domain, .. } => domain,
    }
}

/// Reading a record from `s` at `p`: what it gives, and where the cursor ends.
///
/// After the name come the type, the class (skipped), the time to live and the
/// data length. An address record then holds four address bytes; the data of a
/// record of any other type is stepped over.
pub open spec fn read_record(s: Seq<u8>, p: int) -> (Result<RecordView, DnsError>, int) {
    let walk = read_name(s, p);
    let q = walk.cursor;
    if walk.error is Some {
        (Err(walk.error->0), q)
    } else if !fits(q, 10) {
        (Err(DnsError::BufferOverflow), advance(q, 10))
    } else {
        let domain = name_text(seq![], walk);
        let qtype = be_u16(s, q) as u16;
        let ttl = be_u32(s, q + 4) as u32;
        let data_len = be_u16(s, q + 8) as u16;
        if type_of(qtype) == QueryType::A {
            if !fits(q, 14) {
                (Err(DnsError::BufferOverflow), advance(q, 14))
            } else {
                (Ok(RecordView::A { domain, addr: s.subrange(q + 10, q + 14), ttl }), q + 14)
            }
        } else if !fits(q, 10 + data_len) {
            (Err(DnsError::BufferOverflow), q + 10 + data_len)
        } else {
            (Ok(RecordView::Unknown { domain, qtype, data_len, ttl }), q + 10 + data_len)
        }
    }
}

/// The class of a record is read and not looked at: two buffers that differ
/// only in the two class bytes after a record's type read as the same record,
/// with the cursor at the same place, whenever the record's name reads the same
/// from both.
pub proof fn lemma_record_class_ignored(s1: Seq<u8>, s2: Seq<u8>, p: int, x: u8, y: u8)
    requires
        s1.len() == 512,
        s2 == s1.update(read_name(s1, p).cursor + 2, x).update(read_name(s1, p).cursor + 3, y),
        read_name(s2, p) == read_name(s1, p),
    ensures
        read_record(s2, p) == read_record(s1, p),
{
    let q = read_name(s1, p).cursor;
    if p >= 0 {
        lemma_walk_cursor_nonneg(s1, p, false, p, MAX_JUMPS as nat);
    }
    if read_name(s1, p).error is None && fits(q, 10) {
        assert(0 <= q);
        let s1x = s1.update(q + 2, x);
        assert(s2 == s1x.update(q + 3, y));
        assert forall|i: int| 0 <= i < 512 && i != q + 2 && i != q + 3 implies s2[i] == s1[i] by {
            assert(s1x[i] == s1[i]);
        }
        assert(s2[q] == s1[q] && s2[q + 1] == s1[q + 1]);
        assert(s2[q + 4] == s1[q + 4] && s2[q + 5] == s1[q + 5]);
        assert(s2[q + 6] == s1[q + 6] && s2[q + 7] == s1[q + 7]);
        assert(s2[q + 8] == s1[q + 8] && s2[q + 9] == s1[q + 9]);
        assert(be_u16(s2, q) == be_u16(s1, q));
        assert(be_u32(s2, q + 4) == be_u32(s1, q + 4));
        assert(be_u16(s2, q + 8) == be_u16(s1, q + 8));
        if fits(q, 14) {
            assert(s2.subrange(q + 10, q + 14) =~= s1.subrange(q + 10, q + 14));
        }
    }
}

/// The bytes of a record after its name: type, class 1 (IN), time to live,
/// data length and data. An address record has four bytes of data; another
/// record has as many zero bytes as its data length.
pub open spec fn record_tail(r: RecordView) -> Seq<u8> {
    match r {
        RecordView::A { addr, ttl, .. } => fixed_bytes(1, ttl, 4) + addr,
        RecordView::Unknown { qtype, data_len, ttl, .. } => fixed_bytes(qtype, ttl, data_len)
            + zeros(data_len),
    }
}

/// The type, class 1 (IN), time to live and data length of a record.
pub open spec fn fixed_bytes(qtype: u16, ttl: u32, data_len: u16) -> Seq<u8> {
    u16_bytes(qtype) + u16_bytes(1) + u32_bytes(ttl) + u16_bytes(data_len)
}

/// `n` zero bytes.
pub open spec fn zeros(n: u16) -> Seq<u8> {
    Seq::new(n as nat, |i: int| 0u8)
}

/// What writing a record emits: its name, then the rest.
pub open spec fn record_emission(r: RecordView) -> Emission {
    chain(name_emission(split_labels(encode_utf8(record_domain(r)))), plain(record_tail(r)))
}

impl DNSRecord {
    /// Reads a record at the buffer's position.
    pub fn read(buffer: &mut BytePacketBuffer) -> (r: Result<DNSRecord, DnsError>)
        ensures
            final(buffer).bytes() == old(buffer).bytes(),
            final(buffer).cursor() == read_record(old(buffer).bytes(), old(buffer).cursor()).1,
            match read_record(old(buffer).bytes(), old(buffer).cursor()).0 {
                Ok(v) => r matches Ok(rec) && rec@ == v,
                Err(e) => r == Err::<DNSRecord, DnsError>(e),
            },
    {
        let ghost s = buffer.bytes();
        let mut domain = String::new();
        buffer.read_qname(&mut domain)?;
        let ghost q = buffer.cursor();

        let qtype_num = buffer.read_u16()?;
        let qtype = QueryType::from_num(qtype_num);
        let _ = buffer.read_u16()?;
        let ttl = buffer.read_u32()?;
        let data_len = buffer.read_u16()?;

        match qtype {
            QueryType::A => {
                let raw_addr = buffer.read_u32()?;
                let a = ((raw_addr >> 24) & 0xFF) as u8;
                let b = ((raw_addr >> 16) & 0xFF) as u8;
                let c = ((raw_addr >> 8) & 0xFF) as u8;
                let d = ((raw_addr >> 0) & 0xFF) as u8;
                let ghost s0 = s[q + 10];
                let ghost s1 = s[q + 11];
                let ghost s2 = s[q + 12];
                let ghost s3 = s[q + 13];
                assert(a == s0 && b == s1 && c == s2 && d == s3) by (bit_vector)
                    requires
                        raw_addr == s0 * 0x1000000 + s1 * 0x10000 + s2 * 0x100 + s3,
                        a == ((raw_addr >> 24) & 0xFF) as u8,
                        b == ((raw_addr >> 16) & 0xFF) as u8,
                        c == ((raw_addr >> 8) & 0xFF) as u8,
                        d == ((raw_addr >> 0) & 0xFF) as u8,
                ;
                let addr = Ipv4Addr::new(a, b, c, d);
                assert(addr@ =~= s.subrange(q + 10, q + 14));
                Ok(DNSRecord::A { domain, addr, ttl })
            },
            QueryType::UNKNOWN(_) => {
                buffer.step(data_len as usize)?;
                Ok(DNSRecord::UNKNOWN { domain, qtype: qtype_num, data_len, ttl })
            },
        }
    }

    /// Writes the record at the buffer's position. An address record is
    /// written with the data length 4; another record with zero bytes for its data.
    pub fn write(&self, buf: &mut BytePacketBuffer) -> (r: Result<(), DnsError>)
        ensures
            wrote(*old(buf), *final(buf), record_emission(self@).bytes),
            r == emit_result(old(buf).cursor(), record_emission(self@)),
    {
        let ghost b0 = *buf;
        let ghost e1 = name_emission(split_labels(encode_utf8(record_domain(self@))));
        let ghost t = record_tail(self@);
        let domain = match self {
            DNSRecord::A { domain, .. } => domain,
            DNSRecord::UNKNOWN { domain, .. } => domain,
        };
        let r0 = buf.write_qname(domain.as_str());
        proof {
            if r0.is_err() {
                lemma_emit_first_fails(b0, *buf, e1, plain(t));
            }
        }
        r0?;
        let ghost b1 = *buf;
        let r1 = match *self {
            DNSRecord::A { ref addr, ttl, .. } => Self::write_a_tail(buf, addr, ttl),
            DNSRecord::UNKNOWN { qtype, data_len, ttl, .. } => Self::write_unknown_tail(
                buf,
                qtype,
                data_len,
                ttl,
            ),
        };
        proof {
            lemma_emit_chain(b0, b1, *buf, e1, plain(t));
        }
        r1
    }

    /// Writes the four fixed fields after a name.
    fn write_fixed(
        buf: &mut BytePacketBuffer,
        qtype: u16,
        ttl: u32,
        data_len: u16,
    ) -> (r: Result<(), DnsError>)
        ensures
            wrote(*old(buf), *final(buf), fixed_bytes(qtype, ttl, data_len)),
            r == put_result(old(buf).cursor(), fixed_bytes(qtype, ttl, data_len)),
    {
        let ghost b0 = *buf;
        let ghost w0 = u16_bytes(qtype);
        let ghost w1 = u16_bytes(1);
        let ghost w2 = u32_bytes(ttl);
        let ghost w3 = u16_bytes(data_len);
        proof {
            lemma_wrote_nothing(b0);
        }
        let r0 = buf.write_u16(qtype);
        proof {
            lemma_wrote_then(b0, b0, *buf, seq![], w0, w1 + w2 + w3);
            assert(seq![] + w0 =~= w0);
            assert(w0 + (w1 + w2 + w3) =~= w0 + w1 + w2 + w3);
        }
        r0?;
        let ghost b1 = *buf;
        let r1 = buf.write_u16(1);  // class IN
        proof {
            lemma_wrote_then(b0, b1, *buf, w0, w1, w2 + w3);
            assert(w0 + w1 + (w2 + w3) =~= w0 + w1 + w2 + w3);
        }
        r1?;
        let ghost b2 = *buf;
        let r2 = buf.write_u32(ttl);
        proof {
            lemma_wrote_then(b0, b2, *buf, w0 + w1, w2, w3);
        }
        r2?;
        let ghost b3 = *buf;
        let r3 = buf.write_u16(data_len);
        proof {
            lemma_wrote_then(b0, b3, *buf, w0 + w1 + w2, w3, seq![]);
        }
        r3
    }

    /// Writes what follows the name of an address record.
    fn write_a_tail(buf: &mut BytePacketBuffer, addr: &Ipv4Addr, ttl: u32) -> (r: Result<
        (),
        DnsError,
    >)
        ensures
            wrote(*old(buf), *final(buf), fixed_bytes(1, ttl, 4) + addr@),
            r == put_result(old(buf).cursor(), fixed_bytes(1, ttl, 4) + addr@),
    {
        let ghost b0 = *buf;
        let ghost f = fixed_bytes(1, ttl, 4);
        let octets = addr.octets();
        let ghost o = octets@;
        let r0 = Self::write_fixed(buf, QueryType::A.to_num(), ttl, 4);
        proof {
            lemma_wrote_nothing(b0);
            lemma_wrote_then(b0, b0, *buf, seq![], f, o);
            assert(seq![] + f =~= f);
        }
        r0?;
        let ghost b1 = *buf;
        let r1 = buf.write_u8(octets[0]);
        proof {
            lemma_wrote_then(b0, b1, *buf, f, seq![o[0]], o.subrange(1, 4));
            assert(f + seq![o[0]] + o.subrange(1, 4) =~= f + o);
        }
        r1?;
        let ghost b2 = *buf;
        let r2 = buf.write_u8(octets[1]);
        proof {
            lemma_wrote_then(b0, b2, *buf, f + seq![o[0]], seq![o[1]], o.subrange(2, 4));
            assert(f + seq![o[0]] + seq![o[1]] + o.subrange(2, 4) =~= f + o);
            assert(f + seq![o[0]] + seq![o[1]] =~= f + o.subrange(0, 2));
        }
        r2?;
        let ghost b3 = *buf;
        let r3 = buf.write_u8(octets[2]);
        proof {
            lemma_wrote_then(b0, b3, *buf, f + o.subrange(0, 2), seq![o[2]], seq![o[3]]);
            assert(f + o.subrange(0, 2) + seq![o[2]] + seq![o[3]] =~= f + o);
            assert(f + o.subrange(0, 2) + seq![o[2]] =~= f + o.subrange(0, 3));
        }
        r3?;
        let ghost b4 = *buf;
        let r4 = buf.write_u8(octets[3]);
        proof {
            lemma_wrote_then(b0, b4, *buf, f + o.subrange(0, 3), seq![o[3]], seq![]);
            assert(f + o.subrange(0, 3) + seq![o[3]] =~= f + o);
        }
        r4
    }

    /// Writes what follows the name of a record of another type: its data is
    /// written as zero bytes.
    fn write_unknown_tail(buf: &mut BytePacketBuffer, qtype: u16, data_len: u16, ttl: u32) -> (r:
        Result<(), DnsError>)
        ensures
            wrote(*old(buf), *final(buf), fixed_bytes(qtype, ttl, data_len) + zeros(data_len)),
            r == put_result(old(buf).cursor(), fixed_bytes(qtype, ttl, data_len) + zeros(data_len)),
    {
        let ghost b0 = *buf;
        let ghost f = fixed_bytes(qtype, ttl, data_len);
        let ghost z = zeros(data_len);
        let r0 = Self::write_fixed(buf, qtype, ttl, data_len);
        proof {
            lemma_wrote_nothing(b0);
            lemma_wrote_then(b0, b0, *buf, seq![], f, z);
            assert(seq![] + f =~= f);
        }
        r0?;
        let mut i: u32 = 0;
        while i < data_len as u32
            invariant
                i <= data_len,
                b0.bytes().len() == 512,
                b0.cursor() >= 0,
                b0 == *old(buf),
                f == fixed_bytes(qtype, ttl, data_len),
                z == zeros(data_len),
                wrote(b0, *buf, f + z.subrange(0, i as int)),
                fits(b0.cursor(), f.len() + i),
            decreases data_len - i,
        {
            let ghost bi = *buf;
            let ri = buf.write_u8(0);
            proof {
                lemma_wrote_then(
                    b0,
                    bi,
                    *buf,
                    f + z.subrange(0, i as int),
                    seq![0u8],
                    z.subrange(i + 1, data_len as int),
                );
                assert(f + z.subrange(0, i as int) + seq![0u8] =~= f + z.subrange(0, i + 1));
                assert(f + z.subrange(0, i as int) + seq![0u8] + z.subrange(i + 1, data_len as int)
                    =~= f + z);
            }
            ri?;
            i += 1;
        }
        proof {
            assert(z.subrange(0, data_len as int) =~= z);
        }
        Ok(())
    }
}


/// A record that reads back as written: a plain domain name, four address
/// bytes for an address record, and a type other than 1 for another record.
pub open spec fn record_plain(r: RecordView) -> bool {
    plain_name(record_domain(r)) && match r {
        RecordView::A { addr, .. } => addr.len() == 4,
        RecordView::Unknown { qtype, .. } => qtype != 1,
    }
}

/// The fixed fields of a record read back as written.
proof fn lemma_fixed_roundtrip(s: Seq<u8>, c: int, qtype: u16, ttl: u32, data_len: u16)
    requires
        0 <= c,
        c + 10 <= s.len(),
        s.subrange(c, c + 10) == fixed_bytes(qtype, ttl, data_len),
    ensures
        be_u16(s, c) == qtype,
        be_u32(s, c + 4) == ttl,
        be_u16(s, c + 8) == data_len,
{
    let f = fixed_bytes(qtype, ttl, data_len);
    assert forall|k: int| 0 <= k < 10 implies s[c + k] == f[k] by {
        assert(s.subrange(c, c + 10)[k] == s[c + k]);
    }
    assert(s[c] == f[0] && s[c + 1] == f[1] && s[c + 4] == f[4] && s[c + 5] == f[5]);
    assert(s[c + 6] == f[6] && s[c + 7] == f[7] && s[c + 8] == f[8] && s[c + 9] == f[9]);
}

/// The bytes a record is written as read back from where they stand as the
/// same record, with the cursor just past them, when the record is plain;
/// writing it refuses no label.
pub proof fn lemma_record_roundtrip(s: Seq<u8>, p: int, r: RecordView)
    requires
        record_plain(r),
        s.len() == 512,
        0 <= p,
        p + record_emission(r).bytes.len() <= 512,
        s.subrange(p, p + record_emission(r).bytes.len()) == record_emission(r).bytes,
    ensures
        read_record(s, p) == (Ok::<RecordView, DnsError>(r), p + record_emission(r).bytes.len()),
        !record_emission(r).label_too_long,
{
    let domain = record_domain(r);
    let nw = name_wire(domain);
    let t = record_tail(r);
    lemma_fit_accepted(split_labels(encode_utf8(domain)));
    assert(record_emission(r).bytes == nw + t);
    lemma_holds_split(s, p, nw, t);
    lemma_name_roundtrip(domain, s, p);
    let c = p + nw.len();
    match r {
        RecordView::A { domain, addr, ttl } => {
            let f = fixed_bytes(1, ttl, 4);
            lemma_holds_split(s, c, f, addr);
            lemma_fixed_roundtrip(s, c, 1, ttl, 4);
        },
        RecordView::Unknown { domain, qtype, data_len, ttl } => {
            let f = fixed_bytes(qtype, ttl, data_len);
            lemma_holds_split(s, c, f, zeros(data_len));
            lemma_fixed_roundtrip(s, c, qtype, ttl, data_len);
        },
    }
}

} // verus!
