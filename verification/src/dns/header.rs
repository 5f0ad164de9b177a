use vstd::prelude::*;

use crate::bpb::{
    advance, be_u16, fits, lemma_wrote_holds, lemma_wrote_nothing, lemma_wrote_then, put_result, u16_bytes, wrote,
    BytePacketBuffer,
};
use crate::error::DnsError;

verus! {

broadcast use BytePacketBuffer::lemma_buffer_shape;

/// The response code of a DNS message.
#[allow(clippy::upper_case_acronyms)]
#[derive(Copy, Clone, Debug, PartialEq, Eq, Structural)]
pub enum ResultCode {
    NOERROR,
    FORMERR,
    SERVFAIL,
    NXDOMAIN,
    NOTIMP,
    REFUSED,
}

/// The number that stands for a response code on the wire.
pub open spec fn code_num(rc: ResultCode) -> u8 {
    match rc {
        ResultCode::NOERROR => 0,
        ResultCode::FORMERR => 1,
        ResultCode::SERVFAIL => 2,
        ResultCode::NXDOMAIN => 3,
        ResultCode::NOTIMP => 4,
        ResultCode::REFUSED => 5,
    }
}

/// The response code that a number stands for, if it stands for one.
pub open spec fn code_of(value: u8) -> Option<ResultCode> {
    if value == 0 {
        Some(ResultCode::NOERROR)
    } else if value == 1 {
        Some(ResultCode::FORMERR)
    } else if value == 2 {
        Some(ResultCode::SERVFAIL)
    } else if value == 3 {
        Some(ResultCode::NXDOMAIN)
    } else if value == 4 {
        Some(ResultCode::NOTIMP)
    } else if value == 5 {
        Some(ResultCode::REFUSED)
    } else {
        None
    }
}

impl Default for ResultCode {
    fn default() -> (rc: ResultCode)
        ensures
            rc == ResultCode::NOERROR,
    {
        ResultCode::NOERROR
    }
}

impl vstd::std_specs::convert::TryFromSpecImpl<u8> for ResultCode {
    open spec fn obeys_try_from_spec() -> bool {
        true
    }

    open spec fn try_from_spec(value: u8) -> Result<ResultCode, DnsError> {
        match code_of(value) {
            Some(rc) => Ok(rc),
            None => Err(DnsError::InvalidResultCode(value)),
        }
    }
}

impl TryFrom<u8> for ResultCode {
    type Error = DnsError;

    fn try_from(value: u8) -> (r: Result<ResultCode, DnsError>)
        ensures
            r == (match code_of(value) {
                Some(rc) => Ok::<ResultCode, DnsError>(rc),
                None => Err(DnsError::InvalidResultCode(value)),
            }),
    {
        ResultCode::from_num(value)
    }
}

impl ResultCode {
    /// The response code that `value` stands for; an error for any other number.
    pub fn from_num(value: u8) -> (r: Result<ResultCode, DnsError>)
        ensures
            r == (match code_of(value) {
                Some(rc) => Ok::<ResultCode, DnsError>(rc),
                None => Err(DnsError::InvalidResultCode(value)),
            }),
    {
        match value {
            0 => Ok(ResultCode::NOERROR),
            1 => Ok(ResultCode::FORMERR),
            2 => Ok(ResultCode::SERVFAIL),
            3 => Ok(ResultCode::NXDOMAIN),
            4 => Ok(ResultCode::NOTIMP),
            5 => Ok(ResultCode::REFUSED),
            _ => Err(DnsError::InvalidResultCode(value)),
        }
    }

    /// The number that stands for this code on the wire.
    pub fn to_num(self) -> (n: u8)
        ensures
            n == code_num(self),
    {
        match self {
            ResultCode::NOERROR => 0,
            ResultCode::FORMERR => 1,
            ResultCode::SERVFAIL => 2,
            ResultCode::NXDOMAIN => 3,
            ResultCode::NOTIMP => 4,
            ResultCode::REFUSED => 5,
        }
    }
}

/// Every number a response code stands for leads back to that code.
pub proof fn lemma_code_roundtrip(rc: ResultCode)
    ensures
        code_of(code_num(rc)) == Some(rc),
        code_num(rc) < 16,
{
}

/// Every number that stands for a response code is that code's number.
pub proof fn lemma_num_roundtrip(value: u8)
    ensures
        code_of(value) matches Some(rc) ==> code_num(rc) == value,
        code_of(value) is Some <==> value <= 5,
{
}

/// The twelve-byte header of a DNS message.
#[derive(Clone, Copy, Debug, PartialEq, Eq, Structural)]
pub struct DNSHeader {
    pub id: u16,
    pub z: bool,
    pub recursion_available: bool,
    pub recursion_desired: bool,
    pub questions: u16,
    pub answers: u16,
    pub authoritative_entries: u16,
    pub resource_entries: u16,
    pub truncated_message: bool,
    pub authoritative_answer: bool,
    pub opcode: u8,
    pub response: bool,
    pub rescode: ResultCode,
    pub checking_disabled: bool,
    pub authed_data: bool,
}

/// The header with every number zero, every flag clear and the code `NOERROR`.
pub open spec fn empty_header() -> DNSHeader {
    DNSHeader {
        id: 0,
        z: false,
        recursion_available: false,
        recursion_desired: false,
        questions: 0,
        answers: 0,
        authoritative_entries: 0,
        resource_entries: 0,
        truncated_message: false,
        authoritative_answer: false,
        opcode: 0,
        response: false,
        rescode: ResultCode::NOERROR,
        checking_disabled: false,
        authed_data: false,
    }
}

impl Default for DNSHeader {
    fn default() -> (h: DNSHeader)
        ensures
            h == empty_header(),
    {
        DNSHeader::new()
    }
}

/// `1` for a set flag, `0` for a clear one.
pub open spec fn bit(b: bool) -> u8 {
    if b {
        1
    } else {
        0
    }
}

/// The first flag byte: recursion desired, truncated, authoritative answer,
/// the opcode in bits 3 to 6, and the response flag in bit 7.
pub open spec fn flags_a(h: DNSHeader) -> u8 {
    (bit(h.recursion_desired) + bit(h.truncated_message) * 2 + bit(h.authoritative_answer) * 4
        + (h.opcode % 16) * 8 + bit(h.response) * 128) as u8
}

/// The second flag byte: the response code in bits 0 to 3, then checking
/// disabled, authenticated data, z and recursion available.
pub open spec fn flags_b(h: DNSHeader) -> u8 {
    (code_num(h.rescode) % 16 + bit(h.checking_disabled) * 16 + bit(h.authed_data) * 32 + bit(
        h.z,
    ) * 64 + bit(h.recursion_available) * 128) as u8
}

/// The eight bytes of the four entry counts.
pub open spec fn count_bytes(h: DNSHeader) -> Seq<u8> {
    u16_bytes(h.questions) + u16_bytes(h.answers) + u16_bytes(h.authoritative_entries)
        + u16_bytes(h.resource_entries)
}

/// The twelve bytes a header is written as.
pub open spec fn header_bytes(h: DNSHeader) -> Seq<u8> {
    u16_bytes(h.id) + seq![flags_a(h), flags_b(h)] + count_bytes(h)
}

/// `h` with the fields of the first flag byte taken from `a`.
pub open spec fn with_flags_a(h: DNSHeader, a: u8) -> DNSHeader {
    DNSHeader {
        recursion_desired: a & 0x01 != 0,
        truncated_message: a & 0x02 != 0,
        authoritative_answer: a & 0x04 != 0,
        opcode: (a >> 3) & 0x0F,
        response: a & 0x80 != 0,
        ..h
    }
}

/// `h` with the fields of the second flag byte taken from `b`, and the code `rc`.
pub open spec fn with_flags_b(h: DNSHeader, b: u8, rc: ResultCode) -> DNSHeader {
    DNSHeader {
        rescode: rc,
        checking_disabled: b & 0x10 != 0,
        authed_data: b & 0x20 != 0,
        z: b & 0x40 != 0,
        recursion_available: b & 0x80 != 0,
        ..h
    }
}

/// Reading the four entry counts of a header from `s` at `p` into `h`; those
/// read before an error keep their new values.
pub open spec fn read_counts(h: DNSHeader, s: Seq<u8>, p: int) -> (DNSHeader, Option<DnsError>) {
    if !fits(p, 6) {
        (h, Some(DnsError::BufferOverflow))
    } else {
        let h4 = DNSHeader { questions: be_u16(s, p + 4) as u16, ..h };
        if !fits(p, 8) {
            (h4, Some(DnsError::BufferOverflow))
        } else {
            let h5 = DNSHeader { answers: be_u16(s, p + 6) as u16, ..h4 };
            if !fits(p, 10) {
                (h5, Some(DnsError::BufferOverflow))
            } else {
                let h6 = DNSHeader { authoritative_entries: be_u16(s, p + 8) as u16, ..h5 };
                if !fits(p, 12) {
                    (h6, Some(DnsError::BufferOverflow))
                } else {
                    (DNSHeader { resource_entries: be_u16(s, p + 10) as u16, ..h6 }, None)
                }
            }
        }
    }
}

/// Reading a header from `s` at `p` into `h`, field group by field group: the
/// fields that were read before an error keep their new values.
pub open spec fn read_header(h: DNSHeader, s: Seq<u8>, p: int) -> (DNSHeader, Option<DnsError>) {
    if !fits(p, 2) {
        (h, Some(DnsError::BufferOverflow))
    } else {
        let h1 = DNSHeader { id: be_u16(s, p) as u16, ..h };
        if !fits(p, 4) {
            (h1, Some(DnsError::BufferOverflow))
        } else {
            let h2 = with_flags_a(h1, s[p + 2]);
            let code = s[p + 3] & 0x0F;
            match code_of(code) {
                None => (h2, Some(DnsError::InvalidResultCode(code))),
                Some(rc) => read_counts(with_flags_b(h2, s[p + 3], rc), s, p),
            }
        }
    }
}

/// Where the cursor stands after reading a header from `p`: past the flag bytes
/// when the response code is unknown, else as far as the twelve bytes reach.
pub open spec fn header_cursor(s: Seq<u8>, p: int) -> int {
    if fits(p, 4) && code_of(s[p + 3] & 0x0F) is None {
        p + 4
    } else {
        advance(p, 12)
    }
}

/// `Ok` for no error, else the error.
pub open spec fn outcome(e: Option<DnsError>) -> Result<(), DnsError> {
    match e {
        None => Ok(()),
        Some(e) => Err(e),
    }
}

impl DNSHeader {
    /// A header with every number zero, every flag clear and the code `NOERROR`.
    pub fn new() -> (h: DNSHeader)
        ensures
            h == empty_header(),
    {
        DNSHeader {
            id: 0,
            z: false,
            recursion_available: false,
            recursion_desired: false,
            questions: 0,
            answers: 0,
            authoritative_entries: 0,
            resource_entries: 0,
            truncated_message: false,
            authoritative_answer: false,
            opcode: 0,
            response: false,
            rescode: ResultCode::NOERROR,
            checking_disabled: false,
            authed_data: false,
        }
    }

    /// Reads the header at the buffer's position into `self`.
    pub fn read(&mut self, buf: &mut BytePacketBuffer) -> (r: Result<(), DnsError>)
        ensures
            final(buf).bytes() == old(buf).bytes(),
            final(buf).cursor() == header_cursor(old(buf).bytes(), old(buf).cursor()),
            *final(self) == read_header(*old(self), old(buf).bytes(), old(buf).cursor()).0,
            r == outcome(read_header(*old(self), old(buf).bytes(), old(buf).cursor()).1),
    {
        let ghost s = buf.bytes();
        let ghost p = buf.cursor();
        self.id = buf.read_u16()?;

        let flags = buf.read_u16()?;
        let a = (flags >> 8) as u8;
        let b = (flags & 0xFF) as u8;
        let ghost s2 = s[p + 2];
        let ghost s3 = s[p + 3];
        assert(a == s2 && b == s3) by (bit_vector)
            requires
                flags == s2 * 0x100 + s3,
                a == (flags >> 8) as u8,
                b == (flags & 0xFF) as u8,
        ;
        self.read_flags(a, b)?;
        self.read_counts(buf)
    }

    /// Takes the flags and the response code from the two flag bytes.
    fn read_flags(&mut self, a: u8, b: u8) -> (r: Result<(), DnsError>)
        ensures
            match code_of(b & 0x0F) {
                None => *final(self) == with_flags_a(*old(self), a) && r == Err::<(), DnsError>(
                    DnsError::InvalidResultCode(b & 0x0F),
                ),
                Some(rc) => *final(self) == with_flags_b(with_flags_a(*old(self), a), b, rc) && r
                    == Ok::<(), DnsError>(()),
            },
    {
        self.recursion_desired = (a & (1u8 << 0)) > 0;
        self.truncated_message = (a & (1u8 << 1)) > 0;
        self.authoritative_answer = (a & (1u8 << 2)) > 0;
        self.opcode = (a >> 3) & 0x0F;
        self.response = (a & (1u8 << 7)) > 0;
        assert(((a & (1u8 << 0)) > 0) == (a & 0x01 != 0) && ((a & (1u8 << 1)) > 0) == (a & 0x02
            != 0) && ((a & (1u8 << 2)) > 0) == (a & 0x04 != 0) && ((a & (1u8 << 7)) > 0) == (a
            & 0x80 != 0)) by (bit_vector);

        self.rescode = ResultCode::from_num(b & 0x0F)?;
        self.checking_disabled = (b & (1u8 << 4)) > 0;
        self.authed_data = (b & (1u8 << 5)) > 0;
        self.z = (b & (1u8 << 6)) > 0;
        self.recursion_available = (b & (1u8 << 7)) > 0;
        assert(((b & (1u8 << 4)) > 0) == (b & 0x10 != 0) && ((b & (1u8 << 5)) > 0) == (b & 0x20
            != 0) && ((b & (1u8 << 6)) > 0) == (b & 0x40 != 0) && ((b & (1u8 << 7)) > 0) == (b
            & 0x80 != 0)) by (bit_vector);
        Ok(())
    }

    /// Reads the four entry counts that follow the flags.
    fn read_counts(&mut self, buf: &mut BytePacketBuffer) -> (r: Result<(), DnsError>)
        requires
            4 <= old(buf).cursor() <= 512,
        ensures
            final(buf).bytes() == old(buf).bytes(),
            final(buf).cursor() == advance(old(buf).cursor() - 4, 12),
            *final(self) == read_counts(*old(self), old(buf).bytes(), old(buf).cursor() - 4).0,
            r == outcome(read_counts(*old(self), old(buf).bytes(), old(buf).cursor() - 4).1),
    {
        self.questions = buf.read_u16()?;
        self.answers = buf.read_u16()?;
        self.authoritative_entries = buf.read_u16()?;
        self.resource_entries = buf.read_u16()?;
        Ok(())
    }

    /// Writes the header at the buffer's position.
    pub fn write(&self, buf: &mut BytePacketBuffer) -> (r: Result<(), DnsError>)
        ensures
            wrote(*old(buf), *final(buf), header_bytes(*self)),
            r == put_result(old(buf).cursor(), header_bytes(*self)),
    {
        let ghost b0 = *buf;
        let ghost w0 = u16_bytes(self.id);
        let ghost w1 = seq![flags_a(*self), flags_b(*self)];
        let ghost w2 = count_bytes(*self);
        assert(header_bytes(*self) =~= w0 + w1 + w2);
        proof {
            lemma_wrote_nothing(b0);
        }
        let r0 = buf.write_u16(self.id);
        proof {
            lemma_wrote_then(b0, b0, *buf, seq![], w0, w1 + w2);
            assert(seq![] + w0 =~= w0);
            assert(w0 + (w1 + w2) =~= w0 + w1 + w2);
        }
        r0?;
        let ghost c1 = *buf;
        let r1 = self.write_flags(buf);
        proof {
            lemma_wrote_then(b0, c1, *buf, w0, w1, w2);
        }
        r1?;
        let ghost c2 = *buf;
        let r2 = self.write_counts(buf);
        proof {
            lemma_wrote_then(b0, c2, *buf, w0 + w1, w2, seq![]);
        }
        r2
    }

    /// Writes the two flag bytes.
    fn write_flags(&self, buf: &mut BytePacketBuffer) -> (r: Result<(), DnsError>)
        ensures
            wrote(*old(buf), *final(buf), seq![flags_a(*self), flags_b(*self)]),
            r == put_result(old(buf).cursor(), seq![flags_a(*self), flags_b(*self)]),
    {
        let ghost b0 = *buf;
        let rd = if self.recursion_desired { 1u8 } else { 0u8 };
        let tc = if self.truncated_message { 1u8 } else { 0u8 };
        let aa = if self.authoritative_answer { 1u8 } else { 0u8 };
        let qr = if self.response { 1u8 } else { 0u8 };
        let op = self.opcode;
        let a: u8 = rd | (tc << 1) | (aa << 2) | ((op & 0x0F) << 3) | (qr << 7);
        assert(a == (rd + tc * 2 + aa * 4 + (op % 16) * 8 + qr * 128) as u8) by (bit_vector)
            requires
                rd <= 1 && tc <= 1 && aa <= 1 && qr <= 1,
                a == rd | (tc << 1) | (aa << 2) | ((op & 0x0F) << 3) | (qr << 7),
        ;
        let rc = self.rescode.to_num();
        let cd = if self.checking_disabled { 1u8 } else { 0u8 };
        let ad = if self.authed_data { 1u8 } else { 0u8 };
        let zz = if self.z { 1u8 } else { 0u8 };
        let ra = if self.recursion_available { 1u8 } else { 0u8 };
        let b: u8 = (rc & 0x0F) | (cd << 4) | (ad << 5) | (zz << 6) | (ra << 7);
        assert(b == (rc % 16 + cd * 16 + ad * 32 + zz * 64 + ra * 128) as u8) by (bit_vector)
            requires
                cd <= 1 && ad <= 1 && zz <= 1 && ra <= 1,
                b == (rc & 0x0F) | (cd << 4) | (ad << 5) | (zz << 6) | (ra << 7),
        ;
        assert(a == flags_a(*self));
        assert(b == flags_b(*self));
        proof {
            lemma_wrote_nothing(b0);
        }
        let r0 = buf.write_u8(a);
        proof {
            lemma_wrote_then(b0, b0, *buf, seq![], seq![a], seq![b]);
            assert(seq![] + seq![a] =~= seq![a]);
            assert(seq![a] + seq![b] =~= seq![a, b]);
        }
        r0?;
        let ghost c1 = *buf;
        let r1 = buf.write_u8(b);
        proof {
            lemma_wrote_then(b0, c1, *buf, seq![a], seq![b], seq![]);
        }
        r1
    }

    /// Writes the four entry counts.
    fn write_counts(&self, buf: &mut BytePacketBuffer) -> (r: Result<(), DnsError>)
        ensures
            wrote(*old(buf), *final(buf), count_bytes(*self)),
            r == put_result(old(buf).cursor(), count_bytes(*self)),
    {
        let ghost b0 = *buf;
        let ghost w0 = u16_bytes(self.questions);
        let ghost w1 = u16_bytes(self.answers);
        let ghost w2 = u16_bytes(self.authoritative_entries);
        let ghost w3 = u16_bytes(self.resource_entries);
        assert(count_bytes(*self) =~= w0 + w1 + w2 + w3);
        proof {
            lemma_wrote_nothing(b0);
        }
        let r0 = buf.write_u16(self.questions);
        proof {
            lemma_wrote_then(b0, b0, *buf, seq![], w0, w1 + w2 + w3);
            assert(seq![] + w0 =~= w0);
            assert(w0 + (w1 + w2 + w3) =~= w0 + w1 + w2 + w3);
        }
        r0?;
        let ghost c1 = *buf;
        let r1 = buf.write_u16(self.answers);
        proof {
            lemma_wrote_then(b0, c1, *buf, w0, w1, w2 + w3);
            assert(w0 + w1 + (w2 + w3) =~= w0 + w1 + w2 + w3);
        }
        r1?;
        let ghost c2 = *buf;
        let r2 = buf.write_u16(self.authoritative_entries);
        proof {
            lemma_wrote_then(b0, c2, *buf, w0 + w1, w2, w3);
        }
        r2?;
        let ghost c3 = *buf;
        let r3 = buf.write_u16(self.resource_entries);
        proof {
            lemma_wrote_then(b0, c3, *buf, w0 + w1 + w2, w3, seq![]);
        }
        r3
    }
}


/// The first flag byte reads back as the flags and opcode it was made from,
/// when the opcode fits in its four bits.
proof fn lemma_flags_a(h: DNSHeader)
    requires
        h.opcode < 16,
    ensures
        (flags_a(h) & 0x01 != 0) == h.recursion_desired,
        (flags_a(h) & 0x02 != 0) == h.truncated_message,
        (flags_a(h) & 0x04 != 0) == h.authoritative_answer,
        (flags_a(h) >> 3) & 0x0F == h.opcode,
        (flags_a(h) & 0x80 != 0) == h.response,
{
    let rd = bit(h.recursion_desired);
    let tc = bit(h.truncated_message);
    let aa = bit(h.authoritative_answer);
    let qr = bit(h.response);
    let op = h.opcode;
    let a = flags_a(h);
    assert((a & 0x01 != 0) == (rd == 1) && (a & 0x02 != 0) == (tc == 1) && (a & 0x04 != 0) == (aa
        == 1) && (a >> 3) & 0x0F == op && (a & 0x80 != 0) == (qr == 1)) by (bit_vector)
        requires
            rd <= 1 && tc <= 1 && aa <= 1 && qr <= 1 && op < 16,
            a == (rd + tc * 2 + aa * 4 + op * 8 + qr * 128) as u8,
    ;
}

/// The second flag byte reads back as the flags and response code it was
/// made from.
proof fn lemma_flags_b(h: DNSHeader)
    ensures
        flags_b(h) & 0x0F == code_num(h.rescode),
        (flags_b(h) & 0x10 != 0) == h.checking_disabled,
        (flags_b(h) & 0x20 != 0) == h.authed_data,
        (flags_b(h) & 0x40 != 0) == h.z,
        (flags_b(h) & 0x80 != 0) == h.recursion_available,
{
    let rc = code_num(h.rescode);
    let cd = bit(h.checking_disabled);
    let ad = bit(h.authed_data);
    let zz = bit(h.z);
    let ra = bit(h.recursion_available);
    let b = flags_b(h);
    assert(b & 0x0F == rc && (b & 0x10 != 0) == (cd == 1) && (b & 0x20 != 0) == (ad == 1) && (b
        & 0x40 != 0) == (zz == 1) && (b & 0x80 != 0) == (ra == 1)) by (bit_vector)
        requires
            rc < 16 && cd <= 1 && ad <= 1 && zz <= 1 && ra <= 1,
            b == (rc % 16 + cd * 16 + ad * 32 + zz * 64 + ra * 128) as u8,
    ;
}

/// Reading the twelve bytes a header is written as gives that header back, in
/// full, whatever header they are read into, when its opcode fits the four bits
/// it is written in; the cursor then stands just past them.
pub proof fn lemma_header_bytes_read(h: DNSHeader, h0: DNSHeader, s: Seq<u8>, p: int)
    requires
        h.opcode < 16,
        0 <= p,
        fits(p, 12),
        p + 12 <= s.len(),
        s.subrange(p, p + 12) == header_bytes(h),
    ensures
        read_header(h0, s, p) == (h, Option::<DnsError>::None),
        header_cursor(s, p) == p + 12,
{
    let w = header_bytes(h);
    lemma_flags_a(h);
    lemma_flags_b(h);
    lemma_code_roundtrip(h.rescode);
    let ab = seq![flags_a(h), flags_b(h)];
    assert(w == u16_bytes(h.id) + ab + count_bytes(h));
    assert((u16_bytes(h.id) + ab)[2] == ab[0]);
    assert(w[2] == flags_a(h));
    assert(w[3] == flags_b(h));
    assert(s[p + 2] == w[2]);
    assert(s[p + 3] == w[3]);
    let c = count_bytes(h);
    let q = u16_bytes(h.questions);
    let an = u16_bytes(h.answers);
    let au = u16_bytes(h.authoritative_entries);
    let re = u16_bytes(h.resource_entries);
    assert(c == q + an + au + re);
    assert(s[p] == w[0] && s[p + 1] == w[1]);
    assert(s[p + 4] == w[4] && s[p + 5] == w[5] && s[p + 6] == w[6] && s[p + 7] == w[7]);
    assert(s[p + 8] == w[8] && s[p + 9] == w[9] && s[p + 10] == w[10] && s[p + 11] == w[11]);
    assert(w[4] == c[0] && w[5] == c[1] && w[6] == c[2] && w[7] == c[3]);
    assert(w[8] == c[4] && w[9] == c[5] && w[10] == c[6] && w[11] == c[7]);
    assert(c[0] == q[0] && c[1] == q[1] && c[2] == an[0] && c[3] == an[1]);
    assert(c[4] == au[0] && c[5] == au[1] && c[6] == re[0] && c[7] == re[1]);
    assert(be_u16(s, p) == h.id);
    assert(be_u16(s, p + 4) == h.questions);
    assert(be_u16(s, p + 6) == h.answers);
    assert(be_u16(s, p + 8) == h.authoritative_entries);
    assert(be_u16(s, p + 10) == h.resource_entries);
}

/// A header written at a buffer's cursor, when all twelve bytes fit, reads back
/// from the same position as the same header, whatever header it is read into,
/// when its opcode fits the four bits it is written in.
pub proof fn lemma_header_roundtrip(
    h: DNSHeader,
    h0: DNSHeader,
    b0: BytePacketBuffer,
    b1: BytePacketBuffer,
)
    requires
        h.opcode < 16,
        wrote(b0, b1, header_bytes(h)),
        fits(b0.cursor(), 12),
    ensures
        read_header(h0, b1.bytes(), b0.cursor()) == (h, Option::<DnsError>::None),
        header_cursor(b1.bytes(), b0.cursor()) == b0.cursor() + 12,
{
    lemma_wrote_holds(b0, b1, header_bytes(h));
    lemma_header_bytes_read(h, h0, b1.bytes(), b0.cursor());
}

} // verus!
