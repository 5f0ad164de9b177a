use vstd::prelude::*;
use vstd::utf8::encode_utf8;

use crate::bpb::{
    advance, be_u16, emit_result, fits, lemma_emit_first_fails, lemma_emit_chain, plain, chain,
    u16_bytes, wrote, BytePacketBuffer, Emission,
};
use crate::bpb::lemma_holds_split;
use crate::name::{
    lemma_fit_accepted, lemma_name_roundtrip, name_emission, name_text, name_wire, plain_name,
    read_name, split_labels,
};
use crate::error::DnsError;

verus! {

broadcast use BytePacketBuffer::lemma_buffer_shape;

/// The type of record a question asks for.
#[derive(PartialEq, Eq, Debug, Clone, Hash, Copy, Structural)]
pub enum QueryType {
    UNKNOWN(u16),
    A,
}

/// The number that stands for a query type on the wire.
pub open spec fn type_num(q: QueryType) -> u16 {
    match q {
        QueryType::UNKNOWN(x) => x,
        QueryType::A => 1,
    }
}

/// The query type a number stands for.
pub open spec fn type_of(num: u16) -> QueryType {
    if num == 1 {
        QueryType::A
    } else {
        QueryType::UNKNOWN(num)
    }
}

impl QueryType {
    /// The number that stands for this type on the wire.
    pub fn to_num(&self) -> (n: u16)
        ensures
            n == type_num(*self),
    {
        match *self {
            QueryType::UNKNOWN(x) => x,
            QueryType::A => 1,
        }
    }

    /// The type that `num` stands for: `A` for 1, and any other number kept as it is.
    pub fn from_num(num: u16) -> (q: QueryType)
        ensures
            q == type_of(num),
    {
        match num {
            1 => QueryType::A,
            _ => QueryType::UNKNOWN(num),
        }
    }
}

/// The numbers of the query types: 1 is an address query and is written as
/// 1; every other number `n` is the unknown type `n`, and the unknown type `n`
/// is written as `n`, whatever `n` is.
pub proof fn lemma_type_numbers(n: u16)
    ensures
        type_of(1) == QueryType::A,
        type_num(QueryType::A) == 1,
        n != 1 ==> type_of(n) == QueryType::UNKNOWN(n),
        type_num(QueryType::UNKNOWN(n)) == n,
{
}

/// Every number read as a query type is written back as the same number.
pub proof fn lemma_type_num_roundtrip(num: u16)
    ensures
        type_num(type_of(num)) == num,
{
}

/// Every query type written as a number reads back as itself, except
/// `UNKNOWN(1)`, which reads back as `A`.
pub proof fn lemma_type_roundtrip(q: QueryType)
    requires
        q != QueryType::UNKNOWN(1),
    ensures
        type_of(type_num(q)) == q,
{
}

/// What a question holds: a domain name and the type of record asked for.
pub struct QuestionView {
    pub qname: Seq<char>,
    pub qtype: QueryType,
}

/// A question of a DNS message.
#[derive(Debug, Clone, PartialEq, Eq, Hash)]
pub struct DNSQuestion {
    qname: String,
    qtype: QueryType,
}

impl View for DNSQuestion {
    type V = QuestionView;

    closed spec fn view(&self) -> QuestionView {
        QuestionView { qname: self.qname@, qtype: self.qtype }
    }
}

/// Reading a fresh question, of empty name, from `s` at `p`: what it gives,
/// and where the cursor ends.
pub open spec fn read_question(s: Seq<u8>, p: int) -> (Result<QuestionView, DnsError>, int) {
    let walk = read_name(s, p);
    let q = walk.cursor;
    if walk.error is Some {
        (Err(walk.error->0), q)
    } else if !fits(q, 4) {
        (Err(DnsError::BufferOverflow), advance(q, 4))
    } else {
        (
            Ok(QuestionView { qname: name_text(seq![], walk), qtype: type_of(be_u16(s, q) as u16) }),
            q + 4,
        )
    }
}

/// The bytes of the fixed part of a question after its name: the type, and the
/// class, always 1 (IN).
pub open spec fn question_tail(q: QuestionView) -> Seq<u8> {
    u16_bytes(type_num(q.qtype)) + u16_bytes(1)
}

/// What writing a question emits: its name, then its type and class.
pub open spec fn question_emission(q: QuestionView) -> Emission {
    chain(name_emission(split_labels(encode_utf8(q.qname))), plain(question_tail(q)))
}

impl DNSQuestion {
    /// A question for `qname` of type `qtype`.
    pub fn new(qname: String, qtype: QueryType) -> (q: DNSQuestion)
        ensures
            q@ == (QuestionView { qname: qname@, qtype }),
    {
        DNSQuestion { qname, qtype }
    }

    /// The domain name asked about.
    pub fn qname(&self) -> (s: &str)
        ensures
            s@ == self@.qname,
    {
        self.qname.as_str()
    }

    /// The type of record asked for.
    pub fn qtype(&self) -> (q: QueryType)
        ensures
            q == self@.qtype,
    {
        self.qtype
    }

    /// Reads a question at the buffer's position: the name is appended to the
    /// question's name, the type replaces its type, and the class is skipped.
    pub fn read(&mut self, buf: &mut BytePacketBuffer) -> (r: Result<(), DnsError>)
        ensures
            ({
                let s = old(buf).bytes();
                let walk = read_name(s, old(buf).cursor());
                let p = walk.cursor;
                &&& final(buf).bytes() == s
                &&& final(self)@.qname == name_text(old(self)@.qname, walk)
                &&& walk.error matches Some(e) ==> {
                    &&& r == Err::<(), DnsError>(e)
                    &&& final(buf).cursor() == p
                    &&& final(self)@.qtype == old(self)@.qtype
                }
                &&& walk.error is None ==> {
                    &&& final(buf).cursor() == advance(p, 4)
                    &&& final(self)@.qtype == (if fits(p, 2) {
                        type_of(be_u16(s, p) as u16)
                    } else {
                        old(self)@.qtype
                    })
                    &&& r == (if fits(p, 4) {
                        Ok::<(), DnsError>(())
                    } else {
                        Err(DnsError::BufferOverflow)
                    })
                }
            }),
    {
        buf.read_qname(&mut self.qname)?;
        self.qtype = QueryType::from_num(buf.read_u16()?);
        let _ = buf.read_u16()?;  // class
        Ok(())
    }

    /// Writes the question at the buffer's position: the name, the type, and
    /// the class 1 (IN).
    pub fn write(&self, buf: &mut BytePacketBuffer) -> (r: Result<(), DnsError>)
        ensures
            wrote(*old(buf), *final(buf), question_emission(self@).bytes),
            r == emit_result(old(buf).cursor(), question_emission(self@)),
    {
        let ghost b0 = *buf;
        let ghost e1 = name_emission(split_labels(encode_utf8(self@.qname)));
        let ghost t = question_tail(self@);
        let r0 = buf.write_qname(self.qname.as_str());
        proof {
            if r0.is_err() {
                lemma_emit_first_fails(b0, *buf, e1, plain(t));
            }
        }
        r0?;
        let ghost b1 = *buf;
        let r1 = self.write_tail(buf);
        proof {
            lemma_emit_chain(b0, b1, *buf, e1, plain(t));
        }
        r1
    }

    /// Writes the type and the class 1 (IN).
    fn write_tail(&self, buf: &mut BytePacketBuffer) -> (r: Result<(), DnsError>)
        ensures
            wrote(*old(buf), *final(buf), question_tail(self@)),
            r == emit_result(old(buf).cursor(), plain(question_tail(self@))),
    {
        let ghost b0 = *buf;
        let ghost w0 = u16_bytes(type_num(self.qtype));
        let ghost w1 = u16_bytes(1);
        let r0 = buf.write_u16(self.qtype.to_num());
        proof {
            crate::bpb::lemma_wrote_nothing(b0);
            crate::bpb::lemma_wrote_then(b0, b0, *buf, seq![], w0, w1);
            assert(seq![] + w0 =~= w0);
        }
        r0?;
        let ghost b1 = *buf;
        let r1 = buf.write_u16(1);
        proof {
            crate::bpb::lemma_wrote_then(b0, b1, *buf, w0, w1, seq![]);
        }
        r1
    }
}


/// A question that reads back as written: a plain name, and a type other than
/// `UNKNOWN(1)`.
pub open spec fn question_plain(q: QuestionView) -> bool {
    plain_name(q.qname) && q.qtype != QueryType::UNKNOWN(1)
}

/// The bytes a question is written as read back from where they stand as
/// the same question, with the cursor just past them, when the question is
/// plain; writing it refuses no label.
pub proof fn lemma_question_roundtrip(s: Seq<u8>, p: int, q: QuestionView)
    requires
        question_plain(q),
        s.len() == 512,
        0 <= p,
        p + question_emission(q).bytes.len() <= 512,
        s.subrange(p, p + question_emission(q).bytes.len()) == question_emission(q).bytes,
    ensures
        read_question(s, p) == (Ok::<QuestionView, DnsError>(q), p
            + question_emission(q).bytes.len()),
        !question_emission(q).label_too_long,
{
    let nw = name_wire(q.qname);
    let t = question_tail(q);
    lemma_fit_accepted(split_labels(encode_utf8(q.qname)));
    assert(question_emission(q).bytes == nw + t);
    lemma_holds_split(s, p, nw, t);
    lemma_name_roundtrip(q.qname, s, p);
    let c = p + nw.len();
    assert(s[c] == t[0] && s[c + 1] == t[1]) by {
        assert(s.subrange(c, c + t.len())[0] == s[c]);
        assert(s.subrange(c, c + t.len())[1] == s[c + 1]);
    }
    assert(be_u16(s, c) == type_num(q.qtype));
    lemma_type_roundtrip(q.qtype);
}

} // verus!
