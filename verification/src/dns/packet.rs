use vstd::prelude::*;

use crate::bpb::{
    emit_result, lemma_emit_start, lemma_emit_step, lemma_holds_split, lemma_chain_all_accepts,
    lemma_chain_all_push, lemma_chain_unit, lemma_wrote_holds, plain, chain, chain_all, wrote, fits,
    lemma_chain_all_concat, BytePacketBuffer, Emission,
};
use crate::name::{lemma_fit_accepted, split_labels};
use vstd::utf8::encode_utf8;
use crate::dns::header::{
    empty_header, header_bytes, header_cursor, lemma_header_bytes_read, read_header, DNSHeader,
};
use crate::dns::question::{
    lemma_question_roundtrip, question_emission, question_plain, read_question, DNSQuestion,
    QueryType, QuestionView,
};
use crate::dns::record::{
    lemma_record_roundtrip, read_record, record_domain, record_emission, record_plain, DNSRecord,
    RecordView,
};
use crate::error::DnsError;

verus! {

broadcast use BytePacketBuffer::lemma_buffer_shape;

/// What a packet holds.
pub struct PacketView {
    pub header: DNSHeader,
    pub questions: Seq<QuestionView>,
    pub answers: Seq<RecordView>,
    pub authorities: Seq<RecordView>,
    pub resources: Seq<RecordView>,
}

/// A DNS message: a header, questions, and three sections of records.
#[derive(Clone, Debug)]
pub struct DNSPacket {
    pub header: DNSHeader,
    pub questions: Vec<DNSQuestion>,
    pub answers: Vec<DNSRecord>,
    pub authorities: Vec<DNSRecord>,
    pub resources: Vec<DNSRecord>,
}

/// What the questions of a vector hold.
pub open spec fn question_views(v: Seq<DNSQuestion>) -> Seq<QuestionView> {
    v.map_values(|q: DNSQuestion| q@)
}

/// What the records of a vector hold.
pub open spec fn record_views(v: Seq<DNSRecord>) -> Seq<RecordView> {
    v.map_values(|r: DNSRecord| r@)
}

impl View for DNSPacket {
    type V = PacketView;

    open spec fn view(&self) -> PacketView {
        PacketView {
            header: self.header,
            questions: question_views(self.questions@),
            answers: record_views(self.answers@),
            authorities: record_views(self.authorities@),
            resources: record_views(self.resources@),
        }
    }
}

/// Reading `n` questions one after another from `s` at `p`: what they give,
/// and where the cursor ends.
pub open spec fn read_questions(s: Seq<u8>, p: int, n: nat) -> (
    Result<Seq<QuestionView>, DnsError>,
    int,
)
    decreases n,
{
    if n == 0 {
        (Ok(seq![]), p)
    } else {
        let (before, c) = read_questions(s, p, (n - 1) as nat);
        match before {
            Err(e) => (Err(e), c),
            Ok(qs) => {
                let (one, c1) = read_question(s, c);
                match one {
                    Err(e) => (Err(e), c1),
                    Ok(q) => (Ok(qs.push(q)), c1),
                }
            },
        }
    }
}

/// Reading `n` records one after another from `s` at `p`: what they give, and
/// where the cursor ends.
pub open spec fn read_records(s: Seq<u8>, p: int, n: nat) -> (
    Result<Seq<RecordView>, DnsError>,
    int,
)
    decreases n,
{
    if n == 0 {
        (Ok(seq![]), p)
    } else {
        let (before, c) = read_records(s, p, (n - 1) as nat);
        match before {
            Err(e) => (Err(e), c),
            Ok(rs) => {
                let (one, c1) = read_record(s, c);
                match one {
                    Err(e) => (Err(e), c1),
                    Ok(r) => (Ok(rs.push(r)), c1),
                }
            },
        }
    }
}

/// Reading a packet from `s` at `p`: the header, then as many questions,
/// answers, authority records and additional records as the header counts.
pub open spec fn read_packet(s: Seq<u8>, p: int) -> (Result<PacketView, DnsError>, int) {
    let (h, herr) = read_header(empty_header(), s, p);
    let c0 = header_cursor(s, p);
    if herr is Some {
        (Err(herr->0), c0)
    } else {
        let (qs, c1) = read_questions(s, c0, h.questions as nat);
        match qs {
            Err(e) => (Err(e), c1),
            Ok(qs) => {
                let (ans, c2) = read_records(s, c1, h.answers as nat);
                match ans {
                    Err(e) => (Err(e), c2),
                    Ok(ans) => {
                        let (aus, c3) = read_records(s, c2, h.authoritative_entries as nat);
                        match aus {
                            Err(e) => (Err(e), c3),
                            Ok(aus) => {
                                let (res, c4) = read_records(
                                    s,
                                    c3,
                                    h.resource_entries as nat,
                                );
                                match res {
                                    Err(e) => (Err(e), c4),
                                    Ok(res) => (
                                        Ok(
                                            PacketView {
                                                header: h,
                                                questions: qs,
                                                answers: ans,
                                                authorities: aus,
                                                resources: res,
                                            },
                                        ),
                                        c4,
                                    ),
                                }
                            },
                        }
                    },
                }
            },
        }
    }
}

/// The parts a packet is written as: its header, its questions, answers,
/// authority records and additional records, in this order.
pub open spec fn packet_parts(v: PacketView) -> Seq<Emission> {
    seq![plain(header_bytes(v.header))] + v.questions.map_values(
        |q: QuestionView| question_emission(q),
    ) + v.answers.map_values(|r: RecordView| record_emission(r)) + v.authorities.map_values(
        |r: RecordView| record_emission(r),
    ) + v.resources.map_values(|r: RecordView| record_emission(r))
}

/// What writing a packet emits: its parts one after another.
pub open spec fn packet_emission(v: PacketView) -> Emission {
    chain_all(packet_parts(v))
}

impl DNSPacket {
    /// An empty packet: a header with every number zero and every flag clear,
    /// and no questions or records.
    pub fn new() -> (p: DNSPacket)
        ensures
            p.header == empty_header(),
            p.questions@.len() == 0,
            p.answers@.len() == 0,
            p.authorities@.len() == 0,
            p.resources@.len() == 0,
    {
        DNSPacket {
            header: DNSHeader::new(),
            questions: Vec::new(),
            answers: Vec::new(),
            authorities: Vec::new(),
            resources: Vec::new(),
        }
    }

    /// Reads a packet at the buffer's position: the header, then as many
    /// questions and records as it counts.
    pub fn from_buffer(buffer: &mut BytePacketBuffer) -> (r: Result<DNSPacket, DnsError>)
        ensures
            final(buffer).bytes() == old(buffer).bytes(),
            final(buffer).cursor() == read_packet(old(buffer).bytes(), old(buffer).cursor()).1,
            match read_packet(old(buffer).bytes(), old(buffer).cursor()).0 {
                Ok(v) => r matches Ok(p) && p@ == v,
                Err(e) => r == Err::<DNSPacket, DnsError>(e),
            },
    {
        let mut result = DNSPacket::new();
        result.header.read(buffer)?;

        result.questions = Self::read_questions_from(buffer, result.header.questions)?;
        result.answers = Self::read_records_from(buffer, result.header.answers)?;
        result.authorities = Self::read_records_from(buffer, result.header.authoritative_entries)?;
        result.resources = Self::read_records_from(buffer, result.header.resource_entries)?;

        Ok(result)
    }

    /// Reads `n` questions one after another.
    fn read_questions_from(buffer: &mut BytePacketBuffer, n: u16) -> (r: Result<
        Vec<DNSQuestion>,
        DnsError,
    >)
        ensures
            final(buffer).bytes() == old(buffer).bytes(),
            final(buffer).cursor() == read_questions(
                old(buffer).bytes(),
                old(buffer).cursor(),
                n as nat,
            ).1,
            match read_questions(old(buffer).bytes(), old(buffer).cursor(), n as nat).0 {
                Ok(v) => r matches Ok(qs) && question_views(qs@) == v,
                Err(e) => r == Err::<Vec<DNSQuestion>, DnsError>(e),
            },
    {
        let ghost s = buffer.bytes();
        let ghost c0 = buffer.cursor();
        let mut questions: Vec<DNSQuestion> = Vec::new();
        let mut i: u16 = 0;
        assert(question_views(questions@) =~= seq![]);
        while i < n
            invariant
                i <= n,
                buffer.bytes() == s,
                s == old(buffer).bytes(),
                c0 == old(buffer).cursor(),
                read_questions(s, c0, i as nat) == (
                    Ok::<Seq<QuestionView>, DnsError>(question_views(questions@)),
                    buffer.cursor(),
                ),
            decreases n - i,
        {
            let mut question = DNSQuestion::new(String::new(), QueryType::UNKNOWN(0));
            let rq = question.read(buffer);
            proof {
                lemma_questions_error_sticks(s, c0, (i + 1) as nat, n as nat);
            }
            rq?;
            let ghost before = question_views(questions@);
            questions.push(question);
            assert(question_views(questions@) =~= before.push(question@));
            i += 1;
        }
        Ok(questions)
    }

    /// Reads `n` records one after another.
    fn read_records_from(buffer: &mut BytePacketBuffer, n: u16) -> (r: Result<
        Vec<DNSRecord>,
        DnsError,
    >)
        ensures
            final(buffer).bytes() == old(buffer).bytes(),
            final(buffer).cursor() == read_records(
                old(buffer).bytes(),
                old(buffer).cursor(),
                n as nat,
            ).1,
            match read_records(old(buffer).bytes(), old(buffer).cursor(), n as nat).0 {
                Ok(v) => r matches Ok(rs) && record_views(rs@) == v,
                Err(e) => r == Err::<Vec<DNSRecord>, DnsError>(e),
            },
    {
        let ghost s = buffer.bytes();
        let ghost c0 = buffer.cursor();
        let mut records: Vec<DNSRecord> = Vec::new();
        let mut i: u16 = 0;
        assert(record_views(records@) =~= seq![]);
        while i < n
            invariant
                i <= n,
                buffer.bytes() == s,
                s == old(buffer).bytes(),
                c0 == old(buffer).cursor(),
                read_records(s, c0, i as nat) == (
                    Ok::<Seq<RecordView>, DnsError>(record_views(records@)),
                    buffer.cursor(),
                ),
            decreases n - i,
        {
            let rr = DNSRecord::read(buffer);
            proof {
                lemma_records_error_sticks(s, c0, (i + 1) as nat, n as nat);
            }
            let rec = rr?;
            let ghost before = record_views(records@);
            records.push(rec);
            assert(record_views(records@) =~= before.push(rec@));
            i += 1;
        }
        Ok(records)
    }

    /// Writes the packet at the buffer's position: the header, then the
    /// questions and the records of the three sections, as they are held (the
    /// header's counts are written as they stand).
    pub fn write(&self, buf: &mut BytePacketBuffer) -> (r: Result<(), DnsError>)
        ensures
            wrote(*old(buf), *final(buf), packet_emission(self@).bytes),
            r == emit_result(old(buf).cursor(), packet_emission(self@)),
    {
        let ghost b0 = *buf;
        let ghost es = packet_parts(self@);
        let ghost nq = self.questions@.len() as int;
        let ghost na = self.answers@.len() as int;
        let ghost nu = self.authorities@.len() as int;
        proof {
            lemma_emit_start(b0, es);
        }
        let ghost bk = *buf;
        let rh = self.header.write(buf);
        proof {
            lemma_emit_step(b0, bk, *buf, es, 0);
        }
        rh?;

        let mut i: usize = 0;
        while i < self.questions.len()
            invariant
                i <= self.questions@.len(),
                b0 == *old(buf),
                es == packet_parts(self@),
                nq == self.questions@.len(),
                wrote(b0, *buf, chain_all(es.take(1 + i)).bytes),
                emit_result(b0.cursor(), chain_all(es.take(1 + i))) is Ok,
            decreases self.questions@.len() - i,
        {
            let ghost bk = *buf;
            let rq = self.questions[i].write(buf);
            proof {
                assert(es[1 + i] == question_emission(self.questions@[i as int]@));
                lemma_emit_step(b0, bk, *buf, es, 1 + i);
            }
            rq?;
            i += 1;
        }
        assert(es.subrange(1 + nq, 1 + nq + na) =~= self.answers@.map_values(
            |r: DNSRecord| record_emission(r@),
        ));
        Self::write_records(buf, &self.answers, Ghost(b0), Ghost(es), Ghost(1 + nq))?;
        assert(es.subrange(1 + nq + na, 1 + nq + na + nu) =~= self.authorities@.map_values(
            |r: DNSRecord| record_emission(r@),
        ));
        Self::write_records(buf, &self.authorities, Ghost(b0), Ghost(es), Ghost(1 + nq + na))?;
        assert(es.subrange(1 + nq + na + nu, es.len() as int) =~= self.resources@.map_values(
            |r: DNSRecord| record_emission(r@),
        ));
        assert(es.take(es.len() as int) =~= es);
        assert(es.len() == 1 + nq + na + nu + self.resources@.len());
        let r = Self::write_records(
            buf,
            &self.resources,
            Ghost(b0),
            Ghost(es),
            Ghost(1 + nq + na + nu),
        );
        r
    }

    /// Writes the records of one section, which stand at `start` in the parts
    /// `es` of a packet whose writing began with `b0`.
    fn write_records(
        buf: &mut BytePacketBuffer,
        records: &Vec<DNSRecord>,
        Ghost(b0): Ghost<BytePacketBuffer>,
        Ghost(es): Ghost<Seq<Emission>>,
        Ghost(start): Ghost<int>,
    ) -> (r: Result<(), DnsError>)
        requires
            b0.bytes().len() == 512,
            b0.cursor() >= 0,
            0 <= start,
            start + records@.len() <= es.len(),
            es.subrange(start, start + records@.len()) == records@.map_values(
                |r: DNSRecord| record_emission(r@),
            ),
            wrote(b0, *old(buf), chain_all(es.take(start)).bytes),
            emit_result(b0.cursor(), chain_all(es.take(start))) is Ok,
        ensures
            r is Ok ==> r == Ok::<(), DnsError>(()) && wrote(
                b0,
                *final(buf),
                chain_all(es.take(start + records@.len())).bytes,
            )
                && emit_result(b0.cursor(), chain_all(es.take(start + records@.len()))) is Ok,
            r is Err ==> wrote(b0, *final(buf), chain_all(es).bytes) && r == emit_result(
                b0.cursor(),
                chain_all(es),
            ),
    {
        let mut i: usize = 0;
        while i < records.len()
            invariant
                i <= records@.len(),
                b0.bytes().len() == 512,
                b0.cursor() >= 0,
                0 <= start,
                start + records@.len() <= es.len(),
                es.subrange(start, start + records@.len()) == records@.map_values(
                    |r: DNSRecord| record_emission(r@),
                ),
                wrote(b0, *buf, chain_all(es.take(start + i)).bytes),
                emit_result(b0.cursor(), chain_all(es.take(start + i))) is Ok,
            decreases records@.len() - i,
        {
            let ghost bk = *buf;
            let rr = records[i].write(buf);
            proof {
                assert(es.subrange(start, start + records@.len())[i as int] == es[start + i]);
                lemma_emit_step(b0, bk, *buf, es, start + i);
            }
            rr?;
            i += 1;
        }
        Ok(())
    }
}

/// Once reading questions fails, reading more of them fails the same way.
proof fn lemma_questions_error_sticks(s: Seq<u8>, p: int, k: nat, n: nat)
    requires
        k <= n,
    ensures
        read_questions(s, p, k).0 is Err ==> read_questions(s, p, n) == read_questions(s, p, k),
    decreases n,
{
    if k < n {
        lemma_questions_error_sticks(s, p, k, (n - 1) as nat);
    }
}

/// Once reading records fails, reading more of them fails the same way.
proof fn lemma_records_error_sticks(s: Seq<u8>, p: int, k: nat, n: nat)
    requires
        k <= n,
    ensures
        read_records(s, p, k).0 is Err ==> read_records(s, p, n) == read_records(s, p, k),
    decreases n,
{
    if k < n {
        lemma_records_error_sticks(s, p, k, (n - 1) as nat);
    }
}


/// The emissions of questions, one after another.
pub open spec fn questions_emission(qs: Seq<QuestionView>) -> Emission {
    chain_all(qs.map_values(|q: QuestionView| question_emission(q)))
}

/// The emissions of records, one after another.
pub open spec fn records_emission(rs: Seq<RecordView>) -> Emission {
    chain_all(rs.map_values(|r: RecordView| record_emission(r)))
}

/// Questions written one after another read back as the same questions.
pub proof fn lemma_questions_roundtrip(s: Seq<u8>, c: int, qs: Seq<QuestionView>)
    requires
        forall|k: int| 0 <= k < qs.len() ==> question_plain(#[trigger] qs[k]),
        s.len() == 512,
        0 <= c,
        c + questions_emission(qs).bytes.len() <= 512,
        s.subrange(c, c + questions_emission(qs).bytes.len()) == questions_emission(qs).bytes,
    ensures
        read_questions(s, c, qs.len()) == (Ok::<Seq<QuestionView>, DnsError>(qs), c
            + questions_emission(qs).bytes.len()),
        !questions_emission(qs).label_too_long,
    decreases qs.len(),
{
    let es = qs.map_values(|q: QuestionView| question_emission(q));
    assert forall|k: int| 0 <= k < es.len() implies !(#[trigger] es[k]).label_too_long by {
        lemma_fit_accepted(split_labels(encode_utf8(qs[k].qname)));
    }
    lemma_chain_all_accepts(es);
    if qs.len() == 0 {
        assert(qs =~= Seq::<QuestionView>::empty());
    } else {
        let before = qs.drop_last();
        let q = qs.last();
        let esb = before.map_values(|q: QuestionView| question_emission(q));
        assert(es =~= esb.push(question_emission(q)));
        lemma_chain_all_push(esb, question_emission(q));
        assert forall|k: int| 0 <= k < esb.len() implies !(#[trigger] esb[k]).label_too_long by {
            assert(esb[k] == es[k]);
        }
        lemma_chain_all_accepts(esb);
        let eb = questions_emission(before);
        assert(questions_emission(qs).bytes == eb.bytes + question_emission(q).bytes);
        lemma_holds_split(s, c, eb.bytes, question_emission(q).bytes);
        assert forall|k: int| 0 <= k < before.len() implies question_plain(#[trigger] before[k]) by {
            assert(before[k] == qs[k]);
        }
        lemma_questions_roundtrip(s, c, before);
        lemma_question_roundtrip(s, c + eb.bytes.len(), q);
        assert(before.push(q) =~= qs);
    }
}

/// Records written one after another read back as the same records.
pub proof fn lemma_records_roundtrip(s: Seq<u8>, c: int, rs: Seq<RecordView>)
    requires
        forall|k: int| 0 <= k < rs.len() ==> record_plain(#[trigger] rs[k]),
        s.len() == 512,
        0 <= c,
        c + records_emission(rs).bytes.len() <= 512,
        s.subrange(c, c + records_emission(rs).bytes.len()) == records_emission(rs).bytes,
    ensures
        read_records(s, c, rs.len()) == (Ok::<Seq<RecordView>, DnsError>(rs), c
            + records_emission(rs).bytes.len()),
        !records_emission(rs).label_too_long,
    decreases rs.len(),
{
    let es = rs.map_values(|r: RecordView| record_emission(r));
    assert forall|k: int| 0 <= k < es.len() implies !(#[trigger] es[k]).label_too_long by {
        lemma_fit_accepted(split_labels(encode_utf8(record_domain(rs[k]))));
    }
    lemma_chain_all_accepts(es);
    if rs.len() == 0 {
        assert(rs =~= Seq::<RecordView>::empty());
    } else {
        let before = rs.drop_last();
        let r = rs.last();
        let esb = before.map_values(|r: RecordView| record_emission(r));
        assert(es =~= esb.push(record_emission(r)));
        lemma_chain_all_push(esb, record_emission(r));
        assert forall|k: int| 0 <= k < esb.len() implies !(#[trigger] esb[k]).label_too_long by {
            assert(esb[k] == es[k]);
        }
        lemma_chain_all_accepts(esb);
        let eb = records_emission(before);
        assert(records_emission(rs).bytes == eb.bytes + record_emission(r).bytes);
        lemma_holds_split(s, c, eb.bytes, record_emission(r).bytes);
        assert forall|k: int| 0 <= k < before.len() implies record_plain(#[trigger] before[k]) by {
            assert(before[k] == rs[k]);
        }
        lemma_records_roundtrip(s, c, before);
        lemma_record_roundtrip(s, c + eb.bytes.len(), r);
        assert(before.push(r) =~= rs);
    }
}


/// A packet that reads back as written: its header counts its questions and
/// records, its opcode fits in four bits, and each question and record reads
/// back as written.
pub open spec fn packet_plain(v: PacketView) -> bool {
    &&& v.header.opcode < 16
    &&& v.header.questions == v.questions.len()
    &&& v.header.answers == v.answers.len()
    &&& v.header.authoritative_entries == v.authorities.len()
    &&& v.header.resource_entries == v.resources.len()
    &&& forall|k: int| 0 <= k < v.questions.len() ==> question_plain(#[trigger] v.questions[k])
    &&& forall|k: int| 0 <= k < v.answers.len() ==> record_plain(#[trigger] v.answers[k])
    &&& forall|k: int| 0 <= k < v.authorities.len() ==> record_plain(#[trigger] v.authorities[k])
    &&& forall|k: int| 0 <= k < v.resources.len() ==> record_plain(#[trigger] v.resources[k])
}

/// The emission of a packet is its header, then its questions and the records
/// of each section.
proof fn lemma_packet_emission_parts(v: PacketView)
    ensures
        packet_emission(v) == chain(
            chain(
                chain(
                    chain(plain(header_bytes(v.header)), questions_emission(v.questions)),
                    records_emission(v.answers),
                ),
                records_emission(v.authorities),
            ),
            records_emission(v.resources),
        ),
{
    let h = seq![plain(header_bytes(v.header))];
    let q = v.questions.map_values(|q: QuestionView| question_emission(q));
    let a = v.answers.map_values(|r: RecordView| record_emission(r));
    let u = v.authorities.map_values(|r: RecordView| record_emission(r));
    let r = v.resources.map_values(|r: RecordView| record_emission(r));
    lemma_chain_all_concat(h + q + a + u, r);
    lemma_chain_all_concat(h + q + a, u);
    lemma_chain_all_concat(h + q, a);
    lemma_chain_all_concat(h, q);
    assert(h.drop_first() =~= Seq::<Emission>::empty());
    assert(chain_all(h.drop_first()) == plain(seq![]));
    lemma_chain_unit(plain(header_bytes(v.header)));
}

/// The bytes a plain packet is written as read back from where they stand as
/// the same packet, with the cursor just past them; writing it refuses no label.
pub proof fn lemma_packet_bytes_roundtrip(s: Seq<u8>, p: int, v: PacketView)
    requires
        packet_plain(v),
        s.len() == 512,
        0 <= p,
        p + packet_emission(v).bytes.len() <= 512,
        s.subrange(p, p + packet_emission(v).bytes.len()) == packet_emission(v).bytes,
    ensures
        read_packet(s, p) == (Ok::<PacketView, DnsError>(v), p + packet_emission(v).bytes.len()),
        !packet_emission(v).label_too_long,
{
    lemma_packet_emission_parts(v);
    let hb = header_bytes(v.header);
    let qe = questions_emission(v.questions);
    let ae = records_emission(v.answers);
    let ue = records_emission(v.authorities);
    let re = records_emission(v.resources);
    let qes = v.questions.map_values(|q: QuestionView| question_emission(q));
    assert forall|k: int| 0 <= k < qes.len() implies !(#[trigger] qes[k]).label_too_long by {
        lemma_fit_accepted(split_labels(encode_utf8(v.questions[k].qname)));
    }
    lemma_chain_all_accepts(qes);
    let aes = v.answers.map_values(|r: RecordView| record_emission(r));
    assert forall|k: int| 0 <= k < aes.len() implies !(#[trigger] aes[k]).label_too_long by {
        lemma_fit_accepted(split_labels(encode_utf8(record_domain(v.answers[k]))));
    }
    lemma_chain_all_accepts(aes);
    let ues = v.authorities.map_values(|r: RecordView| record_emission(r));
    assert forall|k: int| 0 <= k < ues.len() implies !(#[trigger] ues[k]).label_too_long by {
        lemma_fit_accepted(split_labels(encode_utf8(record_domain(v.authorities[k]))));
    }
    lemma_chain_all_accepts(ues);
    let res = v.resources.map_values(|r: RecordView| record_emission(r));
    assert forall|k: int| 0 <= k < res.len() implies !(#[trigger] res[k]).label_too_long by {
        lemma_fit_accepted(split_labels(encode_utf8(record_domain(v.resources[k]))));
    }
    lemma_chain_all_accepts(res);
    let all = packet_emission(v).bytes;
    assert(all == hb + qe.bytes + ae.bytes + ue.bytes + re.bytes);
    lemma_holds_split(s, p, hb + qe.bytes + ae.bytes + ue.bytes, re.bytes);
    lemma_holds_split(s, p, hb + qe.bytes + ae.bytes, ue.bytes);
    lemma_holds_split(s, p, hb + qe.bytes, ae.bytes);
    lemma_holds_split(s, p, hb, qe.bytes);
    lemma_header_bytes_read(v.header, empty_header(), s, p);
    let c1 = p + 12;
    lemma_questions_roundtrip(s, c1, v.questions);
    let c2 = c1 + qe.bytes.len();
    lemma_records_roundtrip(s, c2, v.answers);
    let c3 = c2 + ae.bytes.len();
    lemma_records_roundtrip(s, c3, v.authorities);
    let c4 = c3 + ue.bytes.len();
    lemma_records_roundtrip(s, c4, v.resources);
}

/// A plain packet written in full at a buffer's cursor reads back from the
/// same position as the same packet, with the cursor just past it.
pub proof fn lemma_packet_roundtrip(v: PacketView, b0: BytePacketBuffer, b1: BytePacketBuffer)
    requires
        packet_plain(v),
        wrote(b0, b1, packet_emission(v).bytes),
        fits(b0.cursor(), packet_emission(v).bytes.len() as int),
    ensures
        emit_result(b0.cursor(), packet_emission(v)) == Ok::<(), DnsError>(()),
        read_packet(b1.bytes(), b0.cursor()) == (Ok::<PacketView, DnsError>(v), b0.cursor()
            + packet_emission(v).bytes.len()),
{
    lemma_wrote_holds(b0, b1, packet_emission(v).bytes);
    lemma_packet_bytes_roundtrip(b1.bytes(), b0.cursor(), v);
}

} // verus!
