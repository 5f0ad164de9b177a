//! The decisions of a forwarding DNS server: the query it sends to the
//! upstream resolver for a question, and the response it gives its client.

use vstd::prelude::*;

use crate::dns::header::{empty_header, DNSHeader, ResultCode};
use crate::dns::packet::{question_views, record_views, DNSPacket, PacketView};
use crate::dns::question::{DNSQuestion, QueryType, QuestionView};

verus! {

broadcast use vstd::string::group_string_axioms;

/// The id of the queries sent upstream.
pub const QUERY_ID: u16 = 6666;

/// The query sent to the upstream resolver for `qname` and `qtype`: id 6666,
/// recursion desired, one question.
pub fn lookup_query(qname: &str, qtype: QueryType) -> (packet: DNSPacket)
    ensures
        packet.header == (DNSHeader {
            id: 6666,
            questions: 1,
            recursion_desired: true,
            ..empty_header()
        }),
        packet@.questions == seq![QuestionView { qname: qname@, qtype }],
        packet@.answers.len() == 0,
        packet@.authorities.len() == 0,
        packet@.resources.len() == 0,
{
    let mut packet = DNSPacket::new();
    packet.header.id = QUERY_ID;
    packet.header.questions = 1;
    packet.header.recursion_desired = true;
    packet.questions.push(DNSQuestion::new(qname.to_string(), qtype));
    assert(packet@.questions =~= seq![QuestionView { qname: qname@, qtype }]);
    packet
}

/// Takes out of `request` the question the server answers, its last one;
/// `None`, and the request left as it is, when it has none.
pub fn take_question(request: &mut DNSPacket) -> (q: Option<DNSQuestion>)
    ensures
        old(request)@.questions.len() == 0 ==> q is None && final(request)@ == old(request)@,
        old(request)@.questions.len() > 0 ==> (q matches Some(x) && x@ == old(
            request,
        )@.questions.last() && final(request)@ == (PacketView {
            questions: old(request)@.questions.drop_last(),
            ..old(request)@
        })),
{
    let ghost before = request.questions@;
    let q = request.questions.pop();
    proof {
        if before.len() > 0 {
            assert(question_views(request.questions@) =~= question_views(before).drop_last());
        }
    }
    q
}

/// The header of a response to a request with id `id`: response, recursion
/// desired and recursion available set, the code `rescode`, no sections
/// counted, all else zero.
pub open spec fn response_header(id: u16, rescode: ResultCode) -> DNSHeader {
    DNSHeader {
        id,
        recursion_desired: true,
        recursion_available: true,
        response: true,
        rescode,
        ..empty_header()
    }
}

/// The response to the request with id `request_id` whose last question is
/// `question`, given what the upstream resolver answered, `None` when the
/// lookup failed.
///
/// A request without a question gets `FORMERR`; one whose lookup failed gets
/// `SERVFAIL`. Otherwise the response repeats the question and carries the
/// upstream response code and records, and its header counts the question and
/// the records of each section (a count past 65535 keeps its low 16 bits, as
/// the field holds no more).
pub fn build_response(
    request_id: u16,
    question: Option<DNSQuestion>,
    upstream: Option<DNSPacket>,
) -> (packet: DNSPacket)
    ensures
        match (question, upstream) {
            (None, _) => packet@ == (PacketView {
                header: response_header(request_id, ResultCode::FORMERR),
                questions: seq![],
                answers: seq![],
                authorities: seq![],
                resources: seq![],
            }),
            (Some(_), None) => packet@ == (PacketView {
                header: response_header(request_id, ResultCode::SERVFAIL),
                questions: seq![],
                answers: seq![],
                authorities: seq![],
                resources: seq![],
            }),
            (Some(q), Some(u)) => packet@ == (PacketView {
                header: DNSHeader {
                    questions: 1,
                    answers: u@.answers.len() as u16,
                    authoritative_entries: u@.authorities.len() as u16,
                    resource_entries: u@.resources.len() as u16,
                    ..response_header(request_id, u.header.rescode)
                },
                questions: seq![q@],
                answers: u@.answers,
                authorities: u@.authorities,
                resources: u@.resources,
            }),
        },
{
    let mut packet = DNSPacket::new();
    packet.header.id = request_id;
    packet.header.recursion_desired = true;
    packet.header.recursion_available = true;
    packet.header.response = true;
    assert(record_views(packet.answers@) =~= seq![]);
    assert(record_views(packet.authorities@) =~= seq![]);
    assert(record_views(packet.resources@) =~= seq![]);
    assert(packet@.questions =~= seq![]);

    match question {
        Some(question) => match upstream {
            Some(result) => {
                packet.questions.push(question);
                packet.header.rescode = result.header.rescode;
                packet.answers = result.answers;
                packet.authorities = result.authorities;
                packet.resources = result.resources;
                packet.header.questions = 1;
                packet.header.answers = packet.answers.len() as u16;
                packet.header.authoritative_entries = packet.authorities.len() as u16;
                packet.header.resource_entries = packet.resources.len() as u16;
                assert(packet@.questions =~= seq![question@]);
            },
            None => {
                packet.header.rescode = ResultCode::SERVFAIL;
            },
        },
        None => {
            packet.header.rescode = ResultCode::FORMERR;
        },
    }
    packet
}

} // verus!
