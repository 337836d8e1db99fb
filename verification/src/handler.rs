//! The decisions of the query handler: which query goes upstream, what is
//! done with a request, and which reply is sent.

use vstd::prelude::*;
use crate::buffer::{emitted, BytePacketBuffer, PACKET_BUFFER_SIZE};
use crate::enums::{QueryType, ResultCode};
use crate::error::DnsError;
use crate::header::Header;
use crate::packet::{counted, packet_emission, Packet, PacketView};
use crate::question::{Question, QuestionView};
use crate::wire::overlay;

verus! {

/// The identifier of every query that is sent upstream.
pub const QUERY_ID: u16 = 6666;

/// The query for `qname` and `qtype` that is sent to a name server: one
/// question, recursion desired.
pub open spec fn query_view(qname: Seq<char>, qtype: QueryType) -> PacketView {
    PacketView {
        header: Header { id: QUERY_ID, questions: 1, recursion_desired: true, ..Header::new_spec() },
        questions: seq![QuestionView { name: qname, qtype }],
        answers: Seq::empty(),
        authorities: Seq::empty(),
        resources: Seq::empty(),
    }
}

/// Builds the query that is sent to a name server.
pub fn query_packet(qname: &str, qtype: QueryType) -> (res: Packet)
    ensures
        res@ == query_view(qname@, qtype),
{
    let mut packet = Packet::new();
    let header = Header { id: QUERY_ID, questions: 1, recursion_desired: true, ..packet.header };
    packet.header = header;
    packet.questions.push(Question::new(qname.to_owned(), qtype));
    proof {
        assert(packet@.questions =~= seq![QuestionView { name: qname@, qtype }]);
        assert(packet@.answers =~= Seq::empty());
        assert(packet@.authorities =~= Seq::empty());
        assert(packet@.resources =~= Seq::empty());
    }
    packet
}

/// The header of the reply to `request` that reports `code`: the
/// identifier and the wish for recursion are those of the request, the
/// response flag and the offer of recursion are set.
pub open spec fn reply_header(request: Header, code: ResultCode) -> Header {
    Header {
        id: request.id,
        recursion_desired: request.recursion_desired,
        recursion_available: true,
        responce: true,
        responce_code: code,
        ..Header::new_spec()
    }
}

/// The reply to `request` that reports `code` and holds no entry.
pub open spec fn bare_reply(request: Header, code: ResultCode) -> PacketView {
    PacketView {
        header: reply_header(request, code),
        questions: Seq::empty(),
        answers: Seq::empty(),
        authorities: Seq::empty(),
        resources: Seq::empty(),
    }
}

/// The reply to `request`, which asked `question`, once the resolution has
/// ended in `outcome`. A message found is passed on: its response code and
/// its answer, authority and additional sections, behind the question. A
/// failure is reported as `SERVFAIL`, without any entry.
pub open spec fn reply_view(
    request: Header,
    question: QuestionView,
    outcome: Result<PacketView, DnsError>,
) -> PacketView {
    match outcome {
        Ok(found) => PacketView {
            header: reply_header(request, found.header.responce_code),
            questions: seq![question],
            answers: found.answers,
            authorities: found.authorities,
            resources: found.resources,
        },
        Err(_) => bare_reply(request, ResultCode::SERVFAIL),
    }
}

fn reply_header_for(request: &Header, code: ResultCode) -> (res: Header)
    ensures
        res == reply_header(*request, code),
{
    Header {
        id: request.id,
        recursion_desired: request.recursion_desired,
        recursion_available: true,
        responce: true,
        responce_code: code,
        ..Header::new()
    }
}

fn bare_reply_for(request: &Header, code: ResultCode) -> (res: Packet)
    ensures
        res@ == bare_reply(*request, code),
{
    let res = Packet {
        header: reply_header_for(request, code),
        questions: Vec::new(),
        answers: Vec::new(),
        authorities: Vec::new(),
        resources: Vec::new(),
    };
    proof {
        assert(res@.questions =~= Seq::empty());
        assert(res@.answers =~= Seq::empty());
        assert(res@.authorities =~= Seq::empty());
        assert(res@.resources =~= Seq::empty());
    }
    res
}

/// What is to be done with a request.
#[derive(Debug, Clone, PartialEq, Eq)]
pub enum Handling {
    /// Resolve this question, then send the reply of `conclude`.
    Resolve(Question),
    /// Send this reply.
    Send(Packet),
}

/// Takes up a request. Its first question is taken out of it to be
/// resolved. A request without a question is answered with `FORMERR`.
pub fn begin(request: &mut Packet) -> (res: Handling)
    ensures
        final(request).header == old(request).header,
        final(request).answers == old(request).answers,
        final(request).authorities == old(request).authorities,
        final(request).resources == old(request).resources,
        old(request).questions@.len() == 0 ==> {
            &&& res matches Handling::Send(reply)
            &&& reply@ == bare_reply(old(request).header, ResultCode::FORMERR)
            &&& final(request).questions@ == old(request).questions@
        },
        old(request).questions@.len() > 0 ==> {
            &&& res matches Handling::Resolve(question)
            &&& question == old(request).questions@[0]
            &&& final(request).questions@ == old(request).questions@.remove(0)
        },
{
    if request.questions.len() == 0 {
        Handling::Send(bare_reply_for(&request.header, ResultCode::FORMERR))
    } else {
        Handling::Resolve(request.questions.remove(0))
    }
}

/// Builds the reply to `request`, which asked `question`, from the outcome
/// of the resolution.
pub fn conclude(request: &Header, question: Question, outcome: Result<Packet, DnsError>) -> (res:
    Packet)
    ensures
        res@ == reply_view(
            *request,
            question@,
            match outcome {
                Ok(found) => Ok(found@),
                Err(e) => Err(e),
            },
        ),
{
    match outcome {
        Ok(found) => {
            let mut questions: Vec<Question> = Vec::new();
            questions.push(question);
            let res = Packet {
                header: reply_header_for(request, found.header.responce_code),
                questions,
                answers: found.answers,
                authorities: found.authorities,
                resources: found.resources,
            };
            proof {
                assert(res@.questions =~= seq![question@]);
            }
            res
        },
        Err(_) => bare_reply_for(request, ResultCode::SERVFAIL),
    }
}

/// A buffer of zero bytes.
pub open spec fn blank() -> Seq<u8> {
    Seq::new(PACKET_BUFFER_SIZE as nat, |i: int| 0u8)
}

/// `header` with the truncation flag set.
pub open spec fn truncated(header: Header) -> Header {
    Header { truncated_message: true, ..header }
}

/// The reply that is sent in place of one that cannot be written: the
/// same header with the code `SERVFAIL`, and no entry.
pub open spec fn unwritable(header: Header) -> PacketView {
    PacketView {
        header: Header {
            responce_code: ResultCode::SERVFAIL,
            questions: 0,
            answers: 0,
            authoritative_entries: 0,
            resource_entries: 0,
            ..header
        },
        questions: Seq::empty(),
        answers: Seq::empty(),
        authorities: Seq::empty(),
        resources: Seq::empty(),
    }
}

/// Writes `reply` into a fresh buffer. What is to be sent are the bytes in
/// front of the cursor.
///
/// A reply that fits is written whole. Of a reply that does not fit, the
/// first 512 bytes are written, with the truncation flag set in the
/// header. A reply with a label that is too long is given up: a bare
/// `SERVFAIL` is written in its place. Either way `reply` becomes what was
/// written.
#[verifier::rlimit(50)]
pub fn encode_reply(reply: &mut Packet) -> (res: BytePacketBuffer)
    ensures
        res.wf(),
        match emitted(PACKET_BUFFER_SIZE as int, packet_emission(old(reply)@)) {
            Ok(_) => {
                &&& final(reply)@ == (PacketView { header: counted(old(reply)@), ..old(reply)@ })
                &&& res.buffer@ == overlay(blank(), 0, packet_emission(old(reply)@).bytes)
                &&& res.pos == packet_emission(old(reply)@).bytes.len()
            },
            Err(DnsError::OutOfBounds) => {
                &&& final(reply)@ == (PacketView {
                    header: truncated(counted(old(reply)@)),
                    ..old(reply)@
                })
                &&& res.buffer@ == overlay(
                    overlay(blank(), 0, packet_emission(old(reply)@).bytes),
                    0,
                    truncated(counted(old(reply)@)).wire(),
                )
                &&& res.pos == PACKET_BUFFER_SIZE
            },
            Err(_) => {
                &&& final(reply)@ == unwritable(old(reply).header)
                &&& res.buffer@ == overlay(blank(), 0, unwritable(old(reply).header).header.wire())
                &&& res.pos == 12
            },
        },
{
    let mut buffer = BytePacketBuffer::new();
    match reply.write(&mut buffer) {
        Ok(_) => buffer,
        Err(DnsError::OutOfBounds) => {
            let header = mark_truncated(&reply.header, &mut buffer);
            reply.header = header;
            buffer
        },
        Err(_) => {
            let (bare, fresh) = write_unwritable(&reply.header);
            *reply = bare;
            fresh
        },
    }
}

/// Sets the truncation flag in `header` and writes the header over the
/// start of `buffer`. The cursor is put at the end.
fn mark_truncated(header: &Header, buffer: &mut BytePacketBuffer) -> (res: Header)
    ensures
        res == truncated(*header),
        final(buffer).buffer@ == overlay(old(buffer).buffer@, 0, truncated(*header).wire()),
        final(buffer).pos == PACKET_BUFFER_SIZE,
{
    let res = Header { truncated_message: true, ..*header };
    let _ = buffer.seek(0);
    let _ = res.write(buffer);
    let _ = buffer.seek(PACKET_BUFFER_SIZE);
    res
}

/// Builds the reply that is sent in place of one that cannot be written,
/// and writes it into a fresh buffer.
fn write_unwritable(header: &Header) -> (res: (Packet, BytePacketBuffer))
    ensures
        res.0@ == unwritable(*header),
        res.1.buffer@ == overlay(blank(), 0, unwritable(*header).header.wire()),
        res.1.pos == 12,
{
    let bare = Packet {
        header: Header {
            responce_code: ResultCode::SERVFAIL,
            questions: 0,
            answers: 0,
            authoritative_entries: 0,
            resource_entries: 0,
            ..*header
        },
        questions: Vec::new(),
        answers: Vec::new(),
        authorities: Vec::new(),
        resources: Vec::new(),
    };
    let mut fresh = BytePacketBuffer::new();
    let _ = bare.header.write(&mut fresh);
    proof {
        assert(bare@.questions =~= Seq::empty());
        assert(bare@.answers =~= Seq::empty());
        assert(bare@.authorities =~= Seq::empty());
        assert(bare@.resources =~= Seq::empty());
    }
    (bare, fresh)
}

} // verus!
