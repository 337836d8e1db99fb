//! Whole messages: a header and four sections.

use vstd::prelude::*;
use vstd::utf8::encode_utf8;
use crate::buffer::{emitted, BytePacketBuffer};
use crate::enums::QueryType;
use crate::error::DnsError;
use crate::header::{Header, HEADER_SIZE};
use crate::name::Emission;
use crate::question::{question_at, question_emission, run_out, Parsed, Question, QuestionView};
use crate::record::{record_at, record_emission, DnsRecord, RecordView};

verus! {

/// A message: a header, the questions, and the records of the answer,
/// authority and additional sections.
#[derive(Debug, Clone, PartialEq, Eq)]
pub struct Packet {
    pub header: Header,
    pub questions: Vec<Question>,
    pub answers: Vec<DnsRecord>,
    pub authorities: Vec<DnsRecord>,
    pub resources: Vec<DnsRecord>,
}

/// A message as a mathematical value.
pub struct PacketView {
    pub header: Header,
    pub questions: Seq<QuestionView>,
    pub answers: Seq<RecordView>,
    pub authorities: Seq<RecordView>,
    pub resources: Seq<RecordView>,
}

/// The questions of `list` as mathematical values.
pub open spec fn question_views(list: Seq<Question>) -> Seq<QuestionView> {
    Seq::new(list.len(), |i: int| list[i]@)
}

/// The records of `list` as mathematical values.
pub open spec fn record_views(list: Seq<DnsRecord>) -> Seq<RecordView> {
    Seq::new(list.len(), |i: int| list[i]@)
}

impl View for Packet {
    type V = PacketView;

    open spec fn view(&self) -> PacketView {
        PacketView {
            header: self.header,
            questions: question_views(self.questions@),
            answers: record_views(self.answers@),
            authorities: record_views(self.authorities@),
            resources: record_views(self.resources@),
        }
    }
}

/// The first `n` questions that `bytes` holds from `at` on, one behind the
/// other. The first question that cannot be read ends the reading.
pub open spec fn questions_at(bytes: Seq<u8>, at: int, n: nat) -> Parsed<Seq<QuestionView>>
    decreases n,
{
    if n == 0 {
        Parsed { cursor: at, value: Ok(Seq::empty()) }
    } else {
        let before = questions_at(bytes, at, (n - 1) as nat);
        match before.value {
            Err(_) => before,
            Ok(list) => {
                let next = question_at(bytes, before.cursor);
                Parsed {
                    cursor: next.cursor,
                    value: match next.value {
                        Err(e) => Err(e),
                        Ok(q) => Ok(list.push(q)),
                    },
                }
            },
        }
    }
}

/// The first `n` records that `bytes` holds from `at` on, one behind the
/// other. The first record that cannot be read ends the reading.
pub open spec fn records_at(bytes: Seq<u8>, at: int, n: nat) -> Parsed<Seq<RecordView>>
    decreases n,
{
    if n == 0 {
        Parsed { cursor: at, value: Ok(Seq::empty()) }
    } else {
        let before = records_at(bytes, at, (n - 1) as nat);
        match before.value {
            Err(_) => before,
            Ok(list) => {
                let next = record_at(bytes, before.cursor);
                Parsed {
                    cursor: next.cursor,
                    value: match next.value {
                        Err(e) => Err(e),
                        Ok(r) => Ok(list.push(r)),
                    },
                }
            },
        }
    }
}

/// The four sections that `bytes` holds at `at` behind `header`: as many
/// questions, answers, authority records and additional records as
/// `header` counts.
pub open spec fn sections_at(bytes: Seq<u8>, at: int, header: Header) -> Parsed<PacketView> {
    let questions = questions_at(bytes, at, header.questions as nat);
    match questions.value {
        Err(e) => Parsed { cursor: questions.cursor, value: Err(e) },
        Ok(qs) => {
            let answers = records_at(bytes, questions.cursor, header.answers as nat);
            match answers.value {
                Err(e) => Parsed { cursor: answers.cursor, value: Err(e) },
                Ok(an) => {
                    let authorities = records_at(
                        bytes,
                        answers.cursor,
                        header.authoritative_entries as nat,
                    );
                    match authorities.value {
                        Err(e) => Parsed { cursor: authorities.cursor, value: Err(e) },
                        Ok(ns) => {
                            let resources = records_at(
                                bytes,
                                authorities.cursor,
                                header.resource_entries as nat,
                            );
                            Parsed {
                                cursor: resources.cursor,
                                value: match resources.value {
                                    Err(e) => Err(e),
                                    Ok(ar) => Ok(
                                        PacketView {
                                            header,
                                            questions: qs,
                                            answers: an,
                                            authorities: ns,
                                            resources: ar,
                                        },
                                    ),
                                },
                            }
                        },
                    }
                },
            }
        },
    }
}

/// The message that `bytes` holds at `at`: a header of twelve bytes, then
/// the sections that it counts.
pub open spec fn packet_at(bytes: Seq<u8>, at: int) -> Parsed<PacketView> {
    if at < 0 || at + HEADER_SIZE > bytes.len() {
        Parsed { cursor: run_out(bytes, at), value: Err(DnsError::OutOfBounds) }
    } else {
        sections_at(bytes, at + HEADER_SIZE, Header::at(bytes, at))
    }
}

/// The first `n` of `parts`, one behind the other.
pub open spec fn chain(parts: Seq<Emission>, n: nat) -> Emission
    decreases n,
{
    if n == 0 {
        Emission::plain(Seq::empty())
    } else {
        chain(parts, (n - 1) as nat).followed_by(parts[n - 1])
    }
}

/// The bytes of a section of questions.
pub open spec fn questions_emission(list: Seq<QuestionView>) -> Emission {
    chain(Seq::new(list.len(), |i: int| question_emission(list[i])), list.len())
}

/// The bytes of a section of records.
pub open spec fn records_emission(list: Seq<RecordView>) -> Emission {
    chain(Seq::new(list.len(), |i: int| record_emission(list[i])), list.len())
}

/// The counter of a section of `len` entries: `len` itself where sixteen
/// bits hold it, else its low sixteen bits.
pub open spec fn count_field(len: nat) -> u16 {
    if len <= 0xFFFF {
        len as u16
    } else {
        (len % 0x1_0000) as u16
    }
}

/// `header` with its four counters set from the lengths of the sections of
/// `p`.
pub open spec fn counted(p: PacketView) -> Header {
    Header {
        questions: count_field(p.questions.len()),
        answers: count_field(p.answers.len()),
        authoritative_entries: count_field(p.authorities.len()),
        resource_entries: count_field(p.resources.len()),
        ..p.header
    }
}

/// Each counter of `header` is the length of its section of `p`, wherever
/// that length can be held in sixteen bits.
pub open spec fn counts_match(header: Header, p: PacketView) -> bool {
    &&& p.questions.len() <= 0xFFFF ==> header.questions == p.questions.len()
    &&& p.answers.len() <= 0xFFFF ==> header.answers == p.answers.len()
    &&& p.authorities.len() <= 0xFFFF ==> header.authoritative_entries == p.authorities.len()
    &&& p.resources.len() <= 0xFFFF ==> header.resource_entries == p.resources.len()
}

/// A header counted from the sections of `p` has counters that match
/// them.
pub proof fn lemma_counted_matches(p: PacketView)
    ensures
        counts_match(counted(p), p),
{
}

/// The bytes of the four sections, one behind the other.
pub open spec fn sections_emission(
    questions: Seq<QuestionView>,
    answers: Seq<RecordView>,
    authorities: Seq<RecordView>,
    resources: Seq<RecordView>,
) -> Emission {
    questions_emission(questions).followed_by(records_emission(answers)).followed_by(
        records_emission(authorities),
    ).followed_by(records_emission(resources))
}

/// The bytes of `header` followed by those of the four sections.
pub open spec fn parts_emission(
    header: Header,
    questions: Seq<QuestionView>,
    answers: Seq<RecordView>,
    authorities: Seq<RecordView>,
    resources: Seq<RecordView>,
) -> Emission {
    Emission::plain(header.wire()).followed_by(
        sections_emission(questions, answers, authorities, resources),
    )
}

/// The bytes of a message: the header, its counters set from the sections,
/// then the four sections in order.
pub open spec fn packet_emission(p: PacketView) -> Emission {
    parts_emission(counted(p), p.questions, p.answers, p.authorities, p.resources)
}

/// Once reading questions has failed, asking for more questions changes
/// nothing.
pub proof fn lemma_questions_failure_stays(bytes: Seq<u8>, at: int, k: nat, n: nat)
    requires
        k <= n,
        questions_at(bytes, at, k).value is Err,
    ensures
        questions_at(bytes, at, n) == questions_at(bytes, at, k),
    decreases n,
{
    if n > k {
        lemma_questions_failure_stays(bytes, at, k, (n - 1) as nat);
    }
}

/// Once reading records has failed, asking for more records changes
/// nothing.
pub proof fn lemma_records_failure_stays(bytes: Seq<u8>, at: int, k: nat, n: nat)
    requires
        k <= n,
        records_at(bytes, at, k).value is Err,
    ensures
        records_at(bytes, at, n) == records_at(bytes, at, k),
    decreases n,
{
    if n > k {
        lemma_records_failure_stays(bytes, at, k, (n - 1) as nat);
    }
}

/// Once a chain of emissions has failed in a buffer, the buffer is also what
/// any longer chain leaves, and so is the error.
pub proof fn lemma_chain_failure_stays(
    before: BytePacketBuffer,
    after: BytePacketBuffer,
    parts: Seq<Emission>,
    k: nat,
    n: nat,
)
    requires
        k <= n,
        before.wrote(&after, chain(parts, k).bytes),
        emitted(before.room(), chain(parts, k)) is Err,
    ensures
        before.wrote(&after, chain(parts, n).bytes),
        emitted(before.room(), chain(parts, n)) == emitted(before.room(), chain(parts, k)),
    decreases n,
{
    if n > k {
        lemma_chain_failure_stays(before, after, parts, k, (n - 1) as nat);
        let shorter = chain(parts, (n - 1) as nat);
        if !shorter.too_long {
            BytePacketBuffer::lemma_wrote_more(before, after, shorter.bytes, parts[n - 1].bytes);
        }
    }
}

/// The counter for a section of `len` entries.
fn count_of(len: usize) -> (res: u16)
    ensures
        res == count_field(len as nat),
{
    if len <= 0xFFFF {
        len as u16
    } else {
        (len % 0x1_0000) as u16
    }
}

fn read_questions(buffer: &mut BytePacketBuffer, count: u16) -> (res: Result<
    Vec<Question>,
    DnsError,
>)
    ensures
        final(buffer).buffer == old(buffer).buffer,
        final(buffer).pos == questions_at(
            old(buffer).buffer@,
            old(buffer).pos as int,
            count as nat,
        ).cursor,
        match questions_at(old(buffer).buffer@, old(buffer).pos as int, count as nat).value {
            Ok(v) => res matches Ok(list) && question_views(list@) == v,
            Err(e) => res matches Err(f) && f == e,
        },
{
    let ghost bytes = buffer.buffer@;
    let ghost start = buffer.pos as int;
    let mut list: Vec<Question> = Vec::new();
    let mut k: u16 = 0;
    assert(question_views(list@) =~= Seq::empty());
    while k < count
        invariant
            k <= count,
            buffer.buffer == old(buffer).buffer,
            bytes == old(buffer).buffer@,
            start == old(buffer).pos,
            questions_at(bytes, start, k as nat) == (Parsed {
                cursor: buffer.pos as int,
                value: Ok::<Seq<QuestionView>, DnsError>(question_views(list@)),
            }),
        decreases count - k,
    {
        let ghost seen = question_views(list@);
        let mut question = Question::new(String::new(), QueryType::UNKNOWN(0));
        let r = question.read(buffer);
        if let Err(e) = r {
            proof {
                lemma_questions_failure_stays(bytes, start, (k + 1) as nat, count as nat);
            }
            return Err(e);
        }
        proof {
            let read = question_at(bytes, questions_at(bytes, start, k as nat).cursor);
            assert(question.name@ =~= read.value->Ok_0.name);
        }
        list.push(question);
        proof {
            assert(question_views(list@) =~= seen.push(question@));
        }
        k += 1;
    }
    Ok(list)
}

fn read_records(buffer: &mut BytePacketBuffer, count: u16) -> (res: Result<
    Vec<DnsRecord>,
    DnsError,
>)
    ensures
        final(buffer).buffer == old(buffer).buffer,
        final(buffer).pos == records_at(
            old(buffer).buffer@,
            old(buffer).pos as int,
            count as nat,
        ).cursor,
        match records_at(old(buffer).buffer@, old(buffer).pos as int, count as nat).value {
            Ok(v) => res matches Ok(list) && record_views(list@) == v,
            Err(e) => res matches Err(f) && f == e,
        },
{
    let ghost bytes = buffer.buffer@;
    let ghost start = buffer.pos as int;
    let mut list: Vec<DnsRecord> = Vec::new();
    let mut k: u16 = 0;
    assert(record_views(list@) =~= Seq::empty());
    while k < count
        invariant
            k <= count,
            buffer.buffer == old(buffer).buffer,
            bytes == old(buffer).buffer@,
            start == old(buffer).pos,
            records_at(bytes, start, k as nat) == (Parsed {
                cursor: buffer.pos as int,
                value: Ok::<Seq<RecordView>, DnsError>(record_views(list@)),
            }),
        decreases count - k,
    {
        let ghost seen = record_views(list@);
        match DnsRecord::read(buffer) {
            Err(e) => {
                proof {
                    lemma_records_failure_stays(bytes, start, (k + 1) as nat, count as nat);
                }
                return Err(e);
            },
            Ok(record) => {
                list.push(record);
                proof {
                    assert(record_views(list@) =~= seen.push(record@));
                }
            },
        }
        k += 1;
    }
    Ok(list)
}

fn write_questions(buffer: &mut BytePacketBuffer, list: &Vec<Question>) -> (res: Result<
    (),
    DnsError,
>)
    ensures
        old(buffer).wrote(final(buffer), questions_emission(question_views(list@)).bytes),
        res == emitted(old(buffer).room(), questions_emission(question_views(list@))),
{
    let ghost start = *buffer;
    let ghost views = question_views(list@);
    let ghost parts = Seq::new(views.len(), |i: int| question_emission(views[i]));
    let n = list.len();
    let mut k: usize = 0;
    assert(crate::wire::overlay(buffer.buffer@, buffer.pos as int, Seq::<u8>::empty())
        =~= buffer.buffer@);
    while k < n
        invariant
            start == *old(buffer),
            n == list@.len(),
            k <= n,
            views == question_views(list@),
            parts == Seq::new(views.len(), |i: int| question_emission(views[i])),
            start.wrote(buffer, chain(parts, k as nat).bytes),
            emitted(start.room(), chain(parts, k as nat)) is Ok,
        decreases n - k,
    {
        let ghost mid = *buffer;
        let r = list[k].write(buffer);
        proof {
            BytePacketBuffer::lemma_emitted_then(
                start,
                mid,
                *buffer,
                chain(parts, k as nat),
                parts[k as int],
                Ok(()),
                r,
            );
        }
        if r.is_err() {
            proof {
                lemma_chain_failure_stays(start, *buffer, parts, (k + 1) as nat, n as nat);
            }
            return r;
        }
        k += 1;
    }
    Ok(())
}

fn write_records(buffer: &mut BytePacketBuffer, list: &Vec<DnsRecord>) -> (res: Result<
    (),
    DnsError,
>)
    ensures
        old(buffer).wrote(final(buffer), records_emission(record_views(list@)).bytes),
        res == emitted(old(buffer).room(), records_emission(record_views(list@))),
{
    let ghost start = *buffer;
    let ghost views = record_views(list@);
    let ghost parts = Seq::new(views.len(), |i: int| record_emission(views[i]));
    let n = list.len();
    let mut k: usize = 0;
    assert(crate::wire::overlay(buffer.buffer@, buffer.pos as int, Seq::<u8>::empty())
        =~= buffer.buffer@);
    while k < n
        invariant
            start == *old(buffer),
            n == list@.len(),
            k <= n,
            views == record_views(list@),
            parts == Seq::new(views.len(), |i: int| record_emission(views[i])),
            start.wrote(buffer, chain(parts, k as nat).bytes),
            emitted(start.room(), chain(parts, k as nat)) is Ok,
        decreases n - k,
    {
        let ghost mid = *buffer;
        let r = list[k].write(buffer);
        proof {
            BytePacketBuffer::lemma_emitted_then(
                start,
                mid,
                *buffer,
                chain(parts, k as nat),
                parts[k as int],
                Ok(()),
                r,
            );
        }
        if r.is_err() {
            proof {
                lemma_chain_failure_stays(start, *buffer, parts, (k + 1) as nat, n as nat);
            }
            return r;
        }
        k += 1;
    }
    Ok(())
}

impl Packet {
    /// A message with a zero header and no entries.
    pub fn new() -> (res: Self)
        ensures
            res.header == Header::new_spec(),
            res.questions@.len() == 0,
            res.answers@.len() == 0,
            res.authorities@.len() == 0,
            res.resources@.len() == 0,
    {
        Self {
            header: Header::new(),
            questions: Vec::new(),
            answers: Vec::new(),
            authorities: Vec::new(),
            resources: Vec::new(),
        }
    }

    /// Reads a message at the cursor.
    pub fn from_buffer(buffer: &mut BytePacketBuffer) -> (res: Result<Packet, DnsError>)
        ensures
            final(buffer).buffer == old(buffer).buffer,
            final(buffer).pos == packet_at(old(buffer).buffer@, old(buffer).pos as int).cursor,
            match packet_at(old(buffer).buffer@, old(buffer).pos as int).value {
                Ok(v) => res matches Ok(packet) && packet@ == v,
                Err(e) => res matches Err(f) && f == e,
            },
    {
        let mut header = Header::new();
        header.read(buffer)?;
        let questions = read_questions(buffer, header.questions)?;
        let answers = read_records(buffer, header.answers)?;
        let authorities = read_records(buffer, header.authoritative_entries)?;
        let resources = read_records(buffer, header.resource_entries)?;
        Ok(Packet { header, questions, answers, authorities, resources })
    }

    /// Sets the four counters of the header from the sections, then writes
    /// the message at the cursor, as far as it fits and up to the first
    /// label that is too long.
    ///
    /// A counter holds the length of its section wherever that length can
    /// be held in sixteen bits.
    #[verifier::rlimit(50)]
    pub fn write(&mut self, buffer: &mut BytePacketBuffer) -> (res: Result<(), DnsError>)
        ensures
            final(self).questions == old(self).questions,
            final(self).header == counted(old(self)@),
            counts_match(final(self).header, old(self)@),
            final(self).answers == old(self).answers,
            final(self).authorities == old(self).authorities,
            final(self).resources == old(self).resources,
            old(buffer).wrote(final(buffer), packet_emission(old(self)@).bytes),
            res == emitted(old(buffer).room(), packet_emission(old(self)@)),
    {
        let header = Header {
            questions: count_of(self.questions.len()),
            answers: count_of(self.answers.len()),
            authoritative_entries: count_of(self.authorities.len()),
            resource_entries: count_of(self.resources.len()),
            ..self.header
        };
        self.header = header;
        self.write_parts(buffer)
    }

    /// Writes the header as it stands, then the four sections.
    #[verifier::rlimit(50)]
    fn write_parts(&self, buffer: &mut BytePacketBuffer) -> (res: Result<(), DnsError>)
        ensures
            old(buffer).wrote(
                final(buffer),
                parts_emission(
                    self.header,
                    question_views(self.questions@),
                    record_views(self.answers@),
                    record_views(self.authorities@),
                    record_views(self.resources@),
                ).bytes,
            ),
            res == emitted(
                old(buffer).room(),
                parts_emission(
                    self.header,
                    question_views(self.questions@),
                    record_views(self.answers@),
                    record_views(self.authorities@),
                    record_views(self.resources@),
                ),
            ),
    {
        let ghost start = *buffer;
        let r0 = self.header.write(buffer);
        let ghost b0 = *buffer;
        let r1 = if r0.is_ok() {
            self.write_sections(buffer)
        } else {
            r0
        };
        proof {
            BytePacketBuffer::lemma_emitted_then(
                start,
                b0,
                *buffer,
                Emission::plain(self.header.wire()),
                sections_emission(
                    question_views(self.questions@),
                    record_views(self.answers@),
                    record_views(self.authorities@),
                    record_views(self.resources@),
                ),
                r0,
                r1,
            );
        }
        r1
    }

    /// Writes the four sections.
    #[verifier::rlimit(50)]
    fn write_sections(&self, buffer: &mut BytePacketBuffer) -> (res: Result<(), DnsError>)
        ensures
            old(buffer).wrote(
                final(buffer),
                sections_emission(
                    question_views(self.questions@),
                    record_views(self.answers@),
                    record_views(self.authorities@),
                    record_views(self.resources@),
                ).bytes,
            ),
            res == emitted(
                old(buffer).room(),
                sections_emission(
                    question_views(self.questions@),
                    record_views(self.answers@),
                    record_views(self.authorities@),
                    record_views(self.resources@),
                ),
            ),
    {
        let ghost start = *buffer;
        let ghost e1 = questions_emission(question_views(self.questions@));
        let ghost e2 = records_emission(record_views(self.answers@));
        let ghost e3 = records_emission(record_views(self.authorities@));
        let ghost e4 = records_emission(record_views(self.resources@));
        let r1 = write_questions(buffer, &self.questions);
        let ghost b1 = *buffer;
        let r2 = if r1.is_ok() {
            write_records(buffer, &self.answers)
        } else {
            r1
        };
        let ghost b2 = *buffer;
        proof {
            BytePacketBuffer::lemma_emitted_then(start, b1, b2, e1, e2, r1, r2);
        }
        let r3 = if r2.is_ok() {
            write_records(buffer, &self.authorities)
        } else {
            r2
        };
        let ghost b3 = *buffer;
        proof {
            BytePacketBuffer::lemma_emitted_then(start, b2, b3, e1.followed_by(e2), e3, r2, r3);
        }
        let r4 = if r3.is_ok() {
            write_records(buffer, &self.resources)
        } else {
            r3
        };
        proof {
            BytePacketBuffer::lemma_emitted_then(
                start,
                b3,
                *buffer,
                e1.followed_by(e2).followed_by(e3),
                e4,
                r3,
                r4,
            );
        }
        r4
    }

    /// The address of the first address record among the answers.
    pub fn get_random_a(&self) -> (res: Option<u32>)
        ensures
            res == first_address(self@.answers, self@.answers.len()),
    {
        let n = self.answers.len();
        let mut k: usize = 0;
        while k < n
            invariant
                n == self.answers@.len(),
                k <= n,
                first_address(self@.answers, k as nat) is None,
            decreases n - k,
        {
            if let DnsRecord::A { addr, .. } = &self.answers[k] {
                proof {
                    lemma_first_address_stays(self@.answers, (k + 1) as nat, n as nat);
                }
                return Some(*addr);
            }
            k += 1;
        }
        None
    }

    /// The name servers that the authority section names for `qname`: of
    /// every NS record whose domain ends `qname`, the domain and the host,
    /// in the order of the section.
    pub fn get_ns<'a>(&'a self, qname: &'a str) -> (res: Vec<(&'a str, &'a str)>)
        ensures
            res@.len() == servers_for(self@.authorities, qname@, self@.authorities.len()).len(),
            forall|i: int|
                0 <= i < res@.len() ==> (#[trigger] res@[i]).0@ == servers_for(
                    self@.authorities,
                    qname@,
                    self@.authorities.len(),
                )[i].0 && res@[i].1@ == servers_for(
                    self@.authorities,
                    qname@,
                    self@.authorities.len(),
                )[i].1,
    {
        let mut list: Vec<(&'a str, &'a str)> = Vec::new();
        let n = self.authorities.len();
        let mut k: usize = 0;
        while k < n
            invariant
                n == self.authorities@.len(),
                k <= n,
                list@.len() == servers_for(self@.authorities, qname@, k as nat).len(),
                forall|i: int|
                    0 <= i < list@.len() ==> (#[trigger] list@[i]).0@ == servers_for(
                        self@.authorities,
                        qname@,
                        k as nat,
                    )[i].0 && list@[i].1@ == servers_for(self@.authorities, qname@, k as nat)[i].1,
            decreases n - k,
        {
            if let DnsRecord::NS { domain, host, .. } = &self.authorities[k] {
                if name_ends_with(qname, domain.as_str()) {
                    list.push((domain.as_str(), host.as_str()));
                }
            }
            k += 1;
        }
        list
    }

    /// The address of a name server for `qname` that the message itself
    /// gives: going through the name servers of `get_ns` in order, the first
    /// address record of the additional section whose domain is the host of
    /// one of them.
    pub fn get_resolved_ns(&self, qname: &str) -> (res: Option<u32>)
        ensures
            res == glued_server(
                servers_for(self@.authorities, qname@, self@.authorities.len()),
                self@.resources,
                servers_for(self@.authorities, qname@, self@.authorities.len()).len(),
            ),
    {
        let servers = self.get_ns(qname);
        let ghost wanted = servers_for(self@.authorities, qname@, self@.authorities.len());
        let n = servers.len();
        let m = self.resources.len();
        let mut k: usize = 0;
        while k < n
            invariant
                wanted == servers_for(self@.authorities, qname@, self@.authorities.len()),
                n == servers@.len(),
                n == wanted.len(),
                m == self.resources@.len(),
                k <= n,
                forall|i: int| 0 <= i < n ==> (#[trigger] servers@[i]).1@ == wanted[i].1,
                glued_server(wanted, self@.resources, k as nat) is None,
            decreases n - k,
        {
            let host = servers[k].1;
            let mut j: usize = 0;
            while j < m
                invariant
                    wanted == servers_for(self@.authorities, qname@, self@.authorities.len()),
                    m == self.resources@.len(),
                    j <= m,
                    k < n,
                    n == servers@.len(),
                    n == wanted.len(),
                    host@ == wanted[k as int].1,
                    glued_server(wanted, self@.resources, k as nat) is None,
                    glue_for(self@.resources, host@, j as nat) is None,
                decreases m - j,
            {
                if let DnsRecord::A { domain, addr, .. } = &self.resources[j] {
                    if same_name(domain.as_str(), host) {
                        proof {
                            assert(self@.resources[j as int] == self.resources@[j as int]@);
                            assert(glue_for(self@.resources, host@, (j + 1) as nat) == Some(
                                *addr,
                            ));
                            lemma_glue_stays(self@.resources, host@, (j + 1) as nat, m as nat);
                            assert(glued_server(wanted, self@.resources, (k + 1) as nat) == Some(
                                *addr,
                            ));
                            lemma_glued_stays(wanted, self@.resources, (k + 1) as nat, n as nat);
                        }
                        return Some(*addr);
                    }
                }
                j += 1;
            }
            k += 1;
        }
        None
    }

    /// The host of the first name server of `get_ns`.
    pub fn get_unresolved_ns<'a>(&'a self, qname: &'a str) -> (res: Option<&'a str>)
        ensures
            match res {
                Some(host) => servers_for(
                    self@.authorities,
                    qname@,
                    self@.authorities.len(),
                ).len() > 0 && host@ == servers_for(
                    self@.authorities,
                    qname@,
                    self@.authorities.len(),
                )[0].1,
                None => servers_for(self@.authorities, qname@, self@.authorities.len()).len()
                    == 0,
            },
    {
        let servers = self.get_ns(qname);
        if servers.len() > 0 {
            Some(servers[0].1)
        } else {
            None
        }
    }
}

/// `suffix` ends `text`.
pub open spec fn ends_with(text: Seq<u8>, suffix: Seq<u8>) -> bool {
    &&& suffix.len() <= text.len()
    &&& text.subrange(text.len() - suffix.len(), text.len() as int) == suffix
}

/// Whether the bytes of `suffix` end the bytes of `text`.
pub fn name_ends_with(text: &str, suffix: &str) -> (res: bool)
    ensures
        res == ends_with(encode_utf8(text@), encode_utf8(suffix@)),
{
    let t = text.as_bytes();
    let s = suffix.as_bytes();
    if s.len() > t.len() {
        return false;
    }
    let shift = t.len() - s.len();
    let mut k: usize = 0;
    while k < s.len()
        invariant
            t@ == encode_utf8(text@),
            s@ == encode_utf8(suffix@),
            t@.len() <= usize::MAX,
            shift + s@.len() == t@.len(),
            k <= s@.len(),
            forall|i: int| 0 <= i < k ==> t@[shift + i] == s@[i],
        decreases s@.len() - k,
    {
        if t[shift + k] != s[k] {
            assert(t@.subrange(t@.len() - s@.len(), t@.len() as int)[k as int] != s@[k as int]);
            return false;
        }
        k += 1;
    }
    assert(t@.subrange(t@.len() - s@.len(), t@.len() as int) =~= s@);
    true
}

/// Whether two names are the same text.
pub fn same_name(a: &str, b: &str) -> (res: bool)
    ensures
        res == (a@ == b@),
{
    let x = a.as_bytes();
    let y = b.as_bytes();
    proof {
        vstd::utf8::encode_utf8_decode_utf8(a@);
        vstd::utf8::encode_utf8_decode_utf8(b@);
    }
    if x.len() != y.len() {
        return false;
    }
    let mut k: usize = 0;
    while k < x.len()
        invariant
            x@ == encode_utf8(a@),
            y@ == encode_utf8(b@),
            x@.len() == y@.len(),
            k <= x@.len(),
            forall|i: int| 0 <= i < k ==> x@[i] == y@[i],
        decreases x@.len() - k,
    {
        if x[k] != y[k] {
            return false;
        }
        k += 1;
    }
    assert(x@ =~= y@);
    true
}

/// The address of the first address record among the first `n` of
/// `records`.
pub open spec fn first_address(records: Seq<RecordView>, n: nat) -> Option<u32>
    decreases n,
{
    if n == 0 {
        None
    } else {
        match first_address(records, (n - 1) as nat) {
            Some(addr) => Some(addr),
            None => match records[n - 1] {
                RecordView::A { addr, .. } => Some(addr),
                _ => None,
            },
        }
    }
}

/// An address found among the first `k` records is the one found among
/// more.
pub proof fn lemma_first_address_stays(records: Seq<RecordView>, k: nat, n: nat)
    requires
        k <= n,
        first_address(records, k) is Some,
    ensures
        first_address(records, n) == first_address(records, k),
    decreases n,
{
    if n > k {
        lemma_first_address_stays(records, k, (n - 1) as nat);
    }
}

/// Of the first `n` of `records`, the NS records whose domain ends `qname`,
/// each as its domain and its host.
pub open spec fn servers_for(records: Seq<RecordView>, qname: Seq<char>, n: nat) -> Seq<
    (Seq<char>, Seq<char>),
>
    decreases n,
{
    if n == 0 {
        Seq::empty()
    } else {
        let before = servers_for(records, qname, (n - 1) as nat);
        match records[n - 1] {
            RecordView::NS { domain, host, .. } => if ends_with(
                encode_utf8(qname),
                encode_utf8(domain),
            ) {
                before.push((domain, host))
            } else {
                before
            },
            _ => before,
        }
    }
}

/// The address of the first address record for `host` among the first `n`
/// of `records`.
pub open spec fn glue_for(records: Seq<RecordView>, host: Seq<char>, n: nat) -> Option<u32>
    decreases n,
{
    if n == 0 {
        None
    } else {
        match glue_for(records, host, (n - 1) as nat) {
            Some(addr) => Some(addr),
            None => match records[n - 1] {
                RecordView::A { domain, addr, .. } => if domain == host {
                    Some(addr)
                } else {
                    None
                },
                _ => None,
            },
        }
    }
}

/// An address found for `host` among the first `k` records is the one found
/// among more.
pub proof fn lemma_glue_stays(records: Seq<RecordView>, host: Seq<char>, k: nat, n: nat)
    requires
        k <= n,
        glue_for(records, host, k) is Some,
    ensures
        glue_for(records, host, n) == glue_for(records, host, k),
    decreases n,
{
    if n > k {
        lemma_glue_stays(records, host, k, (n - 1) as nat);
    }
}

/// An address found for one of the first `k` servers is the one found when
/// more servers are looked at.
pub proof fn lemma_glued_stays(
    servers: Seq<(Seq<char>, Seq<char>)>,
    records: Seq<RecordView>,
    k: nat,
    n: nat,
)
    requires
        k <= n,
        glued_server(servers, records, k) is Some,
    ensures
        glued_server(servers, records, n) == glued_server(servers, records, k),
    decreases n,
{
    if n > k {
        lemma_glued_stays(servers, records, k, (n - 1) as nat);
    }
}

/// The address that `records` give for the first of the first `n` of
/// `servers` for which they give one.
pub open spec fn glued_server(
    servers: Seq<(Seq<char>, Seq<char>)>,
    records: Seq<RecordView>,
    n: nat,
) -> Option<u32>
    decreases n,
{
    if n == 0 {
        None
    } else {
        match glued_server(servers, records, (n - 1) as nat) {
            Some(addr) => Some(addr),
            None => glue_for(records, servers[n - 1].1, records.len()),
        }
    }
}

} // verus!
