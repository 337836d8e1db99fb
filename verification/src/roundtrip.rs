//! What is written is read back: the round trip of questions, records and
//! whole messages through the wire format.

use vstd::prelude::*;
use vstd::utf8::encode_utf8;
use crate::enums::QueryType;
use crate::header::{Header, HEADER_SIZE};
use crate::name::{
    dotted, labels_fit, lemma_label_end_bounds, lemma_long_label_stops_emission,
    lemma_name_round_trip, name_emission, name_end, name_fits, name_labels, has_long_label,
    label_end, walk, Emission,
};
use crate::packet::{
    chain, counted, lemma_counted_matches, packet_at, packet_emission, questions_at,
    questions_emission, records_at, records_emission, sections_at, sections_emission,
    PacketView,
};
use crate::question::{question_at, question_emission, Parsed, QuestionView};
use crate::record::{
    be128, len_field, name_wire_len, record_at, record_emission, record_head, word, RecordView,
};
use crate::buffer::BytePacketBuffer;
use crate::wire::{be16, be16_bytes, be32, be32_bytes, holds, lemma_overlay_holds};

verus! {

/// A name that can be written: it is empty, or each of its labels has
/// between one and 63 bytes.
pub open spec fn writable_name(name: Seq<char>) -> bool {
    name_fits(encode_utf8(name))
}

/// The name as it is read back once it was written: its labels, decoded
/// and joined by dots.
pub open spec fn decoded_name(name: Seq<char>) -> Seq<char> {
    dotted(name_labels(encode_utf8(name)))
}

/// A name in the form in which it comes out of a message: it can be
/// written, and is read back as itself.
pub open spec fn normal_name(name: Seq<char>) -> bool {
    writable_name(name) && decoded_name(name) == name
}

/// A question that can be written and read back: its name can be written,
/// and its type is the one that decoding chooses for its number.
pub open spec fn writable_question(q: QuestionView) -> bool {
    writable_name(q.name) && q.qtype.canonical()
}

/// The question as it is read back once it was written.
pub open spec fn decoded_question(q: QuestionView) -> QuestionView {
    QuestionView { name: decoded_name(q.name), qtype: q.qtype }
}

/// A record that can be written and read back: its names can be written,
/// and the type of a record of unknown type is none of the types that have
/// a variant of their own.
pub open spec fn writable_record(r: RecordView) -> bool {
    match r {
        RecordView::UNKNOWN { domain, raw_type, .. } => writable_name(domain) && QueryType::of_num(
            raw_type,
        ) is UNKNOWN,
        RecordView::A { domain, .. } => writable_name(domain),
        RecordView::NS { domain, host, .. } => writable_name(domain) && writable_name(host),
        RecordView::CNAME { domain, host, .. } => writable_name(domain) && writable_name(host),
        RecordView::MX { domain, host, .. } => writable_name(domain) && writable_name(host),
        RecordView::AAAA { domain, .. } => writable_name(domain),
    }
}

/// The record as it is read back once it was written.
pub open spec fn decoded_record(r: RecordView) -> RecordView {
    match r {
        RecordView::UNKNOWN { domain, raw_type, data_len, ttl } => RecordView::UNKNOWN {
            domain: decoded_name(domain),
            raw_type,
            data_len,
            ttl,
        },
        RecordView::A { domain, addr, ttl } => RecordView::A {
            domain: decoded_name(domain),
            addr,
            ttl,
        },
        RecordView::NS { domain, host, ttl } => RecordView::NS {
            domain: decoded_name(domain),
            host: decoded_name(host),
            ttl,
        },
        RecordView::CNAME { domain, host, ttl } => RecordView::CNAME {
            domain: decoded_name(domain),
            host: decoded_name(host),
            ttl,
        },
        RecordView::MX { domain, priority, host, ttl } => RecordView::MX {
            domain: decoded_name(domain),
            priority,
            host: decoded_name(host),
            ttl,
        },
        RecordView::AAAA { domain, addr, ttl } => RecordView::AAAA {
            domain: decoded_name(domain),
            addr,
            ttl,
        },
    }
}

/// The questions of `list` as they are read back.
pub open spec fn decoded_questions(list: Seq<QuestionView>) -> Seq<QuestionView> {
    Seq::new(list.len(), |i: int| decoded_question(list[i]))
}

/// The records of `list` as they are read back.
pub open spec fn decoded_records(list: Seq<RecordView>) -> Seq<RecordView> {
    Seq::new(list.len(), |i: int| decoded_record(list[i]))
}

/// A message that can be written and read back: the operation code fits
/// its four bits, no section has more entries than a counter can count,
/// and every entry can be written and read back.
pub open spec fn writable_packet(p: PacketView) -> bool {
    &&& p.header.wf()
    &&& p.questions.len() <= 0xFFFF
    &&& p.answers.len() <= 0xFFFF
    &&& p.authorities.len() <= 0xFFFF
    &&& p.resources.len() <= 0xFFFF
    &&& forall|i: int| 0 <= i < p.questions.len() ==> writable_question(#[trigger] p.questions[i])
    &&& forall|i: int| 0 <= i < p.answers.len() ==> writable_record(#[trigger] p.answers[i])
    &&& forall|i: int|
        0 <= i < p.authorities.len() ==> writable_record(#[trigger] p.authorities[i])
    &&& forall|i: int| 0 <= i < p.resources.len() ==> writable_record(#[trigger] p.resources[i])
}

/// The message as it is read back once it was written: its counters are
/// set from its sections, and its names are in the form in which they come
/// out of a message.
pub open spec fn decoded_packet(p: PacketView) -> PacketView {
    PacketView {
        header: counted(p),
        questions: decoded_questions(p.questions),
        answers: decoded_records(p.answers),
        authorities: decoded_records(p.authorities),
        resources: decoded_records(p.resources),
    }
}

/// Every name of the question is in the form in which it comes out of a
/// message.
pub open spec fn normal_question(q: QuestionView) -> bool {
    normal_name(q.name)
}

/// Every name of the record is in the form in which it comes out of a
/// message.
pub open spec fn normal_record(r: RecordView) -> bool {
    match r {
        RecordView::UNKNOWN { domain, .. } => normal_name(domain),
        RecordView::A { domain, .. } => normal_name(domain),
        RecordView::NS { domain, host, .. } => normal_name(domain) && normal_name(host),
        RecordView::CNAME { domain, host, .. } => normal_name(domain) && normal_name(host),
        RecordView::MX { domain, host, .. } => normal_name(domain) && normal_name(host),
        RecordView::AAAA { domain, .. } => normal_name(domain),
    }
}

/// A message that the wire format carries unchanged: it can be written and
/// read back, and every name in it is in the form in which names come out
/// of a message.
pub open spec fn valid_packet(p: PacketView) -> bool {
    &&& writable_packet(p)
    &&& forall|i: int| 0 <= i < p.questions.len() ==> normal_question(#[trigger] p.questions[i])
    &&& forall|i: int| 0 <= i < p.answers.len() ==> normal_record(#[trigger] p.answers[i])
    &&& forall|i: int| 0 <= i < p.authorities.len() ==> normal_record(#[trigger] p.authorities[i])
    &&& forall|i: int| 0 <= i < p.resources.len() ==> normal_record(#[trigger] p.resources[i])
}

/// Bytes that hold a concatenation hold its two parts, one behind the
/// other.
pub proof fn lemma_holds_split(bytes: Seq<u8>, at: int, a: Seq<u8>, b: Seq<u8>)
    requires
        holds(bytes, at, a + b),
    ensures
        holds(bytes, at, a),
        holds(bytes, at + a.len(), b),
{
    let whole = a + b;
    assert forall|i: int| 0 <= i < a.len() implies bytes[at + i] == #[trigger] a[i] by {
        assert(whole[i] == a[i]);
    }
    assert forall|i: int| 0 <= i < b.len() implies bytes[at + a.len() + i] == #[trigger] b[i] by {
        assert(whole[a.len() + i] == b[i]);
        assert(bytes[at + (a.len() + i)] == whole[a.len() + i]);
    }
}

/// Labels that fit include none that is too long.
pub proof fn lemma_fitting_labels_are_short(name: Seq<u8>, from: int)
    requires
        0 <= from <= name.len(),
        labels_fit(name, from),
    ensures
        !has_long_label(name, from),
    decreases name.len() - from,
{
    lemma_label_end_bounds(name, from);
    let end = label_end(name, from);
    if end < name.len() {
        lemma_fitting_labels_are_short(name, end + 1);
    }
}

/// A name that fits is written whole.
pub proof fn lemma_fitting_name_is_emitted(name: Seq<u8>)
    requires
        name_fits(name),
    ensures
        !name_emission(name).too_long,
{
    if name.len() > 0 {
        lemma_fitting_labels_are_short(name, 0);
        lemma_long_label_stops_emission(name, 0);
    }
}

/// A name that can be written, written out, is read back in its decoded
/// form, and its name field ends where the written bytes end.
pub proof fn lemma_written_name_round_trip(name: Seq<char>, bytes: Seq<u8>, at: int)
    requires
        writable_name(name),
        holds(bytes, at, name_emission(encode_utf8(name)).bytes),
    ensures
        !name_emission(encode_utf8(name)).too_long,
        walk(bytes, at, 0).error is None,
        dotted(walk(bytes, at, 0).labels) == decoded_name(name),
        name_end(bytes, at) == Some(at + name_emission(encode_utf8(name)).bytes.len()),
{
    let raw = encode_utf8(name);
    let data = name_emission(raw).bytes;
    assert forall|i: int| 0 <= i < data.len() implies bytes[at + i] == data[i] by {
        assert(bytes[at + i] == data[i]);
    }
    lemma_name_round_trip(raw, bytes, at);
}

/// A question that can be written is written whole.
pub proof fn lemma_writable_question_is_emitted(q: QuestionView)
    requires
        writable_question(q),
    ensures
        !question_emission(q).too_long,
        question_emission(q).bytes == name_emission(encode_utf8(q.name)).bytes + be16_bytes(
            q.qtype.num(),
        ) + be16_bytes(1),
{
    lemma_fitting_name_is_emitted(encode_utf8(q.name));
}

/// A question that can be written, written out, is read back in its
/// decoded form, and the cursor ends where the written bytes end.
pub proof fn lemma_question_round_trip(q: QuestionView, bytes: Seq<u8>, at: int)
    requires
        writable_question(q),
        holds(bytes, at, question_emission(q).bytes),
    ensures
        question_at(bytes, at) == (Parsed {
            cursor: at + question_emission(q).bytes.len(),
            value: Ok::<QuestionView, crate::error::DnsError>(decoded_question(q)),
        }),
{
    lemma_writable_question_is_emitted(q);
    let name = name_emission(encode_utf8(q.name)).bytes;
    let kind = be16_bytes(q.qtype.num());
    let class = be16_bytes(1);
    lemma_holds_split(bytes, at, name + kind, class);
    lemma_holds_split(bytes, at, name, kind);
    lemma_written_name_round_trip(q.name, bytes, at);
    let fixed = at + name.len();
    assert(bytes[fixed + 0] == kind[0]);
    assert(bytes[fixed + 1] == kind[1]);
}

/// What reading the start of a record finds, where the start was written
/// for a name that can be written.
#[verifier::rlimit(50)]
pub proof fn lemma_head_round_trip(
    domain: Seq<char>,
    type_num: u16,
    ttl: u32,
    len: u16,
    bytes: Seq<u8>,
    at: int,
)
    requires
        writable_name(domain),
        holds(bytes, at, record_head(domain, type_num, ttl, len).bytes),
    ensures
        !record_head(domain, type_num, ttl, len).too_long,
        walk(bytes, at, 0).error is None,
        dotted(walk(bytes, at, 0).labels) == decoded_name(domain),
        name_end(bytes, at) is Some,
        ({
            let fixed = name_end(bytes, at)->Some_0;
            &&& fixed + 10 == at + record_head(domain, type_num, ttl, len).bytes.len()
            &&& be16(bytes[fixed], bytes[fixed + 1]) == type_num
            &&& be32(bytes[fixed + 4], bytes[fixed + 5], bytes[fixed + 6], bytes[fixed + 7])
                == ttl
            &&& be16(bytes[fixed + 8], bytes[fixed + 9]) == len
        }),
{
    lemma_fitting_name_is_emitted(encode_utf8(domain));
    let name = name_emission(encode_utf8(domain)).bytes;
    let b1 = be16_bytes(type_num);
    let b2 = be16_bytes(1);
    let b3 = be32_bytes(ttl);
    let b4 = be16_bytes(len);
    assert(record_head(domain, type_num, ttl, len).bytes == name + b1 + b2 + b3 + b4);
    lemma_holds_split(bytes, at, name + b1 + b2 + b3, b4);
    lemma_holds_split(bytes, at, name + b1 + b2, b3);
    lemma_holds_split(bytes, at, name + b1, b2);
    lemma_holds_split(bytes, at, name, b1);
    lemma_written_name_round_trip(domain, bytes, at);
    let fixed = at + name.len();
    assert(bytes[fixed + 0] == b1[0]);
    assert(bytes[fixed + 1] == b1[1]);
    assert(bytes[fixed + 4 + 0] == b3[0]);
    assert(bytes[fixed + 4 + 1] == b3[1]);
    assert(bytes[fixed + 4 + 2] == b3[2]);
    assert(bytes[fixed + 4 + 3] == b3[3]);
    assert(bytes[fixed + 8 + 0] == b4[0]);
    assert(bytes[fixed + 8 + 1] == b4[1]);
}

/// Four bytes that were written for a 32-bit number are read back as it.
pub proof fn lemma_be32_held(bytes: Seq<u8>, at: int, v: u32)
    requires
        holds(bytes, at, be32_bytes(v)),
    ensures
        be32(bytes[at], bytes[at + 1], bytes[at + 2], bytes[at + 3]) == v,
{
    let data = be32_bytes(v);
    assert(bytes[at + 0] == data[0]);
    assert(bytes[at + 1] == data[1]);
    assert(bytes[at + 2] == data[2]);
    assert(bytes[at + 3] == data[3]);
}

/// A 128-bit number is put together again from its four words.
#[verifier::rlimit(50)]
pub proof fn lemma_words_round_trip(v: u128)
    ensures
        be128(word(v, 3), word(v, 2), word(v, 1), word(v, 0)) == v,
{
}

/// A record that can be written is written whole.
pub proof fn lemma_writable_record_is_emitted(r: RecordView)
    requires
        writable_record(r),
    ensures
        !record_emission(r).too_long,
{
    match r {
        RecordView::UNKNOWN { domain, .. } => {
            lemma_fitting_name_is_emitted(encode_utf8(domain));
        },
        RecordView::A { domain, .. } => {
            lemma_fitting_name_is_emitted(encode_utf8(domain));
        },
        RecordView::NS { domain, host, .. } => {
            lemma_fitting_name_is_emitted(encode_utf8(domain));
            lemma_fitting_name_is_emitted(encode_utf8(host));
        },
        RecordView::CNAME { domain, host, .. } => {
            lemma_fitting_name_is_emitted(encode_utf8(domain));
            lemma_fitting_name_is_emitted(encode_utf8(host));
        },
        RecordView::MX { domain, host, .. } => {
            lemma_fitting_name_is_emitted(encode_utf8(domain));
            lemma_fitting_name_is_emitted(encode_utf8(host));
        },
        RecordView::AAAA { domain, .. } => {
            lemma_fitting_name_is_emitted(encode_utf8(domain));
        },
    }
}

/// A record that can be written, written out, is read back in its decoded
/// form, and the cursor ends where the written bytes end.
pub proof fn lemma_record_round_trip(r: RecordView, bytes: Seq<u8>, at: int)
    requires
        writable_record(r),
        holds(bytes, at, record_emission(r).bytes),
    ensures
        record_at(bytes, at) == (Parsed {
            cursor: at + record_emission(r).bytes.len(),
            value: Ok::<RecordView, crate::error::DnsError>(decoded_record(r)),
        }),
{
    match r {
        RecordView::UNKNOWN { domain, raw_type, data_len, ttl } => {
            lemma_unknown_round_trip(domain, raw_type, data_len, ttl, bytes, at);
        },
        RecordView::A { domain, addr, ttl } => {
            lemma_a_round_trip(domain, addr, ttl, bytes, at);
        },
        RecordView::NS { domain, host, ttl } => {
            lemma_named_round_trip(
                domain,
                2,
                ttl,
                len_field(name_wire_len(encode_utf8(host).len())),
                host,
                bytes,
                at,
            );
        },
        RecordView::CNAME { domain, host, ttl } => {
            lemma_named_round_trip(
                domain,
                5,
                ttl,
                len_field(name_wire_len(encode_utf8(host).len())),
                host,
                bytes,
                at,
            );
        },
        RecordView::MX { domain, priority, host, ttl } => {
            lemma_mx_round_trip(domain, priority, host, ttl, bytes, at);
        },
        RecordView::AAAA { domain, addr, ttl } => {
            lemma_aaaa_round_trip(domain, addr, ttl, bytes, at);
        },
    }
}

proof fn lemma_unknown_round_trip(
    domain: Seq<char>,
    raw_type: u16,
    data_len: u16,
    ttl: u32,
    bytes: Seq<u8>,
    at: int,
)
    requires
        writable_name(domain),
        QueryType::of_num(raw_type) is UNKNOWN,
        holds(
            bytes,
            at,
            record_emission(RecordView::UNKNOWN { domain, raw_type, data_len, ttl }).bytes,
        ),
    ensures
        record_at(bytes, at) == (Parsed {
            cursor: at + record_emission(
                RecordView::UNKNOWN { domain, raw_type, data_len, ttl },
            ).bytes.len(),
            value: Ok::<RecordView, crate::error::DnsError>(
                RecordView::UNKNOWN { domain: decoded_name(domain), raw_type, data_len, ttl },
            ),
        }),
{
    let head = record_head(domain, raw_type, ttl, data_len);
    let data = Seq::new(data_len as nat, |i: int| 0u8);
    lemma_fitting_name_is_emitted(encode_utf8(domain));
    lemma_holds_split(bytes, at, head.bytes, data);
    lemma_head_round_trip(domain, raw_type, ttl, data_len, bytes, at);
}

proof fn lemma_a_round_trip(domain: Seq<char>, addr: u32, ttl: u32, bytes: Seq<u8>, at: int)
    requires
        writable_name(domain),
        holds(bytes, at, record_emission(RecordView::A { domain, addr, ttl }).bytes),
    ensures
        record_at(bytes, at) == (Parsed {
            cursor: at + record_emission(RecordView::A { domain, addr, ttl }).bytes.len(),
            value: Ok::<RecordView, crate::error::DnsError>(
                RecordView::A { domain: decoded_name(domain), addr, ttl },
            ),
        }),
{
    let head = record_head(domain, 1, ttl, 4);
    lemma_fitting_name_is_emitted(encode_utf8(domain));
    lemma_holds_split(bytes, at, head.bytes, be32_bytes(addr));
    lemma_head_round_trip(domain, 1, ttl, 4, bytes, at);
    lemma_be32_held(bytes, at + head.bytes.len(), addr);
}

proof fn lemma_named_round_trip(
    domain: Seq<char>,
    type_num: u16,
    ttl: u32,
    len: u16,
    host: Seq<char>,
    bytes: Seq<u8>,
    at: int,
)
    requires
        writable_name(domain),
        writable_name(host),
        type_num == 2 || type_num == 5,
        holds(
            bytes,
            at,
            record_head(domain, type_num, ttl, len).followed_by(
                name_emission(encode_utf8(host)),
            ).bytes,
        ),
    ensures
        record_at(bytes, at) == (Parsed {
            cursor: at + record_head(domain, type_num, ttl, len).followed_by(
                name_emission(encode_utf8(host)),
            ).bytes.len(),
            value: Ok::<RecordView, crate::error::DnsError>(
                if type_num == 2 {
                    RecordView::NS { domain: decoded_name(domain), host: decoded_name(host), ttl }
                } else {
                    RecordView::CNAME {
                        domain: decoded_name(domain),
                        host: decoded_name(host),
                        ttl,
                    }
                },
            ),
        }),
{
    let head = record_head(domain, type_num, ttl, len);
    let tail = name_emission(encode_utf8(host));
    lemma_fitting_name_is_emitted(encode_utf8(domain));
    lemma_holds_split(bytes, at, head.bytes, tail.bytes);
    lemma_head_round_trip(domain, type_num, ttl, len, bytes, at);
    lemma_written_name_round_trip(host, bytes, at + head.bytes.len());
}

proof fn lemma_mx_round_trip(
    domain: Seq<char>,
    priority: u16,
    host: Seq<char>,
    ttl: u32,
    bytes: Seq<u8>,
    at: int,
)
    requires
        writable_name(domain),
        writable_name(host),
        holds(bytes, at, record_emission(RecordView::MX { domain, priority, host, ttl }).bytes),
    ensures
        record_at(bytes, at) == (Parsed {
            cursor: at + record_emission(
                RecordView::MX { domain, priority, host, ttl },
            ).bytes.len(),
            value: Ok::<RecordView, crate::error::DnsError>(
                RecordView::MX {
                    domain: decoded_name(domain),
                    priority,
                    host: decoded_name(host),
                    ttl,
                },
            ),
        }),
{
    let len = len_field(2 + name_wire_len(encode_utf8(host).len()));
    let head = record_head(domain, 15, ttl, len);
    let prio = be16_bytes(priority);
    let tail = name_emission(encode_utf8(host));
    lemma_fitting_name_is_emitted(encode_utf8(domain));
    lemma_holds_split(bytes, at, head.bytes + prio, tail.bytes);
    lemma_holds_split(bytes, at, head.bytes, prio);
    lemma_head_round_trip(domain, 15, ttl, len, bytes, at);
    let data = at + head.bytes.len();
    assert(bytes[data + 0] == prio[0]);
    assert(bytes[data + 1] == prio[1]);
    lemma_written_name_round_trip(host, bytes, data + 2);
}

#[verifier::rlimit(50)]
proof fn lemma_aaaa_round_trip(domain: Seq<char>, addr: u128, ttl: u32, bytes: Seq<u8>, at: int)
    requires
        writable_name(domain),
        holds(bytes, at, record_emission(RecordView::AAAA { domain, addr, ttl }).bytes),
    ensures
        record_at(bytes, at) == (Parsed {
            cursor: at + record_emission(RecordView::AAAA { domain, addr, ttl }).bytes.len(),
            value: Ok::<RecordView, crate::error::DnsError>(
                RecordView::AAAA { domain: decoded_name(domain), addr, ttl },
            ),
        }),
{
    let head = record_head(domain, 28, ttl, 16);
    let w3 = be32_bytes(word(addr, 3));
    let w2 = be32_bytes(word(addr, 2));
    let w1 = be32_bytes(word(addr, 1));
    let w0 = be32_bytes(word(addr, 0));
    lemma_fitting_name_is_emitted(encode_utf8(domain));
    lemma_holds_split(bytes, at, head.bytes + w3 + w2 + w1, w0);
    lemma_holds_split(bytes, at, head.bytes + w3 + w2, w1);
    lemma_holds_split(bytes, at, head.bytes + w3, w2);
    lemma_holds_split(bytes, at, head.bytes, w3);
    lemma_head_round_trip(domain, 28, ttl, 16, bytes, at);
    let data = at + head.bytes.len();
    lemma_be32_held(bytes, data, word(addr, 3));
    lemma_be32_held(bytes, data + 4, word(addr, 2));
    lemma_be32_held(bytes, data + 8, word(addr, 1));
    lemma_be32_held(bytes, data + 12, word(addr, 0));
    lemma_words_round_trip(addr);
}

/// The emissions of the questions of `list`.
pub open spec fn question_parts(list: Seq<QuestionView>) -> Seq<Emission> {
    Seq::new(list.len(), |i: int| question_emission(list[i]))
}

/// The emissions of the records of `list`.
pub open spec fn record_parts(list: Seq<RecordView>) -> Seq<Emission> {
    Seq::new(list.len(), |i: int| record_emission(list[i]))
}

/// Questions that can be written are written whole, one behind the other.
pub proof fn lemma_writable_questions_are_emitted(list: Seq<QuestionView>, n: nat)
    requires
        n <= list.len(),
        forall|i: int| 0 <= i < list.len() ==> writable_question(#[trigger] list[i]),
    ensures
        !chain(question_parts(list), n).too_long,
    decreases n,
{
    if n > 0 {
        lemma_writable_questions_are_emitted(list, (n - 1) as nat);
        lemma_writable_question_is_emitted(list[n - 1]);
    }
}

/// Records that can be written are written whole, one behind the other.
pub proof fn lemma_writable_records_are_emitted(list: Seq<RecordView>, n: nat)
    requires
        n <= list.len(),
        forall|i: int| 0 <= i < list.len() ==> writable_record(#[trigger] list[i]),
    ensures
        !chain(record_parts(list), n).too_long,
    decreases n,
{
    if n > 0 {
        lemma_writable_records_are_emitted(list, (n - 1) as nat);
        lemma_writable_record_is_emitted(list[n - 1]);
    }
}

/// The first `n` of a list of questions that can be written, written out,
/// are read back in their decoded form.
pub proof fn lemma_questions_round_trip(list: Seq<QuestionView>, n: nat, bytes: Seq<u8>, at: int)
    requires
        n <= list.len(),
        forall|i: int| 0 <= i < list.len() ==> writable_question(#[trigger] list[i]),
        holds(bytes, at, chain(question_parts(list), n).bytes),
    ensures
        questions_at(bytes, at, n) == (Parsed {
            cursor: at + chain(question_parts(list), n).bytes.len(),
            value: Ok::<Seq<QuestionView>, crate::error::DnsError>(
                decoded_questions(list).take(n as int),
            ),
        }),
    decreases n,
{
    let decoded = decoded_questions(list);
    if n == 0 {
        assert(decoded.take(0) =~= Seq::empty());
    } else {
        let parts = question_parts(list);
        let before = chain(parts, (n - 1) as nat);
        lemma_writable_questions_are_emitted(list, (n - 1) as nat);
        lemma_holds_split(bytes, at, before.bytes, parts[n - 1].bytes);
        lemma_questions_round_trip(list, (n - 1) as nat, bytes, at);
        lemma_question_round_trip(list[n - 1], bytes, at + before.bytes.len());
        assert(decoded.take(n - 1).push(decoded_question(list[n - 1])) =~= decoded.take(n as int));
    }
}

/// The first `n` of a list of records that can be written, written out,
/// are read back in their decoded form.
pub proof fn lemma_records_round_trip(list: Seq<RecordView>, n: nat, bytes: Seq<u8>, at: int)
    requires
        n <= list.len(),
        forall|i: int| 0 <= i < list.len() ==> writable_record(#[trigger] list[i]),
        holds(bytes, at, chain(record_parts(list), n).bytes),
    ensures
        records_at(bytes, at, n) == (Parsed {
            cursor: at + chain(record_parts(list), n).bytes.len(),
            value: Ok::<Seq<RecordView>, crate::error::DnsError>(
                decoded_records(list).take(n as int),
            ),
        }),
    decreases n,
{
    let decoded = decoded_records(list);
    if n == 0 {
        assert(decoded.take(0) =~= Seq::empty());
    } else {
        let parts = record_parts(list);
        let before = chain(parts, (n - 1) as nat);
        lemma_writable_records_are_emitted(list, (n - 1) as nat);
        lemma_holds_split(bytes, at, before.bytes, parts[n - 1].bytes);
        lemma_records_round_trip(list, (n - 1) as nat, bytes, at);
        lemma_record_round_trip(list[n - 1], bytes, at + before.bytes.len());
        assert(decoded.take(n - 1).push(decoded_record(list[n - 1])) =~= decoded.take(n as int));
    }
}

/// The sections of a message that can be written are written whole.
pub proof fn lemma_writable_sections_are_emitted(p: PacketView)
    requires
        writable_packet(p),
    ensures
        !sections_emission(p.questions, p.answers, p.authorities, p.resources).too_long,
        sections_emission(p.questions, p.answers, p.authorities, p.resources).bytes
            == questions_emission(p.questions).bytes + records_emission(p.answers).bytes
            + records_emission(p.authorities).bytes + records_emission(p.resources).bytes,
{
    lemma_writable_questions_are_emitted(p.questions, p.questions.len());
    lemma_writable_records_are_emitted(p.answers, p.answers.len());
    lemma_writable_records_are_emitted(p.authorities, p.authorities.len());
    lemma_writable_records_are_emitted(p.resources, p.resources.len());
}

/// A message that can be written is written whole: its header, then its
/// sections.
pub proof fn lemma_writable_packet_is_emitted(p: PacketView)
    requires
        writable_packet(p),
    ensures
        !packet_emission(p).too_long,
        packet_emission(p).bytes == counted(p).wire() + sections_emission(
            p.questions,
            p.answers,
            p.authorities,
            p.resources,
        ).bytes,
{
    lemma_writable_sections_are_emitted(p);
}

/// The sections of a message that can be written, written out behind one
/// another, are read back in their decoded form under a header that counts
/// them.
#[verifier::rlimit(50)]
pub proof fn lemma_sections_round_trip(p: PacketView, header: Header, bytes: Seq<u8>, at: int)
    requires
        writable_packet(p),
        header.questions == p.questions.len(),
        header.answers == p.answers.len(),
        header.authoritative_entries == p.authorities.len(),
        header.resource_entries == p.resources.len(),
        holds(
            bytes,
            at,
            sections_emission(p.questions, p.answers, p.authorities, p.resources).bytes,
        ),
    ensures
        sections_at(bytes, at, header) == (Parsed {
            cursor: at + sections_emission(
                p.questions,
                p.answers,
                p.authorities,
                p.resources,
            ).bytes.len(),
            value: Ok::<PacketView, crate::error::DnsError>(
                PacketView { header, ..decoded_packet(p) },
            ),
        }),
{
    lemma_writable_sections_are_emitted(p);
    let q = questions_emission(p.questions).bytes;
    let an = records_emission(p.answers).bytes;
    let ns = records_emission(p.authorities).bytes;
    let ar = records_emission(p.resources).bytes;
    lemma_holds_split(bytes, at, q + an + ns, ar);
    lemma_holds_split(bytes, at, q + an, ns);
    lemma_holds_split(bytes, at, q, an);
    lemma_questions_round_trip(p.questions, p.questions.len(), bytes, at);
    let c2 = at + q.len();
    lemma_records_round_trip(p.answers, p.answers.len(), bytes, c2);
    let c3 = c2 + an.len();
    lemma_records_round_trip(p.authorities, p.authorities.len(), bytes, c3);
    let c4 = c3 + ns.len();
    lemma_records_round_trip(p.resources, p.resources.len(), bytes, c4);
    let d = decoded_packet(p);
    assert(d.questions.take(p.questions.len() as int) =~= d.questions);
    assert(d.answers.take(p.answers.len() as int) =~= d.answers);
    assert(d.authorities.take(p.authorities.len() as int) =~= d.authorities);
    assert(d.resources.take(p.resources.len() as int) =~= d.resources);
}

/// Decoding what encoding wrote gives the message back, its names in the
/// form in which names come out of a message.
///
/// Wherever bytes hold the wire form of a message that can be written,
/// reading a message there finds that message in its decoded form: its
/// counters set from its sections, each name as its labels decode. The
/// cursor is left behind the last byte written. Of a record of unknown type
/// this covers the type, the time to live and the length of the data, not
/// the data.
#[verifier::rlimit(50)]
pub proof fn lemma_packet_round_trip(p: PacketView, bytes: Seq<u8>, at: int)
    requires
        writable_packet(p),
        holds(bytes, at, packet_emission(p).bytes),
    ensures
        !packet_emission(p).too_long,
        packet_at(bytes, at) == (Parsed {
            cursor: at + packet_emission(p).bytes.len(),
            value: Ok::<PacketView, crate::error::DnsError>(decoded_packet(p)),
        }),
{
    lemma_writable_packet_is_emitted(p);
    let header = counted(p);
    let body = sections_emission(p.questions, p.answers, p.authorities, p.resources).bytes;
    header.lemma_wire_len();
    lemma_holds_split(bytes, at, header.wire(), body);
    header.lemma_round_trip(bytes, at);
    lemma_counted_matches(p);
    lemma_sections_round_trip(p, header, bytes, at + HEADER_SIZE);
}

/// A message whose names are all in the form in which names come out of a
/// message is its own decoded form, but for the counters.
pub proof fn lemma_valid_packet_is_its_decoded_form(p: PacketView)
    requires
        valid_packet(p),
    ensures
        decoded_packet(p) == (PacketView { header: counted(p), ..p }),
{
    let d = decoded_packet(p);
    assert(d.questions =~= p.questions) by {
        assert forall|i: int| 0 <= i < p.questions.len() implies d.questions[i]
            == p.questions[i] by {
            assert(normal_question(p.questions[i]));
        }
    }
    assert(d.answers =~= p.answers) by {
        assert forall|i: int| 0 <= i < p.answers.len() implies d.answers[i] == p.answers[i] by {
            assert(normal_record(p.answers[i]));
        }
    }
    assert(d.authorities =~= p.authorities) by {
        assert forall|i: int| 0 <= i < p.authorities.len() implies d.authorities[i]
            == p.authorities[i] by {
            assert(normal_record(p.authorities[i]));
        }
    }
    assert(d.resources =~= p.resources) by {
        assert forall|i: int| 0 <= i < p.resources.len() implies d.resources[i]
            == p.resources[i] by {
            assert(normal_record(p.resources[i]));
        }
    }
}

/// Decoding what encoding wrote gives a valid message back unchanged, but
/// for its counters, which are set from its sections.
pub proof fn lemma_valid_packet_round_trip(p: PacketView, bytes: Seq<u8>, at: int)
    requires
        valid_packet(p),
        holds(bytes, at, packet_emission(p).bytes),
    ensures
        packet_at(bytes, at) == (Parsed {
            cursor: at + packet_emission(p).bytes.len(),
            value: Ok::<PacketView, crate::error::DnsError>(
                PacketView { header: counted(p), ..p },
            ),
        }),
{
    lemma_packet_round_trip(p, bytes, at);
    lemma_valid_packet_is_its_decoded_form(p);
}

/// A message that was written into a buffer, and fitted, is read back from
/// the place where it was written: reading starts where writing started and
/// ends where writing ended, and finds the message in its decoded form.
pub proof fn lemma_written_packet_is_read_back(
    before: BytePacketBuffer,
    after: BytePacketBuffer,
    p: PacketView,
)
    requires
        writable_packet(p),
        before.wf(),
        before.wrote(&after, packet_emission(p).bytes),
        packet_emission(p).bytes.len() <= before.room(),
    ensures
        packet_at(after.buffer@, before.pos as int) == (Parsed {
            cursor: after.pos as int,
            value: Ok::<PacketView, crate::error::DnsError>(decoded_packet(p)),
        }),
{
    let data = packet_emission(p).bytes;
    lemma_written_is_held(before, after, data);
    lemma_packet_round_trip(p, after.buffer@, before.pos as int);
}

/// Bytes that were written into a buffer, and fitted, are held by the
/// buffer where the cursor stood.
pub proof fn lemma_written_is_held(before: BytePacketBuffer, after: BytePacketBuffer, data: Seq<u8>)
    requires
        before.wf(),
        before.wrote(&after, data),
        data.len() <= before.room(),
    ensures
        holds(after.buffer@, before.pos as int, data),
        after.pos == before.pos + data.len(),
{
    lemma_overlay_holds(before.buffer@, before.pos as int, data);
}

} // verus!
