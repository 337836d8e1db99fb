//! The question of a message: a name and a record type.

use vstd::prelude::*;
use vstd::string::StringExecFns;
use vstd::utf8::encode_utf8;
use crate::buffer::{emitted, BytePacketBuffer};
use crate::enums::QueryType;
use crate::error::DnsError;
use crate::name::{dotted, name_emission, name_end, walk, Emission};
use crate::wire::{be16, be16_bytes};

verus! {

/// A question: the name asked about, in dotted form, and the type of
/// record asked for.
#[derive(Debug, Clone, PartialEq, Eq)]
pub struct Question {
    pub name: String,
    pub qtype: QueryType,
}

/// A question as a mathematical value.
pub struct QuestionView {
    pub name: Seq<char>,
    pub qtype: QueryType,
}

impl View for Question {
    type V = QuestionView;

    open spec fn view(&self) -> QuestionView {
        QuestionView { name: self.name@, qtype: self.qtype }
    }
}

/// What decoding found, and where it left the cursor.
pub struct Parsed<T> {
    pub cursor: int,
    pub value: Result<T, DnsError>,
}

/// Where the cursor stands after the name field at `at` was read: at the
/// end of the field, or at `at` where the field has no end.
pub open spec fn after_name(bytes: Seq<u8>, at: int) -> int {
    match name_end(bytes, at) {
        Some(end) => end,
        None => at,
    }
}

/// Where the cursor stands after a read that ran out of bytes at `at`: at
/// the end of `bytes`.
pub open spec fn run_out(bytes: Seq<u8>, at: int) -> int {
    if at <= bytes.len() {
        bytes.len() as int
    } else {
        at
    }
}

/// The question that `bytes` holds at `at`: a name, two bytes of type and
/// two bytes of class. The class is not looked at.
pub open spec fn question_at(bytes: Seq<u8>, at: int) -> Parsed<QuestionView> {
    let name = walk(bytes, at, 0);
    let fixed = after_name(bytes, at);
    match name.error {
        Some(e) => Parsed { cursor: fixed, value: Err(e) },
        None => if fixed + 4 <= bytes.len() {
            Parsed {
                cursor: fixed + 4,
                value: Ok(
                    QuestionView {
                        name: dotted(name.labels),
                        qtype: QueryType::of_num(be16(bytes[fixed], bytes[fixed + 1])),
                    },
                ),
            }
        } else {
            Parsed { cursor: run_out(bytes, fixed), value: Err(DnsError::OutOfBounds) }
        },
    }
}

/// The bytes of a question: its name, its type, and the class IN.
pub open spec fn question_emission(q: QuestionView) -> Emission {
    name_emission(encode_utf8(q.name)).followed_by(Emission::plain(be16_bytes(q.qtype.num()))).followed_by(
        Emission::plain(be16_bytes(1)),
    )
}

impl Question {
    /// The question for `name` and `qtype`.
    pub fn new(name: String, qtype: QueryType) -> (res: Self)
        ensures
            res.name == name,
            res.qtype == qtype,
    {
        Self { name, qtype }
    }

    /// Reads a question at the cursor. Its name is appended to the name of
    /// this question, its type replaces the type. Where the reading fails,
    /// this question stays as it was.
    pub fn read(&mut self, buffer: &mut BytePacketBuffer) -> (res: Result<(), DnsError>)
        ensures
            final(buffer).buffer == old(buffer).buffer,
            final(buffer).pos == question_at(old(buffer).buffer@, old(buffer).pos as int).cursor,
            match question_at(old(buffer).buffer@, old(buffer).pos as int).value {
                Ok(q) => {
                    &&& res is Ok
                    &&& final(self).name@ == old(self).name@ + q.name
                    &&& final(self).qtype == q.qtype
                },
                Err(e) => res == Err::<(), DnsError>(e) && *final(self) == *old(self),
            },
    {
        let mut name = String::new();
        buffer.read_qname(&mut name)?;
        let qtype = QueryType::from_num(buffer.read_u16()?);
        let _ = buffer.read_u16()?;
        self.name.append(name.as_str());
        self.qtype = qtype;
        Ok(())
    }

    /// Writes this question at the cursor, as far as it fits and up to the
    /// first label that is too long.
    pub fn write(&self, buffer: &mut BytePacketBuffer) -> (res: Result<(), DnsError>)
        ensures
            old(buffer).wrote(final(buffer), question_emission(self@).bytes),
            res == emitted(old(buffer).room(), question_emission(self@)),
    {
        let ghost start = *buffer;
        let ghost name = name_emission(encode_utf8(self.name@));
        let ghost qtype = Emission::plain(be16_bytes(self.qtype.num()));
        let ghost class = Emission::plain(be16_bytes(1));
        let named = buffer.write_qname(self.name.as_str());
        let ghost after_name = *buffer;
        let typed = if named.is_ok() {
            buffer.write_u16(self.qtype.to_num())
        } else {
            named
        };
        let ghost after_type = *buffer;
        proof {
            BytePacketBuffer::lemma_emitted_then(
                start,
                after_name,
                after_type,
                name,
                qtype,
                named,
                typed,
            );
        }
        let classed = if typed.is_ok() {
            buffer.write_u16(1)
        } else {
            typed
        };
        proof {
            BytePacketBuffer::lemma_emitted_then(
                start,
                after_type,
                *buffer,
                name.followed_by(qtype),
                class,
                typed,
                classed,
            );
        }
        classed
    }
}

} // verus!
