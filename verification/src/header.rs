//! The twelve-byte header of a message.

use vstd::prelude::*;
use crate::buffer::{in_bounds, BytePacketBuffer};
use crate::enums::ResultCode;
use crate::error::DnsError;
use crate::wire::{be16, holds, lemma_be16_round_trip};

verus! {

/// The number of bytes that a header takes on the wire.
pub const HEADER_SIZE: usize = 12;

/// The header of a message: the identifier of the transaction, the flags,
/// and the number of entries in each of the four sections.
#[derive(Debug, Clone, Copy, PartialEq, Eq, Structural)]
pub struct Header {
    pub id: u16,
    pub recursion_desired: bool,
    pub truncated_message: bool,
    pub authoritative_answer: bool,
    pub operation_code: u8,
    pub responce: bool,
    pub responce_code: ResultCode,
    pub checking_disabled: bool,
    pub authed_data: bool,
    pub z: bool,
    pub recursion_available: bool,
    pub questions: u16,
    pub answers: u16,
    pub authoritative_entries: u16,
    pub resource_entries: u16,
}

/// Whether bit `k` of `byte` is set, bit 0 being the least significant.
pub open spec fn bit(byte: u8, k: int) -> bool {
    if k == 0 {
        byte % 2 == 1
    } else if k == 1 {
        (byte / 2) % 2 == 1
    } else if k == 2 {
        (byte / 4) % 2 == 1
    } else if k == 3 {
        (byte / 8) % 2 == 1
    } else if k == 4 {
        (byte / 16) % 2 == 1
    } else if k == 5 {
        (byte / 32) % 2 == 1
    } else if k == 6 {
        (byte / 64) % 2 == 1
    } else {
        (byte / 128) % 2 == 1
    }
}

/// What a flag adds to its byte: its weight where it is set.
pub open spec fn flag(on: bool, weight: int) -> int {
    if on {
        weight
    } else {
        0
    }
}

fn flag_bit(on: bool, weight: u8) -> (res: u8)
    ensures
        res == flag(on, weight as int),
{
    if on {
        weight
    } else {
        0
    }
}

impl Header {
    /// The first flag byte: recursion desired in bit 0, truncation in bit 1,
    /// authoritative answer in bit 2, the operation code in bits 3 to 6, the
    /// response flag in bit 7.
    pub open spec fn flags_high(self) -> u8 {
        (flag(self.recursion_desired, 1) + flag(self.truncated_message, 2) + flag(
            self.authoritative_answer,
            4,
        ) + (self.operation_code % 16) * 8 + flag(self.responce, 128)) as u8
    }

    /// The second flag byte: the response code in bits 0 to 3, checking
    /// disabled in bit 4, authenticated data in bit 5, the reserved bit in
    /// bit 6, recursion available in bit 7.
    pub open spec fn flags_low(self) -> u8 {
        (self.responce_code.num() + flag(self.checking_disabled, 16) + flag(self.authed_data, 32)
            + flag(self.z, 64) + flag(self.recursion_available, 128)) as u8
    }

    /// The twelve bytes of this header: the identifier, the two flag bytes
    /// and the four counts, each integer with its high byte first.
    pub open spec fn wire(self) -> Seq<u8> {
        seq![
            (self.id / 256) as u8,
            (self.id % 256) as u8,
            self.flags_high(),
            self.flags_low(),
            (self.questions / 256) as u8,
            (self.questions % 256) as u8,
            (self.answers / 256) as u8,
            (self.answers % 256) as u8,
            (self.authoritative_entries / 256) as u8,
            (self.authoritative_entries % 256) as u8,
            (self.resource_entries / 256) as u8,
            (self.resource_entries % 256) as u8,
        ]
    }

    /// The header that the twelve bytes of `bytes` from `at` on stand for.
    pub open spec fn at(bytes: Seq<u8>, at: int) -> Header {
        let high = bytes[at + 2];
        let low = bytes[at + 3];
        Header {
            id: be16(bytes[at], bytes[at + 1]),
            recursion_desired: bit(high, 0),
            truncated_message: bit(high, 1),
            authoritative_answer: bit(high, 2),
            operation_code: ((high / 8) % 16) as u8,
            responce: bit(high, 7),
            responce_code: ResultCode::of_num((low % 16) as u8),
            checking_disabled: bit(low, 4),
            authed_data: bit(low, 5),
            z: bit(low, 6),
            recursion_available: bit(low, 7),
            questions: be16(bytes[at + 4], bytes[at + 5]),
            answers: be16(bytes[at + 6], bytes[at + 7]),
            authoritative_entries: be16(bytes[at + 8], bytes[at + 9]),
            resource_entries: be16(bytes[at + 10], bytes[at + 11]),
        }
    }

    /// The operation code fits its four bits.
    pub open spec fn wf(self) -> bool {
        self.operation_code < 16
    }

    /// A header takes twelve bytes.
    pub proof fn lemma_wire_len(self)
        ensures
            self.wire().len() == HEADER_SIZE,
    {
    }

    /// The flags and the operation code are found again in the first flag
    /// byte.
    #[verifier::rlimit(50)]
    pub proof fn lemma_flags_high(self)
        requires
            self.wf(),
        ensures
            bit(self.flags_high(), 0) == self.recursion_desired,
            bit(self.flags_high(), 1) == self.truncated_message,
            bit(self.flags_high(), 2) == self.authoritative_answer,
            (self.flags_high() / 8) % 16 == self.operation_code,
            bit(self.flags_high(), 7) == self.responce,
    {
    }

    /// The flags and the response code are found again in the second flag
    /// byte.
    #[verifier::rlimit(50)]
    pub proof fn lemma_flags_low(self)
        ensures
            ResultCode::of_num((self.flags_low() % 16) as u8) == self.responce_code,
            bit(self.flags_low(), 4) == self.checking_disabled,
            bit(self.flags_low(), 5) == self.authed_data,
            bit(self.flags_low(), 6) == self.z,
            bit(self.flags_low(), 7) == self.recursion_available,
    {
    }

    /// A header is read back from its own twelve bytes.
    #[verifier::rlimit(50)]
    pub proof fn lemma_round_trip(self, bytes: Seq<u8>, at: int)
        requires
            self.wf(),
            holds(bytes, at, self.wire()),
        ensures
            Header::at(bytes, at) == self,
    {
        let w = self.wire();
        assert(bytes[at + 0] == w[0]);
        assert(bytes[at + 1] == w[1]);
        assert(bytes[at + 2] == w[2]);
        assert(bytes[at + 3] == w[3]);
        assert(bytes[at + 4] == w[4]);
        assert(bytes[at + 5] == w[5]);
        assert(bytes[at + 6] == w[6]);
        assert(bytes[at + 7] == w[7]);
        assert(bytes[at + 8] == w[8]);
        assert(bytes[at + 9] == w[9]);
        assert(bytes[at + 10] == w[10]);
        assert(bytes[at + 11] == w[11]);
        self.lemma_flags_high();
        self.lemma_flags_low();
        lemma_be16_round_trip(self.id);
        lemma_be16_round_trip(self.questions);
        lemma_be16_round_trip(self.answers);
        lemma_be16_round_trip(self.authoritative_entries);
        lemma_be16_round_trip(self.resource_entries);
    }

    /// The header of `new`: every number zero, every flag off.
    pub open spec fn new_spec() -> Header {
        Header {
            id: 0,
            recursion_desired: false,
            truncated_message: false,
            authoritative_answer: false,
            operation_code: 0,
            responce: false,
            responce_code: ResultCode::NOERROR,
            checking_disabled: false,
            authed_data: false,
            z: false,
            recursion_available: false,
            questions: 0,
            answers: 0,
            authoritative_entries: 0,
            resource_entries: 0,
        }
    }

    /// A header with every number zero and every flag off.
    pub fn new() -> (res: Self)
        ensures
            res == Header::new_spec(),
    {
        Self {
            id: 0,
            recursion_desired: false,
            truncated_message: false,
            authoritative_answer: false,
            operation_code: 0,
            responce: false,
            responce_code: ResultCode::NOERROR,
            checking_disabled: false,
            authed_data: false,
            z: false,
            recursion_available: false,
            questions: 0,
            answers: 0,
            authoritative_entries: 0,
            resource_entries: 0,
        }
    }

    /// Reads a header at the cursor. It fails only where fewer than twelve
    /// bytes are left, and then leaves this header as it was.
    #[verifier::rlimit(50)]
    pub fn read(&mut self, buffer: &mut BytePacketBuffer) -> (res: Result<(), DnsError>)
        ensures
            old(buffer).consumed(final(buffer), HEADER_SIZE as int),
            res == in_bounds(old(buffer).room() >= HEADER_SIZE),
            *final(self) == if old(buffer).room() >= HEADER_SIZE {
                Header::at(old(buffer).buffer@, old(buffer).pos as int)
            } else {
                *old(self)
            },
            res is Ok ==> final(self).wf(),
    {
        let id = buffer.read_u16()?;
        let high = buffer.read()?;
        let low = buffer.read()?;
        let questions = buffer.read_u16()?;
        let answers = buffer.read_u16()?;
        let authoritative_entries = buffer.read_u16()?;
        let resource_entries = buffer.read_u16()?;

        self.id = id;
        self.recursion_desired = high % 2 == 1;
        self.truncated_message = (high / 2) % 2 == 1;
        self.authoritative_answer = (high / 4) % 2 == 1;
        self.operation_code = (high / 8) % 16;
        self.responce = (high / 128) % 2 == 1;

        self.responce_code = ResultCode::from_num(low % 16);
        self.checking_disabled = (low / 16) % 2 == 1;
        self.authed_data = (low / 32) % 2 == 1;
        self.z = (low / 64) % 2 == 1;
        self.recursion_available = (low / 128) % 2 == 1;

        self.questions = questions;
        self.answers = answers;
        self.authoritative_entries = authoritative_entries;
        self.resource_entries = resource_entries;
        Ok(())
    }

    /// Writes this header at the cursor, as far as it fits. Of the
    /// operation code the low four bits are written.
    #[verifier::rlimit(50)]
    pub fn write(&self, buffer: &mut BytePacketBuffer) -> (res: Result<(), DnsError>)
        ensures
            old(buffer).wrote(final(buffer), self.wire()),
            res == in_bounds(old(buffer).room() >= HEADER_SIZE),
    {
        let high = flag_bit(self.recursion_desired, 1) + flag_bit(self.truncated_message, 2)
            + flag_bit(self.authoritative_answer, 4) + (self.operation_code % 16) * 8 + flag_bit(
            self.responce,
            128,
        );
        let low = self.responce_code.to_num() + flag_bit(self.checking_disabled, 16) + flag_bit(
            self.authed_data,
            32,
        ) + flag_bit(self.z, 64) + flag_bit(self.recursion_available, 128);

        let bytes: [u8; 12] = [
            (self.id / 256) as u8,
            (self.id % 256) as u8,
            high,
            low,
            (self.questions / 256) as u8,
            (self.questions % 256) as u8,
            (self.answers / 256) as u8,
            (self.answers % 256) as u8,
            (self.authoritative_entries / 256) as u8,
            (self.authoritative_entries % 256) as u8,
            (self.resource_entries / 256) as u8,
            (self.resource_entries % 256) as u8,
        ];
        assert(bytes@ =~= self.wire());
        buffer.write_all(bytes.as_slice())
    }
}

} // verus!
