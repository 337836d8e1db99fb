//! Resource records: the typed entries of the answer, authority and
//! additional sections.

use vstd::prelude::*;
use vstd::utf8::encode_utf8;
use crate::buffer::{emitted, BytePacketBuffer, PACKET_BUFFER_SIZE};
use crate::enums::QueryType;
use crate::error::DnsError;
use crate::name::{
    dotted, has_long_label, lemma_emission_len, name_emission, walk, Emission,
};
use crate::question::{after_name, run_out, Parsed};
use crate::wire::{be16, be16_bytes, be32, be32_bytes};

verus! {

/// A resource record. An IPv4 address is held as the 32-bit number of its
/// four octets, an IPv6 address as the 128-bit number of its sixteen, the
/// first octet being the most significant.
#[allow(inconsistent_fields)]
#[derive(Debug, Clone, PartialEq, Eq)]
pub enum DnsRecord {
    /// A record of a type that the codec does not take apart. Of its data
    /// only the length is kept.
    UNKNOWN { domain: String, raw_type: u16, data_len: u16, ttl: u32 },
    A { domain: String, addr: u32, ttl: u32 },
    NS { domain: String, host: String, ttl: u32 },
    CNAME { domain: String, host: String, ttl: u32 },
    MX { domain: String, priority: u16, host: String, ttl: u32 },
    AAAA { domain: String, addr: u128, ttl: u32 },
}

/// A resource record as a mathematical value.
#[allow(inconsistent_fields)]
pub enum RecordView {
    UNKNOWN { domain: Seq<char>, raw_type: u16, data_len: u16, ttl: u32 },
    A { domain: Seq<char>, addr: u32, ttl: u32 },
    NS { domain: Seq<char>, host: Seq<char>, ttl: u32 },
    CNAME { domain: Seq<char>, host: Seq<char>, ttl: u32 },
    MX { domain: Seq<char>, priority: u16, host: Seq<char>, ttl: u32 },
    AAAA { domain: Seq<char>, addr: u128, ttl: u32 },
}

impl View for DnsRecord {
    type V = RecordView;

    open spec fn view(&self) -> RecordView {
        match *self {
            DnsRecord::UNKNOWN { domain, raw_type, data_len, ttl } => RecordView::UNKNOWN {
                domain: domain@,
                raw_type,
                data_len,
                ttl,
            },
            DnsRecord::A { domain, addr, ttl } => RecordView::A { domain: domain@, addr, ttl },
            DnsRecord::NS { domain, host, ttl } => RecordView::NS {
                domain: domain@,
                host: host@,
                ttl,
            },
            DnsRecord::CNAME { domain, host, ttl } => RecordView::CNAME {
                domain: domain@,
                host: host@,
                ttl,
            },
            DnsRecord::MX { domain, priority, host, ttl } => RecordView::MX {
                domain: domain@,
                priority,
                host: host@,
                ttl,
            },
            DnsRecord::AAAA { domain, addr, ttl } => RecordView::AAAA { domain: domain@, addr, ttl },
        }
    }
}

/// The 128-bit value of four 32-bit words, most significant first.
pub open spec fn be128(w0: u32, w1: u32, w2: u32, w3: u32) -> u128 {
    (w0 as int * 0x1_0000_0000_0000_0000_0000_0000 + w1 as int * 0x1_0000_0000_0000_0000
        + w2 as int * 0x1_0000_0000 + w3 as int) as u128
}

/// The 32-bit word of `v` that has `below` words after it.
pub open spec fn word(v: u128, below: int) -> u32 {
    if below == 3 {
        (v / 0x1_0000_0000_0000_0000_0000_0000) as u32
    } else if below == 2 {
        ((v / 0x1_0000_0000_0000_0000) % 0x1_0000_0000) as u32
    } else if below == 1 {
        ((v / 0x1_0000_0000) % 0x1_0000_0000) as u32
    } else {
        (v % 0x1_0000_0000) as u32
    }
}

/// The length of the wire form of a name whose dotted form has `n` bytes
/// and no label that is too long: one byte for the root, else every byte of
/// the name, a length byte for the first label and the closing zero.
pub open spec fn name_wire_len(n: nat) -> int {
    if n == 0 {
        1
    } else {
        (n + 2) as int
    }
}

/// The wire form of a name without a label that is too long has the length
/// that `name_wire_len` gives for it.
pub proof fn lemma_name_wire_len(name: Seq<u8>)
    requires
        !has_long_label(name, 0),
    ensures
        name_emission(name).bytes.len() == name_wire_len(name.len()),
{
    if name.len() > 0 {
        lemma_emission_len(name, 0);
    }
}

/// The sixteen bits that the length field of a record takes from `len`.
pub open spec fn len_field(len: int) -> u16 {
    (len % 0x1_0000) as u16
}

/// The start of every record: the owner's name, the type, the class IN, the
/// time to live and the length of the data.
pub open spec fn record_head(domain: Seq<char>, type_num: u16, ttl: u32, len: u16) -> Emission {
    name_emission(encode_utf8(domain)).followed_by(
        Emission::plain(be16_bytes(type_num)),
    ).followed_by(Emission::plain(be16_bytes(1))).followed_by(
        Emission::plain(be32_bytes(ttl)),
    ).followed_by(Emission::plain(be16_bytes(len)))
}

/// The bytes of a record. The data of a record of unknown type is written
/// as zero bytes, as many as its length says. The length field in front of
/// a host name holds the length of the name's wire form.
pub open spec fn record_emission(r: RecordView) -> Emission {
    match r {
        RecordView::UNKNOWN { domain, raw_type, data_len, ttl } => record_head(
            domain,
            raw_type,
            ttl,
            data_len,
        ).followed_by(Emission::plain(Seq::new(data_len as nat, |i: int| 0u8))),
        RecordView::A { domain, addr, ttl } => record_head(domain, 1, ttl, 4).followed_by(
            Emission::plain(be32_bytes(addr)),
        ),
        RecordView::NS { domain, host, ttl } => record_head(
            domain,
            2,
            ttl,
            len_field(name_wire_len(encode_utf8(host).len())),
        ).followed_by(name_emission(encode_utf8(host))),
        RecordView::CNAME { domain, host, ttl } => record_head(
            domain,
            5,
            ttl,
            len_field(name_wire_len(encode_utf8(host).len())),
        ).followed_by(name_emission(encode_utf8(host))),
        RecordView::MX { domain, priority, host, ttl } => record_head(
            domain,
            15,
            ttl,
            len_field(2 + name_wire_len(encode_utf8(host).len())),
        ).followed_by(Emission::plain(be16_bytes(priority))).followed_by(
            name_emission(encode_utf8(host)),
        ),
        RecordView::AAAA { domain, addr, ttl } => record_head(domain, 28, ttl, 16).followed_by(
            Emission::plain(be32_bytes(word(addr, 3))),
        ).followed_by(Emission::plain(be32_bytes(word(addr, 2)))).followed_by(
            Emission::plain(be32_bytes(word(addr, 1))),
        ).followed_by(Emission::plain(be32_bytes(word(addr, 0)))),
    }
}

/// The record data of type `qtype` that `bytes` holds at `at`, `data_len`
/// being the length that the record declares for it.
///
/// An address must have the length of its type. A host name ends where its
/// name field ends, whatever length was declared. Data of unknown type is
/// skipped over.
pub open spec fn record_data_at(
    bytes: Seq<u8>,
    at: int,
    domain: Seq<char>,
    type_num: u16,
    ttl: u32,
    data_len: u16,
) -> Parsed<RecordView> {
    match QueryType::of_num(type_num) {
        QueryType::A => if data_len != 4 {
            Parsed { cursor: at, value: Err(DnsError::MalformedRecord) }
        } else if at + 4 <= bytes.len() {
            Parsed {
                cursor: at + 4,
                value: Ok(
                    RecordView::A {
                        domain,
                        addr: be32(bytes[at], bytes[at + 1], bytes[at + 2], bytes[at + 3]),
                        ttl,
                    },
                ),
            }
        } else {
            Parsed { cursor: run_out(bytes, at), value: Err(DnsError::OutOfBounds) }
        },
        QueryType::AAAA => if data_len != 16 {
            Parsed { cursor: at, value: Err(DnsError::MalformedRecord) }
        } else if at + 16 <= bytes.len() {
            Parsed {
                cursor: at + 16,
                value: Ok(
                    RecordView::AAAA {
                        domain,
                        addr: be128(
                            be32(bytes[at], bytes[at + 1], bytes[at + 2], bytes[at + 3]),
                            be32(bytes[at + 4], bytes[at + 5], bytes[at + 6], bytes[at + 7]),
                            be32(bytes[at + 8], bytes[at + 9], bytes[at + 10], bytes[at + 11]),
                            be32(bytes[at + 12], bytes[at + 13], bytes[at + 14], bytes[at + 15]),
                        ),
                        ttl,
                    },
                ),
            }
        } else {
            Parsed { cursor: run_out(bytes, at), value: Err(DnsError::OutOfBounds) }
        },
        QueryType::NS => {
            let host = walk(bytes, at, 0);
            Parsed {
                cursor: after_name(bytes, at),
                value: match host.error {
                    Some(e) => Err(e),
                    None => Ok(RecordView::NS { domain, host: dotted(host.labels), ttl }),
                },
            }
        },
        QueryType::CNAME => {
            let host = walk(bytes, at, 0);
            Parsed {
                cursor: after_name(bytes, at),
                value: match host.error {
                    Some(e) => Err(e),
                    None => Ok(RecordView::CNAME { domain, host: dotted(host.labels), ttl }),
                },
            }
        },
        QueryType::MX => if at + 2 <= bytes.len() {
            let host = walk(bytes, at + 2, 0);
            Parsed {
                cursor: after_name(bytes, at + 2),
                value: match host.error {
                    Some(e) => Err(e),
                    None => Ok(
                        RecordView::MX {
                            domain,
                            priority: be16(bytes[at], bytes[at + 1]),
                            host: dotted(host.labels),
                            ttl,
                        },
                    ),
                },
            }
        } else {
            Parsed { cursor: run_out(bytes, at), value: Err(DnsError::OutOfBounds) }
        },
        QueryType::UNKNOWN(_) => if at + data_len <= bytes.len() {
            Parsed {
                cursor: at + data_len,
                value: Ok(RecordView::UNKNOWN { domain, raw_type: type_num, data_len, ttl }),
            }
        } else {
            Parsed { cursor: at, value: Err(DnsError::OutOfBounds) }
        },
    }
}

/// The record that `bytes` holds at `at`: the owner's name, two bytes of
/// type, two of class, four of time to live, two of data length, and the
/// data. The class is not looked at.
pub open spec fn record_at(bytes: Seq<u8>, at: int) -> Parsed<RecordView> {
    let name = walk(bytes, at, 0);
    let fixed = after_name(bytes, at);
    match name.error {
        Some(e) => Parsed { cursor: fixed, value: Err(e) },
        None => if fixed + 10 <= bytes.len() {
            record_data_at(
                bytes,
                fixed + 10,
                dotted(name.labels),
                be16(bytes[fixed], bytes[fixed + 1]),
                be32(bytes[fixed + 4], bytes[fixed + 5], bytes[fixed + 6], bytes[fixed + 7]),
                be16(bytes[fixed + 8], bytes[fixed + 9]),
            )
        } else {
            Parsed { cursor: run_out(bytes, fixed), value: Err(DnsError::OutOfBounds) }
        },
    }
}

/// The length field of a record whose data is `extra` bytes and a name of
/// `n` bytes.
fn host_len_field(extra: usize, n: usize) -> (res: u16)
    requires
        extra <= 2,
    ensures
        res == len_field(extra + name_wire_len(n as nat)),
{
    if n == 0 {
        (extra + 1) as u16
    } else {
        ((n % 0x1_0000 + 2 + extra) % 0x1_0000) as u16
    }
}

/// Writes the start of a record.
#[verifier::rlimit(50)]
fn write_head(
    buffer: &mut BytePacketBuffer,
    domain: &str,
    type_num: u16,
    ttl: u32,
    len: u16,
) -> (res: Result<(), DnsError>)
    ensures
        old(buffer).wrote(final(buffer), record_head(domain@, type_num, ttl, len).bytes),
        res == emitted(old(buffer).room(), record_head(domain@, type_num, ttl, len)),
{
    let ghost start = *buffer;
    let ghost e0 = name_emission(encode_utf8(domain@));
    let ghost e1 = e0.followed_by(Emission::plain(be16_bytes(type_num)));
    let ghost e2 = e1.followed_by(Emission::plain(be16_bytes(1)));
    let ghost e3 = e2.followed_by(Emission::plain(be32_bytes(ttl)));
    let r0 = buffer.write_qname(domain);
    let ghost b0 = *buffer;
    let r1 = if r0.is_ok() {
        buffer.write_u16(type_num)
    } else {
        r0
    };
    let ghost b1 = *buffer;
    proof {
        BytePacketBuffer::lemma_emitted_then(
            start,
            b0,
            b1,
            e0,
            Emission::plain(be16_bytes(type_num)),
            r0,
            r1,
        );
    }
    let r2 = if r1.is_ok() {
        buffer.write_u16(1)
    } else {
        r1
    };
    let ghost b2 = *buffer;
    proof {
        BytePacketBuffer::lemma_emitted_then(
            start,
            b1,
            b2,
            e1,
            Emission::plain(be16_bytes(1)),
            r1,
            r2,
        );
    }
    let r3 = if r2.is_ok() {
        buffer.write_u32(ttl)
    } else {
        r2
    };
    let ghost b3 = *buffer;
    proof {
        BytePacketBuffer::lemma_emitted_then(
            start,
            b2,
            b3,
            e2,
            Emission::plain(be32_bytes(ttl)),
            r2,
            r3,
        );
    }
    let r4 = if r3.is_ok() {
        buffer.write_u16(len)
    } else {
        r3
    };
    proof {
        BytePacketBuffer::lemma_emitted_then(
            start,
            b3,
            *buffer,
            e3,
            Emission::plain(be16_bytes(len)),
            r3,
            r4,
        );
    }
    r4
}

/// Writes `count` zero bytes.
fn write_zeros(buffer: &mut BytePacketBuffer, count: u16) -> (res: Result<(), DnsError>)
    ensures
        old(buffer).wrote(final(buffer), Seq::new(count as nat, |i: int| 0u8)),
        res == emitted(
            old(buffer).room(),
            Emission::plain(Seq::new(count as nat, |i: int| 0u8)),
        ),
{
    let ghost start = *buffer;
    let ghost whole = Seq::new(count as nat, |i: int| 0u8);
    let mut k: u16 = 0;
    assert(crate::wire::overlay(buffer.buffer@, buffer.pos as int, Seq::<u8>::empty())
        =~= buffer.buffer@);
    assert(Seq::new(0, |i: int| 0u8) =~= Seq::<u8>::empty());
    while k < count
        invariant
            start == *old(buffer),
            k <= count,
            whole == Seq::new(count as nat, |i: int| 0u8),
            start.wrote(buffer, Seq::new(k as nat, |i: int| 0u8)),
            k <= start.room(),
        decreases count - k,
    {
        let ghost mid = *buffer;
        let ghost done = Seq::new(k as nat, |i: int| 0u8);
        let r = buffer.write_u8(0);
        proof {
            BytePacketBuffer::lemma_wrote_on(start, mid, *buffer, done, seq![0u8]);
            assert(done + seq![0u8] =~= Seq::new((k + 1) as nat, |i: int| 0u8));
        }
        if r.is_err() {
            proof {
                let part = Seq::new((k + 1) as nat, |i: int| 0u8);
                let more = Seq::new((count - k - 1) as nat, |i: int| 0u8);
                assert(whole =~= part + more);
                BytePacketBuffer::lemma_wrote_more(start, *buffer, part, more);
            }
            return r;
        }
        k += 1;
    }
    Ok(())
}

impl DnsRecord {
    /// Reads a record at the cursor.
    pub fn read(buffer: &mut BytePacketBuffer) -> (res: Result<DnsRecord, DnsError>)
        ensures
            final(buffer).buffer == old(buffer).buffer,
            final(buffer).pos == record_at(old(buffer).buffer@, old(buffer).pos as int).cursor,
            match record_at(old(buffer).buffer@, old(buffer).pos as int).value {
                Ok(v) => res matches Ok(r) && r@ == v,
                Err(e) => res matches Err(f) && f == e,
            },
    {
        let domain = Self::read_name(buffer)?;
        let (type_num, ttl, data_len) = Self::read_fixed(buffer)?;
        Self::read_data(buffer, domain, type_num, ttl, data_len)
    }

    /// Reads the name at the cursor.
    fn read_name(buffer: &mut BytePacketBuffer) -> (res: Result<String, DnsError>)
        ensures
            final(buffer).buffer == old(buffer).buffer,
            final(buffer).pos == after_name(old(buffer).buffer@, old(buffer).pos as int),
            match walk(old(buffer).buffer@, old(buffer).pos as int, 0).error {
                None => res matches Ok(name) && name@ == dotted(
                    walk(old(buffer).buffer@, old(buffer).pos as int, 0).labels,
                ),
                Some(e) => res matches Err(f) && f == e,
            },
    {
        let mut name = String::new();
        buffer.read_qname(&mut name)?;
        assert(name@ =~= dotted(walk(old(buffer).buffer@, old(buffer).pos as int, 0).labels));
        Ok(name)
    }

    /// Reads what stands between the name and the data of a record: the
    /// type, the class, the time to live and the length of the data. The
    /// class is not returned.
    fn read_fixed(buffer: &mut BytePacketBuffer) -> (res: Result<(u16, u32, u16), DnsError>)
        ensures
            old(buffer).consumed(final(buffer), 10),
            res == if old(buffer).room() >= 10 {
                let bytes = old(buffer).buffer@;
                let at = old(buffer).pos as int;
                Ok::<(u16, u32, u16), DnsError>(
                    (
                        be16(bytes[at], bytes[at + 1]),
                        be32(bytes[at + 4], bytes[at + 5], bytes[at + 6], bytes[at + 7]),
                        be16(bytes[at + 8], bytes[at + 9]),
                    ),
                )
            } else {
                Err(DnsError::OutOfBounds)
            },
    {
        let type_num = buffer.read_u16()?;
        let _ = buffer.read_u16()?;
        let ttl = buffer.read_u32()?;
        let data_len = buffer.read_u16()?;
        Ok((type_num, ttl, data_len))
    }

    /// Reads the data of a record at the cursor.
    #[verifier::rlimit(50)]
    fn read_data(
        buffer: &mut BytePacketBuffer,
        domain: String,
        type_num: u16,
        ttl: u32,
        data_len: u16,
    ) -> (res: Result<DnsRecord, DnsError>)
        requires
            old(buffer).wf(),
        ensures
            final(buffer).buffer == old(buffer).buffer,
            final(buffer).pos == record_data_at(
                old(buffer).buffer@,
                old(buffer).pos as int,
                domain@,
                type_num,
                ttl,
                data_len,
            ).cursor,
            match record_data_at(
                old(buffer).buffer@,
                old(buffer).pos as int,
                domain@,
                type_num,
                ttl,
                data_len,
            ).value {
                Ok(v) => res matches Ok(r) && r@ == v,
                Err(e) => res matches Err(f) && f == e,
            },
    {
        assert(buffer.buffer@.len() == PACKET_BUFFER_SIZE);
        match QueryType::from_num(type_num) {
            QueryType::A => {
                if data_len != 4 {
                    return Err(DnsError::MalformedRecord);
                }
                let addr = buffer.read_u32()?;
                Ok(DnsRecord::A { domain, addr, ttl })
            },
            QueryType::AAAA => {
                if data_len != 16 {
                    return Err(DnsError::MalformedRecord);
                }
                let addr = Self::read_u128(buffer)?;
                Ok(DnsRecord::AAAA { domain, addr, ttl })
            },
            QueryType::NS => {
                let host = Self::read_name(buffer)?;
                Ok(DnsRecord::NS { domain, host, ttl })
            },
            QueryType::CNAME => {
                let host = Self::read_name(buffer)?;
                Ok(DnsRecord::CNAME { domain, host, ttl })
            },
            QueryType::MX => {
                let priority = buffer.read_u16()?;
                let host = Self::read_name(buffer)?;
                Ok(DnsRecord::MX { domain, priority, host, ttl })
            },
            QueryType::UNKNOWN(_) => {
                buffer.step(data_len as usize)?;
                Ok(DnsRecord::UNKNOWN { domain, raw_type: type_num, data_len, ttl })
            },
        }
    }

    /// Reads sixteen bytes at the cursor as a big-endian integer.
    #[verifier::rlimit(50)]
    fn read_u128(buffer: &mut BytePacketBuffer) -> (res: Result<u128, DnsError>)
        ensures
            old(buffer).consumed(final(buffer), 16),
            res == if old(buffer).room() >= 16 {
                let bytes = old(buffer).buffer@;
                let at = old(buffer).pos as int;
                Ok::<u128, DnsError>(
                    be128(
                        be32(bytes[at], bytes[at + 1], bytes[at + 2], bytes[at + 3]),
                        be32(bytes[at + 4], bytes[at + 5], bytes[at + 6], bytes[at + 7]),
                        be32(bytes[at + 8], bytes[at + 9], bytes[at + 10], bytes[at + 11]),
                        be32(bytes[at + 12], bytes[at + 13], bytes[at + 14], bytes[at + 15]),
                    ),
                )
            } else {
                Err(DnsError::OutOfBounds)
            },
    {
        let w0 = buffer.read_u32()?;
        let w1 = buffer.read_u32()?;
        let w2 = buffer.read_u32()?;
        let w3 = buffer.read_u32()?;
        Ok(
            (w0 as u128) * 0x1_0000_0000_0000_0000_0000_0000 + (w1 as u128)
                * 0x1_0000_0000_0000_0000 + (w2 as u128) * 0x1_0000_0000 + (w3 as u128),
        )
    }

    /// Writes this record at the cursor, as far as it fits and up to the
    /// first label that is too long.
    pub fn write(&self, buffer: &mut BytePacketBuffer) -> (res: Result<(), DnsError>)
        ensures
            old(buffer).wrote(final(buffer), record_emission(self@).bytes),
            res == emitted(old(buffer).room(), record_emission(self@)),
    {
        match self {
            DnsRecord::UNKNOWN { domain, raw_type, data_len, ttl } => {
                Self::write_unknown(buffer, domain.as_str(), *raw_type, *ttl, *data_len)
            },
            DnsRecord::A { domain, addr, ttl } => {
                Self::write_a(buffer, domain.as_str(), *ttl, *addr)
            },
            DnsRecord::NS { domain, host, ttl } => {
                let len = host_len_field(0, host.as_str().as_bytes().len());
                Self::write_named(buffer, domain.as_str(), 2, *ttl, len, host.as_str())
            },
            DnsRecord::CNAME { domain, host, ttl } => {
                let len = host_len_field(0, host.as_str().as_bytes().len());
                Self::write_named(buffer, domain.as_str(), 5, *ttl, len, host.as_str())
            },
            DnsRecord::MX { domain, priority, host, ttl } => {
                Self::write_mx(buffer, domain.as_str(), *ttl, *priority, host.as_str())
            },
            DnsRecord::AAAA { domain, addr, ttl } => {
                Self::write_aaaa(buffer, domain.as_str(), *ttl, *addr)
            },
        }
    }

    /// Writes a record of unknown type, its data as zero bytes.
    fn write_unknown(
        buffer: &mut BytePacketBuffer,
        domain: &str,
        raw_type: u16,
        ttl: u32,
        data_len: u16,
    ) -> (res: Result<(), DnsError>)
        ensures
            old(buffer).wrote(
                final(buffer),
                record_emission(
                    RecordView::UNKNOWN { domain: domain@, raw_type, data_len, ttl },
                ).bytes,
            ),
            res == emitted(
                old(buffer).room(),
                record_emission(RecordView::UNKNOWN { domain: domain@, raw_type, data_len, ttl }),
            ),
    {
        let ghost start = *buffer;
        let ghost head = record_head(domain@, raw_type, ttl, data_len);
        let r0 = write_head(buffer, domain, raw_type, ttl, data_len);
        let ghost b0 = *buffer;
        let r1 = if r0.is_ok() {
            write_zeros(buffer, data_len)
        } else {
            r0
        };
        proof {
            BytePacketBuffer::lemma_emitted_then(
                start,
                b0,
                *buffer,
                head,
                Emission::plain(Seq::new(data_len as nat, |i: int| 0u8)),
                r0,
                r1,
            );
        }
        r1
    }

    /// Writes an address record of the older kind.
    fn write_a(buffer: &mut BytePacketBuffer, domain: &str, ttl: u32, addr: u32) -> (res: Result<
        (),
        DnsError,
    >)
        ensures
            old(buffer).wrote(
                final(buffer),
                record_emission(RecordView::A { domain: domain@, addr, ttl }).bytes,
            ),
            res == emitted(
                old(buffer).room(),
                record_emission(RecordView::A { domain: domain@, addr, ttl }),
            ),
    {
        let ghost start = *buffer;
        let ghost head = record_head(domain@, 1, ttl, 4);
        let r0 = write_head(buffer, domain, 1, ttl, 4);
        let ghost b0 = *buffer;
        let r1 = if r0.is_ok() {
            buffer.write_u32(addr)
        } else {
            r0
        };
        proof {
            BytePacketBuffer::lemma_emitted_then(
                start,
                b0,
                *buffer,
                head,
                Emission::plain(be32_bytes(addr)),
                r0,
                r1,
            );
        }
        r1
    }

    /// Writes a mail exchange record.
    fn write_mx(
        buffer: &mut BytePacketBuffer,
        domain: &str,
        ttl: u32,
        priority: u16,
        host: &str,
    ) -> (res: Result<(), DnsError>)
        ensures
            old(buffer).wrote(
                final(buffer),
                record_emission(
                    RecordView::MX { domain: domain@, priority, host: host@, ttl },
                ).bytes,
            ),
            res == emitted(
                old(buffer).room(),
                record_emission(RecordView::MX { domain: domain@, priority, host: host@, ttl }),
            ),
    {
        let ghost start = *buffer;
        let len = host_len_field(2, host.as_bytes().len());
        let ghost head = record_head(domain@, 15, ttl, len);
        let ghost prio = Emission::plain(be16_bytes(priority));
        let r0 = write_head(buffer, domain, 15, ttl, len);
        let ghost b0 = *buffer;
        let r1 = if r0.is_ok() {
            buffer.write_u16(priority)
        } else {
            r0
        };
        let ghost b1 = *buffer;
        proof {
            BytePacketBuffer::lemma_emitted_then(start, b0, b1, head, prio, r0, r1);
        }
        let r2 = if r1.is_ok() {
            buffer.write_qname(host)
        } else {
            r1
        };
        proof {
            BytePacketBuffer::lemma_emitted_then(
                start,
                b1,
                *buffer,
                head.followed_by(prio),
                name_emission(encode_utf8(host@)),
                r1,
                r2,
            );
        }
        r2
    }

    /// Writes an address record of the newer kind.
    #[verifier::rlimit(50)]
    fn write_aaaa(buffer: &mut BytePacketBuffer, domain: &str, ttl: u32, addr: u128) -> (res:
        Result<(), DnsError>)
        ensures
            old(buffer).wrote(
                final(buffer),
                record_emission(RecordView::AAAA { domain: domain@, addr, ttl }).bytes,
            ),
            res == emitted(
                old(buffer).room(),
                record_emission(RecordView::AAAA { domain: domain@, addr, ttl }),
            ),
    {
        let ghost start = *buffer;
        let ghost head = record_head(domain@, 28, ttl, 16);
        let ghost e3 = Emission::plain(be32_bytes(word(addr, 3)));
        let ghost e2 = Emission::plain(be32_bytes(word(addr, 2)));
        let ghost e1 = Emission::plain(be32_bytes(word(addr, 1)));
        let ghost e0 = Emission::plain(be32_bytes(word(addr, 0)));
        let w3 = (addr / 0x1_0000_0000_0000_0000_0000_0000) as u32;
        let w2 = ((addr / 0x1_0000_0000_0000_0000) % 0x1_0000_0000) as u32;
        let w1 = ((addr / 0x1_0000_0000) % 0x1_0000_0000) as u32;
        let w0 = (addr % 0x1_0000_0000) as u32;
        let r0 = write_head(buffer, domain, 28, ttl, 16);
        let ghost b0 = *buffer;
        let r1 = if r0.is_ok() {
            buffer.write_u32(w3)
        } else {
            r0
        };
        let ghost b1 = *buffer;
        proof {
            BytePacketBuffer::lemma_emitted_then(start, b0, b1, head, e3, r0, r1);
        }
        let r2 = if r1.is_ok() {
            buffer.write_u32(w2)
        } else {
            r1
        };
        let ghost b2 = *buffer;
        proof {
            BytePacketBuffer::lemma_emitted_then(start, b1, b2, head.followed_by(e3), e2, r1, r2);
        }
        let r3 = if r2.is_ok() {
            buffer.write_u32(w1)
        } else {
            r2
        };
        let ghost b3 = *buffer;
        proof {
            BytePacketBuffer::lemma_emitted_then(
                start,
                b2,
                b3,
                head.followed_by(e3).followed_by(e2),
                e1,
                r2,
                r3,
            );
        }
        let r4 = if r3.is_ok() {
            buffer.write_u32(w0)
        } else {
            r3
        };
        proof {
            BytePacketBuffer::lemma_emitted_then(
                start,
                b3,
                *buffer,
                head.followed_by(e3).followed_by(e2).followed_by(e1),
                e0,
                r3,
                r4,
            );
        }
        r4
    }

    /// Writes a record whose data is one host name.
    fn write_named(
        buffer: &mut BytePacketBuffer,
        domain: &str,
        type_num: u16,
        ttl: u32,
        len: u16,
        host: &str,
    ) -> (res: Result<(), DnsError>)
        ensures
            old(buffer).wrote(
                final(buffer),
                record_head(domain@, type_num, ttl, len).followed_by(
                    name_emission(encode_utf8(host@)),
                ).bytes,
            ),
            res == emitted(
                old(buffer).room(),
                record_head(domain@, type_num, ttl, len).followed_by(
                    name_emission(encode_utf8(host@)),
                ),
            ),
    {
        let ghost start = *buffer;
        let r0 = write_head(buffer, domain, type_num, ttl, len);
        let ghost b0 = *buffer;
        let r1 = if r0.is_ok() {
            buffer.write_qname(host)
        } else {
            r0
        };
        proof {
            BytePacketBuffer::lemma_emitted_then(
                start,
                b0,
                *buffer,
                record_head(domain@, type_num, ttl, len),
                name_emission(encode_utf8(host@)),
                r0,
                r1,
            );
        }
        r1
    }
}

} // verus!
