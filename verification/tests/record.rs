use dns_resolver::buffer::BytePacketBuffer;
use dns_resolver::error::DnsError;
use dns_resolver::record::DnsRecord;

fn buffer_with(at: usize, bytes: &[u8]) -> BytePacketBuffer {
    let mut buffer = BytePacketBuffer::new();
    buffer.buffer[at..at + bytes.len()].copy_from_slice(bytes);
    buffer.seek(at).unwrap();
    buffer
}

fn written(record: &DnsRecord) -> Vec<u8> {
    let mut buffer = BytePacketBuffer::new();
    record.write(&mut buffer).unwrap();
    buffer.buffer[..buffer.pos()].to_vec()
}

fn round_trip(record: &DnsRecord) {
    let mut buffer = BytePacketBuffer::new();
    buffer.seek(33).unwrap();
    record.write(&mut buffer).unwrap();
    let end = buffer.pos();
    buffer.seek(33).unwrap();
    assert_eq!(DnsRecord::read(&mut buffer).as_ref(), Ok(record));
    assert_eq!(buffer.pos(), end);
}

#[test]
fn a_record_bytes() {
    let record = DnsRecord::A { domain: "google.com".to_string(), addr: 0xACD90A2E, ttl: 293 };
    assert_eq!(
        written(&record),
        vec![
            6, b'g', b'o', b'o', b'g', b'l', b'e', 3, b'c', b'o', b'm', 0, 0, 1, 0, 1, 0, 0, 1,
            0x25, 0, 4, 172, 217, 10, 46
        ]
    );
    round_trip(&record);
}

#[test]
fn ns_record_bytes() {
    let record = DnsRecord::NS { domain: "com".to_string(), host: "a.gt.net".to_string(), ttl: 172800 };
    assert_eq!(
        written(&record),
        vec![
            3, b'c', b'o', b'm', 0, 0, 2, 0, 1, 0x00, 0x02, 0xA3, 0x00, 0, 10, 1, b'a', 2, b'g',
            b't', 3, b'n', b'e', b't', 0
        ]
    );
    round_trip(&record);
}

#[test]
fn cname_record_bytes() {
    let record = DnsRecord::CNAME { domain: "w".to_string(), host: "".to_string(), ttl: 1 };
    assert_eq!(written(&record), vec![1, b'w', 0, 0, 5, 0, 1, 0, 0, 0, 1, 0, 1, 0]);
    round_trip(&record);
}

#[test]
fn mx_record_bytes() {
    let record =
        DnsRecord::MX { domain: "x.y".to_string(), priority: 0x010A, host: "m.x.y".to_string(), ttl: 300 };
    assert_eq!(
        written(&record),
        vec![
            1, b'x', 1, b'y', 0, 0, 15, 0, 1, 0, 0, 0x01, 0x2C, 0, 9, 0x01, 0x0A, 1, b'm', 1,
            b'x', 1, b'y', 0
        ]
    );
    round_trip(&record);
}

#[test]
fn aaaa_record_bytes() {
    let record = DnsRecord::AAAA {
        domain: "v6".to_string(),
        addr: 0x2001_0db8_0000_0000_0102_0304_0506_0708,
        ttl: 0xFFFF_FFFF,
    };
    assert_eq!(
        written(&record),
        vec![
            2, b'v', b'6', 0, 0, 28, 0, 1, 0xFF, 0xFF, 0xFF, 0xFF, 0, 16, 0x20, 0x01, 0x0d,
            0xb8, 0, 0, 0, 0, 1, 2, 3, 4, 5, 6, 7, 8
        ]
    );
    round_trip(&record);
}

#[test]
fn unknown_record_bytes() {
    let record = DnsRecord::UNKNOWN { domain: "t".to_string(), raw_type: 99, data_len: 3, ttl: 5 };
    assert_eq!(written(&record), vec![1, b't', 0, 0, 99, 0, 1, 0, 0, 0, 5, 0, 3, 0, 0, 0]);
    round_trip(&record);
}

#[test]
fn unknown_record_data_is_skipped() {
    let mut buffer = buffer_with(
        0,
        &[1, b't', 0, 0, 16, 0, 1, 0, 0, 0, 60, 0, 4, 3, b'a', b'b', b'c', 0xEE],
    );
    assert_eq!(
        DnsRecord::read(&mut buffer),
        Ok(DnsRecord::UNKNOWN { domain: "t".to_string(), raw_type: 16, data_len: 4, ttl: 60 })
    );
    assert_eq!(buffer.pos(), 17);
}

#[test]
fn record_class_is_ignored() {
    let mut buffer = buffer_with(0, &[0, 0, 1, 0xAB, 0xCD, 0, 0, 0, 9, 0, 4, 1, 2, 3, 4]);
    assert_eq!(
        DnsRecord::read(&mut buffer),
        Ok(DnsRecord::A { domain: "".to_string(), addr: 0x01020304, ttl: 9 })
    );
    assert_eq!(buffer.pos(), 15);
}

#[test]
fn data_len_overrun_fails() {
    let mut buffer = buffer_with(480, &[1, b't', 0, 0, 16, 0, 1, 0, 0, 0, 60, 0, 20]);
    assert_eq!(DnsRecord::read(&mut buffer), Err(DnsError::OutOfBounds));
    assert_eq!(buffer.pos(), 493);
    let mut buffer = buffer_with(480, &[1, b't', 0, 0, 16, 0, 1, 0, 0, 0, 60, 0, 19]);
    assert_eq!(
        DnsRecord::read(&mut buffer),
        Ok(DnsRecord::UNKNOWN { domain: "t".to_string(), raw_type: 16, data_len: 19, ttl: 60 })
    );
    assert_eq!(buffer.pos(), 512);
}

#[test]
fn address_of_wrong_length_is_malformed() {
    let mut buffer = buffer_with(0, &[0, 0, 1, 0, 1, 0, 0, 0, 9, 0, 5, 1, 2, 3, 4, 5]);
    assert_eq!(DnsRecord::read(&mut buffer), Err(DnsError::MalformedRecord));
    assert_eq!(buffer.pos(), 11);
    let mut buffer = buffer_with(0, &[0, 0, 28, 0, 1, 0, 0, 0, 9, 0, 4, 1, 2, 3, 4]);
    assert_eq!(DnsRecord::read(&mut buffer), Err(DnsError::MalformedRecord));
}

#[test]
fn record_cut_short_fails() {
    let mut buffer = buffer_with(500, &[0, 0, 1, 0, 1, 0, 0, 0, 9, 0, 4, 1]);
    assert_eq!(DnsRecord::read(&mut buffer), Err(DnsError::OutOfBounds));
    assert_eq!(buffer.pos(), 512);
    let mut buffer = buffer_with(505, &[0, 0, 1, 0, 1, 0, 0]);
    assert_eq!(DnsRecord::read(&mut buffer), Err(DnsError::OutOfBounds));
}

#[test]
fn mx_with_compressed_host_at_the_end() {
    // "ab" at 0; the record fills the last sixteen bytes, its host a pointer
    let mut buffer = BytePacketBuffer::new();
    buffer.buffer[..4].copy_from_slice(&[2, b'a', b'b', 0]);
    buffer.buffer[496..].copy_from_slice(&[
        0xC0, 0x00, 0, 15, 0, 1, 0, 0, 0, 7, 0, 4, 0, 20, 0xC0, 0x00,
    ]);
    buffer.seek(496).unwrap();
    assert_eq!(
        DnsRecord::read(&mut buffer),
        Ok(DnsRecord::MX { domain: "ab".to_string(), priority: 20, host: "ab".to_string(), ttl: 7 })
    );
    assert_eq!(buffer.pos(), 512);
}

#[test]
fn ns_host_is_read_through_a_pointer() {
    let mut buffer = buffer_with(
        0,
        &[3, b'c', b'o', b'm', 0, 0xC0, 0x00, 0, 2, 0, 1, 0, 0, 0, 1, 0, 4, 1, b'n', 0xC0, 0x00, 9],
    );
    buffer.seek(5).unwrap();
    assert_eq!(
        DnsRecord::read(&mut buffer),
        Ok(DnsRecord::NS { domain: "com".to_string(), host: "n.com".to_string(), ttl: 1 })
    );
    assert_eq!(buffer.pos(), 21);
}

#[test]
fn record_with_long_label_is_refused() {
    let record = DnsRecord::NS { domain: "ok".to_string(), host: "h".repeat(64), ttl: 1 };
    let mut buffer = BytePacketBuffer::new();
    assert_eq!(record.write(&mut buffer), Err(DnsError::LabelTooLong));
    assert_eq!(buffer.pos(), 14);
    let record = DnsRecord::A { domain: "h".repeat(64), addr: 1, ttl: 1 };
    let mut buffer = BytePacketBuffer::new();
    assert_eq!(record.write(&mut buffer), Err(DnsError::LabelTooLong));
    assert_eq!(buffer.pos(), 0);
}

#[test]
fn record_write_stops_at_the_end() {
    let record = DnsRecord::A { domain: "".to_string(), addr: 0x01020304, ttl: 0 };
    let mut buffer = BytePacketBuffer::new();
    buffer.seek(498).unwrap();
    assert_eq!(record.write(&mut buffer), Err(DnsError::OutOfBounds));
    assert_eq!(&buffer.buffer[498..], &[0, 0, 1, 0, 1, 0, 0, 0, 0, 0, 4, 1, 2, 3]);
    buffer.seek(497).unwrap();
    assert_eq!(record.write(&mut buffer), Ok(()));
}
