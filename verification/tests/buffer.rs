use dns_resolver::buffer::BytePacketBuffer;
use dns_resolver::error::DnsError;

fn buffer_with(bytes: &[u8]) -> BytePacketBuffer {
    let mut buffer = BytePacketBuffer::new();
    buffer.buffer[..bytes.len()].copy_from_slice(bytes);
    buffer
}

#[test]
fn new_buffer_is_zeroed() {
    let buffer = BytePacketBuffer::new();
    assert_eq!(buffer.pos(), 0);
    assert!(buffer.buffer.iter().all(|b| *b == 0));
    assert_eq!(buffer.buffer.len(), 512);
}

#[test]
fn integers_are_big_endian() {
    let mut buffer = BytePacketBuffer::new();
    buffer.write_u8(0xAB).unwrap();
    buffer.write_u16(0x1234).unwrap();
    buffer.write_u32(0xDEADBEEF).unwrap();
    assert_eq!(buffer.pos(), 7);
    assert_eq!(&buffer.buffer[..7], &[0xAB, 0x12, 0x34, 0xDE, 0xAD, 0xBE, 0xEF]);
    buffer.seek(0).unwrap();
    assert_eq!(buffer.read(), Ok(0xAB));
    assert_eq!(buffer.read_u16(), Ok(0x1234));
    assert_eq!(buffer.read_u32(), Ok(0xDEADBEEF));
    assert_eq!(buffer.pos(), 7);
}

#[test]
fn reads_stop_at_the_end() {
    let mut buffer = BytePacketBuffer::new();
    buffer.buffer[511] = 9;
    buffer.seek(511).unwrap();
    assert_eq!(buffer.read_u16(), Err(DnsError::OutOfBounds));
    assert_eq!(buffer.pos(), 512);
    assert_eq!(buffer.read(), Err(DnsError::OutOfBounds));
    assert_eq!(buffer.pos(), 512);
    buffer.seek(509).unwrap();
    assert_eq!(buffer.read_u32(), Err(DnsError::OutOfBounds));
    buffer.seek(508).unwrap();
    assert_eq!(buffer.read_u32(), Ok(9));
    assert_eq!(buffer.pos(), 512);
}

#[test]
fn writes_stop_at_the_end() {
    let mut buffer = BytePacketBuffer::new();
    buffer.seek(511).unwrap();
    assert_eq!(buffer.write_u16(0x0102), Err(DnsError::OutOfBounds));
    assert_eq!(buffer.buffer[511], 1);
    assert_eq!(buffer.pos(), 512);
    assert_eq!(buffer.write_u8(7), Err(DnsError::OutOfBounds));
    buffer.seek(508).unwrap();
    assert_eq!(buffer.write_u32(0x0A0B0C0D), Ok(()));
    assert_eq!(&buffer.buffer[508..], &[0x0A, 0x0B, 0x0C, 0x0D]);
}

#[test]
fn write_all_cuts_at_the_end() {
    let mut buffer = BytePacketBuffer::new();
    buffer.seek(510).unwrap();
    assert_eq!(buffer.write_all(&[1, 2, 3]), Err(DnsError::OutOfBounds));
    assert_eq!(&buffer.buffer[510..], &[1, 2]);
    assert_eq!(buffer.pos(), 512);
    buffer.seek(3).unwrap();
    assert_eq!(buffer.write_all(&[4, 5]), Ok(()));
    assert_eq!(&buffer.buffer[3..5], &[4, 5]);
    assert_eq!(buffer.pos(), 5);
}

#[test]
fn step_and_seek_stay_inside() {
    let mut buffer = BytePacketBuffer::new();
    assert_eq!(buffer.step(512), Ok(()));
    assert_eq!(buffer.pos(), 512);
    assert_eq!(buffer.step(1), Err(DnsError::OutOfBounds));
    assert_eq!(buffer.pos(), 512);
    assert_eq!(buffer.seek(513), Err(DnsError::OutOfBounds));
    assert_eq!(buffer.pos(), 512);
    assert_eq!(buffer.seek(10), Ok(()));
    assert_eq!(buffer.step(5), Ok(()));
    assert_eq!(buffer.pos(), 15);
}

#[test]
fn get_and_get_range_are_bounded() {
    let mut buffer = buffer_with(&[1, 2, 3, 4]);
    assert_eq!(buffer.get(2), Ok(3));
    assert_eq!(buffer.get(512), Err(DnsError::OutOfBounds));
    assert_eq!(buffer.get_range(1, 3).unwrap(), &[2, 3, 4]);
    assert_eq!(buffer.get_range(510, 2).unwrap(), &[0, 0]);
    assert_eq!(buffer.get_range(510, 3), Err(DnsError::OutOfBounds));
    assert_eq!(buffer.get_range(usize::MAX, 2), Err(DnsError::OutOfBounds));
    assert_eq!(buffer.pos(), 0);
}

#[test]
fn set_u16_patches_in_place() {
    let mut buffer = BytePacketBuffer::new();
    buffer.seek(20).unwrap();
    assert_eq!(buffer.set_u16(4, 0xBEEF), Ok(()));
    assert_eq!(&buffer.buffer[4..6], &[0xBE, 0xEF]);
    assert_eq!(buffer.pos(), 20);
    assert_eq!(buffer.set_u16(510, 0x0102), Ok(()));
    assert_eq!(buffer.set_u16(511, 0x0304), Err(DnsError::OutOfBounds));
    assert_eq!(&buffer.buffer[510..], &[1, 2]);
}

#[test]
fn qname_is_written_as_labels() {
    let mut buffer = BytePacketBuffer::new();
    buffer.write_qname("google.com").unwrap();
    assert_eq!(
        &buffer.buffer[..12],
        &[6, b'g', b'o', b'o', b'g', b'l', b'e', 3, b'c', b'o', b'm', 0]
    );
    assert_eq!(buffer.pos(), 12);
}

#[test]
fn empty_qname_is_the_root() {
    let mut buffer = BytePacketBuffer::new();
    buffer.buffer[0] = 0xFF;
    buffer.buffer[1] = 0xFF;
    buffer.write_qname("").unwrap();
    assert_eq!(buffer.pos(), 1);
    assert_eq!(&buffer.buffer[..2], &[0, 0xFF]);
}

#[test]
fn qname_round_trips() {
    let mut buffer = BytePacketBuffer::new();
    buffer.seek(100).unwrap();
    buffer.write_qname("mail.example.org").unwrap();
    let end = buffer.pos();
    buffer.seek(100).unwrap();
    let mut name = String::new();
    buffer.read_qname(&mut name).unwrap();
    assert_eq!(name, "mail.example.org");
    assert_eq!(buffer.pos(), end);
}

#[test]
fn qname_is_lowercased_and_appended() {
    let mut buffer = buffer_with(&[3, b'W', b'w', b'W', 2, b'D', b'e', 0]);
    let mut name = String::from("x=");
    buffer.read_qname(&mut name).unwrap();
    assert_eq!(name, "x=www.de");
    assert_eq!(buffer.pos(), 8);
}

#[test]
fn qname_bytes_that_are_not_text_are_replaced() {
    let mut buffer = buffer_with(&[2, b'a', 0xFF, 0]);
    let mut name = String::new();
    buffer.read_qname(&mut name).unwrap();
    assert_eq!(name, "a\u{FFFD}");
}

#[test]
fn qname_label_too_long() {
    let mut buffer = BytePacketBuffer::new();
    let label = "a".repeat(64);
    assert_eq!(buffer.write_qname(&label), Err(DnsError::LabelTooLong));
    assert_eq!(buffer.pos(), 0);
    let ok = "a".repeat(63);
    assert_eq!(buffer.write_qname(&ok), Ok(()));
    assert_eq!(buffer.pos(), 65);
    assert_eq!(buffer.buffer[0], 63);
}

#[test]
fn qname_label_too_long_after_a_good_label() {
    let mut buffer = BytePacketBuffer::new();
    let name = format!("ab.{}", "c".repeat(70));
    assert_eq!(buffer.write_qname(&name), Err(DnsError::LabelTooLong));
    assert_eq!(buffer.pos(), 3);
    assert_eq!(&buffer.buffer[..3], &[2, b'a', b'b']);
}

#[test]
fn qname_full_buffer_comes_before_long_label() {
    let mut buffer = BytePacketBuffer::new();
    buffer.seek(511).unwrap();
    let name = format!("ab.{}", "c".repeat(70));
    assert_eq!(buffer.write_qname(&name), Err(DnsError::OutOfBounds));
    assert_eq!(buffer.pos(), 512);
    assert_eq!(buffer.buffer[511], 2);
}

#[test]
fn qname_with_empty_labels() {
    let mut buffer = BytePacketBuffer::new();
    buffer.write_qname("a..b.").unwrap();
    assert_eq!(&buffer.buffer[..7], &[1, b'a', 0, 1, b'b', 0, 0]);
    assert_eq!(buffer.pos(), 7);
}

#[test]
fn qname_follows_a_pointer() {
    // at 0: "com" 0; at 5: "www" then a pointer to 0
    let mut buffer = buffer_with(&[3, b'c', b'o', b'm', 0, 3, b'w', b'w', b'w', 0xC0, 0x00, 7]);
    buffer.seek(5).unwrap();
    let mut name = String::new();
    buffer.read_qname(&mut name).unwrap();
    assert_eq!(name, "www.com");
    assert_eq!(buffer.pos(), 11);
}

#[test]
fn qname_pointer_has_fourteen_bits() {
    let mut buffer = BytePacketBuffer::new();
    buffer.buffer[0] = 0xC1;
    buffer.buffer[1] = 0x02;
    buffer.buffer[0x102] = 1;
    buffer.buffer[0x103] = b'z';
    buffer.buffer[0x104] = 0;
    let mut name = String::new();
    buffer.read_qname(&mut name).unwrap();
    assert_eq!(name, "z");
    assert_eq!(buffer.pos(), 2);
}

#[test]
fn qname_at_offset_511() {
    let mut buffer = BytePacketBuffer::new();
    buffer.seek(511).unwrap();
    let mut name = String::new();
    assert_eq!(buffer.read_qname(&mut name), Ok(()));
    assert_eq!(name, "");
    assert_eq!(buffer.pos(), 512);

    buffer.buffer[511] = 1;
    buffer.seek(511).unwrap();
    assert_eq!(buffer.read_qname(&mut name), Err(DnsError::OutOfBounds));
    assert_eq!(buffer.pos(), 511);

    buffer.buffer[511] = 0xC0;
    assert_eq!(buffer.read_qname(&mut name), Err(DnsError::OutOfBounds));
    assert_eq!(buffer.pos(), 511);
}

#[test]
fn qname_pointer_beyond_the_buffer() {
    // 0xC2 0x00 names offset 512
    let mut buffer = buffer_with(&[0xC2, 0x00]);
    let mut name = String::new();
    assert_eq!(buffer.read_qname(&mut name), Err(DnsError::OutOfBounds));
    assert_eq!(buffer.pos(), 2);
    let mut buffer = buffer_with(&[0xFF, 0xFF]);
    assert_eq!(buffer.read_qname(&mut name), Err(DnsError::OutOfBounds));
}

fn pointer_chain(links: usize) -> BytePacketBuffer {
    // pointer k sits at 2k and names 2(k+1); behind the last lies "ok"
    let mut buffer = BytePacketBuffer::new();
    for k in 0..links {
        buffer.buffer[2 * k] = 0xC0;
        buffer.buffer[2 * k + 1] = (2 * (k + 1)) as u8;
    }
    buffer.buffer[2 * links] = 2;
    buffer.buffer[2 * links + 1] = b'o';
    buffer.buffer[2 * links + 2] = b'k';
    buffer.buffer[2 * links + 3] = 0;
    buffer
}

#[test]
fn chain_of_five_pointers_is_followed() {
    let mut buffer = pointer_chain(5);
    let mut name = String::new();
    assert_eq!(buffer.read_qname(&mut name), Ok(()));
    assert_eq!(name, "ok");
    assert_eq!(buffer.pos(), 2);
}

#[test]
fn chain_of_six_pointers_is_refused() {
    let mut buffer = pointer_chain(6);
    let mut name = String::new();
    assert_eq!(buffer.read_qname(&mut name), Err(DnsError::PointerLoopLimit));
    assert_eq!(name, "");
    assert_eq!(buffer.pos(), 2);
}

#[test]
fn pointer_to_itself_is_refused() {
    let mut buffer = buffer_with(&[0xC0, 0x00]);
    let mut name = String::new();
    assert_eq!(buffer.read_qname(&mut name), Err(DnsError::PointerLoopLimit));
    assert_eq!(buffer.pos(), 2);
}

#[test]
fn cycle_through_a_label_is_refused() {
    let mut buffer = buffer_with(&[1, b'a', 0xC0, 0x00]);
    let mut name = String::new();
    assert_eq!(buffer.read_qname(&mut name), Err(DnsError::PointerLoopLimit));
    assert_eq!(name, "a.a.a.a.a.a");
    assert_eq!(buffer.pos(), 4);
}
