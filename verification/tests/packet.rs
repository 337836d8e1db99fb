use dns_resolver::buffer::BytePacketBuffer;
use dns_resolver::enums::{QueryType, ResultCode};
use dns_resolver::error::DnsError;
use dns_resolver::header::Header;
use dns_resolver::packet::{name_ends_with, same_name, Packet};
use dns_resolver::question::Question;
use dns_resolver::record::DnsRecord;

fn buffer_from_hex(hex: &str) -> BytePacketBuffer {
    let digits: Vec<u8> = hex
        .chars()
        .filter(|c| !c.is_whitespace())
        .map(|c| c.to_digit(16).unwrap() as u8)
        .collect();
    let mut buffer = BytePacketBuffer::new();
    for (i, pair) in digits.chunks(2).enumerate() {
        buffer.buffer[i] = pair[0] * 16 + pair[1];
    }
    buffer
}

fn a(domain: &str, addr: u32) -> DnsRecord {
    DnsRecord::A { domain: domain.to_string(), addr, ttl: 3600 }
}

fn ns(domain: &str, host: &str) -> DnsRecord {
    DnsRecord::NS { domain: domain.to_string(), host: host.to_string(), ttl: 3600 }
}

#[test]
fn new_packet_is_empty() {
    let packet = Packet::new();
    assert_eq!(packet.header, Header::new());
    assert!(packet.questions.is_empty());
    assert!(packet.answers.is_empty());
    assert!(packet.authorities.is_empty());
    assert!(packet.resources.is_empty());
}

#[test]
fn google_a_response_is_decoded() {
    let mut buffer = buffer_from_hex(
        "862a 8180 0001 0001 0000 0000
         06 676f6f676c65 03 636f6d 00 0001 0001
         c00c 0001 0001 00000125 0004 acd90a2e",
    );
    let packet = Packet::from_buffer(&mut buffer).unwrap();
    assert_eq!(buffer.pos(), 44);
    assert_eq!(packet.header.id, 0x862a);
    assert!(packet.header.responce);
    assert!(packet.header.recursion_desired);
    assert!(packet.header.recursion_available);
    assert_eq!(packet.header.responce_code, ResultCode::NOERROR);
    assert_eq!(packet.header.questions, 1);
    assert_eq!(packet.header.answers, 1);
    assert_eq!(packet.questions, vec![Question::new("google.com".to_string(), QueryType::A)]);
    assert_eq!(
        packet.answers,
        vec![DnsRecord::A {
            domain: "google.com".to_string(),
            addr: u32::from_be_bytes([172, 217, 10, 46]),
            ttl: 293
        }]
    );
    assert!(packet.authorities.is_empty());
    assert!(packet.resources.is_empty());
    assert_eq!(packet.get_random_a(), Some(0xACD90A2E));
}

#[test]
fn sections_are_read_in_order() {
    let mut buffer = buffer_from_hex(
        "0001 8000 0000 0001 0002 0001
         00 0001 0001 00000001 0004 01010101
         00 0002 0001 00000002 0001 00
         00 0063 0001 00000003 0002 aabb
         00 0001 0001 00000004 0004 04040404",
    );
    let packet = Packet::from_buffer(&mut buffer).unwrap();
    assert!(packet.questions.is_empty());
    assert_eq!(packet.answers, vec![DnsRecord::A { domain: String::new(), addr: 0x01010101, ttl: 1 }]);
    assert_eq!(
        packet.authorities,
        vec![
            DnsRecord::NS { domain: String::new(), host: String::new(), ttl: 2 },
            DnsRecord::UNKNOWN { domain: String::new(), raw_type: 99, data_len: 2, ttl: 3 },
        ]
    );
    assert_eq!(packet.resources, vec![DnsRecord::A { domain: String::new(), addr: 0x04040404, ttl: 4 }]);
    assert_eq!(buffer.pos(), 12 + 15 + 12 + 13 + 15);
}

#[test]
fn pointer_to_itself_in_the_question_fails() {
    let mut buffer = buffer_from_hex("0001 0100 0001 0000 0000 0000 c00c 0001 0001");
    assert_eq!(Packet::from_buffer(&mut buffer), Err(DnsError::PointerLoopLimit));
    assert_eq!(buffer.pos(), 14);
}

#[test]
fn header_error_is_passed_on() {
    let mut buffer = BytePacketBuffer::new();
    buffer.seek(505).unwrap();
    assert_eq!(Packet::from_buffer(&mut buffer), Err(DnsError::OutOfBounds));
    assert_eq!(buffer.pos(), 512);
}

#[test]
fn counted_entries_that_are_missing_fail() {
    // an empty buffer claims 40 answers: each is the root name, type 0,
    // no data, eleven bytes; the 46th no longer fits
    let mut buffer = BytePacketBuffer::new();
    buffer.buffer[7] = 46;
    assert_eq!(Packet::from_buffer(&mut buffer), Err(DnsError::OutOfBounds));
    let mut buffer = BytePacketBuffer::new();
    buffer.buffer[7] = 45;
    let packet = Packet::from_buffer(&mut buffer).unwrap();
    assert_eq!(packet.answers.len(), 45);
    assert_eq!(buffer.pos(), 12 + 45 * 11);
}

#[test]
fn write_sets_the_counters() {
    let mut packet = Packet::new();
    packet.header.questions = 9;
    packet.header.answers = 9;
    packet.header.authoritative_entries = 9;
    packet.header.resource_entries = 9;
    packet.questions.push(Question::new("a.b".to_string(), QueryType::A));
    packet.answers.push(a("a.b", 1));
    packet.answers.push(a("a.b", 2));
    packet.resources.push(a("c", 3));
    packet.resources.push(a("d", 4));
    packet.resources.push(a("e", 5));
    let mut buffer = BytePacketBuffer::new();
    packet.write(&mut buffer).unwrap();
    assert_eq!(packet.header.questions, 1);
    assert_eq!(packet.header.answers, 2);
    assert_eq!(packet.header.authoritative_entries, 0);
    assert_eq!(packet.header.resource_entries, 3);
    assert_eq!(&buffer.buffer[4..12], &[0, 1, 0, 2, 0, 0, 0, 3]);
}

#[test]
fn write_sets_the_counters_even_when_it_fails() {
    let mut packet = Packet::new();
    for k in 0..40 {
        packet.answers.push(a("some.name.example", k));
    }
    let mut buffer = BytePacketBuffer::new();
    assert_eq!(packet.write(&mut buffer), Err(DnsError::OutOfBounds));
    assert_eq!(packet.header.answers, 40);
    assert_eq!(buffer.pos(), 512);
    assert_eq!(&buffer.buffer[6..8], &[0, 40]);
}

#[test]
fn packet_bytes() {
    let mut packet = Packet::new();
    packet.header.id = 6666;
    packet.header.recursion_desired = true;
    packet.questions.push(Question::new("yahoo.com".to_string(), QueryType::MX));
    let mut buffer = BytePacketBuffer::new();
    packet.write(&mut buffer).unwrap();
    assert_eq!(
        &buffer.buffer[..buffer.pos()],
        &[
            0x1A, 0x0A, 0x01, 0x00, 0, 1, 0, 0, 0, 0, 0, 0, 5, b'y', b'a', b'h', b'o', b'o', 3,
            b'c', b'o', b'm', 0, 0, 15, 0, 1
        ]
    );
}

#[test]
fn packet_round_trips() {
    let mut packet = Packet::new();
    packet.header.id = 0xABCD;
    packet.header.responce = true;
    packet.header.authoritative_answer = true;
    packet.header.operation_code = 5;
    packet.header.responce_code = ResultCode::REFUSED;
    packet.header.z = true;
    packet.questions.push(Question::new("example.com".to_string(), QueryType::UNKNOWN(255)));
    packet.answers.push(a("example.com", 0x5DB8D822));
    packet.answers.push(DnsRecord::CNAME {
        domain: "www.example.com".to_string(),
        host: "example.com".to_string(),
        ttl: 60,
    });
    packet.authorities.push(ns("example.com", "a.iana-servers.net"));
    packet.authorities.push(DnsRecord::UNKNOWN {
        domain: "example.com".to_string(),
        raw_type: 6,
        data_len: 30,
        ttl: 900,
    });
    packet.resources.push(DnsRecord::MX {
        domain: "example.com".to_string(),
        priority: 10,
        host: "mail.example.com".to_string(),
        ttl: 7,
    });
    packet.resources.push(DnsRecord::AAAA {
        domain: "a.iana-servers.net".to_string(),
        addr: 0x2001_0500_008f_0000_0000_0000_0000_0053,
        ttl: 8,
    });
    let mut buffer = BytePacketBuffer::new();
    packet.write(&mut buffer).unwrap();
    let end = buffer.pos();
    buffer.seek(0).unwrap();
    let back = Packet::from_buffer(&mut buffer).unwrap();
    assert_eq!(back, packet);
    assert_eq!(buffer.pos(), end);
}

#[test]
fn packet_with_long_label_is_refused() {
    let mut packet = Packet::new();
    packet.questions.push(Question::new("l".repeat(64), QueryType::A));
    packet.answers.push(a("fine", 1));
    let mut buffer = BytePacketBuffer::new();
    assert_eq!(packet.write(&mut buffer), Err(DnsError::LabelTooLong));
    assert_eq!(buffer.pos(), 12);
}

#[test]
fn first_address_among_the_answers() {
    let mut packet = Packet::new();
    assert_eq!(packet.get_random_a(), None);
    packet.answers.push(ns("x", "y"));
    assert_eq!(packet.get_random_a(), None);
    packet.answers.push(a("x", 7));
    packet.answers.push(a("x", 8));
    assert_eq!(packet.get_random_a(), Some(7));
    packet.resources.push(a("x", 9));
    packet.answers.clear();
    assert_eq!(packet.get_random_a(), None);
}

fn referral() -> Packet {
    let mut packet = Packet::new();
    packet.authorities.push(ns("org", "ns.org"));
    packet.authorities.push(a("com", 1));
    packet.authorities.push(ns("com", "b.gtld.net"));
    packet.authorities.push(ns("example.com", "a.iana.net"));
    packet.authorities.push(ns("", "root.net"));
    packet.resources.push(a("root.net", 10));
    packet.resources.push(a("ns.org", 11));
    packet.resources.push(ns("a.iana.net", "no.address"));
    packet.resources.push(a("a.iana.net", 12));
    packet.resources.push(a("a.iana.net", 13));
    packet
}

#[test]
fn name_servers_are_those_whose_domain_ends_the_name() {
    let packet = referral();
    assert_eq!(
        packet.get_ns("www.example.com"),
        vec![("com", "b.gtld.net"), ("example.com", "a.iana.net"), ("", "root.net")]
    );
    assert_eq!(packet.get_ns("example.org"), vec![("org", "ns.org"), ("", "root.net")]);
    assert_eq!(packet.get_ns("com"), vec![("com", "b.gtld.net"), ("", "root.net")]);
    assert_eq!(packet.get_ns("telecom"), vec![("com", "b.gtld.net"), ("", "root.net")]);
    assert_eq!(packet.get_ns(""), vec![("", "root.net")]);
}

#[test]
fn resolved_name_server_goes_by_server_order() {
    let packet = referral();
    // b.gtld.net comes first but has no address; a.iana.net is next
    assert_eq!(packet.get_resolved_ns("www.example.com"), Some(12));
    assert_eq!(packet.get_resolved_ns("example.org"), Some(11));
    assert_eq!(packet.get_resolved_ns("com"), Some(10));
    let mut bare = referral();
    bare.resources.clear();
    assert_eq!(bare.get_resolved_ns("www.example.com"), None);
    assert_eq!(Packet::new().get_resolved_ns("www.example.com"), None);
}

#[test]
fn unresolved_name_server_is_the_first() {
    let packet = referral();
    assert_eq!(packet.get_unresolved_ns("www.example.com"), Some("b.gtld.net"));
    assert_eq!(packet.get_unresolved_ns("example.org"), Some("ns.org"));
    assert_eq!(packet.get_unresolved_ns(""), Some("root.net"));
    let mut packet = Packet::new();
    packet.authorities.push(ns("org", "ns.org"));
    assert_eq!(packet.get_unresolved_ns("example.com"), None);
}

#[test]
fn suffix_and_equality_of_names() {
    assert!(name_ends_with("example.com", "com"));
    assert!(name_ends_with("example.com", "example.com"));
    assert!(name_ends_with("example.com", ""));
    assert!(!name_ends_with("com", "example.com"));
    assert!(!name_ends_with("example.com", "con"));
    assert!(!name_ends_with("example.com", "exam"));
    assert!(name_ends_with("", ""));
    assert!(same_name("a.b", "a.b"));
    assert!(same_name("", ""));
    assert!(!same_name("a.b", "a.c"));
    assert!(!same_name("a.b", "a.bc"));
    assert!(!same_name("A", "a"));
}
