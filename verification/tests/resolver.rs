use dns_resolver::enums::{QueryType, ResultCode};
use dns_resolver::error::DnsError;
use dns_resolver::packet::Packet;
use dns_resolver::record::DnsRecord;
use dns_resolver::resolver::{decide, Action, Resolver, Verdict, QUERY_BUDGET, ROOT_SERVER};

const COM: u32 = 0xC005061E; // 192.5.6.30
const EXAMPLE: u32 = 0xC72B8735; // 199.43.135.53
const NET: u32 = 0xC0210E1E; // 192.33.14.30
const ADDRESS: u32 = 0x5DB8D822; // 93.184.216.34

fn a(domain: &str, addr: u32) -> DnsRecord {
    DnsRecord::A { domain: domain.to_string(), addr, ttl: 3600 }
}

fn ns(domain: &str, host: &str) -> DnsRecord {
    DnsRecord::NS { domain: domain.to_string(), host: host.to_string(), ttl: 3600 }
}

fn referral(domain: &str, host: &str, glue: Option<u32>) -> Packet {
    let mut packet = Packet::new();
    packet.header.responce = true;
    packet.authorities.push(ns(domain, host));
    if let Some(addr) = glue {
        packet.resources.push(a(host, addr));
    }
    packet
}

fn answer(domain: &str, addr: u32) -> Packet {
    let mut packet = Packet::new();
    packet.header.responce = true;
    packet.answers.push(a(domain, addr));
    packet
}

/// Runs a resolution against `upstream` and returns its end together with
/// the queries that were asked for.
fn run(
    qname: &str,
    qtype: QueryType,
    upstream: fn(u32, &str, QueryType) -> Result<Packet, DnsError>,
) -> (Action, Vec<(u32, String, QueryType)>, Resolver) {
    let mut resolver = Resolver::new(qname.to_string(), qtype);
    let mut asked = Vec::new();
    let mut action = resolver.ask();
    loop {
        match action {
            Action::Query { server, qname, qtype } => {
                let response = upstream(server, &qname, qtype);
                asked.push((server, qname, qtype));
                assert!(asked.len() <= QUERY_BUDGET);
                action = resolver.step(response);
            }
            end => return (end, asked, resolver),
        }
    }
}

#[test]
fn root_server_is_a_root_servers_net() {
    assert_eq!(ROOT_SERVER.to_be_bytes(), [198, 41, 0, 4]);
    assert_eq!(QUERY_BUDGET, 16);
}

#[test]
fn new_resolver_asks_the_root() {
    let mut resolver = Resolver::new("example.com".to_string(), QueryType::MX);
    assert_eq!(resolver.budget, 16);
    assert_eq!(resolver.tasks.len(), 1);
    assert_eq!(
        resolver.ask(),
        Action::Query { server: ROOT_SERVER, qname: "example.com".to_string(), qtype: QueryType::MX }
    );
    assert_eq!(resolver.budget, 15);
}

#[test]
fn verdict_on_an_answer() {
    let packet = answer("example.com", ADDRESS);
    assert_eq!(decide(&packet, "example.com"), Verdict::Answer);
}

#[test]
fn verdict_on_an_answer_with_an_error_code() {
    let mut packet = answer("example.com", ADDRESS);
    packet.header.responce_code = ResultCode::SERVFAIL;
    assert_eq!(decide(&packet, "example.com"), Verdict::Exhausted);
    packet.header.responce_code = ResultCode::NXDOMAIN;
    assert_eq!(decide(&packet, "example.com"), Verdict::NameError);
}

#[test]
fn verdict_on_a_name_error_with_a_referral() {
    let mut packet = referral("com", "a.gtld-servers.net", Some(COM));
    packet.header.responce_code = ResultCode::NXDOMAIN;
    assert_eq!(decide(&packet, "example.com"), Verdict::NameError);
}

#[test]
fn verdict_on_referrals() {
    let glued = referral("com", "a.gtld-servers.net", Some(COM));
    assert_eq!(decide(&glued, "example.com"), Verdict::Glue(COM));
    assert_eq!(decide(&glued, "example.org"), Verdict::Exhausted);
    let bare = referral("com", "a.gtld-servers.net", None);
    assert_eq!(decide(&bare, "example.com"), Verdict::Chase("a.gtld-servers.net".to_string()));
    assert_eq!(decide(&Packet::new(), "example.com"), Verdict::Exhausted);
}

#[test]
fn verdict_prefers_a_server_with_an_address() {
    let mut packet = referral("com", "first.net", None);
    packet.authorities.push(ns("example.com", "second.net"));
    packet.resources.push(a("second.net", 42));
    assert_eq!(decide(&packet, "example.com"), Verdict::Glue(42));
    packet.resources.clear();
    assert_eq!(decide(&packet, "example.com"), Verdict::Chase("first.net".to_string()));
}

fn glued(server: u32, qname: &str, _qtype: QueryType) -> Result<Packet, DnsError> {
    assert_eq!(qname, "example.com");
    Ok(match server {
        ROOT_SERVER => referral("com", "a.gtld-servers.net", Some(COM)),
        COM => referral("example.com", "a.iana-servers.net", Some(EXAMPLE)),
        EXAMPLE => answer("example.com", ADDRESS),
        _ => unreachable!(),
    })
}

#[test]
fn descent_to_a_terminal_answer() {
    let (end, asked, resolver) = run("example.com", QueryType::A, glued);
    assert_eq!(end, Action::Done(answer("example.com", ADDRESS)));
    assert_eq!(
        asked,
        vec![
            (ROOT_SERVER, "example.com".to_string(), QueryType::A),
            (COM, "example.com".to_string(), QueryType::A),
            (EXAMPLE, "example.com".to_string(), QueryType::A),
        ]
    );
    match end {
        Action::Done(packet) => {
            assert_eq!(packet.answers, vec![a("example.com", ADDRESS)]);
            assert_eq!(packet.header.responce_code, ResultCode::NOERROR);
        }
        _ => unreachable!(),
    }
    assert!(resolver.tasks.is_empty());
    assert_eq!(resolver.budget, 0);
}

fn glueless(server: u32, qname: &str, qtype: QueryType) -> Result<Packet, DnsError> {
    Ok(match (server, qname) {
        (ROOT_SERVER, "example.com") => referral("com", "a.gtld-servers.net", Some(COM)),
        (COM, "example.com") => referral("example.com", "a.iana-servers.net", None),
        (ROOT_SERVER, "a.iana-servers.net") => {
            assert_eq!(qtype, QueryType::A);
            referral("net", "a.gtld-servers.net", Some(NET))
        }
        (NET, "a.iana-servers.net") => answer("a.iana-servers.net", EXAMPLE),
        (EXAMPLE, "example.com") => answer("example.com", ADDRESS),
        _ => unreachable!(),
    })
}

#[test]
fn referral_without_glue_is_chased_from_the_root() {
    let (end, asked, _) = run("example.com", QueryType::MX, glueless);
    assert_eq!(end, Action::Done(answer("example.com", ADDRESS)));
    assert_eq!(
        asked,
        vec![
            (ROOT_SERVER, "example.com".to_string(), QueryType::MX),
            (COM, "example.com".to_string(), QueryType::MX),
            (ROOT_SERVER, "a.iana-servers.net".to_string(), QueryType::A),
            (NET, "a.iana-servers.net".to_string(), QueryType::A),
            (EXAMPLE, "example.com".to_string(), QueryType::MX),
        ]
    );
}

fn name_error(_server: u32, _qname: &str, _qtype: QueryType) -> Result<Packet, DnsError> {
    let mut packet = referral("com", "a.gtld-servers.net", Some(COM));
    packet.header.responce_code = ResultCode::NXDOMAIN;
    Ok(packet)
}

#[test]
fn name_error_ends_the_resolution_at_once() {
    let (end, asked, _) = run("nowhere.example", QueryType::A, name_error);
    assert_eq!(asked.len(), 1);
    match end {
        Action::Done(packet) => {
            assert_eq!(packet.header.responce_code, ResultCode::NXDOMAIN);
            assert_eq!(packet, name_error(0, "", QueryType::A).unwrap());
        }
        _ => unreachable!(),
    }
}

fn nameless(server: u32, qname: &str, _qtype: QueryType) -> Result<Packet, DnsError> {
    Ok(match (server, qname) {
        (ROOT_SERVER, "example.com") => referral("com", "ns.nowhere", None),
        (ROOT_SERVER, "ns.nowhere") => {
            let mut packet = Packet::new();
            packet.header.responce_code = ResultCode::NXDOMAIN;
            packet
        }
        _ => unreachable!(),
    })
}

#[test]
fn chase_without_an_address_returns_the_referral() {
    let (end, asked, _) = run("example.com", QueryType::A, nameless);
    assert_eq!(end, Action::Done(referral("com", "ns.nowhere", None)));
    assert_eq!(asked.len(), 2);
}

fn dead_end(_server: u32, _qname: &str, _qtype: QueryType) -> Result<Packet, DnsError> {
    Ok(referral("org", "ns.org", Some(1)))
}

#[test]
fn response_without_a_usable_server_is_returned() {
    let (end, asked, _) = run("example.com", QueryType::A, dead_end);
    assert_eq!(end, Action::Done(referral("org", "ns.org", Some(1))));
    assert_eq!(asked.len(), 1);
}

fn endless(server: u32, _qname: &str, _qtype: QueryType) -> Result<Packet, DnsError> {
    Ok(referral("com", "next.net", Some(server.wrapping_add(1))))
}

#[test]
fn budget_bounds_the_queries() {
    let (end, asked, resolver) = run("example.com", QueryType::A, endless);
    assert_eq!(end, Action::Failed(DnsError::BudgetExhausted));
    assert_eq!(asked.len(), 16);
    assert_eq!(asked[15].0, ROOT_SERVER.wrapping_add(15));
    assert_eq!(resolver.budget, 0);
    assert!(resolver.tasks.is_empty());
}

fn endless_chase(_server: u32, qname: &str, _qtype: QueryType) -> Result<Packet, DnsError> {
    Ok(referral("", &format!("ns.{}", qname), None))
}

#[test]
fn budget_bounds_nested_chases() {
    let (end, asked, _) = run("example.com", QueryType::A, endless_chase);
    assert_eq!(end, Action::Failed(DnsError::BudgetExhausted));
    assert_eq!(asked.len(), 16);
    assert_eq!(asked[2].1, "ns.ns.example.com");
    assert!(asked.iter().all(|q| q.0 == ROOT_SERVER));
}

fn broken(server: u32, _qname: &str, _qtype: QueryType) -> Result<Packet, DnsError> {
    if server == ROOT_SERVER {
        Ok(referral("com", "a.gtld-servers.net", Some(COM)))
    } else {
        Err(DnsError::UpstreamIo)
    }
}

#[test]
fn upstream_failure_fails_the_resolution() {
    let (end, asked, resolver) = run("example.com", QueryType::A, broken);
    assert_eq!(end, Action::Failed(DnsError::UpstreamIo));
    assert_eq!(asked.len(), 2);
    assert!(resolver.tasks.is_empty());
}

#[test]
fn ended_resolver_does_nothing_more() {
    let (_, _, mut resolver) = run("example.com", QueryType::A, glued);
    assert_eq!(resolver.ask(), Action::Failed(DnsError::BudgetExhausted));
    assert_eq!(
        resolver.step(Ok(answer("example.com", ADDRESS))),
        Action::Failed(DnsError::BudgetExhausted)
    );
}

const ONE: u32 = 0x0A000001;
const TWO: u32 = 0x0A000002;

fn nested(server: u32, qname: &str, qtype: QueryType) -> Result<Packet, DnsError> {
    Ok(match (server, qname) {
        (ROOT_SERVER, "example.com") => referral("example.com", "ns1.a.net", None),
        (ROOT_SERVER, "ns1.a.net") => {
            assert_eq!(qtype, QueryType::A);
            referral("a.net", "ns2.b.org", None)
        }
        (ROOT_SERVER, "ns2.b.org") => answer("ns2.b.org", TWO),
        (TWO, "ns1.a.net") => answer("ns1.a.net", ONE),
        (ONE, "example.com") => answer("example.com", ADDRESS),
        _ => unreachable!(),
    })
}

#[test]
fn chase_within_a_chase() {
    let (end, asked, resolver) = run("example.com", QueryType::AAAA, nested);
    assert_eq!(end, Action::Done(answer("example.com", ADDRESS)));
    assert_eq!(
        asked,
        vec![
            (ROOT_SERVER, "example.com".to_string(), QueryType::AAAA),
            (ROOT_SERVER, "ns1.a.net".to_string(), QueryType::A),
            (ROOT_SERVER, "ns2.b.org".to_string(), QueryType::A),
            (TWO, "ns1.a.net".to_string(), QueryType::A),
            (ONE, "example.com".to_string(), QueryType::AAAA),
        ]
    );
    assert!(resolver.tasks.is_empty());
}

fn nested_dead_end(server: u32, qname: &str, _qtype: QueryType) -> Result<Packet, DnsError> {
    Ok(match (server, qname) {
        (ROOT_SERVER, "example.com") => referral("example.com", "ns1.a.net", None),
        (ROOT_SERVER, "ns1.a.net") => referral("a.net", "ns2.b.org", None),
        (ROOT_SERVER, "ns2.b.org") => Packet::new(),
        _ => unreachable!(),
    })
}

#[test]
fn chase_within_a_chase_without_an_address() {
    let (end, asked, _) = run("example.com", QueryType::A, nested_dead_end);
    assert_eq!(end, Action::Done(referral("example.com", "ns1.a.net", None)));
    assert_eq!(asked.len(), 3);
}

#[test]
fn step_keeps_the_tasks_in_order() {
    let mut resolver = Resolver::new("example.com".to_string(), QueryType::MX);
    resolver.ask();
    let bare = referral("com", "ns.nowhere", None);
    assert_eq!(
        resolver.step(Ok(bare.clone())),
        Action::Query { server: ROOT_SERVER, qname: "ns.nowhere".to_string(), qtype: QueryType::A }
    );
    assert_eq!(resolver.budget, 14);
    assert_eq!(resolver.tasks.len(), 2);
    assert_eq!(resolver.tasks[0].qname, "example.com");
    assert_eq!(resolver.tasks[0].qtype, QueryType::MX);
    assert_eq!(resolver.tasks[0].referral, Some(bare));
    assert_eq!(resolver.tasks[1].qname, "ns.nowhere");
    assert_eq!(resolver.tasks[1].referral, None);
    assert_eq!(
        resolver.step(Ok(answer("ns.nowhere", COM))),
        Action::Query { server: COM, qname: "example.com".to_string(), qtype: QueryType::MX }
    );
    assert_eq!(resolver.tasks.len(), 1);
    assert_eq!(resolver.tasks[0].server, COM);
    assert_eq!(resolver.tasks[0].referral, None);
    assert_eq!(resolver.budget, 13);
}
