use utdnsmasq::dnsmasq::{AllAddr, MySockAddr, Server, ServerFd, OPT_NODOTS_LOCAL, F_IPV4, F_NXDOMAIN, SERV_HAS_DOMAIN, SERV_LITERAL_ADDRESS};
use utdnsmasq::forward::{forward_query, ForwardAction, FrecTable};
use utdnsmasq::util::Time;

fn query(id: u16, rd: bool, name: &str) -> Vec<u8> {
    let mut p = vec![(id >> 8) as u8, id as u8, if rd { 1 } else { 0 }, 0, 0, 1, 0, 0, 0, 0, 0, 0];
    for label in name.split('.') {
        p.push(label.len() as u8);
        p.extend_from_slice(label.as_bytes());
    }
    p.push(0);
    p.extend_from_slice(&[0, 1, 0, 1]); // type A, class IN
    p
}

fn client() -> MySockAddr {
    MySockAddr { ip: AllAddr::V4(0xc0a8_0105), port: 4000 }
}

fn upstream(last_octet: u8, fd: i32) -> Server {
    let addr = MySockAddr { ip: AllAddr::V4(0x0808_0800 | last_octet as u32), port: 53 };
    Server {
        addr,
        source_addr: MySockAddr { ip: AllAddr::V4(0), port: 0 },
        sfd: Some(ServerFd { fd, source_addr: MySockAddr { ip: AllAddr::V4(0), port: 0 } }),
        domain: String::new(),
        flags: 0,
    }
}

fn now() -> Time {
    Time { secs: 1_000, nanos: 0 }
}

#[test]
fn test_forward_query_without_recursion_is_refused() {
    let mut table = FrecTable::new();
    let servers = vec![upstream(8, 10)];
    let mut packet = query(0x1234, false, "example.com");
    let before = packet.clone();
    let r = forward_query(&mut table, &servers, Some(0), 0, &mut packet, client(), 3, now());
    assert!(matches!(r.action, ForwardAction::Answer(0, None)));
    assert_eq!(packet, before);
    assert!(table.frecs.is_empty());
}

#[test]
fn test_forward_query_sends_new_query_with_new_id() {
    let mut table = FrecTable::new();
    let servers = vec![upstream(8, 10)];
    let mut packet = query(0x1234, true, "example.com");
    let before = packet.clone();
    let r = forward_query(&mut table, &servers, Some(0), 0, &mut packet, client(), 3, now());
    assert!(matches!(r.action, ForwardAction::Send(0)));
    assert_ne!(r.query_id, 0);
    assert_eq!(r.last_server, Some(0));
    assert_eq!(table.frecs.len(), 1);
    let f = table.frecs[0];
    assert_eq!(f.orig_id, 0x1234);
    assert_eq!(f.new_id, r.query_id);
    assert_eq!(f.fd, 3);
    assert_eq!(f.sent_to, Some(0));
    assert_eq!(table.ids, vec![r.query_id]);
    assert_eq!(packet[0], (r.query_id >> 8) as u8);
    assert_eq!(packet[1], r.query_id as u8);
    assert_eq!(&packet[2..], &before[2..]);
}

#[test]
fn test_forward_query_repeat_goes_to_next_server() {
    let mut table = FrecTable::new();
    let servers = vec![upstream(8, 10), upstream(4, 11)];
    let mut packet = query(0x4321, true, "example.com");
    let r = forward_query(&mut table, &servers, Some(0), 0, &mut packet, client(), 3, now());
    assert!(matches!(r.action, ForwardAction::Send(0)));
    assert_eq!(r.last_server, Some(1));
    let mut again = query(0x4321, true, "example.com");
    let r2 = forward_query(&mut table, &servers, r.last_server, 0, &mut again, client(), 3, now());
    assert!(matches!(r2.action, ForwardAction::Send(1)));
    assert_eq!(table.frecs.len(), 1);
    assert_eq!(table.frecs[0].sent_to, Some(1));
}

#[test]
fn test_forward_query_literal_address_answers() {
    let mut table = FrecTable::new();
    let mut local = upstream(1, 12);
    local.domain = String::from("example.com");
    local.flags = SERV_HAS_DOMAIN | SERV_LITERAL_ADDRESS;
    local.addr = MySockAddr { ip: AllAddr::V4(0x0a00_0001), port: 53 };
    let servers = vec![upstream(8, 10), local];
    let mut packet = query(7, true, "www.example.com");
    let r = forward_query(&mut table, &servers, Some(0), 0, &mut packet, client(), 3, now());
    assert!(matches!(r.action, ForwardAction::Answer(F_IPV4, Some(AllAddr::V4(0x0a00_0001)))));
    assert!(table.frecs.is_empty());
}

#[test]
fn test_forward_query_plain_name_kept_local() {
    let mut table = FrecTable::new();
    let servers = vec![upstream(8, 10)];
    let mut packet = query(9, true, "printer");
    let r = forward_query(&mut table, &servers, Some(0), OPT_NODOTS_LOCAL, &mut packet, client(), 3, now());
    assert!(matches!(r.action, ForwardAction::Answer(F_NXDOMAIN, None)));
    assert!(table.frecs.is_empty());
}

#[test]
fn test_forward_query_no_usable_server_frees_record() {
    let mut table = FrecTable::new();
    let mut s = upstream(8, 10);
    s.sfd = None;
    let servers = vec![s];
    let mut packet = query(11, true, "example.com");
    let before = packet.clone();
    let r = forward_query(&mut table, &servers, Some(0), 0, &mut packet, client(), 3, now());
    assert!(matches!(r.action, ForwardAction::Answer(0, Some(_))));
    assert_eq!(packet, before);
    assert_eq!(table.frecs.len(), 1);
    assert_eq!(table.frecs[0].new_id, 0);
    assert!(table.ids.is_empty());
}
