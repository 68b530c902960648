use utdnsmasq::dnsmasq::{
    AllAddr, DhcpContext, MySockAddr, Server, ServerFd, SERV_FROM_RESOLV, SERV_LITERAL_ADDRESS, SERV_NO_ADDR,
};
use utdnsmasq::network::{is_local_addr, match_contexts, reload_resolv, select_servers, wants_socket};

fn ip(a: u8, b: u8, c: u8, d: u8) -> u32 {
    u32::from_be_bytes([a, b, c, d])
}

fn range(start: u32, end: u32) -> DhcpContext {
    let mut c = DhcpContext::default();
    c.start = start;
    c.end = end;
    c.last = start;
    c
}

fn sock(a: u32, port: u16) -> MySockAddr {
    MySockAddr { ip: AllAddr::V4(a), port }
}

fn server(a: u32, flags: u32, sfd: Option<ServerFd>) -> Server {
    Server { addr: sock(a, 53), source_addr: sock(0, 0), sfd, domain: String::new(), flags }
}

#[test]
fn test_match_contexts_both_ends_in_network() {
    let mut ctxs = vec![
        range(ip(192, 168, 1, 10), ip(192, 168, 1, 50)),
        range(ip(192, 168, 1, 10), ip(192, 168, 2, 50)),
        range(ip(10, 0, 0, 1), ip(10, 0, 0, 9)),
    ];
    let name = String::from("eth0");
    match_contexts(&mut ctxs, &name, 3, ip(192, 168, 1, 1), ip(255, 255, 255, 0), ip(192, 168, 1, 255), false, false);
    assert_eq!(ctxs[0].iface, "eth0");
    assert_eq!(ctxs[0].ifindex, 3);
    assert_eq!(ctxs[0].serv_addr, ip(192, 168, 1, 1));
    assert_eq!(ctxs[0].netmask, ip(255, 255, 255, 0));
    assert_eq!(ctxs[0].broadcast, ip(192, 168, 1, 255));
    assert_eq!(ctxs[1].iface, "");
    assert_eq!(ctxs[2].iface, "");
}

#[test]
fn test_match_contexts_skips_loopback_point_to_point_and_taken() {
    let mut ctxs = vec![range(ip(127, 0, 0, 2), ip(127, 0, 0, 9))];
    let lo = String::from("lo");
    match_contexts(&mut ctxs, &lo, 1, ip(127, 0, 0, 1), ip(255, 0, 0, 0), ip(127, 255, 255, 255), true, false);
    assert_eq!(ctxs[0].iface, "");
    match_contexts(&mut ctxs, &lo, 1, ip(127, 0, 0, 1), ip(255, 0, 0, 0), ip(127, 255, 255, 255), false, true);
    assert_eq!(ctxs[0].iface, "");
    let a = String::from("a0");
    match_contexts(&mut ctxs, &a, 5, ip(127, 0, 0, 1), ip(255, 0, 0, 0), ip(127, 255, 255, 255), false, false);
    assert_eq!(ctxs[0].iface, "a0");
    let b = String::from("b0");
    match_contexts(&mut ctxs, &b, 6, ip(127, 0, 0, 1), ip(255, 0, 0, 0), ip(127, 255, 255, 255), false, false);
    assert_eq!(ctxs[0].iface, "a0");
    assert_eq!(ctxs[0].ifindex, 5);
}

#[test]
fn test_select_servers_drops_local_and_unbound_and_reverses() {
    let local = vec![sock(ip(192, 168, 1, 1), 53)];
    let fd = ServerFd { fd: 7, source_addr: sock(0, 0) };
    let new = vec![
        server(ip(8, 8, 8, 8), 0, None),
        server(ip(192, 168, 1, 1), 0, None),
        server(ip(9, 9, 9, 9), 0, None),
        server(0, SERV_NO_ADDR, None),
        server(ip(1, 1, 1, 1), SERV_LITERAL_ADDRESS, None),
    ];
    assert!(wants_socket(&new[0], &local));
    assert!(!wants_socket(&new[1], &local));
    assert!(!wants_socket(&new[3], &local));
    assert!(is_local_addr(&local, new[1].addr));
    let socks = vec![Some(fd), None, None, None, None];
    let r = select_servers(new, &local, &socks);
    assert_eq!(r.len(), 3);
    assert_eq!(r[0].addr, sock(ip(1, 1, 1, 1), 53));
    assert_eq!(r[1].flags, SERV_NO_ADDR);
    assert_eq!(r[2].addr, sock(ip(8, 8, 8, 8), 53));
    assert_eq!(r[2].sfd, Some(fd));
}

#[test]
fn test_reload_resolv_keeps_configured_and_adds_file_servers() {
    let old = vec![
        server(ip(1, 1, 1, 1), 0, None),
        server(ip(2, 2, 2, 2), SERV_FROM_RESOLV, None),
        server(ip(3, 3, 3, 3), 0, None),
    ];
    let lines: Vec<String> = vec![
        "# comment".to_string(),
        "nameserver 8.8.8.8".to_string(),
        "  nameserver\t::1  extra".to_string(),
        "nameserver bogus".to_string(),
        "search example.com".to_string(),
        "nameserver".to_string(),
    ];
    let r = reload_resolv(old, &lines, 4000);
    assert_eq!(r.len(), 4);
    assert_eq!(r[0].addr, MySockAddr { ip: AllAddr::V6(1), port: 53 });
    assert_eq!(r[0].source_addr, MySockAddr { ip: AllAddr::V6(0), port: 4000 });
    assert_eq!(r[0].flags, SERV_FROM_RESOLV);
    assert_eq!(r[1].addr, sock(ip(8, 8, 8, 8), 53));
    assert_eq!(r[1].source_addr, sock(0, 4000));
    assert_eq!(r[2].addr, sock(ip(3, 3, 3, 3), 53));
    assert_eq!(r[3].addr, sock(ip(1, 1, 1, 1), 53));
}
