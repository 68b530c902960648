use utdnsmasq::cache::CacheRec;
use utdnsmasq::dnsmasq::{
    AllAddr, Crec, F_ADDN, F_CONFIG, F_DHCP, F_FORWARD, F_HOSTS, F_IMMORTAL, F_IPV4, F_IPV6, F_NEG, F_NXDOMAIN,
    F_QUERY, F_REVERSE, F_SERVER,
};
use utdnsmasq::logtext::{dump_line_text, packet_log_text, query_log_text};
use utdnsmasq::util::Time;

fn v6_text(a: u128) -> String {
    query_log_text(F_FORWARD, "x", Some(AllAddr::V6(a)), "").unwrap().trim_start_matches("cached x is ").to_string()
}

#[test]
fn test_query_log_forward_and_sources() {
    let a = Some(AllAddr::V4(u32::from_be_bytes([192, 168, 1, 10])));
    assert_eq!(query_log_text(F_FORWARD | F_IPV4, "example.com", a, "").unwrap(), "cached example.com is 192.168.1.10");
    assert_eq!(query_log_text(F_FORWARD | F_DHCP, "h", a, "").unwrap(), "DHCP h is 192.168.1.10");
    assert_eq!(query_log_text(F_FORWARD | F_HOSTS, "h", a, "").unwrap(), "/etc/hosts h is 192.168.1.10");
    assert_eq!(query_log_text(F_FORWARD | F_HOSTS | F_ADDN, "h", a, "/etc/more").unwrap(), "/etc/more h is 192.168.1.10");
    assert_eq!(query_log_text(F_FORWARD | F_CONFIG, "h", a, "").unwrap(), "config h is 192.168.1.10");
    assert_eq!(query_log_text(F_FORWARD | F_SERVER, "h", a, "").unwrap(), "forwarded h to 192.168.1.10");
    assert_eq!(query_log_text(F_FORWARD | F_QUERY, "h", a, "").unwrap(), "query h from 192.168.1.10");
}

#[test]
fn test_query_log_negative_and_reverse() {
    assert_eq!(query_log_text(F_NEG | F_NXDOMAIN | F_IPV4 | F_FORWARD, "gone.com", None, "").unwrap(), "cached gone.com is <NXDOMAIN>-IPv4");
    assert_eq!(query_log_text(F_NEG | F_IPV6 | F_FORWARD, "gone.com", None, "").unwrap(), "cached gone.com is <NODATA>-IPv6");
    let a = Some(AllAddr::V4(u32::from_be_bytes([10, 0, 0, 1])));
    assert_eq!(query_log_text(F_REVERSE | F_IPV4, "host.lan", a, "").unwrap(), "cached 10.0.0.1 is host.lan");
    assert_eq!(query_log_text(F_REVERSE | F_NEG | F_IPV4, "x", a, "").unwrap(), "cached 10.0.0.1 is <NODATA>-IPv4");
    assert_eq!(query_log_text(F_IPV4, "x", a, ""), None);
}

#[test]
fn test_ipv6_text() {
    let g = |a: [u16; 8]| -> u128 { a.iter().fold(0u128, |acc, x| (acc << 16) | *x as u128) };
    assert_eq!(v6_text(0), "::");
    assert_eq!(v6_text(1), "::1");
    assert_eq!(v6_text(g([0x2001, 0xdb8, 0, 0, 0, 0, 0, 1])), "2001:db8::1");
    assert_eq!(v6_text(g([0xfe80, 0, 0, 0, 1, 2, 3, 4])), "fe80::1:2:3:4");
    assert_eq!(v6_text(g([1, 0, 0, 2, 0, 0, 0, 3])), "1:0:0:2::3");
    assert_eq!(v6_text(g([1, 0, 0, 2, 0, 0, 3, 4])), "1::2:0:0:3:4");
    assert_eq!(v6_text(g([1, 0, 2, 3, 4, 5, 6, 7])), "1:0:2:3:4:5:6:7");
    assert_eq!(v6_text(g([0, 0, 0, 0, 0, 0xffff, 0x0102, 0x0304])), "::ffff:1.2.3.4");
    assert_eq!(v6_text(g([0xabcd, 0xef01, 0x2345, 0x6789, 0xabcd, 0xef01, 0x2345, 0x6789])), "abcd:ef01:2345:6789:abcd:ef01:2345:6789");
    assert_eq!(v6_text(g([1, 0, 0, 0, 0, 0, 0, 0])), "1::");
}

#[test]
fn test_dump_line() {
    let r = CacheRec {
        uid: 1,
        crec: Crec {
            ttd: Time { secs: 0, nanos: 0 },
            addr: Some(AllAddr::V4(u32::from_be_bytes([1, 2, 3, 4]))),
            flags: F_FORWARD | F_IPV4 | F_IMMORTAL | F_HOSTS,
            name: "a.com".to_string(),
        },
        prev: None,
        next: None,
    };
    assert_eq!(dump_line_text(&r), format!("{:<40} {:<30} {} ", "a.com", "1.2.3.4", "4F I   X "));
    let n = CacheRec {
        uid: 2,
        crec: Crec { ttd: Time { secs: 0, nanos: 0 }, addr: None, flags: F_FORWARD | F_NEG | F_IPV6, name: "b".to_string() },
        prev: None,
        next: None,
    };
    assert_eq!(dump_line_text(&n), format!("{:<40} {:<30} {} ", "b", "", "6F   N   "));
}

#[test]
fn test_packet_log() {
    let hw = [0x00, 0x1a, 0x2b, 0x3c, 0x4d, 0xff];
    assert_eq!(packet_log_text("ACK", u32::from_be_bytes([192, 168, 0, 5]), &hw, "eth0"), "DHCPACK(eth0) 192.168.0.5 hwaddr=00:1a:2b:3c:4d:ff");
    assert_eq!(packet_log_text("DISCOVER", 0, &hw, "eth0"), "DHCPDISCOVER(eth0) hwaddr=00:1a:2b:3c:4d:ff");
}
