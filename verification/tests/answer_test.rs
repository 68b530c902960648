use utdnsmasq::answer::answer_request;
use utdnsmasq::arpa::in_arpa_name_2_addr;
use utdnsmasq::cache::{add_hosts_entry, Cache};
use utdnsmasq::dnsmasq::{
    AllAddr, BogusAddr, Header, NOERROR, F_FORWARD, F_HOSTS, F_IMMORTAL, F_IPV4, F_IPV6, F_NEG, F_NXDOMAIN,
    F_REVERSE, OPT_BOGUSPRIV, OPT_FILTER,
};
use utdnsmasq::extract::{check_for_bogus_wildcard, extract_addresses, extract_neg_addrs};
use utdnsmasq::util::Time;

const NOW: u64 = 1_700_000_000;

fn now() -> Time {
    Time { secs: NOW, nanos: 0 }
}

fn labels(name: &str) -> Vec<u8> {
    let mut v = Vec::new();
    for part in name.split('.') {
        v.push(part.len() as u8);
        v.extend_from_slice(part.as_bytes());
    }
    v.push(0);
    v
}

/// A message with the given header fields and one question.
fn message(id: u16, flags: [u8; 2], counts: [u16; 4], name: &str, qtype: u16, qclass: u16) -> Vec<u8> {
    let mut p = Vec::new();
    p.extend_from_slice(&id.to_be_bytes());
    p.extend_from_slice(&flags);
    for c in counts {
        p.extend_from_slice(&c.to_be_bytes());
    }
    p.extend(labels(name));
    p.extend_from_slice(&qtype.to_be_bytes());
    p.extend_from_slice(&qclass.to_be_bytes());
    p
}

fn query(name: &str, qtype: u16) -> Vec<u8> {
    message(0x1234, [0x01, 0x00], [1, 0, 0, 0], name, qtype, 1)
}

/// An answer record pointing back at the question's name.
fn answer_rr(rtype: u16, ttl: u32, data: &[u8]) -> Vec<u8> {
    let mut r = vec![0xc0, 12];
    r.extend_from_slice(&rtype.to_be_bytes());
    r.extend_from_slice(&1u16.to_be_bytes());
    r.extend_from_slice(&ttl.to_be_bytes());
    r.extend_from_slice(&(data.len() as u16).to_be_bytes());
    r.extend_from_slice(data);
    r
}

fn hosts_flags() -> u16 {
    F_HOSTS | F_IMMORTAL | F_FORWARD | F_REVERSE | F_IPV4
}

#[test]
fn test_in_arpa_ipv4() {
    assert_eq!(
        in_arpa_name_2_addr("4.3.2.1.in-addr.arpa"),
        (F_IPV4, Some(AllAddr::V4(u32::from_be_bytes([1, 2, 3, 4]))))
    );
    assert_eq!(in_arpa_name_2_addr("1.in-addr.arpa"), (F_IPV4, Some(AllAddr::V4(1))));
    assert_eq!(in_arpa_name_2_addr("256.1.1.1.in-addr.arpa"), (0, None));
    assert_eq!(in_arpa_name_2_addr("a.1.1.1.in-addr.arpa"), (0, None));
    assert_eq!(in_arpa_name_2_addr("in-addr.arpa"), (0, None));
    assert_eq!(in_arpa_name_2_addr("example.com"), (0, None));
}

#[test]
fn test_in_arpa_ipv6() {
    let name = "1.0.0.0.0.0.0.0.0.0.0.0.0.0.0.0.ip6.arpa";
    let (k, a) = in_arpa_name_2_addr(name);
    assert_eq!(k, F_IPV6);
    assert!(matches!(a, Some(AllAddr::V6(_))));
    assert_eq!(in_arpa_name_2_addr("g.ip6.arpa"), (0, None));
    let bits = format!("\\[x{}].ip6.arpa", "0".repeat(32));
    assert_eq!(in_arpa_name_2_addr(&bits), (0, None));
    let exact = format!("\\[x{}{}.ip6.int", "0".repeat(31), "1");
    assert_eq!(in_arpa_name_2_addr(&exact), (F_IPV6, Some(AllAddr::V6(1))));
}

#[test]
fn test_answer_request_from_hosts() {
    let mut cache = Cache::cache_init(100, 0);
    add_hosts_entry(&mut cache, "server.lan", AllAddr::V4(u32::from_be_bytes([192, 168, 1, 5])), hosts_flags());
    let q = query("server.lan", 1);
    let reply = answer_request(&q, "", "", 0, &mut cache, now(), 600);
    assert!(!reply.is_empty());
    // Response, authoritative, one answer.
    assert_eq!(reply[2] & 0x80, 0x80);
    assert_eq!(reply[2] & 0x04, 0x04);
    assert_eq!(&reply[6..8], &[0, 1]);
    let mut expected = q[..q.len()].to_vec();
    expected[2] |= 0x84;
    expected[3] = 0x80;
    expected[6..8].copy_from_slice(&[0, 1]);
    expected.extend(answer_rr(1, 600, &[192, 168, 1, 5]));
    assert_eq!(reply, expected);
}

#[test]
fn test_answer_request_unknown_name_gives_nothing() {
    let mut cache = Cache::cache_init(100, 0);
    let reply = answer_request(&query("nowhere.lan", 1), "", "", 0, &mut cache, now(), 600);
    assert!(reply.is_empty());
}

#[test]
fn test_answer_request_reverse_from_hosts() {
    let mut cache = Cache::cache_init(100, 0);
    add_hosts_entry(&mut cache, "server.lan", AllAddr::V4(u32::from_be_bytes([192, 168, 1, 5])), hosts_flags());
    let q = query("5.1.168.192.in-addr.arpa", 12);
    let reply = answer_request(&q, "", "", 0, &mut cache, now(), 600);
    assert!(!reply.is_empty());
    assert_eq!(&reply[6..8], &[0, 1]);
    let mut data = labels("server.lan");
    let mut tail = answer_rr(12, 600, &[]);
    tail.truncate(10);
    tail.extend_from_slice(&(data.len() as u16).to_be_bytes());
    tail.append(&mut data);
    assert_eq!(&reply[q.len()..], &tail[..]);
}

#[test]
fn test_answer_request_bogus_private() {
    let mut cache = Cache::cache_init(100, 0);
    let q = query("7.0.0.10.in-addr.arpa", 12);
    let reply = answer_request(&q, "", "", OPT_BOGUSPRIV, &mut cache, now(), 60);
    assert!(!reply.is_empty());
    let mut data = labels("10.0.0.7");
    let mut tail = answer_rr(12, 60, &[]);
    tail.truncate(10);
    tail.extend_from_slice(&(data.len() as u16).to_be_bytes());
    tail.append(&mut data);
    assert_eq!(&reply[q.len()..], &tail[..]);
    // Without the option there is no answer.
    let none = answer_request(&q, "", "", 0, &mut cache, now(), 60);
    assert!(none.is_empty());
}

#[test]
fn test_answer_request_mx_and_chaos() {
    let mut cache = Cache::cache_init(100, 0);
    let q = query("mail.lan", 15);
    let reply = answer_request(&q, "mail.lan", "mx.lan", 0, &mut cache, now(), 60);
    assert!(!reply.is_empty());
    assert_eq!(&reply[6..8], &[0, 1]);
    let chaos = message(1, [0x01, 0x00], [1, 0, 0, 0], "authors.bind", 16, 3);
    let r = answer_request(&chaos, "", "", 0, &mut cache, now(), 60);
    assert!(r.ends_with(b"Simon Kelley"));
    let other = message(1, [0x01, 0x00], [1, 0, 0, 0], "x.lan", 16, 4);
    assert!(answer_request(&other, "", "", 0, &mut cache, now(), 60).is_empty());
}

#[test]
fn test_answer_request_filter_srv() {
    let mut cache = Cache::cache_init(100, 0);
    let q = query("_ldap._tcp.lan", 33);
    let r = answer_request(&q, "", "", OPT_FILTER, &mut cache, now(), 60);
    assert!(!r.is_empty());
    assert_eq!(&r[6..8], &[0, 0]);
    assert!(answer_request(&q, "", "", 0, &mut cache, now(), 60).is_empty());
}

#[test]
fn test_answer_request_negative_nxdomain() {
    let mut cache = Cache::cache_init(100, 0);
    cache.cache_start_insert();
    cache.cache_insert(Some("gone.com"), None, now(), 600, F_FORWARD | F_IPV4 | F_NEG | F_NXDOMAIN);
    cache.cache_end_insert();
    let r = answer_request(&query("gone.com", 1), "", "", 0, &mut cache, now(), 60);
    assert!(!r.is_empty());
    assert_eq!(r[3] & 0x0f, 3);
    assert_eq!(r[2] & 0x04, 0);
}

#[test]
fn test_answer_request_not_a_query() {
    let mut cache = Cache::cache_init(100, 0);
    let mut q = query("a.lan", 1);
    q[2] = 0x28;
    assert!(answer_request(&q, "", "", 0, &mut cache, now(), 60).is_empty());
    let empty = message(1, [0x01, 0], [0, 0, 0, 0], "a.lan", 1, 1);
    assert!(answer_request(&empty[..12], "", "", 0, &mut cache, now(), 60).is_empty());
}

#[test]
fn test_answer_request_dhcp_record_any_refused_for_cached() {
    let mut cache = Cache::cache_init(100, 0);
    cache.cache_start_insert();
    cache.cache_insert(Some("web.com"), Some(AllAddr::V4(5)), now(), 600, F_FORWARD | F_IPV4);
    cache.cache_end_insert();
    // ANY is answered from the hosts file or DHCP only.
    assert!(answer_request(&query("web.com", 255), "", "", 0, &mut cache, now(), 60).is_empty());
    let r = answer_request(&query("web.com", 1), "", "", 0, &mut cache, now(), 60);
    assert_eq!(&r[r.len() - 4..], &[0, 0, 0, 5]);
    // Cached answers are not authoritative; the time to live counts down.
    assert_eq!(r[2] & 0x04, 0);
    let later = Time { secs: NOW + 100, nanos: 0 };
    let r2 = answer_request(&query("web.com", 1), "", "", 0, &mut cache, later, 60);
    let n = r2.len();
    assert_eq!(&r2[n - 10..n - 6], &500u32.to_be_bytes());
}

#[test]
fn test_extract_addresses_learns_a_record() {
    let mut cache = Cache::cache_init(100, 0);
    let mut p = message(7, [0x81, 0x80], [1, 1, 0, 0], "web.com", 1, 1);
    p.extend(answer_rr(1, 300, &[1, 2, 3, 4]));
    extract_addresses(&mut cache, &p, now());
    assert_eq!(cache.length, 1);
    let r = &cache.records[0].crec;
    assert_eq!(r.name, "web.com");
    assert_eq!(r.addr, Some(AllAddr::V4(u32::from_be_bytes([1, 2, 3, 4]))));
    assert_eq!(r.flags, F_IPV4 | F_FORWARD);
    assert_eq!(r.ttd, Time { secs: NOW + 300, nanos: 0 });
}

#[test]
fn test_extract_addresses_follows_cname() {
    let mut cache = Cache::cache_init(100, 0);
    let mut p = message(7, [0x81, 0x80], [1, 2, 0, 0], "www.a.com", 1, 1);
    // www.a.com CNAME b.com
    let target = labels("b.com");
    let mut cname = answer_rr(5, 100, &target);
    let target_off = (p.len() + 12) as u8;
    p.append(&mut cname);
    // b.com A 5.6.7.8, owner written as a pointer to the CNAME's data.
    let mut a = vec![0xc0, target_off];
    a.extend_from_slice(&1u16.to_be_bytes());
    a.extend_from_slice(&1u16.to_be_bytes());
    a.extend_from_slice(&300u32.to_be_bytes());
    a.extend_from_slice(&4u16.to_be_bytes());
    a.extend_from_slice(&[5, 6, 7, 8]);
    p.extend(a);
    // Bytes after the last record: the walk behind a CNAME stops at a
    // record with less than its own length after it.
    p.extend_from_slice(&[0u8; 8]);
    extract_addresses(&mut cache, &p, now());
    let names: Vec<(String, Option<AllAddr>)> = cache.records.iter().map(|r| (r.crec.name.clone(), r.crec.addr)).collect();
    assert!(names.contains(&(String::from("www.a.com"), Some(AllAddr::V4(u32::from_be_bytes([5, 6, 7, 8]))))));
    assert!(names.contains(&(String::from("b.com"), Some(AllAddr::V4(u32::from_be_bytes([5, 6, 7, 8]))))));
    let www = cache.records.iter().find(|r| r.crec.name == "www.a.com").unwrap();
    assert_eq!(www.crec.ttd, Time { secs: NOW + 100, nanos: 0 });
}

#[test]
fn test_extract_addresses_cname_target_last_stops() {
    let mut cache = Cache::cache_init(100, 0);
    let mut p = message(7, [0x81, 0x80], [1, 2, 0, 0], "www.a.com", 1, 1);
    let target = labels("b.com");
    let target_off = (p.len() + 12) as u8;
    p.extend(answer_rr(5, 100, &target));
    let mut a = vec![0xc0, target_off];
    a.extend_from_slice(&1u16.to_be_bytes());
    a.extend_from_slice(&1u16.to_be_bytes());
    a.extend_from_slice(&300u32.to_be_bytes());
    a.extend_from_slice(&4u16.to_be_bytes());
    a.extend_from_slice(&[5, 6, 7, 8]);
    p.extend(a);
    extract_addresses(&mut cache, &p, now());
    assert_eq!(cache.length, 0);
    assert!(cache.new_chain.is_empty());
}

#[test]
fn test_extract_neg_addrs_nxdomain() {
    let mut cache = Cache::cache_init(100, 0);
    let mut p = message(7, [0x81, 0x83], [1, 0, 1, 0], "gone.com", 1, 1);
    // SOA: owner com (pointer into the question), two names, five numbers.
    let mut soa = vec![0xc0, 17];
    soa.extend_from_slice(&6u16.to_be_bytes());
    soa.extend_from_slice(&1u16.to_be_bytes());
    soa.extend_from_slice(&900u32.to_be_bytes());
    let mut data = labels("ns.com");
    data.extend(labels("admin.com"));
    for v in [1u32, 2, 3, 4, 60] {
        data.extend_from_slice(&v.to_be_bytes());
    }
    soa.extend_from_slice(&(data.len() as u16).to_be_bytes());
    soa.extend(data);
    p.extend(soa);
    extract_neg_addrs(&mut cache, &p, now());
    assert_eq!(cache.length, 1);
    let r = &cache.records[0].crec;
    assert_eq!(r.name, "gone.com");
    assert_eq!(r.flags, F_IPV4 | F_FORWARD | F_NEG | F_NXDOMAIN);
    assert_eq!(r.ttd, Time { secs: NOW + 60, nanos: 0 });
}

#[test]
fn test_extract_neg_addrs_ignores_answers() {
    let mut cache = Cache::cache_init(100, 0);
    let mut p = message(7, [0x81, 0x83], [1, 1, 0, 0], "gone.com", 1, 1);
    p.extend(answer_rr(1, 300, &[1, 2, 3, 4]));
    extract_neg_addrs(&mut cache, &p, now());
    assert_eq!(cache.length, 0);
}

#[test]
fn test_check_for_bogus_wildcard_hit() {
    let mut cache = Cache::cache_init(100, 0);
    let mut p = message(7, [0x81, 0x80], [1, 1, 0, 0], "typo.com", 1, 1);
    p.extend(answer_rr(1, 300, &[64, 94, 110, 11]));
    let bogus = [BogusAddr { addr: u32::from_be_bytes([64, 94, 110, 11]) }];
    let r = check_for_bogus_wildcard(&mut cache, &mut p, &bogus, now());
    assert_eq!(r, 1);
    assert_eq!(p[3] & 0x0f, 3);
    assert_eq!(&p[6..8], &[0, 0]);
    assert_eq!(cache.length, 1);
    assert_eq!(cache.records[0].crec.flags, F_IPV4 | F_FORWARD | F_NEG | F_NXDOMAIN);
}

#[test]
fn test_check_for_bogus_wildcard_no_bogus_ip() {
    let mut packet = vec![
        0x12, 0x34, 0x81, 0x80, 0x00, 0x01, 0x00, 0x01, 0x00, 0x00, 0x00, 0x00,
        0x07, b'e', b'x', b'a', b'm', b'p', b'l', b'e', 0x03, b'c', b'o', b'm', 0x00,
        0x00, 0x01, 0x00, 0x01,
        0xC0, 0x0C, 0x00, 0x01, 0x00, 0x01, 0x00, 0x00, 0x0E, 0x10, 0x00, 0x04,
        0x01, 0x02, 0x03, 0x04,
    ];
    let mut cache = Cache::cache_init(100, 0);
    let baddrs: Vec<BogusAddr> = Vec::new();
    let result = check_for_bogus_wildcard(&mut cache, &mut packet, &baddrs, now());
    assert_eq!(result, 0);
    let header = Header::parse(&packet).unwrap();
    assert_eq!(header.ancount, 1);
    assert_eq!(header.rcode, NOERROR);
}

#[test]
fn test_header_parse_reads_ad_bit() {
    let mut d = vec![0u8; 12];
    d[3] = 0x20;
    let h = Header::parse(&d).unwrap();
    assert!(h.ad);
    assert!(!h.unused);
    assert_eq!(Header::parse(&h.to_bytes()).unwrap().ad, true);
}

#[test]
fn test_check_for_bogus_wildcard_miss() {
    let mut cache = Cache::cache_init(100, 0);
    let mut p = message(7, [0x81, 0x80], [1, 1, 0, 0], "fine.com", 1, 1);
    p.extend(answer_rr(1, 300, &[1, 1, 1, 1]));
    let before = p.clone();
    let bogus = [BogusAddr { addr: 2 }];
    assert_eq!(check_for_bogus_wildcard(&mut cache, &mut p, &bogus, now()), 0);
    assert_eq!(p, before);
    assert_eq!(cache.length, 0);
}
