use utdnsmasq::cache::Cache;
use utdnsmasq::dnsmasq::{AllAddr, BogusAddr, DhcpLease, MySockAddr, Server, F_DHCP, F_FORWARD, F_IPV4, F_REVERSE};
use utdnsmasq::forward::{reply_query, Frec, FrecTable};
use utdnsmasq::lease::{lease_update_dns, LeaseDb, LeaseFlags};
use utdnsmasq::util::Time;

const NOW: u64 = 1_700_000_000;

fn now() -> Time {
    Time { secs: NOW, nanos: 0 }
}

fn addr(ip: u32) -> MySockAddr {
    MySockAddr { ip: AllAddr::V4(ip), port: 53 }
}

fn server(domain: &str) -> Server {
    Server { addr: addr(0x0808_0808), source_addr: addr(0), sfd: None, domain: String::from(domain), flags: 0 }
}

fn reply_packet(id: u16, rcode: u8) -> Vec<u8> {
    let mut p = Vec::new();
    p.extend_from_slice(&id.to_be_bytes());
    p.extend_from_slice(&[0x83, 0x80 | rcode]);
    for c in [1u16, 1, 0, 0] {
        p.extend_from_slice(&c.to_be_bytes());
    }
    p.extend_from_slice(&[3, b'w', b'e', b'b', 3, b'c', b'o', b'm', 0, 0, 1, 0, 1]);
    p.extend_from_slice(&[0xc0, 12, 0, 1, 0, 1, 0, 0, 1, 44, 0, 4, 9, 8, 7, 6]);
    p
}

fn table_with(new_id: u16, orig_id: u16, sent_to: Option<usize>) -> FrecTable {
    let mut t = FrecTable::new();
    t.frecs.push(Frec { source: addr(0x0a00_0002), sent_to, orig_id, new_id, fd: 3, time: now() });
    t
}

#[test]
fn test_reply_query_learns_and_restores_id() {
    let mut cache = Cache::cache_init(100, 0);
    let table = table_with(0x4242, 0x0101, Some(1));
    let servers = vec![server("lan"), server("")];
    let mut p = reply_packet(0x4242, 0);
    let r = reply_query(&mut cache, &table, &servers, &[], 0, &mut p, now(), None);
    assert_eq!(r.answer, Some(0));
    assert_eq!(r.last_server, Some(1));
    assert_eq!(&p[0..2], &[0x01, 0x01]);
    // Not truncated any more.
    assert_eq!(p[2] & 0x02, 0);
    assert_eq!(cache.length, 1);
    assert_eq!(cache.records[0].crec.addr, Some(AllAddr::V4(0x0908_0706)));
    assert_eq!(cache.records[0].crec.ttd, Time { secs: NOW + 300, nanos: 0 });
}

#[test]
fn test_reply_query_unknown_id_ignored() {
    let mut cache = Cache::cache_init(100, 0);
    let table = table_with(0x4242, 0x0101, Some(0));
    let servers = vec![server("")];
    let mut p = reply_packet(0x9999, 0);
    let before = p.clone();
    let r = reply_query(&mut cache, &table, &servers, &[], 0, &mut p, now(), Some(0));
    assert_eq!(r.answer, None);
    assert_eq!(r.last_server, Some(0));
    assert_eq!(p, before);
    assert_eq!(cache.length, 0);
}

#[test]
fn test_reply_query_servfail_not_used() {
    let mut cache = Cache::cache_init(100, 0);
    let table = table_with(0x4242, 0x0101, None);
    let mut p = reply_packet(0x4242, 2);
    let r = reply_query(&mut cache, &table, &[], &[], 0, &mut p, now(), None);
    assert_eq!(r.answer, None);
    assert_eq!(cache.length, 0);
}

#[test]
fn test_reply_query_bogus_answer_becomes_nxdomain() {
    let mut cache = Cache::cache_init(100, 0);
    let table = table_with(0x4242, 0x0101, None);
    let mut p = reply_packet(0x4242, 0);
    let bogus = [BogusAddr { addr: 0x0908_0706 }];
    let r = reply_query(&mut cache, &table, &[], &bogus, 0, &mut p, now(), None);
    assert_eq!(r.answer, Some(0));
    assert_eq!(p[3] & 0x0f, 3);
    assert_eq!(&p[0..2], &[0x01, 0x01]);
    assert_eq!(cache.length, 1);
    assert!(cache.records[0].crec.addr.is_none());
}

#[test]
fn test_lease_update_dns_adds_records() {
    let mut cache = Cache::cache_init(100, 0);
    let mut db = LeaseDb {
        leases: vec![
            DhcpLease {
                clid_len: 0,
                clid: Vec::new(),
                hostname: Some(String::from("pc")),
                fqdn: Some(String::from("pc.lan")),
                expires: Time { secs: NOW + 600, nanos: 0 },
                hwaddr: [1; 6],
                addr: 0xc0a8_000a,
            },
            DhcpLease {
                clid_len: 0,
                clid: Vec::new(),
                hostname: Some(String::from("nas")),
                fqdn: None,
                expires: Time { secs: 0, nanos: 0 },
                hwaddr: [2; 6],
                addr: 0xc0a8_000b,
            },
        ],
        flags: LeaseFlags { dns_dirty: true, file_dirty: true },
    };
    let write = lease_update_dns(&mut db, &mut cache, false);
    assert!(write);
    assert!(!db.flags.file_dirty && !db.flags.dns_dirty);
    let names: Vec<(&str, u16)> = cache.records.iter().map(|r| (r.crec.name.as_str(), r.crec.flags)).collect();
    assert_eq!(
        names,
        vec![
            ("pc.lan", F_DHCP | F_FORWARD | F_IPV4 | F_REVERSE),
            ("pc", F_DHCP | F_FORWARD | F_IPV4),
            ("nas", F_DHCP | F_FORWARD | F_IPV4 | F_REVERSE | 1),
        ]
    );
    assert_eq!(cache.dhcp_inuse.len(), 3);
    // Nothing marked: nothing done.
    let again = lease_update_dns(&mut db, &mut cache, false);
    assert!(!again);
    assert_eq!(cache.length, 3);
    // Forced: the same records again, not twice.
    lease_update_dns(&mut db, &mut cache, true);
    assert_eq!(cache.length, 3);
}
