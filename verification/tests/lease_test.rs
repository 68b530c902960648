use utdnsmasq::dnsmasq::DhcpLease;
use utdnsmasq::lease::{
    lease_find_by_addr, lease_find_by_client, lease_prune, lease_set_expires, lease_set_hostname,
    lease_set_hwaddr, LeaseDb, LeaseFlags,
};
use utdnsmasq::util::Time;

fn lease(name: Option<&str>, expires: Time, hw: u8, addr: u32) -> DhcpLease {
    DhcpLease {
        clid_len: 0,
        clid: Vec::new(),
        hostname: name.map(String::from),
        fqdn: None,
        expires,
        hwaddr: [hw; 6],
        addr,
    }
}

fn clean() -> LeaseFlags {
    LeaseFlags { dns_dirty: false, file_dirty: false }
}

#[test]
fn test_lease_prune_keeps_infinite_lease() {
    let now = Time { secs: 1_700_000_000, nanos: 0 };
    let mut db = LeaseDb { leases: Vec::new(), flags: clean() };
    db.leases.push(lease(Some("infinite"), Time { secs: 0, nanos: 0 }, 0, 0xc0a8_c846));
    db.leases.push(lease(Some("expired"), Time { secs: now.secs - 1, nanos: 0 }, 1, 0xc0a8_c847));
    lease_prune(&mut db, None, now);
    assert_eq!(db.leases.len(), 1);
    assert_eq!(db.leases[0].hostname.as_deref(), Some("infinite"));
    assert!(db.flags.dns_dirty);
    assert!(db.flags.file_dirty);
}

#[test]
fn test_lease_prune_drops_target() {
    let now = Time { secs: 100, nanos: 0 };
    let mut db = LeaseDb { leases: Vec::new(), flags: clean() };
    db.leases.push(lease(None, Time { secs: 200, nanos: 0 }, 1, 10));
    db.leases.push(lease(None, Time { secs: 200, nanos: 0 }, 2, 20));
    let target = lease(None, Time { secs: 0, nanos: 0 }, 2, 20);
    lease_prune(&mut db, Some(&target), now);
    assert_eq!(db.leases.len(), 1);
    assert_eq!(db.leases[0].addr, 10);
    assert!(!db.flags.dns_dirty);
    assert!(db.flags.file_dirty);
}

#[test]
fn test_lease_prune_nothing_to_drop() {
    let now = Time { secs: 100, nanos: 0 };
    let mut db = LeaseDb { leases: Vec::new(), flags: clean() };
    db.leases.push(lease(Some("a"), Time { secs: 200, nanos: 0 }, 1, 10));
    lease_prune(&mut db, None, now);
    assert_eq!(db.leases.len(), 1);
    assert_eq!(db.flags, clean());
}

#[test]
fn test_lease_find_by_client_and_addr() {
    let mut db = LeaseDb { leases: Vec::new(), flags: clean() };
    db.leases.push(lease(None, Time { secs: 0, nanos: 0 }, 1, 10));
    let mut with_id = lease(None, Time { secs: 0, nanos: 0 }, 2, 20);
    with_id.clid = vec![1, 2, 3];
    with_id.clid_len = 3;
    db.leases.push(with_id);
    assert_eq!(lease_find_by_client(&db, &[1; 6], 0).map(|l| l.addr), Some(10));
    assert_eq!(lease_find_by_client(&db, &[1, 2, 3], 3).map(|l| l.addr), Some(20));
    assert!(lease_find_by_client(&db, &[2; 6], 0).is_none());
    assert_eq!(lease_find_by_addr(&db, 20).map(|l| l.hwaddr), Some([2; 6]));
    assert!(lease_find_by_addr(&db, 30).is_none());
}

#[test]
fn test_lease_set_fields_mark_flags() {
    let mut flags = clean();
    let mut l = lease(None, Time { secs: 5, nanos: 0 }, 0, 1);
    lease_set_expires(&mut l, Time { secs: 5, nanos: 0 }, &mut flags);
    assert_eq!(flags, clean());
    lease_set_expires(&mut l, Time { secs: 6, nanos: 0 }, &mut flags);
    assert_eq!(flags, LeaseFlags { dns_dirty: true, file_dirty: true });
    let mut flags = clean();
    lease_set_hwaddr(&mut l, &[7, 7, 7, 7, 7, 7, 9], &mut flags);
    assert_eq!(l.hwaddr, [7; 6]);
    assert_eq!(flags, LeaseFlags { dns_dirty: false, file_dirty: true });
}

#[test]
fn test_lease_set_hostname_takes_name_from_other_lease() {
    let mut flags = clean();
    let mut others = vec![lease(Some("PC"), Time { secs: 0, nanos: 0 }, 1, 10)];
    others[0].fqdn = Some(String::from("PC.lan"));
    let mut l = lease(None, Time { secs: 0, nanos: 0 }, 2, 20);
    lease_set_hostname(&mut l, "pc", &Some(String::from("lan")), &mut others, &mut flags);
    assert_eq!(l.hostname.as_deref(), Some("PC"));
    assert_eq!(l.fqdn.as_deref(), Some("PC.lan"));
    assert_eq!(others[0].hostname, None);
    assert_eq!(others[0].fqdn, None);
    assert_eq!(flags, LeaseFlags { dns_dirty: true, file_dirty: true });
}

#[test]
fn test_lease_set_hostname_new_name_with_domain() {
    let mut flags = clean();
    let mut others: Vec<DhcpLease> = Vec::new();
    let mut l = lease(None, Time { secs: 0, nanos: 0 }, 2, 20);
    lease_set_hostname(&mut l, "box", &Some(String::from("home")), &mut others, &mut flags);
    assert_eq!(l.hostname.as_deref(), Some("box"));
    assert_eq!(l.fqdn.as_deref(), Some("box.home"));
    let mut flags = clean();
    lease_set_hostname(&mut l, "box", &None, &mut others, &mut flags);
    assert_eq!(flags, clean());
}
