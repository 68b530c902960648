use utdnsmasq::cache::Cache;
use utdnsmasq::dhcp::{dhcp_packet, DhcpDest};
use utdnsmasq::dnsmasq::{DhcpConfig, DhcpContext, DhcpOpt, DhcpPacket, F_DHCP, F_IPV4};
use utdnsmasq::lease::{LeaseDb, LeaseFlags};
use utdnsmasq::rfc2131::{
    DncpReplyArgs, BOOTREQUEST, DHCPACK, DHCPDISCOVER, DHCPREQUEST, DHCP_COOKIE, OPTION_END, OPTION_HOSTNAME,
    OPTION_MESSAGE_TYPE, OPTION_REQUESTED_IP,
};
use utdnsmasq::util::Time;

fn ip(a: u8, b: u8, c: u8, d: u8) -> u32 {
    u32::from_be_bytes([a, b, c, d])
}

fn context() -> DhcpContext {
    DhcpContext {
        iface: String::from("eth0"),
        lease_time: 3600,
        serv_addr: ip(192, 168, 1, 1),
        netmask: ip(255, 255, 255, 0),
        broadcast: ip(192, 168, 1, 255),
        start: ip(192, 168, 1, 100),
        end: ip(192, 168, 1, 102),
        last: ip(192, 168, 1, 100),
        ..Default::default()
    }
}

fn request(kind: u8, extra: &[u8]) -> DhcpPacket {
    let mut p = DhcpPacket::new();
    p.op = BOOTREQUEST;
    p.htype = 1;
    p.hlen = 6;
    p.cookie = DHCP_COOKIE;
    p.xid = 0x1234_5678;
    p.chaddr[0..6].copy_from_slice(&[0x02, 0x11, 0x22, 0x33, 0x44, 0x55]);
    p.options[0] = OPTION_MESSAGE_TYPE;
    p.options[1] = 1;
    p.options[2] = kind;
    p.options[3..3 + extra.len()].copy_from_slice(extra);
    p.options[3 + extra.len()] = OPTION_END;
    p
}

fn empty_db() -> LeaseDb {
    LeaseDb { leases: Vec::new(), flags: LeaseFlags { dns_dirty: false, file_dirty: false } }
}

fn args<'a>(sz: usize, suffix: &'a Option<String>, sname: &'a Option<String>, configs: &'a [DhcpConfig], opts: &'a [DhcpOpt]) -> DncpReplyArgs<'a> {
    DncpReplyArgs {
        dhcp_configs: configs,
        domain_suffix: suffix,
        dhcp_file: "",
        dhcp_sname: sname,
        dhcp_next_server: ip(192, 168, 1, 2),
        dhcp_options: opts,
        sz,
        now: Time { secs: 1_000_000, nanos: 0 },
    }
}

#[test]
fn test_dhcp_packet_short_message_is_ignored() {
    let mut ctx = context();
    let mut mess = request(DHCPDISCOVER, &[]);
    let before = mess;
    let mut db = empty_db();
    let mut cache = Cache::cache_init(16, 0);
    let (suffix, sname) = (None, None);
    let out = dhcp_packet(&mut ctx, &mut mess, &mut db, &mut cache, &args(236, &suffix, &sname, &[], &[]));
    assert_eq!(out.dest, DhcpDest::Nothing);
    assert!(!out.write_lease_file);
    assert_eq!(mess.to_vec(), before.to_vec());
}

#[test]
fn test_dhcp_packet_discover_goes_out_as_raw_frame() {
    let mut ctx = context();
    let mut mess = request(DHCPDISCOVER, &[]);
    let mut db = empty_db();
    let mut cache = Cache::cache_init(16, 0);
    let (suffix, sname) = (None, None);
    let out = dhcp_packet(&mut ctx, &mut mess, &mut db, &mut cache, &args(548, &suffix, &sname, &[], &[]));
    assert_eq!(out.dest, DhcpDest::Raw(false));
    assert_eq!(out.len, 240 + 17);
    assert!(!out.write_lease_file);
    assert_eq!(mess.yiaddr, ip(192, 168, 1, 101));
    assert!(db.leases.is_empty());
}

#[test]
fn test_dhcp_packet_broadcast_flag_and_relay() {
    let (suffix, sname) = (None, None);
    let mut ctx = context();
    let mut mess = request(DHCPDISCOVER, &[]);
    mess.flags = 0x8000;
    let mut db = empty_db();
    let mut cache = Cache::cache_init(16, 0);
    let out = dhcp_packet(&mut ctx, &mut mess, &mut db, &mut cache, &args(548, &suffix, &sname, &[], &[]));
    assert_eq!(out.dest, DhcpDest::Raw(true));

    let mut ctx = context();
    let mut mess = request(DHCPDISCOVER, &[]);
    mess.giaddr = ip(10, 0, 0, 1);
    let mut db = empty_db();
    let out = dhcp_packet(&mut ctx, &mut mess, &mut db, &mut cache, &args(548, &suffix, &sname, &[], &[]));
    assert_eq!(out.dest, DhcpDest::Relay(ip(10, 0, 0, 1)));
}

#[test]
fn test_dhcp_packet_request_records_lease_and_name() {
    // a name made only of legal characters is dropped, so this one has a '*'
    let mut ctx = context();
    let mut mess = request(
        DHCPREQUEST,
        &[OPTION_REQUESTED_IP, 4, 192, 168, 1, 101, OPTION_HOSTNAME, 4, b'h', b'*', b's', b't'],
    );
    let mut db = empty_db();
    let mut cache = Cache::cache_init(16, 0);
    let (suffix, sname) = (Some(String::from("lan")), None);
    let out = dhcp_packet(&mut ctx, &mut mess, &mut db, &mut cache, &args(548, &suffix, &sname, &[], &[]));
    assert_eq!(&mess.options[0..3], &[OPTION_MESSAGE_TYPE, 1, DHCPACK]);
    assert_eq!(out.dest, DhcpDest::Raw(false));
    assert!(out.write_lease_file);
    assert!(!db.flags.file_dirty && !db.flags.dns_dirty);
    assert_eq!(db.leases.len(), 1);
    let found = cache.cache_find_by_name(None, "h*st.lan", Time { secs: 1_000_000, nanos: 0 }, F_IPV4);
    assert!(found.is_some());
    let rec = found.unwrap().crec;
    // the lease's record is found by name; like every lease record it holds no address
    assert_ne!(rec.flags & F_DHCP, 0);
    assert_eq!(rec.addr, None);
}
