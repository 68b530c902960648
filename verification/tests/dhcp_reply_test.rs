use utdnsmasq::dnsmasq::{DhcpConfig, DhcpContext, DhcpLease, DhcpOpt, DhcpPacket};
use utdnsmasq::lease::{LeaseDb, LeaseFlags};
use utdnsmasq::rfc2131::{
    bootp_option_put, dncp_reply, do_req_options, DncpReplyArgs, BOOTREPLY, BOOTREQUEST, DHCPACK,
    DHCPDISCOVER, DHCPINFORM, DHCPNAK, DHCPOFFER, DHCPRELEASE, DHCPREQUEST, DHCP_COOKIE, OPTION_BROADCAST,
    OPTION_DNSSERVER, OPTION_DOMAINNAME, OPTION_END, OPTION_HOSTNAME, OPTION_LEASE_TIME, OPTION_MESSAGE_TYPE,
    OPTION_NETMASK, OPTION_PAD, OPTION_REQUESTED_IP, OPTION_REQUESTED_OPTIONS, OPTION_ROUTER,
    OPTION_SERVER_IDENTIFIER,
};
use utdnsmasq::util::Time;

fn ip(a: u8, b: u8, c: u8, d: u8) -> u32 {
    u32::from_be_bytes([a, b, c, d])
}

#[test]
fn test_do_req_options_basic() {
    let context = DhcpContext {
        serv_addr: ip(192, 168, 1, 1),
        netmask: ip(255, 255, 255, 0),
        broadcast: ip(192, 168, 1, 255),
        ..Default::default()
    };
    let config_opts: Vec<DhcpOpt> = Vec::new();
    let req_options = [OPTION_NETMASK, OPTION_ROUTER, OPTION_END];
    let mut buffer = [0u8; 100];
    let total = buffer.len();
    let result_len = do_req_options(
        &context,
        &mut buffer,
        &req_options,
        &config_opts,
        Some("example.com"),
        Some("testhost"),
    )
    .len();
    assert!(result_len < total, "返回的缓冲区应该比原始缓冲区小");
    assert_eq!(buffer[0], OPTION_NETMASK);
    assert_eq!(buffer[1], 4);
}

#[test]
fn test_do_req_options_empty_request() {
    let context = DhcpContext::default();
    let config_opts: Vec<DhcpOpt> = Vec::new();
    let req_options: [u8; 0] = [];
    let mut buffer = [0u8; 100];
    let original_buffer_len = buffer.len();
    {
        let result = do_req_options(&context, &mut buffer, &req_options, &config_opts, None, None);
        assert_eq!(result.len(), original_buffer_len);
        // the result starts where the buffer starts
        result[0] = 0xaa;
    }
    assert_eq!(buffer[0], 0xaa);
}

#[test]
fn test_do_req_options_nonexistent_options() {
    let context = DhcpContext::default();
    let config_opts: Vec<DhcpOpt> = Vec::new();
    let req_options = [99, 100, OPTION_END];
    let mut buffer = [0u8; 100];
    let original_buffer_len = buffer.len();
    {
        let result = do_req_options(&context, &mut buffer, &req_options, &config_opts, None, None);
        assert_eq!(result.len(), original_buffer_len);
    }
    assert!(buffer.iter().all(|&b| b == 0));
    {
        let result = do_req_options(&context, &mut buffer, &req_options, &config_opts, None, None);
        result[0] = 0xaa;
    }
    assert_eq!(buffer[0], 0xaa);
}

#[test]
fn test_do_req_options_domain_and_hostname() {
    let context = DhcpContext::default();
    let config_opts: Vec<DhcpOpt> = Vec::new();
    let req_options = [OPTION_DOMAINNAME, OPTION_HOSTNAME, OPTION_END];
    let mut buffer = [0u8; 100];
    let _result = do_req_options(
        &context,
        &mut buffer,
        &req_options,
        &config_opts,
        Some("testdomain.com"),
        Some("testhost"),
    );
    assert_eq!(buffer[0], OPTION_DOMAINNAME);
    assert_eq!(buffer[1], "testdomain.com".len() as u8);
    let domainname_len = "testdomain.com".len();
    let hostname_start = 2 + domainname_len;
    assert_eq!(buffer[hostname_start], OPTION_HOSTNAME);
    assert_eq!(buffer[hostname_start + 1], "testhost".len() as u8);
}

#[test]
fn test_do_req_options_insufficient_buffer() {
    let context = DhcpContext {
        serv_addr: ip(192, 168, 1, 1),
        netmask: ip(255, 255, 255, 0),
        ..Default::default()
    };
    let config_opts = vec![
        DhcpOpt { opt: OPTION_NETMASK, len: 4, val: vec![255, 0, 0, 0] },
        DhcpOpt { opt: OPTION_ROUTER, len: 4, val: vec![255, 0, 0, 1] },
    ];
    let req_options = [OPTION_NETMASK, OPTION_ROUTER, OPTION_END];
    let mut buffer = [0u8; 10];
    let buffer_len = buffer.len();
    {
        let result = do_req_options(&context, &mut buffer, &req_options, &config_opts, None, None);
        assert!(result.len() <= buffer_len);
        assert_eq!(result.len(), buffer_len - 6);
        // the first option took 6 bytes: the result starts after them
        result[0] = 0xaa;
    }
    assert_eq!(buffer[6], 0xaa);
}

#[test]
fn test_do_req_options_ip_address_options() {
    let context = DhcpContext {
        serv_addr: ip(10, 0, 0, 1),
        netmask: ip(255, 0, 0, 0),
        broadcast: ip(10, 255, 255, 255),
        ..Default::default()
    };
    let config_opts = vec![
        DhcpOpt { opt: OPTION_NETMASK, len: 4, val: vec![255, 0, 0, 0] },
        DhcpOpt { opt: OPTION_BROADCAST, len: 4, val: vec![255, 0, 0, 1] },
        DhcpOpt { opt: OPTION_ROUTER, len: 4, val: vec![255, 0, 0, 2] },
        DhcpOpt { opt: OPTION_DNSSERVER, len: 4, val: vec![255, 0, 0, 3] },
    ];
    let req_options = [OPTION_NETMASK, OPTION_BROADCAST, OPTION_ROUTER, OPTION_DNSSERVER, OPTION_END];
    let mut buffer = [0u8; 50];
    let original_buffer_len = buffer.len();
    let result_len = do_req_options(&context, &mut buffer, &req_options, &config_opts, None, None).len();
    let expected_used_bytes = 4 * 6;
    assert_eq!(result_len, original_buffer_len - expected_used_bytes);
    let mut pos = 0;
    assert_eq!(buffer[pos], OPTION_NETMASK);
    assert_eq!(buffer[pos + 1], 4);
    pos += 6;
    assert_eq!(buffer[pos], OPTION_BROADCAST);
    assert_eq!(buffer[pos + 1], 4);
    pos += 6;
    assert_eq!(buffer[pos], OPTION_ROUTER);
    assert_eq!(buffer[pos + 1], 4);
    pos += 6;
    assert_eq!(buffer[pos], OPTION_DNSSERVER);
    assert_eq!(buffer[pos + 1], 4);
}

#[test]
fn test_do_req_options_edge_cases() {
    let context = DhcpContext::default();
    let config_opts: Vec<DhcpOpt> = Vec::new();
    let req_options_end_only = [OPTION_END];
    let mut buffer1 = [0u8; 10];
    let original_buffer1_len = buffer1.len();
    {
        let result1 = do_req_options(&context, &mut buffer1, &req_options_end_only, &config_opts, None, None);
        assert_eq!(result1.len(), original_buffer1_len);
        result1[0] = 0xaa;
    }
    assert_eq!(buffer1[0], 0xaa);

    let req_options_with_pad = [OPTION_PAD, OPTION_NETMASK, OPTION_END];
    let config_opts_with_netmask = vec![DhcpOpt { opt: OPTION_NETMASK, len: 0, val: Vec::new() }];
    let mut buffer2 = [0u8; 20];
    let _result2 = do_req_options(
        &context,
        &mut buffer2,
        &req_options_with_pad,
        &config_opts_with_netmask,
        None,
        None,
    );
    assert_eq!(buffer2[0], OPTION_NETMASK);
}

#[test]
fn test_do_req_options_custom_options() {
    let context = DhcpContext::default();
    let config_opts = vec![
        DhcpOpt { opt: 100, len: 5, val: "value".as_bytes().to_vec() },
        DhcpOpt { opt: 101, len: 3, val: "val".as_bytes().to_vec() },
    ];
    let req_options = [100, 101, OPTION_END];
    let mut buffer = [0u8; 50];
    let _result = do_req_options(&context, &mut buffer, &req_options, &config_opts, None, None);
    assert_eq!(buffer[0], 100);
    assert_eq!(buffer[1], 5);
    assert_eq!(&buffer[2..7], b"value");
    assert_eq!(buffer[7], 101);
    assert_eq!(buffer[8], 3);
    assert_eq!(&buffer[9..12], b"val");
}

#[test]
fn test_do_req_options_return_value_consistency() {
    let context = DhcpContext {
        serv_addr: ip(192, 168, 1, 1),
        netmask: ip(255, 255, 255, 0),
        ..Default::default()
    };
    let config_opts: Vec<DhcpOpt> = Vec::new();
    let req_options = [OPTION_NETMASK, OPTION_END];
    let mut buffer = [0u8; 100];
    for _ in 0..5 {
        {
            let result = do_req_options(&context, &mut buffer, &req_options, &config_opts, None, None);
            assert_eq!(result.len(), 94);
            result[0] = 0xaa;
        }
        assert_eq!(buffer[6], 0xaa);
        buffer.fill(0);
    }
}

#[test]
fn test_do_req_options_writes_values_and_hostname() {
    let context = DhcpContext {
        serv_addr: ip(192, 168, 1, 1),
        netmask: ip(255, 255, 255, 0),
        ..Default::default()
    };
    let config_opts: Vec<DhcpOpt> = Vec::new();
    let req_options = [OPTION_NETMASK, OPTION_DNSSERVER, OPTION_HOSTNAME, OPTION_END];
    let mut buffer = [0u8; 40];
    let left = do_req_options(&context, &mut buffer, &req_options, &config_opts, None, Some("box")).len();
    assert_eq!(left, 40 - 6 - 6 - 5);
    assert_eq!(&buffer[0..6], &[OPTION_NETMASK, 4, 255, 255, 255, 0]);
    assert_eq!(&buffer[6..12], &[OPTION_DNSSERVER, 4, 192, 168, 1, 1]);
    assert_eq!(&buffer[12..17], &[OPTION_HOSTNAME, 3, b'b', b'o', b'x']);
}

#[test]
fn test_bootp_option_put_pads_and_cuts() {
    let mut packet = DhcpPacket::new();
    packet.sname = [7u8; 64];
    packet.file = [9u8; 128];
    let long_name = "s".repeat(100);
    bootp_option_put(&mut packet, Some("pxelinux.0"), Some(long_name.as_str()));
    assert_eq!(&packet.file[0..10], b"pxelinux.0");
    assert!(packet.file[10..].iter().all(|&b| b == 0));
    assert!(packet.sname[0..63].iter().all(|&b| b == b's'));
    assert_eq!(packet.sname[63], 0);
    bootp_option_put(&mut packet, None, None);
    assert!(packet.sname.iter().all(|&b| b == 0));
    assert!(packet.file.iter().all(|&b| b == 0));
}

// ---------------------------------------------------------------------
// Whole replies
// ---------------------------------------------------------------------

fn context() -> DhcpContext {
    DhcpContext {
        iface: String::from("eth0"),
        lease_time: 3600,
        serv_addr: ip(192, 168, 1, 1),
        netmask: ip(255, 255, 255, 0),
        broadcast: ip(192, 168, 1, 255),
        start: ip(192, 168, 1, 100),
        end: ip(192, 168, 1, 102),
        last: ip(192, 168, 1, 100),
        ..Default::default()
    }
}

fn request(kind: u8, extra: &[u8]) -> DhcpPacket {
    let mut p = DhcpPacket::new();
    p.op = BOOTREQUEST;
    p.htype = 1;
    p.hlen = 6;
    p.cookie = DHCP_COOKIE;
    p.xid = 0x1234_5678;
    p.chaddr[0..6].copy_from_slice(&[0x02, 0x11, 0x22, 0x33, 0x44, 0x55]);
    p.options[0] = OPTION_MESSAGE_TYPE;
    p.options[1] = 1;
    p.options[2] = kind;
    p.options[3..3 + extra.len()].copy_from_slice(extra);
    p.options[3 + extra.len()] = OPTION_END;
    p
}

fn empty_db() -> LeaseDb {
    LeaseDb { leases: Vec::new(), flags: LeaseFlags { dns_dirty: false, file_dirty: false } }
}

fn args<'a>(configs: &'a [DhcpConfig], suffix: &'a Option<String>, sname: &'a Option<String>, opts: &'a [DhcpOpt]) -> DncpReplyArgs<'a> {
    DncpReplyArgs {
        dhcp_configs: configs,
        domain_suffix: suffix,
        dhcp_file: "",
        dhcp_sname: sname,
        dhcp_next_server: ip(192, 168, 1, 2),
        dhcp_options: opts,
        sz: 548,
        now: Time { secs: 1_000_000, nanos: 0 },
    }
}

#[test]
fn test_dncp_reply_ignores_non_requests() {
    let mut ctx = context();
    let mut mess = request(DHCPDISCOVER, &[]);
    mess.op = BOOTREPLY;
    let before = mess;
    let mut db = empty_db();
    let (suffix, sname) = (None, None);
    let ret = dncp_reply(&mut ctx, &mut mess, &mut db, &args(&[], &suffix, &sname, &[]));
    assert_eq!(ret, 0);
    assert_eq!(mess.to_vec(), before.to_vec());
}

#[test]
fn test_dncp_reply_discover_offers_first_free_address() {
    let mut ctx = context();
    let mut mess = request(DHCPDISCOVER, &[]);
    let mut db = empty_db();
    let (suffix, sname) = (None, None);
    let ret = dncp_reply(&mut ctx, &mut mess, &mut db, &args(&[], &suffix, &sname, &[]));
    // message type (3) + server id (6) + lease time (6) + end (2)
    assert_eq!(ret, 240 + 17);
    assert_eq!(mess.op, BOOTREPLY);
    assert_eq!(mess.yiaddr, ip(192, 168, 1, 101));
    assert_eq!(ctx.last, ip(192, 168, 1, 101));
    assert_eq!(mess.siaddr, ip(192, 168, 1, 2));
    assert_eq!(&mess.options[0..3], &[OPTION_MESSAGE_TYPE, 1, DHCPOFFER]);
    assert_eq!(&mess.options[3..9], &[OPTION_SERVER_IDENTIFIER, 4, 192, 168, 1, 1]);
    assert_eq!(&mess.options[9..15], &[OPTION_LEASE_TIME, 4, 0, 0, 0x0e, 0x10]);
    assert_eq!(mess.options[15], OPTION_END);
    assert!(db.leases.is_empty());
}

#[test]
fn test_dncp_reply_discover_keeps_free_requested_address() {
    let mut ctx = context();
    let mut mess = request(DHCPDISCOVER, &[OPTION_REQUESTED_IP, 4, 192, 168, 1, 102]);
    let mut db = empty_db();
    let (suffix, sname) = (None, None);
    let ret = dncp_reply(&mut ctx, &mut mess, &mut db, &args(&[], &suffix, &sname, &[]));
    assert!(ret > 0);
    assert_eq!(mess.yiaddr, ip(192, 168, 1, 102));
    assert_eq!(ctx.last, ip(192, 168, 1, 100));
}

#[test]
fn test_dncp_reply_discover_exhausted_pool() {
    let mut ctx = context();
    let mut mess = request(DHCPDISCOVER, &[]);
    let mut db = empty_db();
    for (i, a) in [100u8, 101, 102].iter().enumerate() {
        db.leases.push(DhcpLease {
            clid_len: 0,
            clid: Vec::new(),
            hostname: None,
            fqdn: None,
            expires: Time { secs: 0, nanos: 0 },
            hwaddr: [9, 9, 9, 9, 9, i as u8],
            addr: ip(192, 168, 1, *a),
        });
    }
    let (suffix, sname) = (None, None);
    let ret = dncp_reply(&mut ctx, &mut mess, &mut db, &args(&[], &suffix, &sname, &[]));
    assert_eq!(ret, 0);
    assert_eq!(ctx.last, ip(192, 168, 1, 100));
}

#[test]
fn test_dncp_reply_request_records_lease_and_acks() {
    let mut ctx = context();
    let mut mess = request(
        DHCPREQUEST,
        &[OPTION_REQUESTED_IP, 4, 192, 168, 1, 101, OPTION_HOSTNAME, 4, b'h', b'o', b's', b'-', OPTION_REQUESTED_OPTIONS, 1, OPTION_NETMASK],
    );
    let mut db = empty_db();
    let (suffix, sname) = (Some(String::from("lan")), None);
    let ret = dncp_reply(&mut ctx, &mut mess, &mut db, &args(&[], &suffix, &sname, &[]));
    // message type (3) + server id (6) + lease time (6) + netmask (6) + end (2)
    assert_eq!(ret, 240 + 23);
    assert_eq!(&mess.options[0..3], &[OPTION_MESSAGE_TYPE, 1, DHCPACK]);
    assert_eq!(&mess.options[15..21], &[OPTION_NETMASK, 4, 255, 255, 255, 0]);
    assert_eq!(mess.yiaddr, ip(192, 168, 1, 101));
    assert_eq!(db.leases.len(), 1);
    let l = &db.leases[0];
    assert_eq!(l.addr, ip(192, 168, 1, 101));
    assert_eq!(l.hwaddr, [0x02, 0x11, 0x22, 0x33, 0x44, 0x55]);
    assert_eq!(l.expires, Time { secs: 1_000_000 + 3600, nanos: 0 });
    // '-' is a legal character, so the name the client sent is dropped
    assert_eq!(l.hostname, None);
    assert!(db.flags.file_dirty);
    assert!(db.flags.dns_dirty);
}

#[test]
fn test_dncp_reply_request_for_taken_address_is_refused() {
    let mut ctx = context();
    let mut mess = request(DHCPREQUEST, &[OPTION_REQUESTED_IP, 4, 192, 168, 1, 100]);
    let mut db = empty_db();
    db.leases.push(DhcpLease {
        clid_len: 0,
        clid: Vec::new(),
        hostname: None,
        fqdn: None,
        expires: Time { secs: 0, nanos: 0 },
        hwaddr: [9, 9, 9, 9, 9, 9],
        addr: ip(192, 168, 1, 100),
    });
    let (suffix, sname) = (None, None);
    let ret = dncp_reply(&mut ctx, &mut mess, &mut db, &args(&[], &suffix, &sname, &[]));
    assert_eq!(ret, -(240 + 5));
    assert_eq!(&mess.options[0..5], &[OPTION_MESSAGE_TYPE, 1, DHCPNAK, OPTION_END, 0]);
    assert_eq!(mess.yiaddr, 0);
    assert_eq!(mess.ciaddr, 0);
    assert_eq!(mess.siaddr, 0);
    assert_eq!(db.leases.len(), 1);
}

#[test]
fn test_dncp_reply_request_for_other_server_is_ignored() {
    let mut ctx = context();
    let mut mess = request(
        DHCPREQUEST,
        &[OPTION_SERVER_IDENTIFIER, 4, 10, 0, 0, 1, OPTION_REQUESTED_IP, 4, 192, 168, 1, 101],
    );
    let mut db = empty_db();
    let (suffix, sname) = (None, None);
    let ret = dncp_reply(&mut ctx, &mut mess, &mut db, &args(&[], &suffix, &sname, &[]));
    assert_eq!(ret, 0);
    assert!(db.leases.is_empty());
}

#[test]
fn test_dncp_reply_release_drops_lease() {
    let mut ctx = context();
    let mut mess = request(DHCPRELEASE, &[]);
    let mut db = empty_db();
    db.leases.push(DhcpLease {
        clid_len: 0,
        clid: Vec::new(),
        hostname: Some(String::from("pc")),
        fqdn: None,
        expires: Time { secs: 0, nanos: 0 },
        hwaddr: [0x02, 0x11, 0x22, 0x33, 0x44, 0x55],
        addr: ip(192, 168, 1, 100),
    });
    let (suffix, sname) = (None, None);
    let ret = dncp_reply(&mut ctx, &mut mess, &mut db, &args(&[], &suffix, &sname, &[]));
    assert_eq!(ret, 0);
    assert!(db.leases.is_empty());
    assert!(db.flags.dns_dirty);
    assert!(db.flags.file_dirty);
}

#[test]
fn test_dncp_reply_inform_acks_without_lease_time() {
    let mut ctx = context();
    let mut mess = request(DHCPINFORM, &[]);
    let mut db = empty_db();
    let (suffix, sname) = (None, None);
    let ret = dncp_reply(&mut ctx, &mut mess, &mut db, &args(&[], &suffix, &sname, &[]));
    assert_eq!(ret, 240 + 11);
    assert_eq!(&mess.options[0..3], &[OPTION_MESSAGE_TYPE, 1, DHCPACK]);
    assert_eq!(&mess.options[3..9], &[OPTION_SERVER_IDENTIFIER, 4, 192, 168, 1, 1]);
    assert_eq!(mess.options[9], OPTION_END);
}

#[test]
fn test_dncp_reply_request_keeps_name_before_domain() {
    let mut ctx = context();
    let mut mess = request(
        DHCPREQUEST,
        &[OPTION_REQUESTED_IP, 4, 192, 168, 1, 102, OPTION_HOSTNAME, 7, b'a', b' ', b'b', b'.', b'l', b'a', b'n'],
    );
    let mut db = empty_db();
    let (suffix, sname) = (Some(String::from("lan")), None);
    let ret = dncp_reply(&mut ctx, &mut mess, &mut db, &args(&[], &suffix, &sname, &[]));
    assert_eq!(ret, 240 + 17);
    assert_eq!(db.leases.len(), 1);
    assert_eq!(db.leases[0].hostname.as_deref(), Some("a b"));
    assert_eq!(db.leases[0].fqdn.as_deref(), Some("a b.lan"));
}
