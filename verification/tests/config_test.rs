use utdnsmasq::config::{
    line_would_panic, parse_config_lines, parse_line, Args, Config, LineError, MergeError, CHGRP, CHUSER, RESOLVFILE,
};
use utdnsmasq::dnsmasq::{
    AllAddr, MySockAddr, CACHESIZ, NAMESERVER_PORT, OPT_ERROR, OPT_LOG, OPT_NODOTS_LOCAL, SERV_HAS_DOMAIN,
    SERV_HAS_SOURCE, SERV_LITERAL_ADDRESS, SERV_NO_ADDR,
};
use utdnsmasq::inet::{parse_ip, parse_ipv4, parse_ipv6, parse_sock_or_ip};

fn lines(text: &str) -> Vec<String> {
    text.lines().map(|l| l.to_string()).collect()
}

fn chars(s: &str) -> Vec<char> {
    s.chars().collect()
}

fn ip(a: u8, b: u8, c: u8, d: u8) -> u32 {
    u32::from_be_bytes([a, b, c, d])
}

fn blank_args() -> Args {
    Args {
        conf_file: None,
        listen_address: None,
        address: None,
        bogus_priv: false,
        bogus_nxdomain: None,
        cache_size: None,
        no_daemon: false,
        domain_needed: false,
        selfmx: false,
        expand_hosts: false,
        group: None,
        dhcp_host: None,
        no_hosts: false,
        hosts: None,
        interface: None,
        except_interface: None,
        leasefile: None,
        localmx: false,
        mx_host: None,
        dhcp_boot: None,
        no_poll: false,
        no_negcache: false,
        strict_order: false,
        dhcp_option: None,
        port: None,
        log_queries: false,
        query_port: None,
        no_resolv: false,
        resolv_file: None,
        server: None,
        local: None,
        local_domain: None,
        mx_target: None,
        local_ttl: None,
        user: None,
        version: false,
        help: false,
        pid_file: None,
        dhcp_range: None,
    }
}

fn parsed(text: &str) -> Config {
    match parse_config_lines(&lines(text)) {
        Ok(c) => c,
        Err((k, e)) => panic!("line {} refused: {:?}", k, e),
    }
}

#[test]
fn test_config_lines_defaults() {
    let config = parsed("");
    assert_eq!(config.cache_size, CACHESIZ);
    assert_eq!(config.port, NAMESERVER_PORT);
    assert_eq!(config.username, CHUSER);
    assert_eq!(config.groupname, CHGRP);
    assert_eq!(config.resolv.len(), 1);
    assert!(config.resolv[0].is_default);
    assert_eq!(config.resolv[0].name, RESOLVFILE);
}

#[test]
fn test_config_lines_custom_values() {
    let config = parsed(
        "# Test configuration file\ncache-size=200\nport=5353\nuser=testuser\ngroup=testgroup\nlog-queries\ndomain-needed",
    );
    assert_eq!(config.cache_size, 200);
    assert_eq!(config.port, 5353);
    assert_eq!(config.username, "testuser");
    assert_eq!(config.groupname, "testgroup");
    assert_ne!(config.options & OPT_LOG, 0);
    assert_ne!(config.options & OPT_NODOTS_LOCAL, 0);
}

#[test]
fn test_config_lines_comments_only() {
    let config = parsed("# Empty configuration file with only comments\n   # indented comment");
    assert_eq!(config.cache_size, CACHESIZ);
    assert_eq!(config.port, NAMESERVER_PORT);
}

#[test]
fn test_config_lines_bad_number_is_refused() {
    let r = parse_config_lines(&lines("invalid-option=value\n        cache-size=not-a-number\n        port=99999"));
    match r {
        Err((k, e)) => {
            assert_eq!(k, 1);
            assert_eq!(e, LineError::BadCacheSize);
        },
        Ok(_) => panic!("a bad cache size must be refused"),
    }
    let r = parse_config_lines(&lines("port=99999"));
    assert!(matches!(r, Err((0, LineError::BadPort))));
}

#[test]
fn test_config_lines_cache_size_is_capped() {
    let config = parsed("cache-size=+123456");
    assert_eq!(config.cache_size, 10000);
}

#[test]
fn test_config_lines_dhcp_settings() {
    let config = parsed(
        "dhcp-range=192.168.1.100,192.168.1.200,12h\ndhcp-host=00:11:22:33:44:55,192.168.1.50,testhost,infinite\ndhcp-option=3,192.168.1.1\ndhcp-boot=pxelinux.0,server,192.168.1.10",
    );
    assert_eq!(config.dhcp.len(), 1);
    let r = &config.dhcp[0];
    assert_eq!(r.start, ip(192, 168, 1, 100));
    assert_eq!(r.end, ip(192, 168, 1, 200));
    assert_eq!(r.last, ip(192, 168, 1, 100));
    assert_eq!(r.lease_time, 12 * 3600);
    assert_eq!(config.dhcp_configs.len(), 1);
    let h = &config.dhcp_configs[0];
    assert_eq!(h.hwaddr, [0x00, 0x11, 0x22, 0x33, 0x44, 0x55]);
    assert_eq!(h.addr, ip(192, 168, 1, 50));
    assert_eq!(h.hostname, Some(String::from("testhost")));
    assert_eq!(h.lease_time, 0xffff_ffff);
    assert_eq!(config.dhcp_options.len(), 1);
    let o = &config.dhcp_options[0];
    assert_eq!(o.opt, 3);
    assert_eq!(o.val, b"192.168.1.1".to_vec());
    assert_eq!(o.len, 11);
    assert_eq!(config.dhcp_file, "pxelinux.0");
    assert_eq!(config.dhcp_sname, Some(String::from("server")));
    assert_eq!(config.dhcp_next_server, ip(192, 168, 1, 10));
}

#[test]
fn test_config_lines_dhcp_quirks() {
    // the last character of a lease time is always taken as its unit
    let config = parsed("dhcp-host=3600,h*st\ndhcp-option=1,a,b\ndhcp-option=2,1.2.3.4,5.6.7.8");
    assert_eq!(config.dhcp_configs[0].lease_time, 360);
    assert_eq!(config.dhcp_configs[0].hostname, Some(String::from("h*st")));
    // text keeps its commas; a list of addresses loses them
    assert_eq!(config.dhcp_options[0].val, b"a,b".to_vec());
    assert_eq!(config.dhcp_options[1].val, b"1.2.3.45.6.7.8".to_vec());
    assert_eq!(config.dhcp_options[1].len, 14);
}

#[test]
fn test_config_lines_servers_and_addresses() {
    let config = parsed(
        "# Test configuration file with address options\naddress=/example.com/192.168.1.100\naddress=/test.local/10.0.0.1\nserver=/google.com/8.8.8.8",
    );
    assert_eq!(config.serv_addrs.len(), 3);
    let s = &config.serv_addrs[0];
    assert_eq!(s.domain, "google.com");
    assert_eq!(s.flags, SERV_HAS_DOMAIN);
    assert_eq!(s.addr, MySockAddr { ip: AllAddr::V4(ip(8, 8, 8, 8)), port: 53 });
    assert_eq!(s.source_addr, MySockAddr { ip: AllAddr::V4(0), port: 0 });
    let a = &config.serv_addrs[2];
    assert_eq!(a.domain, "example.com");
    assert_eq!(a.flags, SERV_HAS_DOMAIN | SERV_LITERAL_ADDRESS);
    assert_eq!(a.addr, MySockAddr { ip: AllAddr::V4(ip(192, 168, 1, 100)), port: 53 });
}

#[test]
fn test_parse_line_server_ports_and_source() {
    let mut config = Config::default();
    assert_eq!(parse_line("server=1.2.3.4#5353@10.0.0.1#999", &mut config), Ok(()));
    let s = &config.serv_addrs[0];
    assert_eq!(s.addr, MySockAddr { ip: AllAddr::V4(ip(1, 2, 3, 4)), port: 5353 });
    assert_eq!(s.source_addr, MySockAddr { ip: AllAddr::V4(ip(10, 0, 0, 1)), port: 999 });
    assert_eq!(s.flags, SERV_HAS_SOURCE);
    assert_eq!(parse_line("local=/lan/", &mut config), Ok(()));
    assert_eq!(config.serv_addrs[0].flags, SERV_HAS_DOMAIN | SERV_NO_ADDR);
    assert_eq!(parse_line("server=2001:db8::1", &mut config), Ok(()));
    assert_eq!(config.serv_addrs[0].addr.ip, AllAddr::V6(0x2001_0db8_0000_0000_0000_0000_0000_0001));
    assert_eq!(config.serv_addrs[0].source_addr, MySockAddr { ip: AllAddr::V6(0), port: 0 });
}

#[test]
fn test_parse_line_refusals() {
    let mut config = Config::default();
    assert_eq!(parse_line("address=1.2.3.4", &mut config), Err(LineError::BadArgument));
    let mut config = Config::default();
    assert_eq!(parse_line(" \t| ", &mut config), Err(LineError::Blank));
    let mut config = Config::default();
    assert_eq!(parse_line("server=not.an.address", &mut config), Err(LineError::BadServerAddress));
    let mut config = Config::default();
    assert_eq!(parse_line("mx-host=bad*name", &mut config), Err(LineError::BadArgument));
    assert_eq!(config.options, OPT_ERROR);
    let mut config = Config::default();
    assert_eq!(parse_line("local-ttl=-1", &mut config), Err(LineError::BadLocalTtl));
    let mut config = Config::default();
    assert_eq!(parse_line("query-port=70000", &mut config), Err(LineError::BadQueryPort));
}

#[test]
fn test_parse_line_listen_addresses() {
    let mut config = Config::default();
    assert_eq!(parse_line("listen-address=[::1]:5353,127.0.0.1", &mut config), Ok(()));
    assert_eq!(config.if_addrs.len(), 2);
    assert_eq!(config.if_addrs[0].addr, MySockAddr { ip: AllAddr::V6(1), port: 5353 });
    assert_eq!(config.if_addrs[1].addr, MySockAddr { ip: AllAddr::V4(ip(127, 0, 0, 1)), port: 53 });
    let mut config = Config::default();
    assert_eq!(parse_line("listen-address=10.0.0.1,nonsense,10.0.0.2", &mut config), Err(LineError::BadListenAddress));
    assert_eq!(config.if_addrs.len(), 1);
}

#[test]
fn test_parse_line_words_and_resolv_files() {
    let mut config = Config::default();
    utdnsmasq::config::config_default(&mut config);
    assert_eq!(parse_line("resolv-file=/tmp/r1 trailing words", &mut config), Ok(()));
    assert_eq!(config.resolv.len(), 1);
    assert!(!config.resolv[0].is_default);
    assert_eq!(config.resolv[0].name, "/tmp/r1");
    assert_eq!(parse_line("resolv-file=/tmp/r2", &mut config), Ok(()));
    assert_eq!(config.resolv.len(), 2);
    assert_eq!(parse_line("addn-hosts=/a", &mut config), Ok(()));
    assert_eq!(parse_line("addn-hosts=/b", &mut config), Err(LineError::BadArgument));
}

#[test]
fn test_line_would_panic() {
    assert!(line_would_panic("dhcp-range=1.2.3.4,1.2.3.5,4294967295h"));
    assert!(!line_would_panic("dhcp-range=1.2.3.4,1.2.3.5,1193046h"));
    assert!(line_would_panic("dhcp-host=zz:11:22:33:44:55"));
    assert!(line_would_panic("dhcp-host=\u{e9}"));
    assert!(line_would_panic("dhcp-host=4294967295m"));
    assert!(!line_would_panic("dhcp-host=00:11:22:33:44:55,host"));
    assert!(!line_would_panic("# dhcp-host=\u{e9}"));
}

#[test]
fn test_merge_args_defaults() {
    let mut config = parsed("");
    assert_eq!(config.merge_args(&blank_args()), Ok(()));
    assert_eq!(config.cache_size, CACHESIZ);
    assert_eq!(config.resolv.len(), 1);
}

#[test]
fn test_merge_args_values_and_ports() {
    let mut config = parsed("");
    let mut args = blank_args();
    args.port = Some(5353);
    args.query_port = Some(1000);
    args.listen_address = Some(vec![String::from("10.0.0.1"), String::from("garbage")]);
    args.server = Some(vec![String::from("1.2.3.4"), String::from("5.6.7.8@9.9.9.9")]);
    args.cache_size = Some(300);
    args.log_queries = true;
    args.interface = Some(vec![String::from("eth0")]);
    args.dhcp_range = Some(vec![String::from("10.0.0.10,10.0.0.20,30m")]);
    assert_eq!(config.merge_args(&args), Ok(()));
    assert_eq!(config.cache_size, 300);
    assert_ne!(config.options & OPT_LOG, 0);
    assert_eq!(config.if_addrs.len(), 1);
    assert_eq!(config.if_addrs[0].addr, MySockAddr { ip: AllAddr::V4(ip(10, 0, 0, 1)), port: 5353 });
    assert_eq!(config.serv_addrs.len(), 2);
    // a server with a source address keeps its port; the other sends from the query port
    assert_eq!(config.serv_addrs[0].source_addr, MySockAddr { ip: AllAddr::V4(ip(9, 9, 9, 9)), port: 0 });
    assert_eq!(config.serv_addrs[1].source_addr, MySockAddr { ip: AllAddr::V4(0), port: 1000 });
    assert_eq!(config.if_names[0].name, "eth0");
    assert_eq!(config.dhcp[0].lease_time, 1800);
}

#[test]
fn test_merge_args_refusals() {
    let mut config = parsed("");
    let mut args = blank_args();
    args.address = Some(vec![String::from("1.2.3.4")]);
    assert_eq!(config.merge_args(&args), Err(MergeError::BadAddress));
    let mut config = parsed("");
    let mut args = blank_args();
    args.no_poll = true;
    args.resolv_file = Some(vec![String::from("/tmp/a"), String::from("/tmp/b")]);
    assert_eq!(config.merge_args(&args), Err(MergeError::OneResolvOnly));
    let mut config = parsed("");
    let mut args = blank_args();
    args.no_resolv = true;
    assert_eq!(config.merge_args(&args), Ok(()));
    assert!(config.resolv.is_empty());
}

#[test]
fn test_merge_mx_from_host_name() {
    let mut config = parsed("");
    config.mxtarget = String::from("mail.lan");
    assert_eq!(config.finish_merge(Some(String::from("box"))), Ok(()));
    assert_eq!(config.mxname, "box");
    assert_eq!(config.mxtarget, "mail.lan");
    let mut config = parsed("localmx");
    assert_eq!(config.finish_merge(None), Err(MergeError::NoHostname));
}

#[test]
fn test_addresses_as_text() {
    assert_eq!(parse_ipv4(&chars("192.168.1.1")), Some(ip(192, 168, 1, 1)));
    assert_eq!(parse_ipv4(&chars("192.168.01.1")), None);
    assert_eq!(parse_ipv4(&chars("256.1.1.1")), None);
    assert_eq!(parse_ipv4(&chars("1.2.3")), None);
    assert_eq!(parse_ipv6(&chars("::")), Some(0));
    assert_eq!(parse_ipv6(&chars("::1")), Some(1));
    assert_eq!(parse_ipv6(&chars("1::")), Some(1u128 << 112));
    assert_eq!(parse_ipv6(&chars("::ffff:1.2.3.4")), Some(0xffff_0102_0304));
    assert_eq!(parse_ipv6(&chars("1:2:3:4:5:6:7:8")), Some(0x0001_0002_0003_0004_0005_0006_0007_0008));
    assert_eq!(parse_ipv6(&chars("1:2:3:4:5:6:7::")), Some(0x0001_0002_0003_0004_0005_0006_0007_0000));
    assert_eq!(parse_ipv6(&chars("1::2::3")), None);
    assert_eq!(parse_ipv6(&chars("12345::")), None);
    assert_eq!(parse_ipv6(&chars("1:2:3:4:5:6:7:8:9")), None);
    assert_eq!(parse_ipv6(&chars("1.2.3.4::")), None);
    assert_eq!(parse_ip(&chars("10.0.0.1")), Some(AllAddr::V4(ip(10, 0, 0, 1))));
    assert_eq!(parse_sock_or_ip(&chars("[fe80::1%2]:53")), Some(MySockAddr { ip: AllAddr::V6(0xfe80_0000_0000_0000_0000_0000_0000_0001), port: 53 }));
    assert_eq!(parse_sock_or_ip(&chars("1.2.3.4:+53")), None);
    let v6: [(&str, Option<u128>); 14] = [
        ("::", Some(0)),
        ("1::", Some(0x0001_0000_0000_0000_0000_0000_0000_0000)),
        ("::1.2.3.4", Some(0x0102_0304)),
        ("1:2:3:4:5:6:1.2.3.4", Some(0x0001_0002_0003_0004_0005_0006_0102_0304)),
        ("a:B:c:D::", Some(0x000a_000b_000c_000d_0000_0000_0000_0000)),
        ("fe80::1", Some(0xfe80_0000_0000_0000_0000_0000_0000_0001)),
        (":::", None),
        ("1:::2", None),
        ("::1:2:3:4:5:6:7", Some(0x0000_0001_0002_0003_0004_0005_0006_0007)),
        ("0:0:0:0:0:0:0:0:0", None),
        ("1::2:3:4:5:6:7", Some(0x0001_0000_0002_0003_0004_0005_0006_0007)),
        ("1.2.3.4", None),
        ("::12345", None),
        ("1:2:3:4:5:6:7:1.2.3.4", None),
    ];
    for (t, expected) in v6 {
        assert_eq!(parse_ipv6(&chars(t)), expected, "{}", t);
    }
    let v4: [(&str, Option<u32>); 7] = [
        ("0.0.0.0", Some(0)),
        ("1.2.3.4", Some(0x0102_0304)),
        ("01.2.3.4", None),
        ("1.2.3.4.5", None),
        ("255.255.255.255", Some(u32::MAX)),
        ("1..2.3", None),
        ("+1.2.3.4", None),
    ];
    for (t, expected) in v4 {
        assert_eq!(parse_ipv4(&chars(t)), expected, "{}", t);
    }
    let socks: [(&str, Option<u16>); 7] = [
        ("1.2.3.4:53", Some(53)),
        ("[::1]:0", Some(0)),
        ("[::1%4294967295]:65535", Some(65535)),
        ("[::1%4294967296]:1", None),
        ("1.2.3.4:65536", None),
        ("1.2.3.4:0053", Some(53)),
        ("[1.2.3.4]:5", None),
    ];
    for (t, expected) in socks {
        let got = utdnsmasq::inet::parse_sock(&chars(t)).map(|a| a.port);
        assert_eq!(got, expected, "{}", t);
    }
}
