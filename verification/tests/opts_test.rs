use utdnsmasq::dnsmasq::{
    AllAddr, MySockAddr, ResolvC, OPT_BOGUSPRIV, OPT_LOG, OPT_NO_POLL, OPT_NO_RESOLV, SERV_HAS_DOMAIN, SERV_HAS_SOURCE,
    SERV_LITERAL_ADDRESS, SERV_NO_ADDR,
};
use utdnsmasq::opts::{finish_opts, opts_would_panic, read_opts_lines, OptsError, OptsValues};

fn start() -> OptsValues {
    OptsValues {
        conffile: None,
        resolv_files: vec![ResolvC { is_default: true, logged: false, name: "/etc/resolv.conf".to_string() }],
        mxname: None,
        mxtarget: None,
        lease_file: None,
        username: "nobody".to_string(),
        groupname: "dip".to_string(),
        domain_suffix: None,
        runfile: None,
        if_names: Vec::new(),
        if_addrs: Vec::new(),
        if_except: Vec::new(),
        bogus_addr: Vec::new(),
        serv_addrs: Vec::new(),
        cachesize: 150,
        port: 53,
        query_port: 0,
        local_ttl: 0,
        addn_hosts: None,
        dhcp: Vec::new(),
        dhcp_conf: Vec::new(),
        dhcp_opts: Vec::new(),
        dhcp_file: None,
        dhcp_sname: None,
        dhcp_next_server: 0,
    }
}

fn lines(ls: &[&str]) -> Vec<String> {
    ls.iter().map(|s| s.to_string()).collect()
}

fn read(ls: &[&str]) -> Result<(u32, OptsValues), (usize, OptsError)> {
    let l = lines(ls);
    assert!(!opts_would_panic(&l, start()));
    read_opts_lines(&l, start())
}

fn ip(a: u8, b: u8, c: u8, d: u8) -> u32 {
    u32::from_be_bytes([a, b, c, d])
}

#[test]
fn test_opts_flags_set_bits() {
    let (flags, v) = read(&["# comment", "", "bogus-priv", "log-queries  trailing", "help"]).unwrap();
    assert_eq!(flags, OPT_BOGUSPRIV | OPT_LOG);
    assert_eq!(v.cachesize, 150);
}

#[test]
fn test_opts_flag_with_value_is_extraneous() {
    assert_eq!(read(&["bogus-priv", "no-hosts=yes"]).err(), Some((1, OptsError::ExtraneousParameter)));
}

#[test]
fn test_opts_keyword_without_value_is_missing() {
    assert_eq!(read(&["cache-size"]).err(), Some((0, OptsError::MissingParameter)));
    assert_eq!(read(&["nonsense"]).err(), Some((0, OptsError::MissingParameter)));
}

#[test]
fn test_opts_values() {
    let (_, v) = read(&[
        "conf-file=/etc/other.conf",
        "pid-file=/run/x.pid",
        "user=u1",
        "group=g1",
        "interface=eth0",
        "interface=eth1",
        "except-interface=lo",
        "cache-size=20000",
        "port=5353",
        "query-port=-1",
        "local-ttl=60",
        "domain=example.com",
        "bogus-nxdomain=64.94.110.11",
        "listen-address=127.0.0.1",
    ])
    .unwrap();
    assert_eq!(v.conffile.as_deref(), Some("/etc/other.conf"));
    assert_eq!(v.runfile.as_deref(), Some("/run/x.pid"));
    assert_eq!(v.username, "u1");
    assert_eq!(v.groupname, "g1");
    assert_eq!(v.if_names, vec!["eth0".to_string(), "eth1".to_string()]);
    assert_eq!(v.if_except, vec!["lo".to_string()]);
    assert_eq!(v.cachesize, 10000);
    assert_eq!(v.port, 5353);
    assert_eq!(v.query_port, -1);
    assert_eq!(v.local_ttl, 60);
    assert_eq!(v.domain_suffix.as_deref(), Some("example.com"));
    assert_eq!(v.bogus_addr, vec![ip(64, 94, 110, 11)]);
    assert_eq!(v.if_addrs, vec![MySockAddr { ip: AllAddr::V4(ip(127, 0, 0, 1)), port: 5353 }]);
}

#[test]
fn test_opts_bad_values() {
    assert_eq!(read(&["port=99999"]).err(), Some((0, OptsError::BadPort)));
    assert_eq!(read(&["query-port=x"]).err(), Some((0, OptsError::BadQueryPort)));
    assert_eq!(read(&["local-ttl=-1"]).err(), Some((0, OptsError::BadLocalTtl)));
    assert_eq!(read(&["domain=bad!"]).err(), Some((0, OptsError::BadArgument)));
    assert_eq!(read(&["addn-hosts=/a", "addn-hosts=/b"]).err(), Some((1, OptsError::BadArgument)));
    assert_eq!(read(&["listen-address=nowhere"]).err(), Some((0, OptsError::BadArgument)));
}

#[test]
fn test_opts_panics() {
    assert!(opts_would_panic(&lines(&["  \t|"]), start()));
    assert!(opts_would_panic(&lines(&["cache-size=lots"]), start()));
    assert!(opts_would_panic(&lines(&["dhcp-host=00:11:22:33:44:zz"]), start()));
    assert!(opts_would_panic(&lines(&["dhcp-range=10.0.0.1,10.0.0.9,99999999h"]), start()));
    assert!(!opts_would_panic(&lines(&["cache-size=-5"]), start()));
}

#[test]
fn test_opts_resolv_files() {
    let (_, v) = read(&["resolv-file=/etc/r2"]).unwrap();
    assert_eq!(v.resolv_files.len(), 1);
    let mut s = start();
    s.resolv_files[0].is_default = false;
    let (_, v) = read_opts_lines(&lines(&["resolv-file=/etc/r2"]), s).unwrap();
    assert_eq!(v.resolv_files.len(), 2);
    assert_eq!(v.resolv_files[1].name, "/etc/r2");
    let mut s = start();
    s.resolv_files[0].is_default = false;
    assert_eq!(
        read_opts_lines(&lines(&["resolv-file=/etc/r2", "no-poll"]), s).err(),
        Some((2, OptsError::OneResolvFile))
    );
    let (flags, v) = read(&["no-resolv"]).unwrap();
    assert_eq!(flags, OPT_NO_RESOLV);
    assert!(v.resolv_files.is_empty());
    assert_eq!(read(&["no-poll"]).unwrap().0, OPT_NO_POLL);
}

#[test]
fn test_opts_servers() {
    let (_, v) = read(&["query-port=5000", "server=1.2.3.4#5353@10.0.0.1#99"]).unwrap();
    assert_eq!(v.serv_addrs.len(), 1);
    let s = &v.serv_addrs[0];
    assert_eq!(s.addr, Some(MySockAddr { ip: AllAddr::V4(ip(1, 2, 3, 4)), port: 5353 }));
    assert_eq!(s.source, Some(MySockAddr { ip: AllAddr::V4(ip(10, 0, 0, 1)), port: 99 }));
    assert_eq!(s.flags, SERV_HAS_SOURCE);

    let (_, v) = read(&["query-port=5000", "server=8.8.8.8"]).unwrap();
    assert_eq!(v.serv_addrs[0].source, Some(MySockAddr { ip: AllAddr::V4(0), port: 5000 }));

    let (_, v) = read(&["server=/example.com/9.9.9.9"]).unwrap();
    assert_eq!(v.serv_addrs.len(), 3);
    assert_eq!(v.serv_addrs[0].domain.as_deref(), Some("example.com"));
    assert_eq!(v.serv_addrs[0].flags, SERV_HAS_DOMAIN);
    assert_eq!(v.serv_addrs[0].addr, Some(MySockAddr { ip: AllAddr::V4(ip(9, 9, 9, 9)), port: 53 }));
    assert_eq!(v.serv_addrs[1].domain.as_deref(), Some(""));

    let (_, v) = read(&["server=/local/"]).unwrap();
    assert_eq!(v.serv_addrs[0].flags, SERV_HAS_DOMAIN | SERV_NO_ADDR);

    let (_, v) = read(&["address=/ads.com/127.0.0.1"]).unwrap();
    assert_eq!(v.serv_addrs[0].flags, SERV_HAS_DOMAIN | SERV_LITERAL_ADDRESS);
    assert_eq!(read(&["address=127.0.0.1"]).err(), Some((0, OptsError::BadArgument)));
    assert_eq!(read(&["address=/ads.com/"]).err(), Some((0, OptsError::BadArgument)));
    assert_eq!(read(&["server=1.2.3.4@::1"]).err(), Some((0, OptsError::BadArgument)));
}

#[test]
fn test_opts_dhcp() {
    let (_, v) = read(&[
        "dhcp-range=192.168.0.50,192.168.0.150,12h",
        "dhcp-range=10.0.0.1,10.0.0.9,600",
        "dhcp-host=11:22:33:44:55:66,192.168.0.60,fred,45m",
        "dhcp-host=id:01:02:03,id:client",
        "dhcp-option=3,192.168.0.1,192.168.0.2",
        "dhcp-option=12,myhost",
        "dhcp-boot=pxelinux.0,boothost,192.168.0.2",
    ])
    .unwrap();
    assert_eq!(v.dhcp.len(), 2);
    assert_eq!(v.dhcp[0].start, ip(192, 168, 0, 50));
    assert_eq!(v.dhcp[0].end, ip(192, 168, 0, 150));
    assert_eq!(v.dhcp[0].last, ip(192, 168, 0, 50));
    assert_eq!(v.dhcp[0].lease_time, 43200);
    assert_eq!(v.dhcp[1].lease_time, 60);
    assert_eq!(v.dhcp_conf[0].hwaddr, [0x11, 0x22, 0x33, 0x44, 0x55, 0x66]);
    assert_eq!(v.dhcp_conf[0].addr, ip(192, 168, 0, 60));
    assert_eq!(v.dhcp_conf[0].hostname.as_deref(), Some("fred"));
    assert_eq!(v.dhcp_conf[0].lease_time, 2700);
    assert_eq!(v.dhcp_conf[1].clid, b"client".to_vec());
    assert_eq!(v.dhcp_opts[0].opt, 3);
    assert_eq!(v.dhcp_opts[0].val, vec![192, 168, 0, 1, 192, 168, 0, 2]);
    assert_eq!(v.dhcp_opts[0].len, 8);
    assert_eq!(v.dhcp_opts[1].val, b"myhost".to_vec());
    assert_eq!(v.dhcp_file.as_deref(), Some("pxelinux.0"));
    assert_eq!(v.dhcp_sname.as_deref(), Some("boothost"));
    assert_eq!(v.dhcp_next_server, ip(192, 168, 0, 2));

    let (_, v) = read(&["dhcp-host=id:01:02:03"]).unwrap();
    assert_eq!(v.dhcp_conf[0].clid, vec![1, 2, 3]);
    assert_eq!(v.dhcp_conf[0].clid_len, 3);
    assert_eq!(read(&["dhcp-range=10.0.0.1"]).err(), Some((0, OptsError::BadArgument)));
    assert_eq!(read(&["dhcp-option=3"]).err(), Some((0, OptsError::BadArgument)));
    assert_eq!(read(&["dhcp-option=3,1.2.3"]).err(), Some((0, OptsError::BadArgument)));
    assert_eq!(read(&["dhcp-boot=a,b,nowhere"]).err(), Some((0, OptsError::BadArgument)));
    let (_, v) = read(&["dhcp-boot=a,b"]).unwrap();
    assert_eq!(v.dhcp_file.as_deref(), Some("a"));
    assert_eq!(v.dhcp_sname, None);
}

#[test]
fn test_opts_mx_names_default_to_host() {
    let mut s = start();
    s.mxname = Some("mx.example.com".to_string());
    let (_, v) = finish_opts(0, s, Some("box".to_string()), 0).unwrap();
    assert_eq!(v.mxname.as_deref(), Some("mx.example.com"));
    assert_eq!(v.mxtarget.as_deref(), Some("box"));
    let mut s = start();
    s.mxname = Some("mx".to_string());
    assert_eq!(finish_opts(0, s, None, 4).err(), Some((4, OptsError::NoHostName)));
    let (_, v) = finish_opts(0, start(), None, 0).unwrap();
    assert_eq!(v.mxname, None);
}
