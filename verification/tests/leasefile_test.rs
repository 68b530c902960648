use utdnsmasq::dnsmasq::DhcpLease;
use utdnsmasq::leasefile::{lease_line_text, lease_run_out, read_lease_line, LeaseLine};
use utdnsmasq::util::Time;

#[test]
fn test_lease_line_full() {
    match read_lease_line("1700000000 00:11:22:aa:bb:cc 192.168.0.20 fred 01:02:03:ff") {
        LeaseLine::Lease { expires, hwaddr, addr, name, clid } => {
            assert_eq!(expires, 1_700_000_000);
            assert_eq!(hwaddr, [0x00, 0x11, 0x22, 0xaa, 0xbb, 0xcc]);
            assert_eq!(addr, u32::from_be_bytes([192, 168, 0, 20]));
            assert_eq!(name.as_deref(), Some("fred"));
            assert_eq!(clid, vec![1, 2, 3, 0xff]);
        }
        _ => panic!("a lease"),
    }
}

#[test]
fn test_lease_line_stars_and_odd_parts() {
    match read_lease_line("0\t00:11:zz 10.0.0.1  *  *") {
        LeaseLine::Lease { expires, hwaddr, name, clid, .. } => {
            assert_eq!(expires, 0);
            assert_eq!(hwaddr, [0; 6]);
            assert_eq!(name, None);
            assert!(clid.is_empty());
        }
        _ => panic!("a lease"),
    }
    match read_lease_line("5 00:11:22:33:44:zz 10.0.0.1 h 01:02") {
        LeaseLine::Lease { hwaddr, clid, .. } => {
            assert_eq!(hwaddr, [0, 0x11, 0x22, 0x33, 0x44, 0]);
            assert!(clid.is_empty());
        }
        _ => panic!("a lease"),
    }
}

#[test]
fn test_lease_line_refusals() {
    assert!(matches!(read_lease_line("1 2 3 4"), LeaseLine::Skip));
    assert!(matches!(read_lease_line("x 00:11:22:33:44:55 10.0.0.1 h *"), LeaseLine::Panic));
    assert!(matches!(read_lease_line("1 00:11:22:33:44:55 10.0.0 h *"), LeaseLine::BadAddress));
}

#[test]
fn test_lease_run_out() {
    let now = Time { secs: 100, nanos: 5 };
    assert!(!lease_run_out(0, now));
    assert!(!lease_run_out(100, now));
    assert!(lease_run_out(99, now));
    assert!(!lease_run_out(101, now));
}

#[test]
fn test_lease_line_text_round_trip() {
    let l = DhcpLease {
        clid_len: 3,
        clid: vec![1, 0xab, 0xff],
        hostname: Some("fred".to_string()),
        fqdn: None,
        expires: Time { secs: 1_700_000_123, nanos: 0 },
        hwaddr: [0, 0x11, 0x22, 0xaa, 0xbb, 0xcc],
        addr: u32::from_be_bytes([192, 168, 0, 20]),
    };
    assert_eq!(lease_line_text(&l), "1700000123 00:11:22:aa:bb:cc 192.168.0.20 fred 01:ab:ff\n");
    let m = DhcpLease { clid_len: 0, clid: Vec::new(), hostname: None, ..l };
    assert_eq!(lease_line_text(&m), "1700000123 00:11:22:aa:bb:cc 192.168.0.20 * *\n");
    match read_lease_line("1700000123 00:11:22:aa:bb:cc 192.168.0.20 fred 01:ab:ff:00") {
        LeaseLine::Lease { expires, hwaddr, addr, .. } => {
            assert_eq!(expires, 1_700_000_123);
            assert_eq!(hwaddr, [0, 0x11, 0x22, 0xaa, 0xbb, 0xcc]);
            assert_eq!(addr, u32::from_be_bytes([192, 168, 0, 20]));
        }
        _ => panic!("a lease"),
    }
}
