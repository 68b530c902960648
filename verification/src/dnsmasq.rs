//! The data shared by the DNS and DHCP halves: protocol constants, the
//! DNS header, the BOOTP/DHCP message and the records kept in memory.

use crate::util::{be16_bytes, be16_value, be32_bytes, be32_value, put_long, put_short, Time};
use crate::DnsmasqError;
use vstd::prelude::*;

verus! {

// Operation flags
pub const OPT_ERROR: u32 = 0xffff;
pub const OPT_BOGUSPRIV: u32 = 1;
pub const OPT_FILTER: u32 = 2;
pub const OPT_LOG: u32 = 4;
pub const OPT_SELFMX: u32 = 8;
pub const OPT_NO_HOSTS: u32 = 16;
pub const OPT_NO_POLL: u32 = 32;
pub const OPT_DEBUG: u32 = 64;
pub const OPT_ORDER: u32 = 128;
pub const OPT_NO_RESOLV: u32 = 256;
pub const OPT_EXPAND: u32 = 512;
pub const OPT_LOCALMX: u32 = 1024;
pub const OPT_NO_NEG: u32 = 2048;
pub const OPT_NODOTS_LOCAL: u32 = 4096;

// Sizes
pub const MAXDNAME: usize = 1024;
pub const SMALLDNAME: usize = 256;
pub const PACKETSZ: usize = 512;
pub const RRFIXEDSZ: usize = 10;
pub const ETHER_ADDR_LEN: usize = 6;
pub const CACHESIZ: usize = 150;
pub const NAMESERVER_PORT: u16 = 53;

// Cache entry flags
pub const F_IMMORTAL: u16 = 1;
pub const F_CONFIG: u16 = 2;
pub const F_REVERSE: u16 = 4;
pub const F_FORWARD: u16 = 8;
pub const F_DHCP: u16 = 16;
pub const F_NEG: u16 = 32;
pub const F_HOSTS: u16 = 64;
pub const F_IPV4: u16 = 128;
pub const F_IPV6: u16 = 256;
pub const F_BIGNAME: u16 = 512;
pub const F_UPSTREAM: u16 = 1024;
pub const F_SERVER: u16 = 2048;
pub const F_NXDOMAIN: u16 = 4096;
pub const F_QUERY: u16 = 8192;
pub const F_ADDN: u16 = 16384;
pub const F_NOERR: u16 = 32768;

// Server flags
pub const SERV_FROM_RESOLV: u32 = 1;
pub const SERV_NO_ADDR: u32 = 2;
pub const SERV_LITERAL_ADDRESS: u32 = 4;
pub const SERV_HAS_SOURCE: u32 = 8;
pub const SERV_HAS_DOMAIN: u32 = 16;
pub const SERV_FOR_NODOTS: u32 = 32;
pub const SERV_TYPE: u32 = 48;

// Response codes
pub const NOERROR: u8 = 0;
pub const FORMERR: u8 = 1;
pub const SERVFAIL: u8 = 2;
pub const NXDOMAIN: u8 = 3;
pub const NOTIMP: u8 = 4;
pub const REFUSED: u8 = 5;
pub const YXDOMAIN: u8 = 6;
pub const YXRRSET: u8 = 7;
pub const NXRRSET: u8 = 8;
pub const NOTAUTH: u8 = 9;
pub const NOTZONE: u8 = 10;

pub const QUERY: u8 = 0;

pub const C_IN: u16 = 1;
pub const C_CHAOS: u16 = 3;
pub const C_ANY: u16 = 255;

pub const T_A: u16 = 1;
pub const T_AAAA: u16 = 28;
pub const T_ANY: u16 = 255;
pub const T_TXT: u16 = 16;
pub const T_SOA: u16 = 6;
pub const T_SRV: u16 = 33;
pub const T_PTR: u16 = 12;
pub const T_MX: u16 = 15;
pub const T_MAILB: u16 = 253;
pub const T_CNAME: u16 = 5;

pub const IPVERSION: u8 = 4;

/// An IP address: IPv4 as its 32-bit number, IPv6 as its 128-bit number,
/// both in the usual (big-endian) reading of the octets.
#[derive(Clone, Copy, Debug, PartialEq, Eq, Structural)]
pub enum AllAddr {
    V4(u32),
    V6(u128),
}

/// A socket address: an IP address and a port.
#[derive(Clone, Copy, Debug, PartialEq, Eq, Structural)]
pub struct MySockAddr {
    pub ip: AllAddr,
    pub port: u16,
}

impl MySockAddr {
    /// The unspecified IPv4 address with port 0.
    pub fn unspecified() -> (a: MySockAddr)
        ensures
            a.ip == AllAddr::V4(0),
            a.port == 0,
    {
        MySockAddr { ip: AllAddr::V4(0), port: 0 }
    }
}

/// Bogus address entry: answers holding this address are turned into
/// NXDOMAIN.
#[derive(Clone, Copy, Debug, PartialEq, Eq, Structural)]
pub struct BogusAddr {
    pub addr: u32,
}

/// DNS cache entry.
#[derive(Clone, Debug)]
pub struct Crec {
    pub ttd: Time,
    pub addr: Option<AllAddr>,
    pub flags: u16,
    pub name: String,
}

/// A socket used to talk to an upstream server, known by its descriptor.
#[derive(Clone, Copy, Debug, PartialEq, Eq, Structural)]
pub struct ServerFd {
    pub fd: i32,
    pub source_addr: MySockAddr,
}

/// DNS server configuration.
#[derive(Clone, Debug)]
pub struct Server {
    pub addr: MySockAddr,
    pub source_addr: MySockAddr,
    pub sfd: Option<ServerFd>,
    pub domain: String,
    pub flags: u32,
}

/// Interface name parameters from the command line.
#[derive(Clone, Debug)]
pub struct Iname {
    pub name: String,
    pub addr: MySockAddr,
    pub found: bool,
}

/// Resolv-file parameters from the command line.
#[derive(Clone, Debug)]
pub struct ResolvC {
    pub is_default: bool,
    pub logged: bool,
    pub name: String,
}

/// DHCP lease information.
#[derive(Clone, Debug)]
pub struct DhcpLease {
    pub clid_len: usize,
    pub clid: Vec<u8>,
    pub hostname: Option<String>,
    pub fqdn: Option<String>,
    /// When the lease runs out; the epoch stands for a lease that never does.
    pub expires: Time,
    pub hwaddr: [u8; 6],
    pub addr: u32,
}

/// What a lease holds, as plain values.
pub struct LeaseView {
    pub clid_len: usize,
    pub clid: Seq<u8>,
    pub hostname: Option<Seq<char>>,
    pub fqdn: Option<Seq<char>>,
    pub expires: Time,
    pub hwaddr: Seq<u8>,
    pub addr: u32,
}

/// The characters of an optional string.
pub open spec fn opt_str_view(o: Option<String>) -> Option<Seq<char>> {
    match o {
        Some(s) => Some(s@),
        None => None,
    }
}

impl View for DhcpLease {
    type V = LeaseView;

    open spec fn view(&self) -> LeaseView {
        LeaseView {
            clid_len: self.clid_len,
            clid: self.clid@,
            hostname: opt_str_view(self.hostname),
            fqdn: opt_str_view(self.fqdn),
            expires: self.expires,
            hwaddr: self.hwaddr@,
            addr: self.addr,
        }
    }
}

/// Copies an optional string.
pub fn clone_opt_string(o: &Option<String>) -> (r: Option<String>)
    ensures
        opt_str_view(r) == opt_str_view(*o),
{
    match o {
        Some(s) => Some(s.clone()),
        None => None,
    }
}

/// Copies a byte vector.
pub fn clone_bytes(v: &Vec<u8>) -> (r: Vec<u8>)
    ensures
        r@ == v@,
{
    let mut r: Vec<u8> = Vec::new();
    crate::util::extend_bytes(&mut r, v.as_slice());
    r
}

impl DhcpLease {
    /// A copy of the lease.
    pub fn clone_lease(&self) -> (r: DhcpLease)
        ensures
            r@ == self@,
    {
        DhcpLease {
            clid_len: self.clid_len,
            clid: clone_bytes(&self.clid),
            hostname: clone_opt_string(&self.hostname),
            fqdn: clone_opt_string(&self.fqdn),
            expires: self.expires,
            hwaddr: self.hwaddr,
            addr: self.addr,
        }
    }
}

/// A DHCP host configuration.
#[derive(Clone, Debug)]
pub struct DhcpConfig {
    pub clid_len: usize,
    pub clid: Vec<u8>,
    pub hwaddr: [u8; 6],
    pub hostname: Option<String>,
    pub addr: u32,
    pub lease_time: u32,
}

/// What a host configuration holds, as plain values.
pub struct DhcpConfigView {
    pub clid_len: usize,
    pub clid: Seq<u8>,
    pub hwaddr: Seq<u8>,
    pub hostname: Option<Seq<char>>,
    pub addr: u32,
    pub lease_time: u32,
}

impl View for DhcpConfig {
    type V = DhcpConfigView;

    open spec fn view(&self) -> DhcpConfigView {
        DhcpConfigView {
            clid_len: self.clid_len,
            clid: self.clid@,
            hwaddr: self.hwaddr@,
            hostname: opt_str_view(self.hostname),
            addr: self.addr,
            lease_time: self.lease_time,
        }
    }
}

impl DhcpConfig {
    /// A copy of the configuration.
    pub fn clone_config(&self) -> (r: DhcpConfig)
        ensures
            r@ == self@,
    {
        DhcpConfig {
            clid_len: self.clid_len,
            clid: clone_bytes(&self.clid),
            hwaddr: self.hwaddr,
            hostname: clone_opt_string(&self.hostname),
            addr: self.addr,
            lease_time: self.lease_time,
        }
    }
}

/// A DHCP option given in the configuration.
#[derive(Clone, Debug)]
pub struct DhcpOpt {
    pub opt: u8,
    pub len: u8,
    pub val: Vec<u8>,
}

/// A DHCP address range on one interface, with the descriptors of its
/// sockets.
#[derive(Clone, Debug)]
pub struct DhcpContext {
    pub fd_socket: Option<i32>,
    pub rawfd: Option<i32>,
    pub ifindex: u32,
    pub iface: String,
    pub hwaddr: [u8; 6],
    pub lease_time: u32,
    pub serv_addr: u32,
    pub netmask: u32,
    pub broadcast: u32,
    pub start: u32,
    pub end: u32,
    pub last: u32,
}

impl Default for DhcpContext {
    /// A context with no sockets, no interface name and every number 0.
    fn default() -> (c: DhcpContext)
        ensures
            c.fd_socket is None,
            c.rawfd is None,
            c.ifindex == 0,
            c.iface@.len() == 0,
            c.hwaddr@ == seq![0u8, 0u8, 0u8, 0u8, 0u8, 0u8],
            c.lease_time == 0,
            c.serv_addr == 0,
            c.netmask == 0,
            c.broadcast == 0,
            c.start == 0,
            c.end == 0,
            c.last == 0,
    {
        let c = DhcpContext {
            fd_socket: None,
            rawfd: None,
            ifindex: 0,
            iface: String::new(),
            hwaddr: [0u8; 6],
            lease_time: 0,
            serv_addr: 0,
            netmask: 0,
            broadcast: 0,
            start: 0,
            end: 0,
            last: 0,
        };
        assert(c.hwaddr@ =~= seq![0u8, 0u8, 0u8, 0u8, 0u8, 0u8]);
        c
    }
}

// ---------------------------------------------------------------------
// DNS header
// ---------------------------------------------------------------------

/// DNS message header.
#[derive(Clone, Copy, Debug, PartialEq, Eq, Structural)]
pub struct Header {
    pub id: u16,
    pub qr: bool,
    pub opcode: u8,
    pub aa: bool,
    pub tc: bool,
    pub rd: bool,
    pub ra: bool,
    pub unused: bool,
    pub ad: bool,
    pub cd: bool,
    pub rcode: u8,
    pub qdcount: u16,
    pub ancount: u16,
    pub nscount: u16,
    pub arcount: u16,
}

/// The header that the first twelve bytes of a message describe.
pub open spec fn spec_header_of(b: Seq<u8>) -> Header {
    Header {
        id: be16_value(b[0], b[1]),
        qr: (b[2] & 0x80u8) != 0,
        opcode: (b[2] & 0x78u8) >> 3u8,
        aa: (b[2] & 0x04u8) != 0,
        tc: (b[2] & 0x02u8) != 0,
        rd: (b[2] & 0x01u8) != 0,
        ra: (b[3] & 0x80u8) != 0,
        unused: (b[3] & 0x40u8) != 0,
        ad: (b[3] & 0x20u8) != 0,
        cd: (b[3] & 0x10u8) != 0,
        rcode: b[3] & 0x0fu8,
        qdcount: be16_value(b[4], b[5]),
        ancount: be16_value(b[6], b[7]),
        nscount: be16_value(b[8], b[9]),
        arcount: be16_value(b[10], b[11]),
    }
}

pub open spec fn bit(b: bool, mask: u8) -> u8 {
    if b {
        mask
    } else {
        0
    }
}

/// The first flag byte of a header.
pub open spec fn spec_flags1(h: Header) -> u8 {
    bit(h.qr, 0x80) | ((h.opcode << 3u8) & 0x78u8) | bit(h.aa, 0x04) | bit(h.tc, 0x02) | bit(
        h.rd,
        0x01,
    )
}

/// The second flag byte of a header.
pub open spec fn spec_flags2(h: Header) -> u8 {
    bit(h.ra, 0x80) | bit(h.unused, 0x40) | bit(h.ad, 0x20) | bit(h.cd, 0x10) | (h.rcode & 0x0fu8)
}

/// The twelve bytes that encode a header.
pub open spec fn spec_header_bytes(h: Header) -> Seq<u8> {
    be16_bytes(h.id) + seq![spec_flags1(h), spec_flags2(h)] + be16_bytes(h.qdcount) + be16_bytes(
        h.ancount,
    ) + be16_bytes(h.nscount) + be16_bytes(h.arcount)
}

fn flag_bit(b: bool, mask: u8) -> (r: u8)
    ensures
        r == bit(b, mask),
{
    if b {
        mask
    } else {
        0
    }
}

impl Header {
    /// A header with every field zero or false.
    pub fn new() -> (h: Header)
        ensures
            h == (Header {
                id: 0,
                qr: false,
                opcode: 0,
                aa: false,
                tc: false,
                rd: false,
                ra: false,
                unused: false,
                ad: false,
                cd: false,
                rcode: 0,
                qdcount: 0,
                ancount: 0,
                nscount: 0,
                arcount: 0,
            }),
    {
        Header {
            id: 0,
            qr: false,
            opcode: 0,
            aa: false,
            tc: false,
            rd: false,
            ra: false,
            unused: false,
            ad: false,
            cd: false,
            rcode: 0,
            qdcount: 0,
            ancount: 0,
            nscount: 0,
            arcount: 0,
        }
    }

    /// Reads a header from the first twelve bytes of `data`; fails when
    /// there are fewer.
    pub fn parse(data: &[u8]) -> (r: Result<Header, DnsmasqError>)
        ensures
            data@.len() >= 12 ==> r == Ok::<Header, DnsmasqError>(spec_header_of(data@)),
            data@.len() < 12 ==> r matches Err(DnsmasqError::ParseError(_)),
    {
        if data.len() < 12 {
            return Err(DnsmasqError::ParseError("DNS header parsr error".to_owned()));
        }
        let b2: u8 = data[2];
        let b3: u8 = data[3];
        let id: u16 = ((data[0] as u16) << 8) | (data[1] as u16);
        let qdcount: u16 = ((data[4] as u16) << 8) | (data[5] as u16);
        let ancount: u16 = ((data[6] as u16) << 8) | (data[7] as u16);
        let nscount: u16 = ((data[8] as u16) << 8) | (data[9] as u16);
        let arcount: u16 = ((data[10] as u16) << 8) | (data[11] as u16);
        proof {
            lemma_be16(data@[0], data@[1], id);
            lemma_be16(data@[4], data@[5], qdcount);
            lemma_be16(data@[6], data@[7], ancount);
            lemma_be16(data@[8], data@[9], nscount);
            lemma_be16(data@[10], data@[11], arcount);
        }
        Ok(
            Header {
                id,
                qr: (b2 & 0x80) != 0,
                opcode: (b2 & 0x78) >> 3,
                aa: (b2 & 0x04) != 0,
                tc: (b2 & 0x02) != 0,
                rd: (b2 & 0x01) != 0,
                ra: (b3 & 0x80) != 0,
                unused: (b3 & 0x40) != 0,
                ad: (b3 & 0x20) != 0,
                cd: (b3 & 0x10) != 0,
                rcode: b3 & 0x0f,
                qdcount,
                ancount,
                nscount,
                arcount,
            },
        )
    }

    /// The twelve bytes that encode this header.
    pub fn to_bytes(&self) -> (bytes: Vec<u8>)
        ensures
            bytes@ == spec_header_bytes(*self),
    {
        let mut bytes: Vec<u8> = Vec::with_capacity(12);
        put_short(self.id, &mut bytes);
        let flags1: u8 = flag_bit(self.qr, 0x80) | ((self.opcode << 3) & 0x78) | flag_bit(
            self.aa,
            0x04,
        ) | flag_bit(self.tc, 0x02) | flag_bit(self.rd, 0x01);
        bytes.push(flags1);
        let flags2: u8 = flag_bit(self.ra, 0x80) | flag_bit(self.unused, 0x40) | flag_bit(
            self.ad,
            0x20,
        ) | flag_bit(self.cd, 0x10) | (self.rcode & 0x0f);
        bytes.push(flags2);
        put_short(self.qdcount, &mut bytes);
        put_short(self.ancount, &mut bytes);
        put_short(self.nscount, &mut bytes);
        put_short(self.arcount, &mut bytes);
        bytes
    }
}

pub proof fn lemma_be16(b0: u8, b1: u8, v: u16)
    requires
        v == ((b0 as u16) << 8) | (b1 as u16),
    ensures
        v == be16_value(b0, b1),
{
    assert(v == (b0 as int * 256 + b1 as int) as u16) by (bit_vector)
        requires
            v == ((b0 as u16) << 8) | (b1 as u16),
    ;
}

proof fn lemma_be16_bytes_value(s: u16)
    ensures
        be16_value(be16_bytes(s)[0], be16_bytes(s)[1]) == s,
{
    crate::util::lemma_short_roundtrip(s);
}

/// Encoding a header and reading it back gives the same header, provided
/// its opcode and response code fit their four bits.
pub proof fn law_header_roundtrip(h: Header)
    requires
        h.opcode < 16,
        h.rcode < 16,
    ensures
        spec_header_of(spec_header_bytes(h)) == h,
{
    let b = spec_header_bytes(h);
    lemma_be16_bytes_value(h.id);
    lemma_be16_bytes_value(h.qdcount);
    lemma_be16_bytes_value(h.ancount);
    lemma_be16_bytes_value(h.nscount);
    lemma_be16_bytes_value(h.arcount);
    let f1 = spec_flags1(h);
    let f2 = spec_flags2(h);
    let (qr, aa, tc, rd, op) = (h.qr, h.aa, h.tc, h.rd, h.opcode);
    let (ra, un, ad, cd, rc) = (h.ra, h.unused, h.ad, h.cd, h.rcode);
    assert(b[2] == f1);
    assert(b[3] == f2);
    assert(((f1 & 0x80u8) != 0) == qr && ((f1 & 0x78u8) >> 3u8) == op && ((f1 & 0x04u8) != 0)
        == aa && ((f1 & 0x02u8) != 0) == tc && ((f1 & 0x01u8) != 0) == rd) by (bit_vector)
        requires
            f1 == (if qr {
                0x80u8
            } else {
                0u8
            }) | ((op << 3u8) & 0x78u8) | (if aa {
                0x04u8
            } else {
                0u8
            }) | (if tc {
                0x02u8
            } else {
                0u8
            }) | (if rd {
                0x01u8
            } else {
                0u8
            }),
            op < 16,
    ;
    assert(((f2 & 0x80u8) != 0) == ra && ((f2 & 0x40u8) != 0) == un && ((f2 & 0x20u8) != 0) == ad
        && ((f2 & 0x10u8) != 0) == cd && (f2 & 0x0fu8) == rc) by (bit_vector)
        requires
            f2 == (if ra {
                0x80u8
            } else {
                0u8
            }) | (if un {
                0x40u8
            } else {
                0u8
            }) | (if ad {
                0x20u8
            } else {
                0u8
            }) | (if cd {
                0x10u8
            } else {
                0u8
            }) | (rc & 0x0fu8),
            rc < 16,
    ;
}

/// Reading a header from twelve bytes and encoding it again gives the same
/// bytes.
pub proof fn law_header_bytes_roundtrip(b: Seq<u8>)
    requires
        b.len() == 12,
    ensures
        spec_header_bytes(spec_header_of(b)) == b,
{
    let h = spec_header_of(b);
    let e = spec_header_bytes(h);
    lemma_bytes_of_value(b[0], b[1]);
    lemma_bytes_of_value(b[4], b[5]);
    lemma_bytes_of_value(b[6], b[7]);
    lemma_bytes_of_value(b[8], b[9]);
    lemma_bytes_of_value(b[10], b[11]);
    let b2 = b[2];
    let b3 = b[3];
    let f1 = spec_flags1(h);
    let f2 = spec_flags2(h);
    let (qr, aa, tc, rd, op) = (h.qr, h.aa, h.tc, h.rd, h.opcode);
    let (ra, un, ad, cd, rc) = (h.ra, h.unused, h.ad, h.cd, h.rcode);
    assert(f1 == b2) by (bit_vector)
        requires
            f1 == (if qr {
                0x80u8
            } else {
                0u8
            }) | ((op << 3u8) & 0x78u8) | (if aa {
                0x04u8
            } else {
                0u8
            }) | (if tc {
                0x02u8
            } else {
                0u8
            }) | (if rd {
                0x01u8
            } else {
                0u8
            }),
            qr == ((b2 & 0x80u8) != 0),
            op == (b2 & 0x78u8) >> 3u8,
            aa == ((b2 & 0x04u8) != 0),
            tc == ((b2 & 0x02u8) != 0),
            rd == ((b2 & 0x01u8) != 0),
    ;
    assert(f2 == b3) by (bit_vector)
        requires
            f2 == (if ra {
                0x80u8
            } else {
                0u8
            }) | (if un {
                0x40u8
            } else {
                0u8
            }) | (if ad {
                0x20u8
            } else {
                0u8
            }) | (if cd {
                0x10u8
            } else {
                0u8
            }) | (rc & 0x0fu8),
            ra == ((b3 & 0x80u8) != 0),
            un == ((b3 & 0x40u8) != 0),
            ad == ((b3 & 0x20u8) != 0),
            cd == ((b3 & 0x10u8) != 0),
            rc == b3 & 0x0fu8,
    ;
    assert(e =~= b);
}

proof fn lemma_bytes_of_value(b0: u8, b1: u8)
    ensures
        be16_bytes(be16_value(b0, b1)) == seq![b0, b1],
{
    let v = be16_value(b0, b1);
    assert(v as int == b0 as int * 256 + b1 as int);
    assert((v as int / 256) as u8 == b0 && (v as int % 256) as u8 == b1) by (nonlinear_arith)
        requires
            v as int == b0 as int * 256 + b1 as int,
            0 <= b0 < 256,
            0 <= b1 < 256,
    ;
    assert(be16_bytes(v) =~= seq![b0, b1]);
}


// ---------------------------------------------------------------------
// BOOTP / DHCP message
// ---------------------------------------------------------------------

/// The length of a DHCP message without its options field.
pub const DHCP_FIXED_LEN: usize = 240;
/// The length of a whole DHCP message as this server keeps it.
pub const DHCP_PACKET_LEN: usize = 548;

/// A DHCP message.  Addresses are kept as their 32-bit numbers.
#[derive(Clone, Copy, Debug)]
pub struct DhcpPacket {
    pub op: u8,
    pub htype: u8,
    pub hlen: u8,
    pub hops: u8,
    pub xid: u32,
    pub secs: u16,
    pub flags: u16,
    pub ciaddr: u32,
    pub yiaddr: u32,
    pub siaddr: u32,
    pub giaddr: u32,
    pub chaddr: [u8; 16],
    pub sname: [u8; 64],
    pub file: [u8; 128],
    pub cookie: u32,
    pub options: [u8; 308],
}

/// The bytes of a DHCP message on the wire: fixed fields in network
/// order, then the hardware address, server name, boot file, cookie and
/// options.
pub open spec fn spec_dhcp_bytes(p: DhcpPacket) -> Seq<u8> {
    spec_dhcp_fixed(p) + p.chaddr@ + p.sname@ + p.file@ + be32_bytes(p.cookie) + p.options@
}

/// The first 28 bytes of a DHCP message: the fixed-size fields.
pub open spec fn spec_dhcp_fixed(p: DhcpPacket) -> Seq<u8> {
    seq![p.op, p.htype, p.hlen, p.hops] + be32_bytes(p.xid) + be16_bytes(p.secs) + be16_bytes(
        p.flags,
    ) + be32_bytes(p.ciaddr) + be32_bytes(p.yiaddr) + be32_bytes(p.siaddr) + be32_bytes(p.giaddr)
}

pub open spec fn be32_at(d: Seq<u8>, i: int) -> u32 {
    be32_value(d[i], d[i + 1], d[i + 2], d[i + 3])
}

/// The message that `d` (at least 240 bytes) encodes: the options are the
/// bytes after the cookie, up to 308 of them, padded with zeros.
pub open spec fn spec_dhcp_of(d: Seq<u8>, p: DhcpPacket) -> bool {
    &&& p.op == d[0]
    &&& p.htype == d[1]
    &&& p.hlen == d[2]
    &&& p.hops == d[3]
    &&& p.xid == be32_at(d, 4)
    &&& p.secs == be16_value(d[8], d[9])
    &&& p.flags == be16_value(d[10], d[11])
    &&& p.ciaddr == be32_at(d, 12)
    &&& p.yiaddr == be32_at(d, 16)
    &&& p.siaddr == be32_at(d, 20)
    &&& p.giaddr == be32_at(d, 24)
    &&& p.chaddr@ == d.subrange(28, 44)
    &&& p.sname@ == d.subrange(44, 108)
    &&& p.file@ == d.subrange(108, 236)
    &&& p.cookie == be32_at(d, 236)
    &&& forall|i: int|
        0 <= i < 308 ==> #[trigger] p.options@[i] == if 240 + i < d.len() {
            d[240 + i]
        } else {
            0u8
        }
}

fn copy_into<const N: usize>(dst: &mut [u8; N], data: &[u8], start: usize)
    requires
        start + N <= data@.len(),
    ensures
        final(dst)@ == data@.subrange(start as int, start + N),
{
    let dl: usize = data.len();
    let mut i: usize = 0;
    while i < N
        invariant
            dl == data@.len(),
            start + N <= data@.len(),
            i <= N,
            dst@.len() == N,
            forall|k: int| 0 <= k < i ==> dst@[k] == data@[start + k],
        decreases N - i,
    {
        dst[i] = data[start + i];
        i += 1;
    }
    assert(dst@ =~= data@.subrange(start as int, start + N));
}

fn read_be32(data: &[u8], i: usize) -> (v: u32)
    requires
        i + 4 <= data@.len(),
    ensures
        v == be32_at(data@, i as int),
{
    let mut s: &[u8] = &data[i..data.len()];
    crate::util::get_long(&mut s)
}

fn read_be16(data: &[u8], i: usize) -> (v: u16)
    requires
        i + 2 <= data@.len(),
    ensures
        v == be16_value(data@[i as int], data@[i + 1]),
{
    let mut s: &[u8] = &data[i..data.len()];
    crate::util::get_short(&mut s)
}

impl DhcpPacket {
    /// An empty message carrying the DHCP magic cookie.
    pub fn new() -> (p: DhcpPacket)
        ensures
            p.op == 0 && p.htype == 0 && p.hlen == 0 && p.hops == 0,
            p.xid == 0 && p.secs == 0 && p.flags == 0,
            p.ciaddr == 0 && p.yiaddr == 0 && p.siaddr == 0 && p.giaddr == 0,
            forall|i: int| 0 <= i < 16 ==> p.chaddr@[i] == 0,
            forall|i: int| 0 <= i < 64 ==> p.sname@[i] == 0,
            forall|i: int| 0 <= i < 128 ==> p.file@[i] == 0,
            forall|i: int| 0 <= i < 308 ==> p.options@[i] == 0,
            p.cookie == 0x63825363,
    {
        DhcpPacket {
            op: 0,
            htype: 0,
            hlen: 0,
            hops: 0,
            xid: 0,
            secs: 0,
            flags: 0,
            ciaddr: 0,
            yiaddr: 0,
            siaddr: 0,
            giaddr: 0,
            chaddr: [0u8; 16],
            sname: [0u8; 64],
            file: [0u8; 128],
            cookie: 0x63825363,
            options: [0u8; 308],
        }
    }

    /// The message's bytes on the wire.
    pub fn to_vec(&self) -> (bytes: Vec<u8>)
        ensures
            bytes@ == spec_dhcp_bytes(*self),
    {
        let mut bytes: Vec<u8> = Vec::with_capacity(DHCP_PACKET_LEN);
        bytes.push(self.op);
        bytes.push(self.htype);
        bytes.push(self.hlen);
        bytes.push(self.hops);
        put_long(self.xid, &mut bytes);
        put_short(self.secs, &mut bytes);
        put_short(self.flags, &mut bytes);
        put_long(self.ciaddr, &mut bytes);
        put_long(self.yiaddr, &mut bytes);
        put_long(self.siaddr, &mut bytes);
        put_long(self.giaddr, &mut bytes);
        crate::util::extend_bytes(&mut bytes, self.chaddr.as_slice());
        crate::util::extend_bytes(&mut bytes, self.sname.as_slice());
        crate::util::extend_bytes(&mut bytes, self.file.as_slice());
        put_long(self.cookie, &mut bytes);
        crate::util::extend_bytes(&mut bytes, self.options.as_slice());
        assert(bytes@ =~= spec_dhcp_bytes(*self));
        bytes
    }

    /// Reads a message; fails when `data` is shorter than the 240 bytes
    /// before the options.  Options beyond 308 bytes are dropped, missing
    /// ones are zero.
    pub fn parse(data: &[u8]) -> (r: Result<DhcpPacket, DnsmasqError>)
        ensures
            data@.len() < 240 ==> r matches Err(DnsmasqError::ParseError(_)),
            data@.len() >= 240 ==> (r matches Ok(p) && spec_dhcp_of(data@, p)),
    {
        if data.len() < DHCP_FIXED_LEN {
            return Err(DnsmasqError::ParseError("DHCP packet data too short".to_owned()));
        }
        let remaining: usize = data.len() - DHCP_FIXED_LEN;
        let copy_len: usize = if remaining < 308 {
            remaining
        } else {
            308
        };
        let mut options: [u8; 308] = [0u8; 308];
        let mut i: usize = 0;
        while i < copy_len
            invariant
                copy_len <= 308,
                240 + copy_len <= data@.len(),
                copy_len == (if data@.len() - 240 < 308 { data@.len() - 240 } else { 308 }),
                i <= copy_len,
                options@.len() == 308,
                forall|k: int| 0 <= k < i ==> options@[k] == data@[240 + k],
                forall|k: int| i <= k < 308 ==> options@[k] == 0,
            decreases copy_len - i,
        {
            options[i] = data[DHCP_FIXED_LEN + i];
            i += 1;
        }
        let mut chaddr: [u8; 16] = [0u8; 16];
        let mut sname: [u8; 64] = [0u8; 64];
        let mut file: [u8; 128] = [0u8; 128];
        copy_into(&mut chaddr, data, 28);
        copy_into(&mut sname, data, 44);
        copy_into(&mut file, data, 108);
        let packet = DhcpPacket {
            op: data[0],
            htype: data[1],
            hlen: data[2],
            hops: data[3],
            xid: read_be32(data, 4),
            secs: read_be16(data, 8),
            flags: read_be16(data, 10),
            ciaddr: read_be32(data, 12),
            yiaddr: read_be32(data, 16),
            siaddr: read_be32(data, 20),
            giaddr: read_be32(data, 24),
            chaddr,
            sname,
            file,
            cookie: read_be32(data, 236),
            options,
        };
        Ok(packet)
    }
}

proof fn lemma_dhcp_fixed_roundtrip(p: DhcpPacket, d: Seq<u8>)
    requires
        d.len() >= 28,
        d.subrange(0, 28) == spec_dhcp_fixed(p),
    ensures
        p.op == d[0] && p.htype == d[1] && p.hlen == d[2] && p.hops == d[3],
        p.xid == be32_at(d, 4),
        p.secs == be16_value(d[8], d[9]),
        p.flags == be16_value(d[10], d[11]),
        p.ciaddr == be32_at(d, 12),
        p.yiaddr == be32_at(d, 16),
        p.siaddr == be32_at(d, 20),
        p.giaddr == be32_at(d, 24),
{
    let f = spec_dhcp_fixed(p);
    assert(f[0] == d[0] && f[1] == d[1] && f[2] == d[2] && f[3] == d[3]);
    crate::util::lemma_long_roundtrip(p.xid);
    crate::util::lemma_short_roundtrip(p.secs);
    crate::util::lemma_short_roundtrip(p.flags);
    crate::util::lemma_long_roundtrip(p.ciaddr);
    crate::util::lemma_long_roundtrip(p.yiaddr);
    crate::util::lemma_long_roundtrip(p.siaddr);
    crate::util::lemma_long_roundtrip(p.giaddr);
    assert(forall|k: int| 0 <= k < 28 ==> f[k] == d[k]);
}

/// Encoding a message and reading the bytes back gives the same message.
#[verifier::rlimit(50)]
pub proof fn law_dhcp_roundtrip(p: DhcpPacket, q: DhcpPacket)
    requires
        spec_dhcp_of(spec_dhcp_bytes(p), q),
    ensures
        q == p,
{
    let b = spec_dhcp_bytes(p);
    let f = spec_dhcp_fixed(p);
    assert(f.len() == 28);
    assert(b.len() == 548);
    assert(b.subrange(0, 28) =~= f);
    lemma_dhcp_fixed_roundtrip(p, b);
    crate::util::lemma_long_roundtrip(p.cookie);
    assert(b.subrange(236, 240) =~= be32_bytes(p.cookie));
    assert(b.subrange(28, 44) =~= p.chaddr@);
    assert(b.subrange(44, 108) =~= p.sname@);
    assert(b.subrange(108, 236) =~= p.file@);
    assert(q.chaddr@ =~= p.chaddr@);
    assert(q.sname@ =~= p.sname@);
    assert(q.file@ =~= p.file@);
    assert forall|i: int| 0 <= i < 308 implies q.options@[i] == p.options@[i] by {
        assert(b[240 + i] == p.options@[i]);
    }
    assert(q.options@ =~= p.options@);
    assert(q.chaddr == p.chaddr);
    assert(q.sname == p.sname);
    assert(q.file == p.file);
    assert(q.options == p.options);
}

} // verus!
