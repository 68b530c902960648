//! The values of the options that take a structured argument: upstream
//! servers, DHCP ranges, hosts, DHCP options and boot settings.  Each is
//! read into a record and the problems found on the way; the option
//! reader decides what each problem means.

use crate::dnsmasq::{
    opt_str_view, AllAddr, DhcpConfig, DhcpConfigView, DhcpContext, DhcpOpt, MySockAddr, Server, ServerFd, SERV_FOR_NODOTS, SERV_HAS_DOMAIN, SERV_HAS_SOURCE, SERV_LITERAL_ADDRESS,
    SERV_NO_ADDR, SERV_TYPE,
};
use crate::inet::{
    find_char, first_index, lemma_first_index, parse_dec, parse_hex32, parse_ip, parse_ipv4, pieces,
    spec_parse_dec, spec_parse_hex32, spec_parse_ip, spec_parse_ipv4, split_on, sub_chars, vecs_view,
};
use crate::util::{
    is_ascii_digit_spec, is_valid_char, legal_char, spec_canonical, spec_is_whitespace, spec_legal_char,
    str_chars, string_from_chars,
};
use vstd::string::StringSliceAdditionalSpecFns;
use vstd::utf8::encode_utf8;
use vstd::prelude::*;

verus! {

/// A server as plain values.
pub struct ServerView {
    pub addr: MySockAddr,
    pub source_addr: MySockAddr,
    pub sfd: Option<ServerFd>,
    pub domain: Seq<char>,
    pub flags: u32,
}

impl View for Server {
    type V = ServerView;

    open spec fn view(&self) -> ServerView {
        ServerView {
            addr: self.addr,
            source_addr: self.source_addr,
            sfd: self.sfd,
            domain: self.domain@,
            flags: self.flags,
        }
    }
}

/// Whether every character is a dot or legal in a host name.
pub fn canonical_chars(v: &[char]) -> (b: bool)
    ensures
        b == spec_canonical(v@),
{
    let mut i: usize = 0;
    while i < v.len()
        invariant
            i <= v@.len(),
            forall|j: int| 0 <= j < i ==> v@[j] == '.' || spec_legal_char(#[trigger] v@[j]),
        decreases v.len() - i,
    {
        let c = v[i];
        if c != '.' && !legal_char(c) {
            return false;
        }
        i += 1;
    }
    true
}

// ---------------------------------------------------------------------
// Upstream servers: server=, local=, address=
// ---------------------------------------------------------------------

/// Reading the domains of a `/domain/.../` argument: while a `/` is left,
/// the text before it is a domain (an empty one stands for names without
/// dots); a domain that is not a proper name stops the reading and is
/// itself left as the rest of the argument.  Gives the rest, the last
/// domain read, its flags, and whether a bad domain stopped the reading.
pub open spec fn read_domains(t: Seq<char>, dom: Seq<char>, fl: u32) -> (Seq<char>, Seq<char>, u32, bool)
    decreases t.len(),
{
    let i = first_index(t, '/');
    if i < 0 || i >= t.len() {
        (t, dom, fl, false)
    } else {
        let d = t.take(i);
        if !spec_canonical(d) {
            (d, dom, fl, true)
        } else {
            read_domains(
                t.skip(i + 1),
                d,
                if d.len() > 0 {
                    SERV_HAS_DOMAIN
                } else {
                    SERV_FOR_NODOTS
                },
            )
        }
    }
}

/// What a server argument says: the server, and whether it held a bad
/// domain or port (`opt_error`), was an `address` without a domain
/// (`bad_arg`), or held an address that does not parse (`bad_ip`).
pub struct ServerArgView {
    pub server: ServerView,
    pub opt_error: bool,
    pub bad_arg: bool,
    pub bad_ip: bool,
}

/// What a server argument says, with its server.
pub struct ServerArg {
    pub server: Server,
    pub opt_error: bool,
    pub bad_arg: bool,
    pub bad_ip: bool,
}

impl View for ServerArg {
    type V = ServerArgView;

    open spec fn view(&self) -> ServerArgView {
        ServerArgView { server: self.server@, opt_error: self.opt_error, bad_arg: self.bad_arg, bad_ip: self.bad_ip }
    }
}

/// The unspecified address of the family of `a`, with `port`.
pub open spec fn unspecified_like(a: AllAddr, port: u16) -> MySockAddr {
    match a {
        AllAddr::V4(_) => MySockAddr { ip: AllAddr::V4(0), port },
        AllAddr::V6(_) => MySockAddr { ip: AllAddr::V6(0), port },
    }
}

/// The unspecified IPv4 address with port 0.
pub open spec fn unspec() -> MySockAddr {
    MySockAddr { ip: AllAddr::V4(0), port: 0 }
}

/// A port after `#`: its value, or the default and a problem.
pub open spec fn hash_port(t: Seq<char>, dflt: u16) -> (Seq<char>, u16, bool) {
    let h = pieces(t, '#');
    if h.len() > 1 {
        match spec_parse_dec(h[1], 65535) {
            Some(p) => (h[0], p as u16, false),
            None => (h[0], dflt, true),
        }
    } else {
        (t, dflt, false)
    }
}

/// What the argument of `server`, `local` or `address` (`is_address`)
/// says: `/domain/.../` first (see `read_domains`), then an address with
/// an optional `#port` (53 by default) and an optional `@source#port`.
/// An `address` needs a domain.  No address at all means the domains are
/// answered locally, which an `address` may not ask for.
pub open spec fn server_arg(arg: Seq<char>, is_address: bool) -> ServerArgView {
    let (rest, dom, fl, err1) = if arg.len() > 0 && arg[0] == '/' {
        read_domains(arg.skip(1), seq![], 0)
    } else {
        (arg, seq![], 0u32, false)
    };
    let fl1 = if is_address {
        fl | SERV_LITERAL_ADDRESS
    } else {
        fl
    };
    let bare = ServerView { addr: unspec(), source_addr: unspec(), sfd: None, domain: dom, flags: fl1 };
    if is_address && fl1 & SERV_TYPE == 0 {
        ServerArgView { server: bare, opt_error: err1, bad_arg: true, bad_ip: false }
    } else if rest.len() == 0 {
        let fl2 = fl1 | SERV_NO_ADDR;
        ServerArgView {
            server: ServerView { flags: fl2, ..bare },
            opt_error: err1 || fl2 & SERV_LITERAL_ADDRESS != 0,
            bad_arg: false,
            bad_ip: false,
        }
    } else {
        let at = pieces(rest, '@');
        let (a1, source) = if at.len() > 1 {
            (at[0], at[1])
        } else {
            (rest, seq![])
        };
        let (source2, sport, err2) = hash_port(source, 0);
        let (a2, port, err3) = hash_port(a1, 53);
        let err = err1 || err2 || err3;
        match spec_parse_ip(a2) {
            Some(ip) => {
                let addr = MySockAddr { ip, port };
                if source2.len() > 0 {
                    match spec_parse_ip(source2) {
                        Some(sip) => ServerArgView {
                            server: ServerView {
                                addr,
                                source_addr: MySockAddr { ip: sip, port: sport },
                                flags: fl1 | SERV_HAS_SOURCE,
                                ..bare
                            },
                            opt_error: err,
                            bad_arg: false,
                            bad_ip: false,
                        },
                        None => ServerArgView { server: ServerView { addr, ..bare }, opt_error: err, bad_arg: false, bad_ip: true },
                    }
                } else {
                    ServerArgView {
                        server: ServerView { addr, source_addr: unspecified_like(ip, sport), ..bare },
                        opt_error: err,
                        bad_arg: false,
                        bad_ip: false,
                    }
                }
            },
            None => ServerArgView { server: bare, opt_error: err, bad_arg: false, bad_ip: true },
        }
    }
}

/// Reads the domains of a server argument (see `read_domains`).
fn read_domains_exec(t0: &[char]) -> (r: (Vec<char>, Vec<char>, u32, bool))
    ensures
        (r.0@, r.1@, r.2, r.3) == read_domains(t0@, seq![], 0),
{
    let mut t: Vec<char> = sub_chars(t0, 0, t0.len());
    assert(t@ =~= t0@);
    let mut dom: Vec<char> = Vec::new();
    let mut fl: u32 = 0;
    let ghost target = read_domains(t0@, seq![], 0);
    loop
        invariant
            target == read_domains(t0@, seq![], 0),
            read_domains(t@, dom@, fl) == target,
        decreases t@.len(),
    {
        proof {
            lemma_first_index(t@, '/');
        }
        let i = find_char(t.as_slice(), '/');
        if i >= t.len() {
            return (t, dom, fl, false);
        }
        let d = sub_chars(t.as_slice(), 0, i);
        assert(d@ =~= t@.take(i as int));
        if !canonical_chars(d.as_slice()) {
            return (d, dom, fl, true);
        }
        let rest = sub_chars(t.as_slice(), i + 1, t.len());
        assert(rest@ =~= t@.skip(i + 1));
        fl = if d.len() > 0 {
            SERV_HAS_DOMAIN
        } else {
            SERV_FOR_NODOTS
        };
        dom = d;
        t = rest;
    }
}

/// Splits off a `#port` (see `hash_port`).
fn hash_port_exec(t: &[char], dflt: u16) -> (r: (Vec<char>, u16, bool))
    ensures
        (r.0@, r.1, r.2) == hash_port(t@, dflt),
{
    let h = split_on(t, '#');
    assert(vecs_view(h@).len() == h@.len());
    if h.len() > 1 {
        assert(h@[0]@ == pieces(t@, '#')[0]);
        assert(h@[1]@ == pieces(t@, '#')[1]);
        let first = sub_chars(h[0].as_slice(), 0, h[0].len());
        assert(first@ =~= h@[0]@);
        match parse_dec(h[1].as_slice(), 65535) {
            Some(p) => (first, p as u16, false),
            None => (first, dflt, true),
        }
    } else {
        let all = sub_chars(t, 0, t.len());
        assert(all@ =~= t@);
        (all, dflt, false)
    }
}

/// Reads the argument of `server`, `local` or `address` (see
/// `server_arg`).
pub fn read_server_arg(arg: &[char], is_address: bool) -> (r: ServerArg)
    ensures
        r@ == server_arg(arg@, is_address),
{
    let (rest, dom, fl, err1): (Vec<char>, Vec<char>, u32, bool) = if arg.len() > 0 && arg[0] == '/' {
        let tail = sub_chars(arg, 1, arg.len());
        assert(tail@ =~= arg@.skip(1));
        read_domains_exec(tail.as_slice())
    } else {
        let all = sub_chars(arg, 0, arg.len());
        assert(all@ =~= arg@);
        (all, Vec::new(), 0u32, false)
    };
    let fl1: u32 = if is_address {
        fl | SERV_LITERAL_ADDRESS
    } else {
        fl
    };
    let unspec_addr = MySockAddr { ip: AllAddr::V4(0), port: 0 };
    let domain: String = string_from_chars(dom.as_slice());
    if is_address && fl1 & SERV_TYPE == 0 {
        let server = Server { addr: unspec_addr, source_addr: unspec_addr, sfd: None, domain, flags: fl1 };
        return ServerArg { server, opt_error: err1, bad_arg: true, bad_ip: false };
    }
    if rest.len() == 0 {
        let fl2: u32 = fl1 | SERV_NO_ADDR;
        let server = Server { addr: unspec_addr, source_addr: unspec_addr, sfd: None, domain, flags: fl2 };
        return ServerArg { server, opt_error: err1 || fl2 & SERV_LITERAL_ADDRESS != 0, bad_arg: false, bad_ip: false };
    }
    let at = split_on(rest.as_slice(), '@');
    assert(vecs_view(at@).len() == at@.len());
    let (a1, source): (Vec<char>, Vec<char>) = if at.len() > 1 {
        assert(at@[0]@ == pieces(rest@, '@')[0]);
        assert(at@[1]@ == pieces(rest@, '@')[1]);
        (sub_chars(at[0].as_slice(), 0, at[0].len()), sub_chars(at[1].as_slice(), 0, at[1].len()))
    } else {
        (sub_chars(rest.as_slice(), 0, rest.len()), Vec::new())
    };
    proof {
        if at@.len() > 1 {
            assert(a1@ =~= at@[0]@);
            assert(source@ =~= at@[1]@);
        } else {
            assert(a1@ =~= rest@);
            assert(source@ =~= Seq::<char>::empty());
        }
    }
    let (source2, sport, err2) = hash_port_exec(source.as_slice(), 0);
    let (a2, port, err3) = hash_port_exec(a1.as_slice(), 53);
    let err: bool = err1 || err2 || err3;
    match parse_ip(a2.as_slice()) {
        Some(ip) => {
            let addr = MySockAddr { ip, port };
            if source2.len() > 0 {
                match parse_ip(source2.as_slice()) {
                    Some(sip) => {
                        let server = Server {
                            addr,
                            source_addr: MySockAddr { ip: sip, port: sport },
                            sfd: None,
                            domain,
                            flags: fl1 | SERV_HAS_SOURCE,
                        };
                        ServerArg { server, opt_error: err, bad_arg: false, bad_ip: false }
                    },
                    None => {
                        let server = Server { addr, source_addr: unspec_addr, sfd: None, domain, flags: fl1 };
                        ServerArg { server, opt_error: err, bad_arg: false, bad_ip: true }
                    },
                }
            } else {
                let src = match ip {
                    AllAddr::V4(_) => MySockAddr { ip: AllAddr::V4(0), port: sport },
                    AllAddr::V6(_) => MySockAddr { ip: AllAddr::V6(0), port: sport },
                };
                let server = Server { addr, source_addr: src, sfd: None, domain, flags: fl1 };
                ServerArg { server, opt_error: err, bad_arg: false, bad_ip: false }
            }
        },
        None => {
            let server = Server { addr: unspec_addr, source_addr: unspec_addr, sfd: None, domain, flags: fl1 };
            ServerArg { server, opt_error: err, bad_arg: false, bad_ip: true }
        },
    }
}


// ---------------------------------------------------------------------
// Text helpers
// ---------------------------------------------------------------------

/// Whether the characters are exactly those of `lit`.
pub fn chars_are(v: &[char], lit: &str) -> (b: bool)
    ensures
        b == (v@ == lit@),
{
    let w = str_chars(lit);
    if v.len() != w.len() {
        return false;
    }
    let mut i: usize = 0;
    while i < v.len()
        invariant
            w@ == lit@,
            v@.len() == w@.len(),
            i <= v@.len(),
            forall|j: int| 0 <= j < i ==> v@[j] == w@[j],
        decreases v.len() - i,
    {
        if v[i] != w[i] {
            return false;
        }
        i += 1;
    }
    assert(v@ =~= w@);
    true
}

/// The UTF-8 bytes of some characters.
pub fn utf8_bytes(v: &[char]) -> (r: Vec<u8>)
    ensures
        r@ == encode_utf8(v@),
{
    let s: String = string_from_chars(v);
    let b: &[u8] = s.as_str().as_bytes();
    vstd::slice::slice_to_vec(b)
}

// ---------------------------------------------------------------------
// DHCP ranges: dhcp-range=start,end[,time]
// ---------------------------------------------------------------------

/// A DHCP range as plain values.
pub struct ContextView {
    pub fd_socket: Option<i32>,
    pub rawfd: Option<i32>,
    pub ifindex: u32,
    pub iface: Seq<char>,
    pub hwaddr: Seq<u8>,
    pub lease_time: u32,
    pub serv_addr: u32,
    pub netmask: u32,
    pub broadcast: u32,
    pub start: u32,
    pub end: u32,
    pub last: u32,
}

impl View for DhcpContext {
    type V = ContextView;

    open spec fn view(&self) -> ContextView {
        ContextView {
            fd_socket: self.fd_socket,
            rawfd: self.rawfd,
            ifindex: self.ifindex,
            iface: self.iface@,
            hwaddr: self.hwaddr@,
            lease_time: self.lease_time,
            serv_addr: self.serv_addr,
            netmask: self.netmask,
            broadcast: self.broadcast,
            start: self.start,
            end: self.end,
            last: self.last,
        }
    }
}

/// The lease time given when none is.
pub const DEFLEASE: u32 = 3600;

/// A range with no sockets, no interface, all addresses 0 and the default
/// lease time.
pub open spec fn blank_context() -> ContextView {
    ContextView {
        fd_socket: None,
        rawfd: None,
        ifindex: 0,
        iface: seq![],
        hwaddr: seq![0u8, 0u8, 0u8, 0u8, 0u8, 0u8],
        lease_time: DEFLEASE,
        serv_addr: 0,
        netmask: 0,
        broadcast: 0,
        start: 0,
        end: 0,
        last: 0,
    }
}

/// The number part of a time and its unit in seconds: a last `h` or `H`
/// means hours, `m` or `M` minutes (the letter is dropped).
pub open spec fn time_unit(t: Seq<char>) -> (Seq<char>, int) {
    let c = t.last();
    if c == 'h' || c == 'H' {
        (t.drop_last(), 3600)
    } else if c == 'm' || c == 'M' {
        (t.drop_last(), 60)
    } else {
        (t, 1)
    }
}

/// The lease time of a range: `infinite`, or a number with an optional
/// unit; anything else, or nothing, leaves the default.
pub open spec fn range_lease(t: Seq<char>) -> u32 {
    if t.len() == 0 {
        DEFLEASE
    } else if t == "infinite"@ {
        0xffff_ffff
    } else {
        let (num, fac) = time_unit(t);
        match spec_parse_dec(num, u32::MAX as int) {
            Some(v) => (v * fac) as u32,
            None => DEFLEASE,
        }
    }
}

/// A lease time whose number times its unit does not fit in 32 bits:
/// the multiplication overflows.
pub open spec fn lease_overflows(t: Seq<char>) -> bool {
    t.len() > 0 && t != "infinite"@ && {
        let (num, fac) = time_unit(t);
        match spec_parse_dec(num, u32::MAX as int) {
            Some(v) => v * fac > u32::MAX,
            None => false,
        }
    }
}

/// The third field of a range (empty when there are only two).
pub open spec fn range_time_field(p: Seq<Seq<char>>) -> Seq<char> {
    if p.len() == 2 {
        seq![]
    } else {
        p[2]
    }
}

/// What a range argument says: the range, and whether an address did not
/// parse or the commas are missing.
pub struct RangeArgView {
    pub ctx: ContextView,
    pub bad: bool,
}

/// The range that `start,end[,time]` describes; its last address handed
/// out is its start.  Without a comma nothing is read.
pub open spec fn range_arg(arg: Seq<char>) -> RangeArgView {
    let p = pieces(arg, ',');
    if p.len() <= 1 {
        RangeArgView { ctx: blank_context(), bad: true }
    } else {
        let (start, b1) = match spec_parse_ipv4(p[0]) {
            Some(a) => (a, false),
            None => (0u32, true),
        };
        let (end, b2) = match spec_parse_ipv4(p[1]) {
            Some(a) => (a, false),
            None => (0u32, true),
        };
        RangeArgView {
            ctx: ContextView { start, end, last: start, lease_time: range_lease(range_time_field(p)), ..blank_context() },
            bad: b1 || b2,
        }
    }
}

/// Reading a range overflows on its lease time.
pub open spec fn range_panics(arg: Seq<char>) -> bool {
    let p = pieces(arg, ',');
    p.len() > 1 && lease_overflows(range_time_field(p))
}

/// Splits off the unit of a time (see `time_unit`).
fn time_unit_exec(t: &[char]) -> (r: (Vec<char>, u64))
    requires
        t@.len() > 0,
    ensures
        (r.0@, r.1 as int) == time_unit(t@),
{
    let c = t[t.len() - 1];
    if c == 'h' || c == 'H' {
        let v = sub_chars(t, 0, t.len() - 1);
        assert(v@ =~= t@.drop_last());
        (v, 3600)
    } else if c == 'm' || c == 'M' {
        let v = sub_chars(t, 0, t.len() - 1);
        assert(v@ =~= t@.drop_last());
        (v, 60)
    } else {
        let v = sub_chars(t, 0, t.len());
        assert(v@ =~= t@);
        (v, 1)
    }
}

/// Reads a lease time (see `range_lease`).
fn range_lease_exec(t: &[char]) -> (r: u32)
    requires
        !lease_overflows(t@),
    ensures
        r == range_lease(t@),
{
    if t.len() == 0 {
        return DEFLEASE;
    }
    if chars_are(t, "infinite") {
        return 0xffff_ffff;
    }
    let (num, fac) = time_unit_exec(t);
    match parse_dec(num.as_slice(), 0xffff_ffff) {
        Some(v) => (v * fac) as u32,
        None => DEFLEASE,
    }
}

/// Reads a range argument (see `range_arg`).
pub fn read_range_arg(arg: &[char]) -> (r: (DhcpContext, bool))
    requires
        !range_panics(arg@),
    ensures
        r.0@ == range_arg(arg@).ctx,
        r.1 == range_arg(arg@).bad,
{
    let p = split_on(arg, ',');
    assert(vecs_view(p@).len() == p@.len());
    let mut ctx = DhcpContext {
        fd_socket: None,
        rawfd: None,
        ifindex: 0,
        iface: String::new(),
        hwaddr: [0u8; 6],
        lease_time: DEFLEASE,
        serv_addr: 0,
        netmask: 0,
        broadcast: 0,
        start: 0,
        end: 0,
        last: 0,
    };
    assert(ctx@.hwaddr =~= blank_context().hwaddr);
    if p.len() <= 1 {
        return (ctx, true);
    }
    assert(p@[0]@ == pieces(arg@, ',')[0]);
    assert(p@[1]@ == pieces(arg@, ',')[1]);
    let mut bad: bool = false;
    match parse_ipv4(p[0].as_slice()) {
        Some(a) => {
            ctx.start = a;
        },
        None => {
            bad = true;
        },
    }
    match parse_ipv4(p[1].as_slice()) {
        Some(a) => {
            ctx.end = a;
        },
        None => {
            bad = true;
        },
    }
    let lease: u32 = if p.len() == 2 {
        assert(range_time_field(pieces(arg@, ',')) =~= Seq::<char>::empty());
        DEFLEASE
    } else {
        assert(p@[2]@ == pieces(arg@, ',')[2]);
        range_lease_exec(p[2].as_slice())
    };
    ctx.lease_time = lease;
    ctx.last = ctx.start;
    (ctx, bad)
}

// ---------------------------------------------------------------------
// Hosts: dhcp-host=hwaddr,id:clid,ipaddr,hostname,time
// ---------------------------------------------------------------------

/// A host configuration with nothing set and the default lease time.
pub open spec fn blank_host() -> DhcpConfigView {
    DhcpConfigView {
        clid_len: 0,
        clid: seq![],
        hwaddr: seq![0u8, 0u8, 0u8, 0u8, 0u8, 0u8],
        hostname: None,
        addr: 0,
        lease_time: DEFLEASE,
    }
}

/// Whether `id` (in either case) occurs in the text.
pub open spec fn has_id(t: Seq<char>) -> bool {
    exists|k: int| 0 <= k < t.len() - 1 && (#[trigger] t[k] == 'i' || t[k] == 'I') && (t[k + 1] == 'd' || t[k + 1] == 'D')
}

/// The six bytes of a hardware address, each part read as hexadecimal
/// and cut to its low byte; none when a part does not parse.
pub open spec fn mac_of(a: Seq<Seq<char>>) -> Option<Seq<u8>> {
    if forall|k: int| 0 <= k < 6 ==> (#[trigger] spec_parse_hex32(a[k])) is Some {
        Some(Seq::new(6, |k: int| (spec_parse_hex32(a[k])->0) as u8))
    } else {
        None
    }
}

/// The outcome of one field of a host argument.
pub enum HostStep {
    Panic,
    Next(DhcpConfigView, bool),
}

/// What one field of a host argument does: with a colon, a client id
/// (when it says `id`) or a hardware address of six parts (a part that
/// is not hexadecimal panics; another number of parts is a problem);
/// with a dot, an address (one that does not parse is ignored);
/// otherwise a lease time (a number whose last character is dropped and
/// read as the unit), `infinite`, or else a host name.  A field of one
/// ASCII character is ignored; one that ends in a character of more than
/// one byte panics, its bytes being cut before that character's end.
pub open spec fn host_step(c: DhcpConfigView, t: Seq<char>) -> HostStep {
    if t.contains(':') {
        if has_id(t) {
            let b = t.skip(first_index(t, ':') + 1);
            HostStep::Next(DhcpConfigView { clid_len: encode_utf8(b).len() as usize, clid: encode_utf8(b), ..c }, false)
        } else {
            let a = pieces(t, ':');
            if a.len() == 6 {
                match mac_of(a) {
                    Some(m) => HostStep::Next(DhcpConfigView { hwaddr: m, ..c }, false),
                    None => HostStep::Panic,
                }
            } else {
                HostStep::Next(c, true)
            }
        }
    } else if t.contains('.') {
        match spec_parse_ipv4(t) {
            Some(a) => HostStep::Next(DhcpConfigView { addr: a, ..c }, false),
            None => HostStep::Next(c, false),
        }
    } else if t.len() == 0 || (t.len() == 1 && (t[0] as u32) < 128) {
        HostStep::Next(c, false)
    } else if (t.last() as u32) >= 128 {
        HostStep::Panic
    } else {
        let fac: int = if t.last() == 'h' || t.last() == 'H' {
            3600
        } else if t.last() == 'm' || t.last() == 'M' {
            60
        } else {
            1
        };
        match spec_parse_dec(t.drop_last(), u32::MAX as int) {
            Some(n) => if n * fac > u32::MAX {
                HostStep::Panic
            } else {
                HostStep::Next(DhcpConfigView { lease_time: (n * fac) as u32, ..c }, false)
            },
            None => if t == "infinite"@ {
                HostStep::Next(DhcpConfigView { lease_time: 0xffff_ffff, ..c }, false)
            } else {
                HostStep::Next(DhcpConfigView { hostname: Some(t), ..c }, false)
            },
        }
    }
}

/// The first `n` fields of a host argument, in turn: whether one
/// panicked, the configuration, and whether a hardware address had the
/// wrong number of parts.
pub open spec fn host_fold(toks: Seq<Seq<char>>, n: int) -> (bool, DhcpConfigView, bool)
    decreases n,
{
    if n <= 0 || n > toks.len() {
        (false, blank_host(), false)
    } else {
        let (p, c, b) = host_fold(toks, n - 1);
        if p {
            (true, c, b)
        } else {
            match host_step(c, toks[n - 1]) {
                HostStep::Panic => (true, c, b),
                HostStep::Next(c2, b2) => (false, c2, b || b2),
            }
        }
    }
}

/// What a host argument says (its fields are separated by commas).
pub open spec fn host_arg(arg: Seq<char>) -> (bool, DhcpConfigView, bool) {
    let p = pieces(arg, ',');
    host_fold(p, p.len() as int)
}

pub(crate) fn has_id_exec(t: &[char]) -> (b: bool)
    ensures
        b == has_id(t@),
{
    if t.len() < 2 {
        return false;
    }
    let mut k: usize = 0;
    while k < t.len() - 1
        invariant
            t@.len() >= 2,
            k <= t@.len() - 1,
            forall|j: int| 0 <= j < k ==> !((#[trigger] t@[j] == 'i' || t@[j] == 'I') && (t@[j + 1] == 'd' || t@[j + 1] == 'D')),
        decreases t.len() - 1 - k,
    {
        if (t[k] == 'i' || t[k] == 'I') && (t[k + 1] == 'd' || t[k + 1] == 'D') {
            return true;
        }
        k += 1;
    }
    false
}

/// One field of a host argument (see `host_step`).
pub(crate) fn host_step_exec(cfg: &mut DhcpConfig, t: &[char]) -> (bad: bool)
    requires
        !(host_step(old(cfg)@, t@) is Panic),
        old(cfg).hwaddr@.len() == 6,
    ensures
        host_step(old(cfg)@, t@) == HostStep::Next(final(cfg)@, bad),
        final(cfg).hwaddr@.len() == 6,
{
    if crate::inet::has_char(t, ':') {
        if has_id_exec(t) {
            proof {
                lemma_first_index(t@, ':');
            }
            let i = find_char(t, ':');
            let n: usize = t.len();
            assert(i < n);
            let b = sub_chars(t, i + 1, n);
            assert(b@ =~= t@.skip(first_index(t@, ':') + 1));
            let bytes = utf8_bytes(b.as_slice());
            cfg.clid_len = bytes.len();
            cfg.clid = bytes;
            false
        } else {
            let a = split_on(t, ':');
            assert(vecs_view(a@).len() == a@.len());
            if a.len() == 6 {
                let mut k: usize = 0;
                let mut hw: [u8; 6] = [0u8; 6];
                while k < 6
                    invariant
                        k <= 6,
                        a@.len() == 6,
                        vecs_view(a@) == pieces(t@, ':'),
                        !(host_step(old(cfg)@, t@) is Panic),
                        !has_id(t@),
                        t@.contains(':'),
                        forall|j: int| 0 <= j < k ==> (#[trigger] spec_parse_hex32(pieces(t@, ':')[j])) is Some
                            && hw@[j] == (spec_parse_hex32(pieces(t@, ':')[j])->0) as u8,
                    decreases 6 - k,
                {
                    assert(a@[k as int]@ == pieces(t@, ':')[k as int]);
                    match parse_hex32(a[k].as_slice()) {
                        Some(v) => {
                            hw[k] = v as u8;
                        },
                        None => {
                            proof {
                                assert(mac_of(pieces(t@, ':')) is None);
                            }
                            return false;
                        },
                    }
                    k += 1;
                }
                proof {
                    let m = Seq::new(6, |j: int| (spec_parse_hex32(pieces(t@, ':')[j])->0) as u8);
                    assert(hw@ =~= m);
                }
                cfg.hwaddr = hw;
                false
            } else {
                true
            }
        }
    } else if crate::inet::has_char(t, '.') {
        match parse_ipv4(t) {
            Some(a) => {
                cfg.addr = a;
            },
            None => {},
        }
        false
    } else if t.len() == 0 || (t.len() == 1 && (t[0] as u32) < 128) {
        false
    } else {
        let last: char = t[t.len() - 1];
        let fac: u64 = if last == 'h' || last == 'H' {
            3600
        } else if last == 'm' || last == 'M' {
            60
        } else {
            1
        };
        let num = sub_chars(t, 0, t.len() - 1);
        assert(num@ =~= t@.drop_last());
        match parse_dec(num.as_slice(), 0xffff_ffff) {
            Some(n) => {
                cfg.lease_time = (n * fac) as u32;
            },
            None => {
                if chars_are(t, "infinite") {
                    cfg.lease_time = 0xffff_ffff;
                } else {
                    cfg.hostname = Some(string_from_chars(t));
                }
            },
        }
        false
    }
}

/// Reads a host argument (see `host_arg`); also says whether a hardware
/// address had the wrong number of parts.
pub fn read_host_arg(arg: &[char]) -> (r: (DhcpConfig, bool))
    requires
        !host_arg(arg@).0,
    ensures
        r.0@ == host_arg(arg@).1,
        r.1 == host_arg(arg@).2,
{
    let p = split_on(arg, ',');
    let ghost toks = pieces(arg@, ',');
    assert(vecs_view(p@).len() == p@.len());
    let mut cfg = DhcpConfig { clid_len: 0, clid: Vec::new(), hwaddr: [0u8; 6], hostname: None, addr: 0, lease_time: DEFLEASE };
    assert(cfg@.hwaddr =~= blank_host().hwaddr);
    assert(cfg@.clid =~= blank_host().clid);
    let mut bad: bool = false;
    let mut i: usize = 0;
    proof {
        lemma_host_fold_panic(toks, 0, toks.len() as int);
    }
    while i < p.len()
        invariant
            i <= p@.len(),
            toks == pieces(arg@, ','),
            vecs_view(p@) == toks,
            toks.len() == p@.len(),
            !host_fold(toks, toks.len() as int).0,
            forall|n: int| i <= n <= toks.len() ==> !(#[trigger] host_fold(toks, n).0),
            host_fold(toks, i as int) == (false, cfg@, bad),
            cfg.hwaddr@.len() == 6,
        decreases p.len() - i,
    {
        assert(p@[i as int]@ == toks[i as int]);
        assert(!host_fold(toks, i + 1).0);
        let b = host_step_exec(&mut cfg, p[i].as_slice());
        bad = bad || b;
        i += 1;
    }
    (cfg, bad)
}

/// Once a field panics, so does every longer prefix.
proof fn lemma_host_fold_panic(toks: Seq<Seq<char>>, m: int, n: int)
    requires
        0 <= m <= n <= toks.len(),
        !host_fold(toks, n).0,
    ensures
        forall|k: int| m <= k <= n ==> !(#[trigger] host_fold(toks, k).0),
    decreases n - m,
{
    if m < n {
        lemma_host_fold_panic(toks, m + 1, n);
        if host_fold(toks, m).0 {
            lemma_host_fold_mono(toks, m, n);
        }
    }
}

proof fn lemma_host_fold_mono(toks: Seq<Seq<char>>, m: int, n: int)
    requires
        0 <= m <= n <= toks.len(),
        host_fold(toks, m).0,
    ensures
        host_fold(toks, n).0,
    decreases n - m,
{
    if m < n {
        lemma_host_fold_mono(toks, m, n - 1);
    }
}

// ---------------------------------------------------------------------
// DHCP options: dhcp-option=number,value
// ---------------------------------------------------------------------

/// A DHCP option as plain values.
pub struct OptView {
    pub opt: u8,
    pub len: u8,
    pub val: Seq<u8>,
}

impl View for DhcpOpt {
    type V = OptView;

    open spec fn view(&self) -> OptView {
        OptView { opt: self.opt, len: self.len, val: self.val@ }
    }
}

/// Whether a character belongs in a list of addresses: dots, white space
/// and ASCII digits.
pub open spec fn addr_list_char(c: char) -> bool {
    c == '.' || spec_is_whitespace(c) || is_ascii_digit_spec(c)
}

/// Whether the value is text: a character other than a comma that does
/// not belong in a list of addresses.
pub open spec fn is_text_value(s: Seq<char>) -> bool {
    exists|k: int| 0 <= k < s.len() && #[trigger] s[k] != ',' && !addr_list_char(s[k])
}

/// The characters other than commas.
pub open spec fn without_commas(s: Seq<char>) -> Seq<char>
    decreases s.len(),
{
    if s.len() == 0 {
        seq![]
    } else if s.last() == ',' {
        without_commas(s.drop_last())
    } else {
        without_commas(s.drop_last()).push(s.last())
    }
}

/// What a DHCP option argument says: the number before the first comma
/// (0 when it is not a number up to 255), and the value after it: its
/// bytes as they are when it is text, or with the commas left out when
/// it is a list of addresses; the length is cut to a byte.  Also whether
/// the number was bad or the comma missing.
pub open spec fn dhcp_opt_arg(arg: Seq<char>) -> (OptView, bool) {
    let i = first_index(arg, ',');
    let (opt, bad, value) = if i < arg.len() {
        match spec_parse_dec(arg.take(i), 255) {
            Some(n) => (n as u8, false, arg.skip(i + 1)),
            None => (0u8, true, arg.skip(i + 1)),
        }
    } else {
        (0u8, true, seq![])
    };
    let bytes = if is_text_value(value) {
        encode_utf8(value)
    } else {
        encode_utf8(without_commas(value))
    };
    (OptView { opt, len: bytes.len() as u8, val: bytes }, bad)
}

/// Reads a DHCP option argument (see `dhcp_opt_arg`).
pub fn read_dhcp_opt_arg(arg: &[char]) -> (r: (DhcpOpt, bool))
    ensures
        (r.0@, r.1) == dhcp_opt_arg(arg@),
{
    proof {
        lemma_first_index(arg@, ',');
    }
    let i = find_char(arg, ',');
    let (opt, bad, value): (u8, bool, Vec<char>) = if i < arg.len() {
        let first = sub_chars(arg, 0, i);
        let rest = sub_chars(arg, i + 1, arg.len());
        assert(first@ =~= arg@.take(i as int));
        assert(rest@ =~= arg@.skip(i + 1));
        match parse_dec(first.as_slice(), 255) {
            Some(n) => (n as u8, false, rest),
            None => (0u8, true, rest),
        }
    } else {
        (0u8, true, Vec::new())
    };
    let mut text: bool = false;
    let mut kept: Vec<char> = Vec::new();
    let mut k: usize = 0;
    while k < value.len()
        invariant
            k <= value@.len(),
            text == exists|j: int| 0 <= j < k && #[trigger] value@[j] != ',' && !addr_list_char(value@[j]),
            kept@ == without_commas(value@.take(k as int)),
        decreases value.len() - k,
    {
        let c = value[k];
        proof {
            assert(value@.take(k + 1).drop_last() =~= value@.take(k as int));
            assert(value@.take(k + 1).last() == c);
        }
        if c != ',' {
            if !is_valid_char(c) {
                text = true;
            }
            kept.push(c);
        }
        k += 1;
    }
    assert(value@.take(k as int) =~= value@);
    let bytes: Vec<u8> = if text {
        utf8_bytes(value.as_slice())
    } else {
        utf8_bytes(kept.as_slice())
    };
    let len: u8 = bytes.len() as u8;
    (DhcpOpt { opt, len, val: bytes }, bad)
}

// ---------------------------------------------------------------------
// Boot settings: dhcp-boot=file[,sname[,next-server]]
// ---------------------------------------------------------------------

/// What a boot argument says: the boot file; the server name, when a
/// comma gives one; the next server, when a second comma gives one that
/// parses; and whether it did not parse.
pub struct BootArgView {
    pub file: Seq<char>,
    pub sname: Option<Seq<char>>,
    pub next: Option<u32>,
    pub bad: bool,
}

/// What `file[,sname[,address]]` says.
pub open spec fn boot_arg(arg: Seq<char>) -> BootArgView {
    let i = first_index(arg, ',');
    if i < arg.len() {
        let rem = arg.skip(i + 1);
        let j = first_index(rem, ',');
        if j < rem.len() {
            match spec_parse_ipv4(rem.skip(j + 1)) {
                Some(a) => BootArgView { file: arg.take(i), sname: Some(rem.take(j)), next: Some(a), bad: false },
                None => BootArgView { file: arg.take(i), sname: Some(rem.take(j)), next: None, bad: true },
            }
        } else {
            BootArgView { file: arg.take(i), sname: Some(rem), next: None, bad: false }
        }
    } else {
        BootArgView { file: arg, sname: None, next: None, bad: false }
    }
}

/// What a boot argument says, as values.
pub struct BootArg {
    pub file: String,
    pub sname: Option<String>,
    pub next: Option<u32>,
    pub bad: bool,
}

/// Reads a boot argument (see `boot_arg`).
pub fn read_boot_arg(arg: &[char]) -> (r: BootArg)
    ensures
        r.file@ == boot_arg(arg@).file,
        opt_str_view(r.sname) == boot_arg(arg@).sname,
        r.next == boot_arg(arg@).next,
        r.bad == boot_arg(arg@).bad,
{
    proof {
        lemma_first_index(arg@, ',');
    }
    let i = find_char(arg, ',');
    if i < arg.len() {
        let first = sub_chars(arg, 0, i);
        let rem = sub_chars(arg, i + 1, arg.len());
        assert(first@ =~= arg@.take(i as int));
        assert(rem@ =~= arg@.skip(i + 1));
        proof {
            lemma_first_index(rem@, ',');
        }
        let j = find_char(rem.as_slice(), ',');
        if j < rem.len() {
            let second = sub_chars(rem.as_slice(), 0, j);
            let third = sub_chars(rem.as_slice(), j + 1, rem.len());
            assert(second@ =~= rem@.take(j as int));
            assert(third@ =~= rem@.skip(j + 1));
            let file = string_from_chars(first.as_slice());
            let sname = Some(string_from_chars(second.as_slice()));
            match parse_ipv4(third.as_slice()) {
                Some(a) => BootArg { file, sname, next: Some(a), bad: false },
                None => BootArg { file, sname, next: None, bad: true },
            }
        } else {
            BootArg {
                file: string_from_chars(first.as_slice()),
                sname: Some(string_from_chars(rem.as_slice())),
                next: None,
                bad: false,
            }
        }
    } else {
        BootArg { file: string_from_chars(arg), sname: None, next: None, bad: false }
    }
}


// ---------------------------------------------------------------------
// Arguments that make the reader panic
// ---------------------------------------------------------------------

/// Tells whether a range argument panics (see `range_panics`).
pub fn range_would_panic(arg: &[char]) -> (b: bool)
    ensures
        b == range_panics(arg@),
{
    let p = split_on(arg, ',');
    assert(vecs_view(p@).len() == p@.len());
    if p.len() <= 1 || p.len() == 2 {
        return false;
    }
    assert(p@[2]@ == pieces(arg@, ',')[2]);
    let t = p[2].as_slice();
    if t.len() == 0 || chars_are(t, "infinite") {
        return false;
    }
    let (num, fac) = time_unit_exec(t);
    match parse_dec(num.as_slice(), 0xffff_ffff) {
        Some(v) => {
            assert(v * fac <= 0xffff_ffff * 3600) by (nonlinear_arith)
                requires
                    v <= 0xffff_ffff,
                    fac <= 3600,
            ;
            v * fac > 0xffff_ffff
        },
        None => false,
    }
}

/// Whether one field of a host argument panics, whatever was read before
/// it (see `host_step`).
pub open spec fn token_panics(t: Seq<char>) -> bool {
    if t.contains(':') {
        !has_id(t) && pieces(t, ':').len() == 6 && mac_of(pieces(t, ':')) is None
    } else if t.contains('.') {
        false
    } else if t.len() == 0 || (t.len() == 1 && (t[0] as u32) < 128) {
        false
    } else if (t.last() as u32) >= 128 {
        true
    } else {
        let fac: int = if t.last() == 'h' || t.last() == 'H' {
            3600
        } else if t.last() == 'm' || t.last() == 'M' {
            60
        } else {
            1
        };
        match spec_parse_dec(t.drop_last(), u32::MAX as int) {
            Some(n) => n * fac > u32::MAX,
            None => false,
        }
    }
}

proof fn lemma_host_fold_panics(toks: Seq<Seq<char>>, n: int)
    requires
        0 <= n <= toks.len(),
    ensures
        host_fold(toks, n).0 == exists|k: int| 0 <= k < n && token_panics(#[trigger] toks[k]),
    decreases n,
{
    if n > 0 {
        lemma_host_fold_panics(toks, n - 1);
        let (p, c, b) = host_fold(toks, n - 1);
        assert((host_step(c, toks[n - 1]) is Panic) == token_panics(toks[n - 1]));
        if token_panics(toks[n - 1]) {
            assert(exists|k: int| 0 <= k < n && token_panics(#[trigger] toks[k]));
        }
        if exists|k: int| 0 <= k < n - 1 && token_panics(#[trigger] toks[k]) {
            let k = choose|k: int| 0 <= k < n - 1 && token_panics(#[trigger] toks[k]);
            assert(0 <= k < n && token_panics(toks[k]));
        }
    }
}

/// Tells whether one field of a host argument panics.
pub(crate) fn token_would_panic(t: &[char]) -> (b: bool)
    ensures
        b == token_panics(t@),
{
    if crate::inet::has_char(t, ':') {
        if has_id_exec(t) {
            return false;
        }
        let a = split_on(t, ':');
        assert(vecs_view(a@).len() == a@.len());
        if a.len() != 6 {
            return false;
        }
        let mut k: usize = 0;
        while k < 6
            invariant
                k <= 6,
                a@.len() == 6,
                vecs_view(a@) == pieces(t@, ':'),
                !has_id(t@),
                t@.contains(':'),
                forall|j: int| 0 <= j < k ==> (#[trigger] spec_parse_hex32(pieces(t@, ':')[j])) is Some,
            decreases 6 - k,
        {
            assert(a@[k as int]@ == pieces(t@, ':')[k as int]);
            if parse_hex32(a[k].as_slice()).is_none() {
                proof {
                    assert(mac_of(pieces(t@, ':')) is None);
                }
                return true;
            }
            k += 1;
        }
        false
    } else if crate::inet::has_char(t, '.') {
        false
    } else if t.len() == 0 || (t.len() == 1 && (t[0] as u32) < 128) {
        false
    } else if (t[t.len() - 1] as u32) >= 128 {
        true
    } else {
        let last: char = t[t.len() - 1];
        let fac: u64 = if last == 'h' || last == 'H' {
            3600
        } else if last == 'm' || last == 'M' {
            60
        } else {
            1
        };
        let num = sub_chars(t, 0, t.len() - 1);
        assert(num@ =~= t@.drop_last());
        match parse_dec(num.as_slice(), 0xffff_ffff) {
            Some(n) => n * fac > 0xffff_ffff,
            None => false,
        }
    }
}

/// Tells whether a host argument panics (see `host_arg`).
pub fn host_would_panic(arg: &[char]) -> (b: bool)
    ensures
        b == host_arg(arg@).0,
{
    let p = split_on(arg, ',');
    let ghost toks = pieces(arg@, ',');
    assert(vecs_view(p@).len() == p@.len());
    proof {
        lemma_host_fold_panics(toks, toks.len() as int);
    }
    let mut i: usize = 0;
    while i < p.len()
        invariant
            i <= p@.len(),
            toks == pieces(arg@, ','),
            vecs_view(p@) == toks,
            toks.len() == p@.len(),
            forall|k: int| 0 <= k < i ==> !token_panics(#[trigger] toks[k]),
            host_fold(toks, toks.len() as int).0 == exists|k: int| 0 <= k < toks.len() && token_panics(#[trigger] toks[k]),
        decreases p.len() - i,
    {
        assert(p@[i as int]@ == toks[i as int]);
        if token_would_panic(p[i].as_slice()) {
            return true;
        }
        i += 1;
    }
    false
}

} // verus!
