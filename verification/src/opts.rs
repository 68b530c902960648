//! The keyword reader of the configuration file: each line is a keyword,
//! alone or with `=value`.  A keyword of the flag table sets bits of the
//! option word and takes no value; every other keyword needs a value,
//! which goes into the values read (`OptsValues`).  Then the ports are
//! filled in, the MX names default to the machine's name and the files of
//! upstream servers are checked.

use crate::cache::strings_view;
use crate::config::{
    first_word, first_word_exec, lines_view, option_parts, option_parts_exec, resolvs_view, ResolvView,
};
use crate::config::{configs_view, contexts_view, copy_opt_string, copy_string, opts_view};
use crate::confargs::{
    addr_list_char, blank_context, blank_host, canonical_chars, chars_are, has_id, host_step, host_step_exec, is_text_value,
    mac_of, range_time_field, token_panics, token_would_panic, utf8_bytes, ContextView, HostStep, OptView, DEFLEASE,
};
use crate::dnsmasq::{
    opt_str_view, AllAddr, DhcpConfig, DhcpConfigView, DhcpContext, DhcpOpt, MySockAddr, ResolvC, OPT_BOGUSPRIV,
    OPT_DEBUG, OPT_EXPAND, OPT_FILTER, OPT_LOCALMX, OPT_LOG, OPT_NODOTS_LOCAL, OPT_NO_HOSTS, OPT_NO_NEG, OPT_NO_POLL,
    OPT_NO_RESOLV, OPT_ORDER, OPT_SELFMX, SERV_HAS_DOMAIN, SERV_HAS_SOURCE, SERV_LITERAL_ADDRESS, SERV_NO_ADDR,
    SERV_TYPE,
};
use crate::inet::{
    pieces_acc, find_char, first_index, has_char, lemma_first_index, parse_dec, parse_hex32, parse_ip, parse_ipv4, pieces,
    spec_parse_dec, spec_parse_hex32, spec_parse_ip, spec_parse_ipv4, split_on, sub_chars, vecs_view,
};
use crate::util::{
    all_digits, be32_bytes, decimal_value, is_valid_char, put_long, spec_canonical, str_chars, string_from_chars,
};
use vstd::prelude::*;
use vstd::utf8::encode_utf8;

verus! {

// ---------------------------------------------------------------------
// The values read
// ---------------------------------------------------------------------

/// An upstream server as the keyword reader keeps it: its address and
/// the address to send from (none while no address was read), the domain
/// it serves, and its `SERV_` flags.
#[derive(Clone, Debug)]
pub struct OptServer {
    pub addr: Option<MySockAddr>,
    pub source: Option<MySockAddr>,
    pub domain: Option<String>,
    pub flags: u32,
}

pub struct OptServerView {
    pub addr: Option<MySockAddr>,
    pub source: Option<MySockAddr>,
    pub domain: Option<Seq<char>>,
    pub flags: u32,
}

impl View for OptServer {
    type V = OptServerView;

    open spec fn view(&self) -> OptServerView {
        OptServerView { addr: self.addr, source: self.source, domain: opt_str_view(self.domain), flags: self.flags }
    }
}

pub open spec fn opt_servers_view(s: Seq<OptServer>) -> Seq<OptServerView> {
    s.map_values(|x: OptServer| x@)
}

/// The values the keyword lines set.  The lists are kept in the order
/// read, except the servers: a server line replaces them with the servers
/// it names, the one with the address first.
#[derive(Clone, Debug)]
pub struct OptsValues {
    pub conffile: Option<String>,
    pub resolv_files: Vec<ResolvC>,
    pub mxname: Option<String>,
    pub mxtarget: Option<String>,
    pub lease_file: Option<String>,
    pub username: String,
    pub groupname: String,
    pub domain_suffix: Option<String>,
    pub runfile: Option<String>,
    pub if_names: Vec<String>,
    pub if_addrs: Vec<MySockAddr>,
    pub if_except: Vec<String>,
    pub bogus_addr: Vec<u32>,
    pub serv_addrs: Vec<OptServer>,
    pub cachesize: usize,
    pub port: u16,
    pub query_port: i32,
    pub local_ttl: u64,
    pub addn_hosts: Option<String>,
    pub dhcp: Vec<DhcpContext>,
    pub dhcp_conf: Vec<DhcpConfig>,
    pub dhcp_opts: Vec<DhcpOpt>,
    pub dhcp_file: Option<String>,
    pub dhcp_sname: Option<String>,
    pub dhcp_next_server: u32,
}

pub struct OptsView {
    pub conffile: Option<Seq<char>>,
    pub resolv: Seq<ResolvView>,
    pub mxname: Option<Seq<char>>,
    pub mxtarget: Option<Seq<char>>,
    pub lease_file: Option<Seq<char>>,
    pub username: Seq<char>,
    pub groupname: Seq<char>,
    pub domain_suffix: Option<Seq<char>>,
    pub runfile: Option<Seq<char>>,
    pub if_names: Seq<Seq<char>>,
    pub if_addrs: Seq<MySockAddr>,
    pub if_except: Seq<Seq<char>>,
    pub bogus: Seq<u32>,
    pub servers: Seq<OptServerView>,
    pub cachesize: usize,
    pub port: u16,
    pub query_port: i32,
    pub local_ttl: u64,
    pub addn_hosts: Option<Seq<char>>,
    pub dhcp: Seq<ContextView>,
    pub dhcp_conf: Seq<DhcpConfigView>,
    pub dhcp_opts: Seq<OptView>,
    pub dhcp_file: Option<Seq<char>>,
    pub dhcp_sname: Option<Seq<char>>,
    pub next_server: u32,
}

impl View for OptsValues {
    type V = OptsView;

    open spec fn view(&self) -> OptsView {
        OptsView {
            conffile: opt_str_view(self.conffile),
            resolv: resolvs_view(self.resolv_files@),
            mxname: opt_str_view(self.mxname),
            mxtarget: opt_str_view(self.mxtarget),
            lease_file: opt_str_view(self.lease_file),
            username: self.username@,
            groupname: self.groupname@,
            domain_suffix: opt_str_view(self.domain_suffix),
            runfile: opt_str_view(self.runfile),
            if_names: strings_view(self.if_names@),
            if_addrs: self.if_addrs@,
            if_except: strings_view(self.if_except@),
            bogus: self.bogus_addr@,
            servers: opt_servers_view(self.serv_addrs@),
            cachesize: self.cachesize,
            port: self.port,
            query_port: self.query_port,
            local_ttl: self.local_ttl,
            addn_hosts: opt_str_view(self.addn_hosts),
            dhcp: contexts_view(self.dhcp@),
            dhcp_conf: configs_view(self.dhcp_conf@),
            dhcp_opts: opts_view(self.dhcp_opts@),
            dhcp_file: opt_str_view(self.dhcp_file),
            dhcp_sname: opt_str_view(self.dhcp_sname),
            next_server: self.dhcp_next_server,
        }
    }
}

/// Why the keyword lines are refused.
#[derive(Clone, Copy, Debug, PartialEq, Eq, Structural)]
pub enum OptsError {
    /// A keyword that needs a value has none.
    MissingParameter,
    /// A keyword of the flag table has a value.
    ExtraneousParameter,
    /// A value that does not read.
    BadArgument,
    /// A port that is not a 16-bit number.
    BadPort,
    /// A query port that is not a 32-bit number.
    BadQueryPort,
    /// A local time to live that is not a 64-bit number.
    BadLocalTtl,
    /// The machine's name was needed and could not be had.
    NoHostName,
    /// More than one file of upstream servers while they are not polled.
    OneResolvFile,
}

// ---------------------------------------------------------------------
// Keywords
// ---------------------------------------------------------------------

/// The bit a keyword of the flag table sets (`help` and `version` set
/// none); none for the other keywords.
pub open spec fn flag_of(o: Seq<char>) -> Option<u32> {
    if o == "bogus-priv"@ {
        Some(OPT_BOGUSPRIV)
    } else if o == "filterwin2k"@ {
        Some(OPT_FILTER)
    } else if o == "log-queries"@ {
        Some(OPT_LOG)
    } else if o == "selfmx"@ {
        Some(OPT_SELFMX)
    } else if o == "no-hosts"@ {
        Some(OPT_NO_HOSTS)
    } else if o == "no-poll"@ {
        Some(OPT_NO_POLL)
    } else if o == "no-daemon"@ {
        Some(OPT_DEBUG)
    } else if o == "strict-order"@ {
        Some(OPT_ORDER)
    } else if o == "no-resolv"@ {
        Some(OPT_NO_RESOLV)
    } else if o == "expand-hosts"@ {
        Some(OPT_EXPAND)
    } else if o == "localmx"@ {
        Some(OPT_LOCALMX)
    } else if o == "no-negcache"@ {
        Some(OPT_NO_NEG)
    } else if o == "domain-needed"@ {
        Some(OPT_NODOTS_LOCAL)
    } else if o == "help"@ {
        Some(0)
    } else if o == "version"@ {
        Some(0)
    } else {
        None
    }
}

fn flag_of_exec(o: &[char]) -> (r: Option<u32>)
    ensures
        r == flag_of(o@),
{
    if chars_are(o, "bogus-priv") {
        Some(OPT_BOGUSPRIV)
    } else if chars_are(o, "filterwin2k") {
        Some(OPT_FILTER)
    } else if chars_are(o, "log-queries") {
        Some(OPT_LOG)
    } else if chars_are(o, "selfmx") {
        Some(OPT_SELFMX)
    } else if chars_are(o, "no-hosts") {
        Some(OPT_NO_HOSTS)
    } else if chars_are(o, "no-poll") {
        Some(OPT_NO_POLL)
    } else if chars_are(o, "no-daemon") {
        Some(OPT_DEBUG)
    } else if chars_are(o, "strict-order") {
        Some(OPT_ORDER)
    } else if chars_are(o, "no-resolv") {
        Some(OPT_NO_RESOLV)
    } else if chars_are(o, "expand-hosts") {
        Some(OPT_EXPAND)
    } else if chars_are(o, "localmx") {
        Some(OPT_LOCALMX)
    } else if chars_are(o, "no-negcache") {
        Some(OPT_NO_NEG)
    } else if chars_are(o, "domain-needed") {
        Some(OPT_NODOTS_LOCAL)
    } else if chars_are(o, "help") {
        Some(0)
    } else if chars_are(o, "version") {
        Some(0)
    } else {
        None
    }
}

/// The keywords that take a value.
#[derive(Clone, Copy, Debug, PartialEq, Eq, Structural)]
pub enum OKind {
    ConfFile,
    PidFile,
    ResolvFile,
    MxHost,
    CacheSize,
    MxTarget,
    LeaseFile,
    AddnHosts,
    Domain,
    User,
    Group,
    Interface,
    ExceptInterface,
    BogusNxdomain,
    ListenAddress,
    Server,
    Address,
    Port,
    QueryPort,
    LocalTtl,
    DhcpRange,
    DhcpHost,
    DhcpOption,
    DhcpBoot,
    Unknown,
}

pub open spec fn okind(o: Seq<char>) -> OKind {
    if o == "conf-file"@ {
        OKind::ConfFile
    } else if o == "pid-file"@ {
        OKind::PidFile
    } else if o == "resolv-file"@ {
        OKind::ResolvFile
    } else if o == "mx-host"@ {
        OKind::MxHost
    } else if o == "cache-size"@ {
        OKind::CacheSize
    } else if o == "mx-target"@ {
        OKind::MxTarget
    } else if o == "dhcp-leasefile"@ {
        OKind::LeaseFile
    } else if o == "addn-hosts"@ {
        OKind::AddnHosts
    } else if o == "domain"@ {
        OKind::Domain
    } else if o == "user"@ {
        OKind::User
    } else if o == "group"@ {
        OKind::Group
    } else if o == "interface"@ {
        OKind::Interface
    } else if o == "except-interface"@ {
        OKind::ExceptInterface
    } else if o == "bogus-nxdomain"@ {
        OKind::BogusNxdomain
    } else if o == "listen-address"@ {
        OKind::ListenAddress
    } else if o == "server"@ {
        OKind::Server
    } else if o == "address"@ {
        OKind::Address
    } else if o == "port"@ {
        OKind::Port
    } else if o == "query-port"@ {
        OKind::QueryPort
    } else if o == "local-ttl"@ {
        OKind::LocalTtl
    } else if o == "dhcp-range"@ {
        OKind::DhcpRange
    } else if o == "dhcp-host"@ {
        OKind::DhcpHost
    } else if o == "dhcp-option"@ {
        OKind::DhcpOption
    } else if o == "dhcp-boot"@ {
        OKind::DhcpBoot
    } else {
        OKind::Unknown
    }
}

fn okind_exec(o: &[char]) -> (k: OKind)
    ensures
        k == okind(o@),
{
    if chars_are(o, "conf-file") {
        OKind::ConfFile
    } else if chars_are(o, "pid-file") {
        OKind::PidFile
    } else if chars_are(o, "resolv-file") {
        OKind::ResolvFile
    } else if chars_are(o, "mx-host") {
        OKind::MxHost
    } else if chars_are(o, "cache-size") {
        OKind::CacheSize
    } else if chars_are(o, "mx-target") {
        OKind::MxTarget
    } else if chars_are(o, "dhcp-leasefile") {
        OKind::LeaseFile
    } else if chars_are(o, "addn-hosts") {
        OKind::AddnHosts
    } else if chars_are(o, "domain") {
        OKind::Domain
    } else if chars_are(o, "user") {
        OKind::User
    } else if chars_are(o, "group") {
        OKind::Group
    } else if chars_are(o, "interface") {
        OKind::Interface
    } else if chars_are(o, "except-interface") {
        OKind::ExceptInterface
    } else if chars_are(o, "bogus-nxdomain") {
        OKind::BogusNxdomain
    } else if chars_are(o, "listen-address") {
        OKind::ListenAddress
    } else if chars_are(o, "server") {
        OKind::Server
    } else if chars_are(o, "address") {
        OKind::Address
    } else if chars_are(o, "port") {
        OKind::Port
    } else if chars_are(o, "query-port") {
        OKind::QueryPort
    } else if chars_are(o, "local-ttl") {
        OKind::LocalTtl
    } else if chars_are(o, "dhcp-range") {
        OKind::DhcpRange
    } else if chars_are(o, "dhcp-host") {
        OKind::DhcpHost
    } else if chars_are(o, "dhcp-option") {
        OKind::DhcpOption
    } else if chars_are(o, "dhcp-boot") {
        OKind::DhcpBoot
    } else {
        OKind::Unknown
    }
}

// ---------------------------------------------------------------------
// Numbers
// ---------------------------------------------------------------------

/// A signed 32-bit number as `str::parse` reads it: a `-` and at least
/// one digit, or an optional `+` and at least one digit; the value fitting.
pub open spec fn spec_parse_i32(s: Seq<char>) -> Option<i32> {
    if s.len() > 0 && s[0] == '-' {
        let d = s.drop_first();
        if d.len() > 0 && all_digits(d) && decimal_value(d) <= 0x8000_0000 {
            Some((-decimal_value(d)) as i32)
        } else {
            None
        }
    } else {
        match spec_parse_dec(s, 0x7fff_ffff) {
            Some(n) => Some(n as i32),
            None => None,
        }
    }
}

fn parse_i32(s: &[char]) -> (r: Option<i32>)
    ensures
        r == spec_parse_i32(s@),
{
    if s.len() > 0 && s[0] == '-' {
        let d = sub_chars(s, 1, s.len());
        assert(d@ =~= s@.drop_first());
        if d.len() == 0 || d[0] == '+' {
            proof {
                if d@.len() > 0 {
                    assert(!crate::util::is_ascii_digit_spec(d@[0]));
                }
            }
            return None;
        }
        assert(crate::util::decimal_digits(d@) == d@);
        match parse_dec(d.as_slice(), 0x8000_0000) {
            Some(n) => Some((0 - (n as i64)) as i32),
            None => None,
        }
    } else {
        match parse_dec(s, 0x7fff_ffff) {
            Some(n) => Some(n as i32),
            None => None,
        }
    }
}

// ---------------------------------------------------------------------
// DHCP ranges, hosts, options and boot files
// ---------------------------------------------------------------------

/// The lease time of a range (none where reading it panics): empty, the
/// default; `infinite`; otherwise the last character gives the unit (`h`
/// or `H` hours, `m` or `M` minutes, else seconds) and is dropped, and
/// the rest is read as a number, the default where it is not one.  A last
/// character of more than one byte panics (its bytes are cut before its
/// end), and so does a time that overflows 32 bits.
pub open spec fn o_range_lease(t: Seq<char>) -> Option<u32> {
    if t.len() == 0 {
        Some(DEFLEASE)
    } else if t == "infinite"@ {
        Some(0xffff_ffff)
    } else if (t.last() as u32) >= 128 {
        None
    } else {
        let fac: int = if t.last() == 'h' || t.last() == 'H' {
            3600
        } else if t.last() == 'm' || t.last() == 'M' {
            60
        } else {
            1
        };
        match spec_parse_dec(t.drop_last(), u32::MAX as int) {
            Some(v) => if v * fac > u32::MAX {
                None
            } else {
                Some((v * fac) as u32)
            },
            None => Some(DEFLEASE),
        }
    }
}

/// The range that `start,end[,time]` gives (none where reading it
/// panics), and whether it is refused: no comma, or an address that does
/// not read.
pub open spec fn o_range(arg: Seq<char>) -> (Option<ContextView>, bool) {
    let p = pieces(arg, ',');
    if p.len() <= 1 {
        (Some(blank_context()), true)
    } else {
        let (start, b1) = match spec_parse_ipv4(p[0]) {
            Some(a) => (a, false),
            None => (0u32, true),
        };
        let (end, b2) = match spec_parse_ipv4(p[1]) {
            Some(a) => (a, false),
            None => (0u32, true),
        };
        match o_range_lease(range_time_field(p)) {
            None => (None, true),
            Some(l) => (Some(ContextView { start, end, last: start, lease_time: l, ..blank_context() }), b1 || b2),
        }
    }
}

fn o_range_lease_exec(t: &[char]) -> (r: Option<u32>)
    ensures
        r == o_range_lease(t@),
{
    if t.len() == 0 {
        return Some(DEFLEASE);
    }
    if chars_are(t, "infinite") {
        return Some(0xffff_ffff);
    }
    let last: char = t[t.len() - 1];
    if (last as u32) >= 128 {
        return None;
    }
    let fac: u64 = if last == 'h' || last == 'H' {
        3600
    } else if last == 'm' || last == 'M' {
        60
    } else {
        1
    };
    let num = sub_chars(t, 0, t.len() - 1);
    assert(num@ =~= t@.drop_last());
    match parse_dec(num.as_slice(), 0xffff_ffff) {
        Some(v) => if v * fac > 0xffff_ffff {
            None
        } else {
            Some((v * fac) as u32)
        },
        None => Some(DEFLEASE),
    }
}

fn o_range_exec(arg: &[char]) -> (r: Option<(DhcpContext, bool)>)
    ensures
        match o_range(arg@) {
            (None, _) => r is None,
            (Some(c), b) => r matches Some(x) && x.0@ == c && x.1 == b,
        },
{
    let p = split_on(arg, ',');
    assert(vecs_view(p@).len() == p@.len());
    let mut ctx = DhcpContext {
        fd_socket: None,
        rawfd: None,
        ifindex: 0,
        iface: String::new(),
        hwaddr: [0u8; 6],
        lease_time: DEFLEASE,
        serv_addr: 0,
        netmask: 0,
        broadcast: 0,
        start: 0,
        end: 0,
        last: 0,
    };
    assert(ctx@.hwaddr =~= blank_context().hwaddr);
    if p.len() <= 1 {
        return Some((ctx, true));
    }
    assert(p@[0]@ == pieces(arg@, ',')[0]);
    assert(p@[1]@ == pieces(arg@, ',')[1]);
    let mut bad: bool = false;
    match parse_ipv4(p[0].as_slice()) {
        Some(a) => {
            ctx.start = a;
        },
        None => {
            bad = true;
        },
    }
    match parse_ipv4(p[1].as_slice()) {
        Some(a) => {
            ctx.end = a;
        },
        None => {
            bad = true;
        },
    }
    let lease: Option<u32> = if p.len() == 2 {
        assert(range_time_field(pieces(arg@, ',')) =~= Seq::<char>::empty());
        Some(DEFLEASE)
    } else {
        assert(p@[2]@ == pieces(arg@, ',')[2]);
        o_range_lease_exec(p[2].as_slice())
    };
    match lease {
        None => None,
        Some(l) => {
            ctx.lease_time = l;
            ctx.last = ctx.start;
            Some((ctx, bad))
        },
    }
}

/// Each part read as hexadecimal and cut to its low byte; none when a
/// part does not read.
pub open spec fn hex_bytes(a: Seq<Seq<char>>) -> Option<Seq<u8>> {
    if forall|k: int| 0 <= k < a.len() ==> (#[trigger] spec_parse_hex32(a[k])) is Some {
        Some(Seq::new(a.len(), |k: int| (spec_parse_hex32(a[k])->0) as u8))
    } else {
        None
    }
}

/// One field of a host argument: with a colon, a client id when the text
/// before the first colon says `id` (in any case): several parts after it
/// are hexadecimal bytes added to the id (a part that does not read
/// panics), one part is taken as the id's text; without `id`, six parts
/// make a hardware address (a part that does not read panics) and another
/// number of parts is refused.  Without a colon, as `host_step` reads it.
pub open spec fn o_host_step(c: DhcpConfigView, t: Seq<char>) -> HostStep {
    if t.contains(':') {
        let a = pieces(t, ':');
        if has_id(a[0]) {
            let rest = a.drop_first();
            if rest.len() > 1 {
                match hex_bytes(rest) {
                    Some(b) => HostStep::Next(
                        DhcpConfigView { clid: c.clid + b, clid_len: (c.clid + b).len() as usize, ..c },
                        false,
                    ),
                    None => HostStep::Panic,
                }
            } else {
                let b = encode_utf8(rest[0]);
                HostStep::Next(DhcpConfigView { clid: b, clid_len: b.len() as usize, ..c }, false)
            }
        } else if a.len() == 6 {
            match mac_of(a) {
                Some(m) => HostStep::Next(DhcpConfigView { hwaddr: m, ..c }, false),
                None => HostStep::Panic,
            }
        } else {
            HostStep::Next(c, true)
        }
    } else {
        host_step(c, t)
    }
}

/// The first `n` fields of a host argument in turn: whether one panicked,
/// the configuration, and whether one was refused.
pub open spec fn o_host_fold(toks: Seq<Seq<char>>, n: int) -> (bool, DhcpConfigView, bool)
    decreases n,
{
    if n <= 0 || n > toks.len() {
        (false, blank_host(), false)
    } else {
        let (p, c, b) = o_host_fold(toks, n - 1);
        if p {
            (true, c, b)
        } else {
            match o_host_step(c, toks[n - 1]) {
                HostStep::Panic => (true, c, b),
                HostStep::Next(c2, b2) => (false, c2, b || b2),
            }
        }
    }
}

/// What a host argument gives (its fields separated by commas).
pub open spec fn o_host(arg: Seq<char>) -> (bool, DhcpConfigView, bool) {
    let p = pieces(arg, ',');
    o_host_fold(p, p.len() as int)
}

fn o_host_step_exec(cfg: &mut DhcpConfig, t: &[char]) -> (r: Option<bool>)
    requires
        old(cfg).hwaddr@.len() == 6,
    ensures
        final(cfg).hwaddr@.len() == 6,
        match o_host_step(old(cfg)@, t@) {
            HostStep::Panic => r is None,
            HostStep::Next(c2, b) => r == Some(b) && final(cfg)@ == c2,
        },
{
    if has_char(t, ':') {
        let a = split_on(t, ':');
        let ghost ps = pieces(t@, ':');
        assert(vecs_view(a@) == ps);
        assert(a@.len() == ps.len());
        proof {
            lemma_pieces_two(t@, ':', t@.len() as int);
        }
        assert(a@[0]@ == ps[0]);
        if crate::confargs::has_id_exec(a[0].as_slice()) {
            if a.len() > 2 {
                let ghost rest = ps.drop_first();
                let ghost c0 = cfg.clid@;
                let mut k: usize = 1;
                while k < a.len()
                    invariant
                        1 <= k <= a@.len(),
                        a@.len() > 2,
                        t@.contains(':'),
                        ps == pieces(t@, ':'),
                        has_id(ps[0]),
                        cfg@ == (DhcpConfigView { clid: cfg@.clid, ..old(cfg)@ }),
                        c0 == old(cfg)@.clid,
                        a@.len() == ps.len(),
                        vecs_view(a@) == ps,
                        rest == ps.drop_first(),
                        cfg.hwaddr@.len() == 6,
                        forall|j: int| 0 <= j < k - 1 ==> (#[trigger] spec_parse_hex32(rest[j])) is Some,
                        cfg.clid@ == c0 + Seq::new((k - 1) as nat, |j: int| (spec_parse_hex32(rest[j])->0) as u8),
                    decreases a@.len() - k,
                {
                    assert(a@[k as int]@ == rest[k - 1]);
                    match parse_hex32(a[k].as_slice()) {
                        Some(x) => {
                            cfg.clid.push(x as u8);
                            assert(cfg.clid@ =~= c0 + Seq::new(k as nat, |j: int| (spec_parse_hex32(rest[j])->0) as u8));
                        },
                        None => {
                            proof {
                                assert(hex_bytes(rest) is None);
                            }
                            return None;
                        },
                    }
                    k += 1;
                }
                cfg.clid_len = cfg.clid.len();
                assert(Seq::new((a@.len() - 1) as nat, |j: int| (spec_parse_hex32(rest[j])->0) as u8) =~= hex_bytes(rest)->0);
                Some(false)
            } else {
                assert(a@[1]@ == ps[1]);
                let b = utf8_bytes(a[1].as_slice());
                cfg.clid_len = b.len();
                cfg.clid = b;
                Some(false)
            }
        } else if a.len() == 6 {
            let mut k: usize = 0;
            let mut hw: [u8; 6] = [0u8; 6];
            while k < 6
                invariant
                    k <= 6,
                    a@.len() == 6,
                    t@.contains(':'),
                    ps == pieces(t@, ':'),
                    !has_id(ps[0]),
                    cfg@ == old(cfg)@,
                    vecs_view(a@) == ps,
                    forall|j: int| 0 <= j < k ==> (#[trigger] spec_parse_hex32(ps[j])) is Some && hw@[j] == (
                    spec_parse_hex32(ps[j])->0) as u8,
                decreases 6 - k,
            {
                assert(a@[k as int]@ == ps[k as int]);
                match parse_hex32(a[k].as_slice()) {
                    Some(v) => {
                        hw[k] = v as u8;
                    },
                    None => {
                        proof {
                            assert(mac_of(ps) is None);
                        }
                        return None;
                    },
                }
                k += 1;
            }
            proof {
                let m = Seq::new(6, |j: int| (spec_parse_hex32(ps[j])->0) as u8);
                assert(hw@ =~= m);
            }
            cfg.hwaddr = hw;
            Some(false)
        } else {
            Some(true)
        }
    } else {
        proof {
            lemma_token_panics(old(cfg)@, t@);
        }
        if token_would_panic(t) {
            return None;
        }
        let b = host_step_exec(cfg, t);
        Some(b)
    }
}

fn o_host_exec(arg: &[char]) -> (r: Option<(DhcpConfig, bool)>)
    ensures
        match o_host(arg@) {
            (true, _, _) => r is None,
            (false, c, b) => r matches Some(x) && x.0@ == c && x.1 == b,
        },
{
    let p = split_on(arg, ',');
    let ghost toks = pieces(arg@, ',');
    assert(vecs_view(p@).len() == p@.len());
    let mut cfg = DhcpConfig { clid_len: 0, clid: Vec::new(), hwaddr: [0u8; 6], hostname: None, addr: 0, lease_time: DEFLEASE };
    assert(cfg@.hwaddr =~= blank_host().hwaddr);
    assert(cfg@.clid =~= blank_host().clid);
    let mut bad: bool = false;
    let mut i: usize = 0;
    while i < p.len()
        invariant
            i <= p@.len(),
            toks == pieces(arg@, ','),
            vecs_view(p@) == toks,
            toks.len() == p@.len(),
            o_host_fold(toks, i as int) == (false, cfg@, bad),
            cfg.hwaddr@.len() == 6,
        decreases p.len() - i,
    {
        assert(p@[i as int]@ == toks[i as int]);
        match o_host_step_exec(&mut cfg, p[i].as_slice()) {
            None => {
                proof {
                    lemma_o_host_fold_panic(toks, i + 1, toks.len() as int);
                }
                return None;
            },
            Some(b) => {
                bad = bad || b;
            },
        }
        i += 1;
    }
    Some((cfg, bad))
}

/// Once a field panics, so does every longer prefix.
proof fn lemma_o_host_fold_panic(toks: Seq<Seq<char>>, m: int, n: int)
    requires
        0 < m <= n <= toks.len(),
        o_host_fold(toks, m).0,
    ensures
        o_host_fold(toks, n).0,
    decreases n - m,
{
    if m < n {
        lemma_o_host_fold_panic(toks, m, n - 1);
    }
}

/// The address bytes of a list of dotted quads, four for each in order;
/// none when one does not read.
pub open spec fn addr_bytes(ps: Seq<Seq<char>>) -> Option<Seq<u8>>
    decreases ps.len(),
{
    if ps.len() == 0 {
        Some(seq![])
    } else {
        match addr_bytes(ps.drop_last()) {
            Some(b) => match spec_parse_ipv4(ps.last()) {
                Some(x) => Some(b + be32_bytes(x)),
                None => None,
            },
            None => None,
        }
    }
}

/// What `number,value` gives as a DHCP option, and whether it is refused:
/// the number before the first comma (0, and refused, when it is not one
/// up to 255); the value after it, refused when empty: its UTF-8 bytes
/// when it is text, else the four bytes of each address of the list
/// (refused when one does not read).  The length is cut to a byte.
pub open spec fn o_dhcp_opt(arg: Seq<char>) -> (OptView, bool) {
    let i = first_index(arg, ',');
    let (opt, b1, value) = if i < arg.len() {
        match spec_parse_dec(arg.take(i), 255) {
            Some(n) => (n as u8, false, arg.skip(i + 1)),
            None => (0u8, true, arg.skip(i + 1)),
        }
    } else {
        (0u8, false, seq![])
    };
    let b2 = value.len() == 0;
    if is_text_value(value) {
        let bytes = encode_utf8(value);
        (OptView { opt, len: bytes.len() as u8, val: bytes }, b1 || b2)
    } else {
        match addr_bytes(pieces(value, ',')) {
            Some(b) => (OptView { opt, len: b.len() as u8, val: b }, b1 || b2),
            None => (OptView { opt, len: 0, val: seq![] }, true),
        }
    }
}

fn is_text_exec(v: &[char]) -> (b: bool)
    ensures
        b == is_text_value(v@),
{
    let mut i: usize = 0;
    while i < v.len()
        invariant
            i <= v@.len(),
            forall|k: int| 0 <= k < i ==> !(#[trigger] v@[k] != ',' && !addr_list_char(v@[k])),
        decreases v.len() - i,
    {
        if v[i] != ',' && !is_valid_char(v[i]) {
            return true;
        }
        i += 1;
    }
    false
}

fn o_dhcp_opt_exec(arg: &[char]) -> (r: (DhcpOpt, bool))
    ensures
        (r.0@, r.1) == o_dhcp_opt(arg@),
{
    proof {
        lemma_first_index(arg@, ',');
    }
    let i = find_char(arg, ',');
    let mut opt: u8 = 0;
    let mut b1: bool = false;
    let value: Vec<char> = if i < arg.len() {
        let head = sub_chars(arg, 0, i);
        assert(head@ =~= arg@.take(i as int));
        match parse_dec(head.as_slice(), 255) {
            Some(n) => {
                opt = n as u8;
            },
            None => {
                b1 = true;
            },
        }
        let v = sub_chars(arg, i + 1, arg.len());
        assert(v@ =~= arg@.skip(i + 1));
        v
    } else {
        Vec::new()
    };
    let b2: bool = value.len() == 0;
    if is_text_exec(value.as_slice()) {
        let bytes = utf8_bytes(value.as_slice());
        #[verifier::truncate]
        let len: u8 = bytes.len() as u8;
        (DhcpOpt { opt, len, val: bytes }, b1 || b2)
    } else {
        let ps = split_on(value.as_slice(), ',');
        let ghost pv = pieces(value@, ',');
        assert(vecs_view(ps@) == pv);
        assert(ps@.len() == pv.len());
        let mut val: Vec<u8> = Vec::new();
        let mut k: usize = 0;
        assert(pv.take(0) =~= Seq::<Seq<char>>::empty());
        let ghost whole = o_dhcp_opt(arg@);
        assert(whole == (match addr_bytes(pv) {
            Some(b) => (OptView { opt, len: b.len() as u8, val: b }, b1 || b2),
            None => (OptView { opt, len: 0, val: seq![] }, true),
        }));
        while k < ps.len()
            invariant
                whole == o_dhcp_opt(arg@),
                whole == (match addr_bytes(pv) {
                    Some(b) => (OptView { opt, len: b.len() as u8, val: b }, b1 || b2),
                    None => (OptView { opt, len: 0, val: seq![] }, true),
                }),
                k <= ps@.len(),
                ps@.len() == pv.len(),
                vecs_view(ps@) == pv,
                addr_bytes(pv.take(k as int)) == Some(val@),
            decreases ps@.len() - k,
        {
            assert(ps@[k as int]@ == pv[k as int]);
            assert(pv.take(k + 1).drop_last() =~= pv.take(k as int));
            assert(pv.take(k + 1).last() == pv[k as int]);
            match parse_ipv4(ps[k].as_slice()) {
                Some(x) => {
                    put_long(x, &mut val);
                },
                None => {
                    proof {
                        lemma_addr_bytes_none(pv, k + 1, pv.len() as int);
                        assert(pv.take(pv.len() as int) =~= pv);
                    }
                    return (DhcpOpt { opt, len: 0, val: Vec::new() }, true);
                },
            }
            k += 1;
        }
        assert(pv.take(pv.len() as int) =~= pv);
        #[verifier::truncate]
        let len: u8 = val.len() as u8;
        (DhcpOpt { opt, len, val }, b1 || b2)
    }
}

/// Once an address does not read, the whole list gives none.
proof fn lemma_addr_bytes_none(ps: Seq<Seq<char>>, m: int, n: int)
    requires
        0 < m <= n <= ps.len(),
        addr_bytes(ps.take(m)) is None,
    ensures
        addr_bytes(ps.take(n)) is None,
    decreases n - m,
{
    if m < n {
        lemma_addr_bytes_none(ps, m, n - 1);
        assert(ps.take(n).drop_last() =~= ps.take(n - 1));
    }
}

/// With a separator in it, text splits into at least two pieces.
proof fn lemma_pieces_two(s: Seq<char>, c: char, n: int)
    requires
        0 <= n <= s.len(),
        s.contains(c) && n == s.len(),
    ensures
        pieces(s, c).len() >= 2,
{
    let k = choose|k: int| 0 <= k < s.len() && s[k] == c;
    lemma_pieces_acc_one(s, c, n, k);
}

proof fn lemma_pieces_acc_one(s: Seq<char>, c: char, n: int, k: int)
    requires
        0 <= k < n <= s.len(),
        s[k] == c,
    ensures
        pieces_acc(s, c, n).0.len() >= 1,
    decreases n,
{
    if s[n - 1] != c {
        lemma_pieces_acc_one(s, c, n - 1, k);
    }
}

/// Without a colon, a host field panics exactly where `token_panics` says.
proof fn lemma_token_panics(c: DhcpConfigView, t: Seq<char>)
    requires
        !t.contains(':'),
    ensures
        token_panics(t) == (host_step(c, t) is Panic),
{
}

// ---------------------------------------------------------------------
// Servers: server=[/domain/...]address[#port][@source[#port]]
// ---------------------------------------------------------------------

/// A server with nothing read yet.
pub open spec fn default_server() -> OptServerView {
    OptServerView { addr: None, source: None, domain: None, flags: 0 }
}

/// The domain parts of a server argument: while a `/` remains, the text
/// before it is a domain, which adds a server for it at the head of
/// `chain`; a domain that is not a host name ends the reading, refused.
/// Gives the servers, the text left (the address) and whether it was
/// refused.
pub open spec fn domain_chain(t: Seq<char>, chain: Seq<OptServerView>) -> (Seq<OptServerView>, Seq<char>, bool)
    decreases t.len(),
{
    if !t.contains('/') {
        (chain, t, false)
    } else {
        let i = first_index(t, '/');
        let piece = t.take(i);
        if !spec_canonical(piece) {
            (chain, piece, true)
        } else {
            proof {
                lemma_first_index(t, '/');
            }
            domain_chain(
                t.skip(i + 1),
                seq![OptServerView { domain: Some(piece), flags: SERV_HAS_DOMAIN, ..default_server() }] + chain,
            )
        }
    }
}

pub open spec fn same_family(a: AllAddr, b: AllAddr) -> bool {
    match (a, b) {
        (AllAddr::V4(_), AllAddr::V4(_)) => true,
        (AllAddr::V6(_), AllAddr::V6(_)) => true,
        _ => false,
    }
}

/// The unspecified address of the family of `a`.
pub open spec fn any_of(a: AllAddr) -> AllAddr {
    match a {
        AllAddr::V4(_) => AllAddr::V4(0),
        AllAddr::V6(_) => AllAddr::V6(0),
    }
}

/// The address part of a server argument read into the server `h`: an
/// `@source` part (with its own `#port`) and a `#port` part are taken off
/// (a port that does not read is refused and leaves 0, or 53 for the
/// server); an address that does not read leaves the server without one;
/// otherwise the server gets the address and port, and sends from the
/// source when it reads as an address of the same family (of the other
/// family it is refused), else from the unspecified address.
pub open spec fn o_server_addr(t: Seq<char>, h: OptServerView) -> (OptServerView, bool) {
    let (t1, src, sport, b1) = if t.contains('@') {
        let sp = pieces(t, '@');
        if sp[1].contains('#') {
            let ss = pieces(sp[1], '#');
            match spec_parse_dec(ss[1], 65535) {
                Some(p) => (sp[0], ss[0], p as u16, false),
                None => (sp[0], ss[0], 0u16, true),
            }
        } else {
            (sp[0], sp[1], 0u16, false)
        }
    } else {
        (t, seq![], 0u16, false)
    };
    let (t2, port, b2) = if t1.contains('#') {
        let tp = pieces(t1, '#');
        match spec_parse_dec(tp[1], 65535) {
            Some(p) => (tp[0], p as u16, false),
            None => (tp[0], 53u16, true),
        }
    } else {
        (t1, 53u16, false)
    };
    let b = b1 || b2;
    match spec_parse_ip(t2) {
        Some(ip) => {
            let base = OptServerView {
                addr: Some(MySockAddr { ip, port }),
                source: Some(MySockAddr { ip: any_of(ip), port: sport }),
                ..h
            };
            if src.len() == 0 {
                (base, b)
            } else {
                match spec_parse_ip(src) {
                    Some(sip) => if same_family(ip, sip) {
                        (
                            OptServerView {
                                source: Some(MySockAddr { ip: sip, port: sport }),
                                flags: h.flags | SERV_HAS_SOURCE,
                                ..base
                            },
                            b,
                        )
                    } else {
                        (base, true)
                    },
                    None => (base, b),
                }
            }
        },
        None => (h, b),
    }
}

/// The servers a `server` (or, with `is_address`, an `address`) argument
/// gives, the one with the address first, and whether it is refused: an
/// address without a domain, or one with nothing after the domains, is
/// refused; nothing after the domains makes the server answer locally.
pub open spec fn o_server(arg: Seq<char>, is_address: bool) -> (Seq<OptServerView>, bool) {
    let (chain, t, b0) = if arg.len() > 0 && arg[0] == '/' {
        domain_chain(arg, seq![default_server()])
    } else {
        (seq![default_server()], arg, false)
    };
    let h = chain[0];
    let f1 = if is_address {
        h.flags | SERV_LITERAL_ADDRESS
    } else {
        h.flags
    };
    let b1 = is_address && f1 & SERV_TYPE == 0;
    if t.len() == 0 {
        let f2 = f1 | SERV_NO_ADDR;
        (chain.update(0, OptServerView { flags: f2, ..h }), b0 || b1 || f2 & SERV_LITERAL_ADDRESS != 0)
    } else {
        let (h2, b2) = o_server_addr(t, OptServerView { flags: f1, ..h });
        (chain.update(0, h2), b0 || b1 || b2)
    }
}

fn default_server_exec() -> (s: OptServer)
    ensures
        s@ == default_server(),
{
    OptServer { addr: None, source: None, domain: None, flags: 0 }
}

proof fn lemma_domain_chain_len(t: Seq<char>, chain: Seq<OptServerView>)
    requires
        chain.len() >= 1,
    ensures
        domain_chain(t, chain).0.len() >= 1,
    decreases t.len(),
{
    if t.contains('/') {
        lemma_first_index(t, '/');
        let i = first_index(t, '/');
        let piece = t.take(i);
        if spec_canonical(piece) {
            lemma_domain_chain_len(
                t.skip(i + 1),
                seq![OptServerView { domain: Some(piece), flags: SERV_HAS_DOMAIN, ..default_server() }] + chain,
            );
        }
    }
}

fn domain_chain_exec(t0: &[char]) -> (r: (Vec<OptServer>, Vec<char>, bool))
    ensures
        (opt_servers_view(r.0@), r.1@, r.2) == domain_chain(t0@, seq![default_server()]),
        r.0@.len() >= 1,
{
    let mut chain: Vec<OptServer> = Vec::new();
    chain.push(default_server_exec());
    assert(opt_servers_view(chain@) =~= seq![default_server()]);
    let mut t: Vec<char> = sub_chars(t0, 0, t0.len());
    assert(t@ =~= t0@);
    proof {
        lemma_domain_chain_len(t0@, seq![default_server()]);
    }
    loop
        invariant
            domain_chain(t@, opt_servers_view(chain@)) == domain_chain(t0@, seq![default_server()]),
            chain@.len() >= 1,
        ensures
            domain_chain(t@, opt_servers_view(chain@)) == domain_chain(t0@, seq![default_server()]),
            chain@.len() >= 1,
            !t@.contains('/'),
        decreases t@.len(),
    {
        if !has_char(t.as_slice(), '/') {
            break;
        }
        proof {
            lemma_first_index(t@, '/');
        }
        let i = find_char(t.as_slice(), '/');
        assert(i < t@.len());
        assert(i + 1 <= t.len());
        let piece = sub_chars(t.as_slice(), 0, i);
        assert(piece@ =~= t@.take(i as int));
        if !canonical_chars(piece.as_slice()) {
            return (chain, piece, true);
        }
        let ghost before = opt_servers_view(chain@);
        let s = OptServer { addr: None, source: None, domain: Some(string_from_chars(piece.as_slice())), flags: SERV_HAS_DOMAIN };
        chain.insert(0, s);
        assert(opt_servers_view(chain@) =~= seq![OptServerView { domain: Some(piece@), flags: SERV_HAS_DOMAIN, ..default_server() }] + before);
        let rest = sub_chars(t.as_slice(), i + 1, t.len());
        assert(rest@ =~= t@.skip(i + 1));
        t = rest;
    }
    (chain, t, false)
}

fn o_server_addr_exec(t: &[char], h: &mut OptServer) -> (b: bool)
    ensures
        (final(h)@, b) == o_server_addr(t@, old(h)@),
{
    let mut t1: Vec<char> = sub_chars(t, 0, t.len());
    assert(t1@ =~= t@);
    let mut src: Vec<char> = Vec::new();
    let mut sport: u16 = 0;
    let mut b1: bool = false;
    if has_char(t, '@') {
        let sp = split_on(t, '@');
        proof {
            lemma_pieces_two(t@, '@', t@.len() as int);
        }
        assert(vecs_view(sp@) == pieces(t@, '@'));
        assert(sp@[0]@ == pieces(t@, '@')[0]);
        assert(sp@[1]@ == pieces(t@, '@')[1]);
        t1 = sub_chars(sp[0].as_slice(), 0, sp[0].len());
        assert(t1@ =~= sp@[0]@);
        if has_char(sp[1].as_slice(), '#') {
            let ss = split_on(sp[1].as_slice(), '#');
            proof {
                lemma_pieces_two(sp@[1]@, '#', sp@[1]@.len() as int);
            }
            assert(vecs_view(ss@) == pieces(sp@[1]@, '#'));
            assert(ss@[0]@ == pieces(sp@[1]@, '#')[0]);
            assert(ss@[1]@ == pieces(sp@[1]@, '#')[1]);
            src = sub_chars(ss[0].as_slice(), 0, ss[0].len());
            assert(src@ =~= ss@[0]@);
            match parse_dec(ss[1].as_slice(), 65535) {
                Some(p) => {
                    sport = p as u16;
                },
                None => {
                    b1 = true;
                },
            }
        } else {
            src = sub_chars(sp[1].as_slice(), 0, sp[1].len());
            assert(src@ =~= sp@[1]@);
        }
    }
    let mut t2: Vec<char> = sub_chars(t1.as_slice(), 0, t1.len());
    assert(t2@ =~= t1@);
    let mut port: u16 = 53;
    let mut b2: bool = false;
    if has_char(t1.as_slice(), '#') {
        let tp = split_on(t1.as_slice(), '#');
        proof {
            lemma_pieces_two(t1@, '#', t1@.len() as int);
        }
        assert(vecs_view(tp@) == pieces(t1@, '#'));
        assert(tp@[0]@ == pieces(t1@, '#')[0]);
        assert(tp@[1]@ == pieces(t1@, '#')[1]);
        t2 = sub_chars(tp[0].as_slice(), 0, tp[0].len());
        assert(t2@ =~= tp@[0]@);
        match parse_dec(tp[1].as_slice(), 65535) {
            Some(p) => {
                port = p as u16;
            },
            None => {
                b2 = true;
            },
        }
    }
    let b = b1 || b2;
    match parse_ip(t2.as_slice()) {
        Some(ip) => {
            let any = match ip {
                AllAddr::V4(_) => AllAddr::V4(0),
                AllAddr::V6(_) => AllAddr::V6(0),
            };
            h.addr = Some(MySockAddr { ip, port });
            h.source = Some(MySockAddr { ip: any, port: sport });
            if src.len() == 0 {
                b
            } else {
                match parse_ip(src.as_slice()) {
                    Some(sip) => {
                        let same: bool = match (ip, sip) {
                            (AllAddr::V4(_), AllAddr::V4(_)) => true,
                            (AllAddr::V6(_), AllAddr::V6(_)) => true,
                            _ => false,
                        };
                        if same {
                            h.source = Some(MySockAddr { ip: sip, port: sport });
                            h.flags = h.flags | SERV_HAS_SOURCE;
                            b
                        } else {
                            true
                        }
                    },
                    None => b,
                }
            }
        },
        None => b,
    }
}

fn o_server_exec(arg: &[char], is_address: bool) -> (r: (Vec<OptServer>, bool))
    ensures
        (opt_servers_view(r.0@), r.1) == o_server(arg@, is_address),
{
    let (mut chain, t, b0) = if arg.len() > 0 && arg[0] == '/' {
        domain_chain_exec(arg)
    } else {
        let mut c: Vec<OptServer> = Vec::new();
        c.push(default_server_exec());
        assert(opt_servers_view(c@) =~= seq![default_server()]);
        (c, sub_chars(arg, 0, arg.len()), false)
    };
    assert(t@ =~= (if arg@.len() > 0 && arg@[0] == '/' {
        domain_chain(arg@, seq![default_server()])
    } else {
        (seq![default_server()], arg@, false)
    }).1);
    let ghost cv = opt_servers_view(chain@);
    let mut h: OptServer = chain.remove(0);
    assert(h@ == cv[0]);
    let f1: u32 = if is_address {
        h.flags | SERV_LITERAL_ADDRESS
    } else {
        h.flags
    };
    let b1: bool = is_address && f1 & SERV_TYPE == 0;
    h.flags = f1;
    let bad: bool;
    if t.len() == 0 {
        let f2: u32 = f1 | SERV_NO_ADDR;
        h.flags = f2;
        bad = b0 || b1 || f2 & SERV_LITERAL_ADDRESS != 0;
    } else {
        let b2 = o_server_addr_exec(t.as_slice(), &mut h);
        bad = b0 || b1 || b2;
    }
    let ghost hv = h@;
    chain.insert(0, h);
    assert(opt_servers_view(chain@) =~= cv.update(0, hv));
    (chain, bad)
}

// ---------------------------------------------------------------------
// Boot files: dhcp-boot=file,server name,server address
// ---------------------------------------------------------------------

/// What a boot argument does: nothing without a comma; else the boot file
/// is the text before it, and the server name the text up to a second
/// comma, after which an address must read (refused otherwise).
pub open spec fn o_boot(arg: Seq<char>, v: OptsView) -> OptStep {
    let i = first_index(arg, ',');
    if i >= arg.len() {
        OptStep::Next(v)
    } else {
        let v1 = OptsView { dhcp_file: Some(arg.take(i)), ..v };
        let c1 = arg.skip(i + 1);
        let j = first_index(c1, ',');
        if c1.len() == 0 || j >= c1.len() {
            OptStep::Next(v1)
        } else {
            let v2 = OptsView { dhcp_sname: Some(c1.take(j)), ..v1 };
            let c2 = c1.skip(j + 1);
            if c2.len() == 0 {
                OptStep::Next(v2)
            } else {
                match spec_parse_ipv4(c2) {
                    Some(x) => OptStep::Next(OptsView { next_server: x, ..v2 }),
                    None => OptStep::Fail(OptsError::BadArgument),
                }
            }
        }
    }
}

fn o_boot_exec(arg: &[char], v: &mut OptsValues) -> (r: StepRes)
    ensures
        step_matches(o_boot(arg@, old(v)@), r, final(v)@),
{
    proof {
        lemma_first_index(arg@, ',');
    }
    let i = find_char(arg, ',');
    if i >= arg.len() {
        return StepRes::Next;
    }
    let f = sub_chars(arg, 0, i);
    assert(f@ =~= arg@.take(i as int));
    v.dhcp_file = Some(string_from_chars(f.as_slice()));
    let c1 = sub_chars(arg, i + 1, arg.len());
    assert(c1@ =~= arg@.skip(i + 1));
    proof {
        lemma_first_index(c1@, ',');
    }
    let j = find_char(c1.as_slice(), ',');
    if c1.len() == 0 || j >= c1.len() {
        return StepRes::Next;
    }
    let sn = sub_chars(c1.as_slice(), 0, j);
    assert(sn@ =~= c1@.take(j as int));
    v.dhcp_sname = Some(string_from_chars(sn.as_slice()));
    let c2 = sub_chars(c1.as_slice(), j + 1, c1.len());
    assert(c2@ =~= c1@.skip(j + 1));
    if c2.len() == 0 {
        return StepRes::Next;
    }
    match parse_ipv4(c2.as_slice()) {
        Some(x) => {
            v.dhcp_next_server = x;
            StepRes::Next
        },
        None => StepRes::Fail(OptsError::BadArgument),
    }
}

// ---------------------------------------------------------------------
// One keyword with its value
// ---------------------------------------------------------------------

/// What a keyword with a value does.
pub enum OptStep {
    Panic,
    Fail(OptsError),
    Next(OptsView),
}

/// How reading a keyword ended, its values aside.
#[derive(Clone, Copy, Debug, PartialEq, Eq, Structural)]
pub enum StepRes {
    Panic,
    Fail(OptsError),
    Next,
}

pub open spec fn step_matches(s: OptStep, r: StepRes, v: OptsView) -> bool {
    match s {
        OptStep::Panic => r == StepRes::Panic,
        OptStep::Fail(e) => r == StepRes::Fail(e),
        OptStep::Next(v2) => r == StepRes::Next && v == v2,
    }
}

/// The cache size a number gives: cut to 0 to 10000.
pub open spec fn clamp_size(n: i32) -> usize {
    if n < 0 {
        0
    } else if n > 10000 {
        10000
    } else {
        n as usize
    }
}

/// What the keyword of kind `k` with value `a` does to `v`: the file and
/// name keywords store the value (a name that is not a host name, or a
/// second `addn-hosts`, is refused); `resolv-file` adds a file unless the
/// last one is the default; the list keywords add to their list (an
/// address that does not read is refused); a server line replaces the
/// servers; the numbers must read (a cache size that does not panics);
/// the DHCP keywords add what their argument gives.  Unknown keywords do
/// nothing.
pub open spec fn opt_apply(k: OKind, a: Seq<char>, v: OptsView) -> OptStep {
    match k {
        OKind::ConfFile => OptStep::Next(OptsView { conffile: Some(a), ..v }),
        OKind::PidFile => OptStep::Next(OptsView { runfile: Some(a), ..v }),
        OKind::ResolvFile => if v.resolv.len() > 0 && v.resolv.last().is_default {
            OptStep::Next(v)
        } else {
            OptStep::Next(
                OptsView { resolv: v.resolv.push(ResolvView { is_default: false, logged: false, name: a }), ..v },
            )
        },
        OKind::MxHost => if spec_canonical(a) {
            OptStep::Next(OptsView { mxname: Some(a), ..v })
        } else {
            OptStep::Fail(OptsError::BadArgument)
        },
        OKind::CacheSize => match spec_parse_i32(a) {
            Some(n) => OptStep::Next(OptsView { cachesize: clamp_size(n), ..v }),
            None => OptStep::Panic,
        },
        OKind::MxTarget => if spec_canonical(a) {
            OptStep::Next(OptsView { mxtarget: Some(a), ..v })
        } else {
            OptStep::Fail(OptsError::BadArgument)
        },
        OKind::LeaseFile => OptStep::Next(OptsView { lease_file: Some(a), ..v }),
        OKind::AddnHosts => if v.addn_hosts is Some {
            OptStep::Fail(OptsError::BadArgument)
        } else {
            OptStep::Next(OptsView { addn_hosts: Some(a), ..v })
        },
        OKind::Domain => if spec_canonical(a) {
            OptStep::Next(OptsView { domain_suffix: Some(a), ..v })
        } else {
            OptStep::Fail(OptsError::BadArgument)
        },
        OKind::User => OptStep::Next(OptsView { username: a, ..v }),
        OKind::Group => OptStep::Next(OptsView { groupname: a, ..v }),
        OKind::Interface => OptStep::Next(OptsView { if_names: v.if_names.push(a), ..v }),
        OKind::ExceptInterface => OptStep::Next(OptsView { if_except: v.if_except.push(a), ..v }),
        OKind::BogusNxdomain => match spec_parse_ipv4(a) {
            Some(x) => OptStep::Next(OptsView { bogus: v.bogus.push(x), ..v }),
            None => OptStep::Fail(OptsError::BadArgument),
        },
        OKind::ListenAddress => match spec_parse_ip(a) {
            Some(ip) => OptStep::Next(OptsView { if_addrs: v.if_addrs.push(MySockAddr { ip, port: 0 }), ..v }),
            None => OptStep::Fail(OptsError::BadArgument),
        },
        OKind::Server => {
            let (s, bad) = o_server(a, false);
            if bad {
                OptStep::Fail(OptsError::BadArgument)
            } else {
                OptStep::Next(OptsView { servers: s, ..v })
            }
        },
        OKind::Address => {
            let (s, bad) = o_server(a, true);
            if bad {
                OptStep::Fail(OptsError::BadArgument)
            } else {
                OptStep::Next(OptsView { servers: s, ..v })
            }
        },
        OKind::Port => match spec_parse_dec(a, 65535) {
            Some(n) => OptStep::Next(OptsView { port: n as u16, ..v }),
            None => OptStep::Fail(OptsError::BadPort),
        },
        OKind::QueryPort => match spec_parse_i32(a) {
            Some(n) => OptStep::Next(OptsView { query_port: n, ..v }),
            None => OptStep::Fail(OptsError::BadQueryPort),
        },
        OKind::LocalTtl => match spec_parse_dec(a, u64::MAX as int) {
            Some(n) => OptStep::Next(OptsView { local_ttl: n as u64, ..v }),
            None => OptStep::Fail(OptsError::BadLocalTtl),
        },
        OKind::DhcpRange => match o_range(a) {
            (None, _) => OptStep::Panic,
            (Some(c), bad) => if bad {
                OptStep::Fail(OptsError::BadArgument)
            } else {
                OptStep::Next(OptsView { dhcp: v.dhcp.push(c), ..v })
            },
        },
        OKind::DhcpHost => {
            let (p, c, bad) = o_host(a);
            if p {
                OptStep::Panic
            } else if bad {
                OptStep::Fail(OptsError::BadArgument)
            } else {
                OptStep::Next(OptsView { dhcp_conf: v.dhcp_conf.push(c), ..v })
            }
        },
        OKind::DhcpOption => {
            let (o, bad) = o_dhcp_opt(a);
            if bad {
                OptStep::Fail(OptsError::BadArgument)
            } else {
                OptStep::Next(OptsView { dhcp_opts: v.dhcp_opts.push(o), ..v })
            }
        },
        OKind::DhcpBoot => o_boot(a, v),
        OKind::Unknown => OptStep::Next(v),
    }
}

fn apply_opt_exec(v: &mut OptsValues, k: OKind, a: &[char]) -> (r: StepRes)
    ensures
        step_matches(opt_apply(k, a@, old(v)@), r, final(v)@),
{
    match k {
        OKind::ConfFile => {
            v.conffile = Some(string_from_chars(a));
            StepRes::Next
        },
        OKind::PidFile => {
            v.runfile = Some(string_from_chars(a));
            StepRes::Next
        },
        OKind::ResolvFile => {
            let n: usize = v.resolv_files.len();
            if n > 0 && v.resolv_files[n - 1].is_default {
                assert(resolvs_view(v.resolv_files@).last() == v.resolv_files@[n - 1]@);
                StepRes::Next
            } else {
                let ghost before = resolvs_view(v.resolv_files@);
                v.resolv_files.push(ResolvC { is_default: false, logged: false, name: string_from_chars(a) });
                assert(resolvs_view(v.resolv_files@) =~= before.push(
                    ResolvView { is_default: false, logged: false, name: a@ },
                ));
                StepRes::Next
            }
        },
        OKind::MxHost => if canonical_chars(a) {
            v.mxname = Some(string_from_chars(a));
            StepRes::Next
        } else {
            StepRes::Fail(OptsError::BadArgument)
        },
        OKind::CacheSize => match parse_i32(a) {
            Some(n) => {
                v.cachesize = if n < 0 {
                    0
                } else if n > 10000 {
                    10000
                } else {
                    n as usize
                };
                StepRes::Next
            },
            None => StepRes::Panic,
        },
        OKind::MxTarget => if canonical_chars(a) {
            v.mxtarget = Some(string_from_chars(a));
            StepRes::Next
        } else {
            StepRes::Fail(OptsError::BadArgument)
        },
        OKind::LeaseFile => {
            v.lease_file = Some(string_from_chars(a));
            StepRes::Next
        },
        OKind::AddnHosts => if v.addn_hosts.is_some() {
            StepRes::Fail(OptsError::BadArgument)
        } else {
            v.addn_hosts = Some(string_from_chars(a));
            StepRes::Next
        },
        OKind::Domain => if canonical_chars(a) {
            v.domain_suffix = Some(string_from_chars(a));
            StepRes::Next
        } else {
            StepRes::Fail(OptsError::BadArgument)
        },
        OKind::User => {
            v.username = string_from_chars(a);
            StepRes::Next
        },
        OKind::Group => {
            v.groupname = string_from_chars(a);
            StepRes::Next
        },
        OKind::Interface => {
            let ghost before = strings_view(v.if_names@);
            v.if_names.push(string_from_chars(a));
            assert(strings_view(v.if_names@) =~= before.push(a@));
            StepRes::Next
        },
        OKind::ExceptInterface => {
            let ghost before = strings_view(v.if_except@);
            v.if_except.push(string_from_chars(a));
            assert(strings_view(v.if_except@) =~= before.push(a@));
            StepRes::Next
        },
        OKind::BogusNxdomain => match parse_ipv4(a) {
            Some(x) => {
                v.bogus_addr.push(x);
                StepRes::Next
            },
            None => StepRes::Fail(OptsError::BadArgument),
        },
        OKind::ListenAddress => match parse_ip(a) {
            Some(ip) => {
                v.if_addrs.push(MySockAddr { ip, port: 0 });
                StepRes::Next
            },
            None => StepRes::Fail(OptsError::BadArgument),
        },
        OKind::Server | OKind::Address => {
            let is_address: bool = match k {
                OKind::Address => true,
                _ => false,
            };
            let (s, bad) = o_server_exec(a, is_address);
            if bad {
                StepRes::Fail(OptsError::BadArgument)
            } else {
                v.serv_addrs = s;
                StepRes::Next
            }
        },
        OKind::Port => match parse_dec(a, 65535) {
            Some(n) => {
                v.port = n as u16;
                StepRes::Next
            },
            None => StepRes::Fail(OptsError::BadPort),
        },
        OKind::QueryPort => match parse_i32(a) {
            Some(n) => {
                v.query_port = n;
                StepRes::Next
            },
            None => StepRes::Fail(OptsError::BadQueryPort),
        },
        OKind::LocalTtl => match parse_dec(a, u64::MAX) {
            Some(n) => {
                v.local_ttl = n;
                StepRes::Next
            },
            None => StepRes::Fail(OptsError::BadLocalTtl),
        },
        OKind::DhcpRange => match o_range_exec(a) {
            None => StepRes::Panic,
            Some((c, bad)) => if bad {
                StepRes::Fail(OptsError::BadArgument)
            } else {
                let ghost before = contexts_view(v.dhcp@);
                let ghost cv = c@;
                v.dhcp.push(c);
                assert(contexts_view(v.dhcp@) =~= before.push(cv));
                StepRes::Next
            },
        },
        OKind::DhcpHost => match o_host_exec(a) {
            None => StepRes::Panic,
            Some((c, bad)) => if bad {
                StepRes::Fail(OptsError::BadArgument)
            } else {
                let ghost before = configs_view(v.dhcp_conf@);
                let ghost cv = c@;
                v.dhcp_conf.push(c);
                assert(configs_view(v.dhcp_conf@) =~= before.push(cv));
                StepRes::Next
            },
        },
        OKind::DhcpOption => {
            let (o, bad) = o_dhcp_opt_exec(a);
            if bad {
                StepRes::Fail(OptsError::BadArgument)
            } else {
                let ghost before = opts_view(v.dhcp_opts@);
                let ghost ov = o@;
                v.dhcp_opts.push(o);
                assert(opts_view(v.dhcp_opts@) =~= before.push(ov));
                StepRes::Next
            }
        },
        OKind::DhcpBoot => o_boot_exec(a, v),
        OKind::Unknown => StepRes::Next,
    }
}

// ---------------------------------------------------------------------
// Lines
// ---------------------------------------------------------------------

/// What one line does.
pub enum LineStep {
    Panic,
    Fail(OptsError),
    Next(u32, OptsView),
}

/// What one line does to the option word `f` and the values `v`: an empty
/// line or one starting with `#` nothing; otherwise its first word (words
/// are separated by spaces, tabs and `|`; a line of separators alone
/// panics) is a keyword with an optional `=value`.  A keyword of the flag
/// table sets its bit and must have no value; any other keyword must have
/// one and does what `opt_apply` says.
#[verifier::opaque]
pub open spec fn opts_line(line: Seq<char>, f: u32, v: OptsView) -> LineStep {
    if line.len() == 0 || line[0] == '#' {
        LineStep::Next(f, v)
    } else {
        match first_word(line) {
            None => LineStep::Panic,
            Some(w) => {
                let (o, a) = option_parts(w);
                match flag_of(o) {
                    Some(fl) => if a.len() > 0 {
                        LineStep::Fail(OptsError::ExtraneousParameter)
                    } else {
                        LineStep::Next(f | fl, v)
                    },
                    None => if a.len() == 0 {
                        LineStep::Fail(OptsError::MissingParameter)
                    } else {
                        match opt_apply(okind(o), a, v) {
                            OptStep::Panic => LineStep::Panic,
                            OptStep::Fail(e) => LineStep::Fail(e),
                            OptStep::Next(v2) => LineStep::Next(f, v2),
                        }
                    },
                }
            },
        }
    }
}

fn opts_line_exec(line: &str, f: u32, v: &mut OptsValues) -> (r: Result<u32, Option<OptsError>>)
    ensures
        match opts_line(line@, f, old(v)@) {
            LineStep::Panic => r == Err::<u32, Option<OptsError>>(None),
            LineStep::Fail(e) => r == Err::<u32, Option<OptsError>>(Some(e)),
            LineStep::Next(f2, v2) => r == Ok::<u32, Option<OptsError>>(f2) && final(v)@ == v2,
        },
{
    reveal(opts_line);
    let chars = str_chars(line);
    if chars.len() == 0 || chars[0] == '#' {
        return Ok(f);
    }
    let w = match first_word_exec(chars.as_slice()) {
        None => {
            return Err(None);
        },
        Some(w) => w,
    };
    let (o, a) = option_parts_exec(w.as_slice());
    match flag_of_exec(o.as_slice()) {
        Some(fl) => if a.len() > 0 {
            Err(Some(OptsError::ExtraneousParameter))
        } else {
            Ok(f | fl)
        },
        None => if a.len() == 0 {
            Err(Some(OptsError::MissingParameter))
        } else {
            let k = okind_exec(o.as_slice());
            match apply_opt_exec(v, k, a.as_slice()) {
                StepRes::Panic => Err(None),
                StepRes::Fail(e) => Err(Some(e)),
                StepRes::Next => Ok(f),
            }
        },
    }
}

/// How reading the lines ends.
pub enum OptsOutcome {
    Panic,
    /// Refused, at the line with this index (the number of lines for a
    /// refusal after the last line).
    Fail(int, OptsError),
    /// The option word and the values.
    Done(u32, OptsView),
}

/// Reading the first `n` lines in turn from the values `v0` and no bits
/// set, up to the first refused.
pub open spec fn opts_fold(lines: Seq<Seq<char>>, n: int, v0: OptsView) -> OptsOutcome
    decreases n,
{
    if n <= 0 || n > lines.len() {
        OptsOutcome::Done(0, v0)
    } else {
        match opts_fold(lines, n - 1, v0) {
            OptsOutcome::Done(f, v) => match opts_line(lines[n - 1], f, v) {
                LineStep::Panic => OptsOutcome::Panic,
                LineStep::Fail(e) => OptsOutcome::Fail(n - 1, e),
                LineStep::Next(f2, v2) => OptsOutcome::Done(f2, v2),
            },
            other => other,
        }
    }
}

/// A refusal names one of the lines read.
proof fn lemma_opts_fold_index(lines: Seq<Seq<char>>, n: int, v0: OptsView)
    requires
        0 <= n <= lines.len(),
    ensures
        opts_fold(lines, n, v0) matches OptsOutcome::Fail(k, _) ==> 0 <= k < n,
    decreases n,
{
    if n > 0 {
        lemma_opts_fold_index(lines, n - 1, v0);
    }
}

/// Once reading stops, it stays stopped the same way.
proof fn lemma_opts_fold_stop(lines: Seq<Seq<char>>, m: int, n: int, v0: OptsView)
    requires
        0 < m <= n <= lines.len(),
        !(opts_fold(lines, m, v0) is Done),
    ensures
        opts_fold(lines, n, v0) == opts_fold(lines, m, v0),
    decreases n - m,
{
    if m < n {
        lemma_opts_fold_stop(lines, m, n - 1, v0);
    }
}

// ---------------------------------------------------------------------
// After the last line
// ---------------------------------------------------------------------

/// A server that names no source of its own sends from the query port
/// (cut to 16 bits).
pub open spec fn fill_source(s: OptServerView, qp: i32) -> OptServerView {
    if s.flags & SERV_HAS_SOURCE == 0 && s.addr is Some {
        match s.source {
            Some(a) => OptServerView { source: Some(MySockAddr { port: qp as u16, ..a }), ..s },
            None => s,
        }
    } else {
        s
    }
}

/// The machine's name is needed: for the local MX record, or where one of
/// the two MX names is given and the other is not.
pub open spec fn needs_host(f: u32, v: OptsView) -> bool {
    f & OPT_LOCALMX != 0 || v.mxname is Some || v.mxtarget is Some
}

pub open spec fn or_name(o: Option<Seq<char>>, h: Seq<char>) -> Option<Seq<char>> {
    match o {
        Some(x) => Some(x),
        None => Some(h),
    }
}

/// What follows the last of `n` lines, with the machine's name `host`
/// (none where it cannot be had): the servers without a source of their
/// own send from the query port, the listening addresses take the port;
/// where the machine's name is needed, the MX names not given are it (a
/// refusal when there is none); `no-resolv` drops the files of upstream
/// servers, and `no-poll` refuses more than one.
pub open spec fn opts_finish(f: u32, v: OptsView, host: Option<Seq<char>>, n: int) -> OptsOutcome {
    let v1 = OptsView {
        servers: v.servers.map_values(|s: OptServerView| fill_source(s, v.query_port)),
        if_addrs: v.if_addrs.map_values(|a: MySockAddr| MySockAddr { port: v.port, ..a }),
        ..v
    };
    let v2 = if needs_host(f, v) {
        match host {
            Some(h) => Some(OptsView { mxname: or_name(v.mxname, h), mxtarget: or_name(v.mxtarget, h), ..v1 }),
            None => None,
        }
    } else {
        Some(v1)
    };
    match v2 {
        None => OptsOutcome::Fail(n, OptsError::NoHostName),
        Some(v3) => if f & OPT_NO_RESOLV != 0 {
            OptsOutcome::Done(f, OptsView { resolv: seq![], ..v3 })
        } else if v3.resolv.len() > 1 && f & OPT_NO_POLL != 0 {
            OptsOutcome::Fail(n, OptsError::OneResolvFile)
        } else {
            OptsOutcome::Done(f, v3)
        },
    }
}

/// What reading the lines gives from the values `v0`, the machine's name
/// being `host`.
pub open spec fn opts_outcome(lines: Seq<Seq<char>>, v0: OptsView, host: Option<Seq<char>>) -> OptsOutcome {
    match opts_fold(lines, lines.len() as int, v0) {
        OptsOutcome::Done(f, v) => opts_finish(f, v, host, lines.len() as int),
        other => other,
    }
}

/// A result holds what an outcome says.
pub open spec fn res_matches(r: Result<(u32, OptsValues), (usize, OptsError)>, o: OptsOutcome) -> bool {
    match o {
        OptsOutcome::Done(f, v) => r matches Ok(x) && x.0 == f && x.1@ == v,
        OptsOutcome::Fail(k, e) => r matches Err(x) && x.0 == k && x.1 == e,
        OptsOutcome::Panic => false,
    }
}

fn fill_ports(v: &mut OptsValues)
    ensures
        final(v)@ == (OptsView {
            servers: old(v)@.servers.map_values(|s: OptServerView| fill_source(s, old(v)@.query_port)),
            if_addrs: old(v)@.if_addrs.map_values(|a: MySockAddr| MySockAddr { port: old(v)@.port, ..a }),
            ..old(v)@
        }),
{
    let ghost sv = opt_servers_view(v.serv_addrs@);
    let qp: i32 = v.query_port;
    let mut servers: Vec<OptServer> = Vec::new();
    let mut i: usize = 0;
    while i < v.serv_addrs.len()
        invariant
            i <= v.serv_addrs@.len(),
            sv == opt_servers_view(v.serv_addrs@),
            qp == v.query_port,
            opt_servers_view(servers@) == sv.take(i as int).map_values(|s: OptServerView| fill_source(s, qp)),
        decreases v.serv_addrs@.len() - i,
    {
        let s: &OptServer = &v.serv_addrs[i];
        assert(s@ == sv[i as int]);
        let source: Option<MySockAddr> = if s.flags & SERV_HAS_SOURCE == 0 && s.addr.is_some() {
            match s.source {
                Some(a) => {
                    #[verifier::truncate]
                    let p: u16 = qp as u16;
                    Some(MySockAddr { port: p, ..a })
                },
                None => None,
            }
        } else {
            s.source
        };
        let n = OptServer { addr: s.addr, source, domain: copy_opt_string(&s.domain), flags: s.flags };
        assert(n@ == fill_source(sv[i as int], qp));
        let ghost s0 = opt_servers_view(servers@);
        let ghost nv = n@;
        servers.push(n);
        assert(opt_servers_view(servers@) =~= s0.push(nv));
        assert(opt_servers_view(servers@) =~= sv.take(i + 1).map_values(|s: OptServerView| fill_source(s, qp)));
        i += 1;
    }
    assert(sv.take(sv.len() as int) =~= sv);
    v.serv_addrs = servers;
    let ghost av = v.if_addrs@;
    let port: u16 = v.port;
    let mut addrs: Vec<MySockAddr> = Vec::new();
    let mut j: usize = 0;
    while j < v.if_addrs.len()
        invariant
            j <= v.if_addrs@.len(),
            av == v.if_addrs@,
            port == v.port,
            addrs@ == av.take(j as int).map_values(|a: MySockAddr| MySockAddr { port: port, ..a }),
        decreases v.if_addrs@.len() - j,
    {
        let a: MySockAddr = v.if_addrs[j];
        addrs.push(MySockAddr { port, ..a });
        assert(addrs@ =~= av.take(j + 1).map_values(|a: MySockAddr| MySockAddr { port: port, ..a }));
        j += 1;
    }
    assert(av.take(av.len() as int) =~= av);
    v.if_addrs = addrs;
}

/// Finishes the values read from `n` lines (see `opts_finish`), the
/// machine's name being `host`.
pub fn finish_opts(flags: u32, values: OptsValues, host: Option<String>, n: usize) -> (r: Result<
    (u32, OptsValues),
    (usize, OptsError),
>)
    ensures
        res_matches(r, opts_finish(flags, values@, opt_str_view(host), n as int)),
{
    let ghost v0 = values@;
    let mut v = values;
    let need: bool = flags & OPT_LOCALMX != 0 || v.mxname.is_some() || v.mxtarget.is_some();
    fill_ports(&mut v);
    if need {
        match host {
            None => {
                return Err((n, OptsError::NoHostName));
            },
            Some(h) => {
                if v.mxname.is_none() {
                    v.mxname = Some(copy_string(&h));
                }
                if v.mxtarget.is_none() {
                    v.mxtarget = Some(copy_string(&h));
                }
            },
        }
    }
    if flags & OPT_NO_RESOLV != 0 {
        v.resolv_files = Vec::new();
        assert(resolvs_view(v.resolv_files@) =~= Seq::<ResolvView>::empty());
        Ok((flags, v))
    } else if v.resolv_files.len() > 1 && flags & OPT_NO_POLL != 0 {
        Err((n, OptsError::OneResolvFile))
    } else {
        Ok((flags, v))
    }
}

fn run_lines(lines: &Vec<String>, v: &mut OptsValues) -> (r: Result<u32, Option<(usize, OptsError)>>)
    ensures
        match opts_fold(lines_view(lines@), lines@.len() as int, old(v)@) {
            OptsOutcome::Panic => r == Err::<u32, Option<(usize, OptsError)>>(None),
            OptsOutcome::Fail(k, e) => r == Err::<u32, Option<(usize, OptsError)>>(Some((k as usize, e))),
            OptsOutcome::Done(f, vv) => r == Ok::<u32, Option<(usize, OptsError)>>(f) && final(v)@ == vv,
        },
{
    let ghost lv = lines_view(lines@);
    let ghost v0 = v@;
    let mut flags: u32 = 0;
    let mut i: usize = 0;
    while i < lines.len()
        invariant
            i <= lines@.len(),
            lv == lines_view(lines@),
            lv.len() == lines@.len(),
            v0 == old(v)@,
            opts_fold(lv, i as int, v0) == OptsOutcome::Done(flags, v@),
        decreases lines.len() - i,
    {
        let line: &str = lines[i].as_str();
        assert(line@ == lv[i as int]);
        let ghost vb = v@;
        let ghost fb = flags;
        assert(opts_fold(lv, i + 1, v0) == (match opts_line(lv[i as int], fb, vb) {
            LineStep::Panic => OptsOutcome::Panic,
            LineStep::Fail(e) => OptsOutcome::Fail(i as int, e),
            LineStep::Next(f2, v2) => OptsOutcome::Done(f2, v2),
        }));
        match opts_line_exec(line, flags, v) {
            Ok(f2) => {
                flags = f2;
            },
            Err(e) => {
                proof {
                    lemma_opts_fold_stop(lv, i + 1, lv.len() as int, v0);
                    lemma_opts_fold_index(lv, i + 1, v0);
                }
                assert(opts_fold(lv, lv.len() as int, v0) == opts_fold(lv, i + 1, v0));
                match e {
                    None => {
                        assert(opts_fold(lv, i + 1, v0) is Panic);
                        return Err(None);
                    },
                    Some(x) => {
                        assert(opts_fold(lv, i + 1, v0) == OptsOutcome::Fail(i as int, x));
                        return Err(Some((i, x)));
                    },
                }
            },
        }
        i += 1;
    }
    Ok(flags)
}

/// Whether reading the lines from the values `start` would panic.
pub fn opts_would_panic(lines: &Vec<String>, start: OptsValues) -> (b: bool)
    ensures
        b == (opts_fold(lines_view(lines@), lines@.len() as int, start@) is Panic),
{
    let mut v = start;
    match run_lines(lines, &mut v) {
        Err(None) => true,
        _ => false,
    }
}

/// Reads the keyword lines of a configuration file from the values
/// `start`: the option word and the values, or the index of the line
/// refused and why (see `opts_outcome`).  The machine's name is asked for
/// only where it is needed, and nothing is stated of it.
pub fn read_opts_lines(lines: &Vec<String>, start: OptsValues) -> (r: Result<(u32, OptsValues), (usize, OptsError)>)
    requires
        !(opts_fold(lines_view(lines@), lines@.len() as int, start@) is Panic),
    ensures
        match opts_fold(lines_view(lines@), lines@.len() as int, start@) {
            OptsOutcome::Fail(k, e) => r matches Err(x) && x.0 == k && x.1 == e,
            OptsOutcome::Done(f, v) => {
                &&& (!needs_host(f, v) ==> res_matches(r, opts_finish(f, v, None, lines@.len() as int)))
                &&& exists|h: Option<Seq<char>>| res_matches(r, #[trigger] opts_finish(f, v, h, lines@.len() as int))
            },
            OptsOutcome::Panic => false,
        },
{
    proof {
        lemma_opts_fold_index(lines_view(lines@), lines@.len() as int, start@);
    }
    let mut v = start;
    let ghost o = opts_fold(lines_view(lines@), lines@.len() as int, start@);
    let rr = run_lines(lines, &mut v);
    assert(o is Fail ==> rr == Err::<u32, Option<(usize, OptsError)>>(Some(((o->Fail_0) as usize, o->Fail_1))));
    match rr {
        Err(None) => {
            proof {
                assert(false);
            }
            Err((0, OptsError::BadArgument))
        },
        Err(Some((k, e))) => {
            let nl: usize = lines.len();
            assert(o is Fail && o->Fail_0 < nl);
            Err((k, e))
        },
        Ok(flags) => {
            let n: usize = lines.len();
            let ghost vv = v@;
            let need: bool = flags & OPT_LOCALMX != 0 || v.mxname.is_some() || v.mxtarget.is_some();
            assert(need == needs_host(flags, vv));
            let host: Option<String> = if need {
                crate::config::host_name()
            } else {
                None
            };
            let r = finish_opts(flags, v, host, n);
            proof {
                let h = opt_str_view(host);
                assert(res_matches(r, opts_finish(flags, vv, h, n as int)));

            }
            r
        },
    }
}

} // verus!
