//! The configuration: its defaults, the lines of the configuration file
//! (`option` or `option=value`), and the command-line options laid over
//! them.

use crate::cache::strings_view;
use crate::confargs::{
    boot_arg, chars_are, dhcp_opt_arg, host_arg, range_arg, range_panics, read_boot_arg, read_dhcp_opt_arg,
    read_host_arg, read_range_arg, read_server_arg, server_arg, unspec, ContextView, OptView, ServerView,
};
use crate::dnsmasq::{
    opt_str_view, AllAddr, BogusAddr, DhcpConfig, DhcpConfigView, DhcpContext, DhcpOpt, Iname, MySockAddr,
    ResolvC, Server, CACHESIZ, NAMESERVER_PORT, OPT_BOGUSPRIV, OPT_DEBUG, OPT_ERROR, OPT_EXPAND, OPT_LOCALMX,
    OPT_LOG, OPT_NODOTS_LOCAL, OPT_NO_HOSTS, OPT_NO_NEG, OPT_NO_POLL, OPT_NO_RESOLV, OPT_ORDER, OPT_SELFMX,
};
use crate::inet::{
    parse_dec, parse_ipv4, parse_sock_or_ip, pieces, spec_parse_dec, spec_parse_ipv4, spec_sock_or_ip, split_on,
    sub_chars, vecs_view,
};
use crate::util::{spec_canonical, spec_is_whitespace, str_chars, string_from_chars};
use crate::confargs::canonical_chars;
use vstd::prelude::*;

verus! {

/// The configuration file read when none is named.
pub const CONFFILE: &'static str = "/etc/utdnsmasq.conf";
/// The hosts file.
pub const HOSTSFILE: &'static str = "/etc/hosts";
/// The file that names the upstream servers.
pub const RESOLVFILE: &'static str = "/etc/resolv.conf";
/// The file that holds the process id.
pub const RUNFILE: &'static str = "/var/run/utdnsmasq.pid";
/// The file that holds the DHCP leases.
pub const LEASEFILE: &'static str = "/var/lib/misc/utdnsmasq.leases";
/// The user to run as after start-up.
pub const CHUSER: &'static str = "nobody";
/// The group to run as after start-up.
pub const CHGRP: &'static str = "dip";
/// The largest cache the configuration file may ask for.
pub const MAX_CACHE: usize = 10000;

/// An interface name or address to listen on, as plain values.
pub struct InameView {
    pub name: Seq<char>,
    pub addr: MySockAddr,
    pub found: bool,
}

impl View for Iname {
    type V = InameView;

    open spec fn view(&self) -> InameView {
        InameView { name: self.name@, addr: self.addr, found: self.found }
    }
}

/// A file naming upstream servers, as plain values.
pub struct ResolvView {
    pub is_default: bool,
    pub logged: bool,
    pub name: Seq<char>,
}

impl View for ResolvC {
    type V = ResolvView;

    open spec fn view(&self) -> ResolvView {
        ResolvView { is_default: self.is_default, logged: self.logged, name: self.name@ }
    }
}

pub open spec fn inames_view(s: Seq<Iname>) -> Seq<InameView> {
    s.map_values(|x: Iname| x@)
}

pub open spec fn resolvs_view(s: Seq<ResolvC>) -> Seq<ResolvView> {
    s.map_values(|x: ResolvC| x@)
}

pub open spec fn servers_view(s: Seq<Server>) -> Seq<ServerView> {
    s.map_values(|x: Server| x@)
}

pub open spec fn contexts_view(s: Seq<DhcpContext>) -> Seq<ContextView> {
    s.map_values(|x: DhcpContext| x@)
}

pub open spec fn configs_view(s: Seq<DhcpConfig>) -> Seq<DhcpConfigView> {
    s.map_values(|x: DhcpConfig| x@)
}

pub open spec fn opts_view(s: Seq<DhcpOpt>) -> Seq<OptView> {
    s.map_values(|x: DhcpOpt| x@)
}

/// The configuration.  The servers are kept with the one given last
/// first.
pub struct Config {
    pub cache_size: usize,
    pub port: u16,
    pub query_port: u16,
    pub local_ttl: u32,
    pub options: u32,
    pub runfile: String,
    pub mxname: String,
    pub mxtarget: String,
    pub lease_file: String,
    pub addn_hosts: Vec<String>,
    pub domain_suffix: Option<String>,
    pub username: String,
    pub groupname: String,
    pub if_names: Vec<Iname>,
    pub if_addrs: Vec<Iname>,
    pub if_except: Vec<Iname>,
    pub serv_addrs: Vec<Server>,
    pub resolv: Vec<ResolvC>,
    pub bogus_addr: Vec<BogusAddr>,
    pub dhcp: Vec<DhcpContext>,
    pub dhcp_configs: Vec<DhcpConfig>,
    pub dhcp_options: Vec<DhcpOpt>,
    pub dhcp_file: String,
    pub dhcp_sname: Option<String>,
    pub dhcp_next_server: u32,
}

/// The configuration as plain values.
pub struct ConfigView {
    pub cache_size: usize,
    pub port: u16,
    pub query_port: u16,
    pub local_ttl: u32,
    pub options: u32,
    pub runfile: Seq<char>,
    pub mxname: Seq<char>,
    pub mxtarget: Seq<char>,
    pub lease_file: Seq<char>,
    pub addn_hosts: Seq<Seq<char>>,
    pub domain_suffix: Option<Seq<char>>,
    pub username: Seq<char>,
    pub groupname: Seq<char>,
    pub if_names: Seq<InameView>,
    pub if_addrs: Seq<InameView>,
    pub if_except: Seq<InameView>,
    pub serv_addrs: Seq<ServerView>,
    pub resolv: Seq<ResolvView>,
    pub bogus_addr: Seq<BogusAddr>,
    pub dhcp: Seq<ContextView>,
    pub dhcp_configs: Seq<DhcpConfigView>,
    pub dhcp_options: Seq<OptView>,
    pub dhcp_file: Seq<char>,
    pub dhcp_sname: Option<Seq<char>>,
    pub dhcp_next_server: u32,
}

impl View for Config {
    type V = ConfigView;

    open spec fn view(&self) -> ConfigView {
        ConfigView {
            cache_size: self.cache_size,
            port: self.port,
            query_port: self.query_port,
            local_ttl: self.local_ttl,
            options: self.options,
            runfile: self.runfile@,
            mxname: self.mxname@,
            mxtarget: self.mxtarget@,
            lease_file: self.lease_file@,
            addn_hosts: strings_view(self.addn_hosts@),
            domain_suffix: opt_str_view(self.domain_suffix),
            username: self.username@,
            groupname: self.groupname@,
            if_names: inames_view(self.if_names@),
            if_addrs: inames_view(self.if_addrs@),
            if_except: inames_view(self.if_except@),
            serv_addrs: servers_view(self.serv_addrs@),
            resolv: resolvs_view(self.resolv@),
            bogus_addr: self.bogus_addr@,
            dhcp: contexts_view(self.dhcp@),
            dhcp_configs: configs_view(self.dhcp_configs@),
            dhcp_options: opts_view(self.dhcp_options@),
            dhcp_file: self.dhcp_file@,
            dhcp_sname: opt_str_view(self.dhcp_sname),
            dhcp_next_server: self.dhcp_next_server,
        }
    }
}

/// The configuration before any file or option is read.
pub open spec fn default_config() -> ConfigView {
    ConfigView {
        cache_size: CACHESIZ,
        port: NAMESERVER_PORT,
        query_port: 0,
        local_ttl: 0,
        options: 0,
        runfile: RUNFILE@,
        mxname: seq![],
        mxtarget: seq![],
        lease_file: seq![],
        addn_hosts: seq![],
        domain_suffix: None,
        username: CHUSER@,
        groupname: CHGRP@,
        if_names: seq![],
        if_addrs: seq![],
        if_except: seq![],
        serv_addrs: seq![],
        resolv: seq![],
        bogus_addr: seq![],
        dhcp: seq![],
        dhcp_configs: seq![],
        dhcp_options: seq![],
        dhcp_file: seq![],
        dhcp_sname: None,
        dhcp_next_server: 0,
    }
}

impl Config {
    /// The configuration before any file or option is read.
    pub fn default() -> (c: Config)
        ensures
            c@ == default_config(),
    {
        let c = Config {
            cache_size: CACHESIZ,
            port: NAMESERVER_PORT,
            query_port: 0,
            local_ttl: 0,
            options: 0,
            runfile: String::from_str(RUNFILE),
            mxname: String::new(),
            mxtarget: String::new(),
            lease_file: String::new(),
            addn_hosts: Vec::new(),
            domain_suffix: None,
            username: String::from_str(CHUSER),
            groupname: String::from_str(CHGRP),
            if_names: Vec::new(),
            if_addrs: Vec::new(),
            if_except: Vec::new(),
            serv_addrs: Vec::new(),
            resolv: Vec::new(),
            bogus_addr: Vec::new(),
            dhcp: Vec::new(),
            dhcp_configs: Vec::new(),
            dhcp_options: Vec::new(),
            dhcp_file: String::new(),
            dhcp_sname: None,
            dhcp_next_server: 0,
        };
        assert(c@.addn_hosts =~= default_config().addn_hosts);
        assert(c@.if_names =~= default_config().if_names);
        assert(c@.if_addrs =~= default_config().if_addrs);
        assert(c@.if_except =~= default_config().if_except);
        assert(c@.serv_addrs =~= default_config().serv_addrs);
        assert(c@.resolv =~= default_config().resolv);
        assert(c@.dhcp =~= default_config().dhcp);
        assert(c@.dhcp_configs =~= default_config().dhcp_configs);
        assert(c@.dhcp_options =~= default_config().dhcp_options);
        c
    }

    /// The number of records the cache may hold.
    pub fn get_cache_size(&mut self) -> (n: usize)
        ensures
            n == old(self).cache_size,
            final(self)@ == old(self)@,
    {
        self.cache_size
    }

    /// The configuration given by the command line alone: the defaults.
    pub fn from_args() -> (r: Result<Config, crate::DnsmasqError>)
        ensures
            r matches Ok(c) && c@ == default_config(),
    {
        Ok(Config::default())
    }
}

/// Adds the default file naming the upstream servers.
pub fn config_default(config: &mut Config)
    ensures
        final(config)@ == (ConfigView {
            resolv: old(config)@.resolv.push(ResolvView { is_default: true, logged: false, name: RESOLVFILE@ }),
            ..old(config)@
        }),
{
    let ghost r0 = resolvs_view(config.resolv@);
    config.resolv.push(ResolvC { is_default: true, logged: false, name: String::from_str(RESOLVFILE) });
    assert(resolvs_view(config.resolv@) =~= r0.push(ResolvView { is_default: true, logged: false, name: RESOLVFILE@ }));
}

// ---------------------------------------------------------------------
// Lines of the configuration file
// ---------------------------------------------------------------------

/// Why a line of the configuration file is refused.
#[derive(Clone, Copy, Debug, PartialEq, Eq, Structural)]
pub enum LineError {
    /// Nothing but separators.
    Blank,
    BadCacheSize,
    BadListenAddress,
    /// A server's address or source address does not parse.
    BadServerAddress,
    BadPort,
    BadQueryPort,
    BadLocalTtl,
    /// A value the option does not take.
    BadArgument,
}

/// What reading a line does.
pub enum LineOutcome {
    /// The line makes the reader panic.
    Panic,
    Done(ConfigView),
    Fail(ConfigView, LineError),
}

/// The outcome of a reader that returned `r` and left `c`.
pub open spec fn outcome_of(r: Result<(), LineError>, c: ConfigView) -> LineOutcome {
    match r {
        Ok(_) => LineOutcome::Done(c),
        Err(e) => LineOutcome::Fail(c, e),
    }
}

/// The characters that part the words of a line.
pub open spec fn is_word_sep(c: char) -> bool {
    c == ' ' || c == '|' || c == '\t'
}

/// Scanning the first `n` characters for the first word: the word once
/// found, else the one being read.
pub open spec fn word_acc(s: Seq<char>, n: int) -> (Option<Seq<char>>, Seq<char>)
    decreases n,
{
    if n <= 0 || n > s.len() {
        (None, seq![])
    } else {
        let (w, cur) = word_acc(s, n - 1);
        if w is Some {
            (w, cur)
        } else if is_word_sep(s[n - 1]) {
            if cur.len() > 0 {
                (Some(cur), seq![])
            } else {
                (None, seq![])
            }
        } else {
            (None, cur.push(s[n - 1]))
        }
    }
}

/// The first word of a line; none when it holds only separators.
pub open spec fn first_word(s: Seq<char>) -> Option<Seq<char>> {
    let (w, cur) = word_acc(s, s.len() as int);
    if w is Some {
        w
    } else if cur.len() > 0 {
        Some(cur)
    } else {
        None
    }
}

/// The option and its value: the text before the first `=` and the text
/// up to the next one; the whole word and no value when there is no `=`.
pub open spec fn option_parts(w: Seq<char>) -> (Seq<char>, Seq<char>) {
    let p = pieces(w, '=');
    if p.len() > 1 {
        (p[0], p[1])
    } else {
        (w, seq![])
    }
}

/// The options of the configuration file.
#[derive(Clone, Copy, Debug, PartialEq, Eq, Structural)]
pub enum OptKind {
    /// An option that sets a flag.
    Flag(u32),
    PidFile,
    ResolvFile,
    MxHost,
    CacheSize,
    MxTarget,
    LeaseFile,
    AddnHosts,
    Domain,
    User,
    Group,
    Interface,
    ExceptInterface,
    BogusNxdomain,
    ListenAddress,
    Server,
    Local,
    Address,
    Port,
    QueryPort,
    LocalTtl,
    DhcpRange,
    DhcpHost,
    DhcpOption,
    DhcpBoot,
    Unknown,
}

/// Which option a name is.
pub open spec fn option_kind(o: Seq<char>) -> OptKind {
    if o == "bogus-priv"@ {
        OptKind::Flag(OPT_BOGUSPRIV)
    } else if o == "log-queries"@ {
        OptKind::Flag(OPT_LOG)
    } else if o == "selfmx"@ {
        OptKind::Flag(OPT_SELFMX)
    } else if o == "no-hosts"@ {
        OptKind::Flag(OPT_NO_HOSTS)
    } else if o == "no-poll"@ {
        OptKind::Flag(OPT_NO_POLL)
    } else if o == "no-daemon"@ {
        OptKind::Flag(OPT_DEBUG)
    } else if o == "strict-order"@ {
        OptKind::Flag(OPT_ORDER)
    } else if o == "no-resolv"@ {
        OptKind::Flag(OPT_NO_RESOLV)
    } else if o == "expand-hosts"@ {
        OptKind::Flag(OPT_EXPAND)
    } else if o == "localmx"@ {
        OptKind::Flag(OPT_LOCALMX)
    } else if o == "no-negcache"@ {
        OptKind::Flag(OPT_NO_NEG)
    } else if o == "domain-needed"@ {
        OptKind::Flag(OPT_NODOTS_LOCAL)
    } else if o == "pid-file"@ {
        OptKind::PidFile
    } else if o == "resolv-file"@ {
        OptKind::ResolvFile
    } else if o == "mx-host"@ {
        OptKind::MxHost
    } else if o == "cache-size"@ {
        OptKind::CacheSize
    } else if o == "mx-target"@ {
        OptKind::MxTarget
    } else if o == "dhcp-leasefile"@ {
        OptKind::LeaseFile
    } else if o == "addn-hosts"@ {
        OptKind::AddnHosts
    } else if o == "domain"@ {
        OptKind::Domain
    } else if o == "user"@ {
        OptKind::User
    } else if o == "group"@ {
        OptKind::Group
    } else if o == "interface"@ {
        OptKind::Interface
    } else if o == "except-interface"@ {
        OptKind::ExceptInterface
    } else if o == "bogus-nxdomain"@ {
        OptKind::BogusNxdomain
    } else if o == "listen-address"@ {
        OptKind::ListenAddress
    } else if o == "server"@ {
        OptKind::Server
    } else if o == "local"@ {
        OptKind::Local
    } else if o == "address"@ {
        OptKind::Address
    } else if o == "port"@ {
        OptKind::Port
    } else if o == "query-port"@ {
        OptKind::QueryPort
    } else if o == "local-ttl"@ {
        OptKind::LocalTtl
    } else if o == "dhcp-range"@ {
        OptKind::DhcpRange
    } else if o == "dhcp-host"@ {
        OptKind::DhcpHost
    } else if o == "dhcp-option"@ {
        OptKind::DhcpOption
    } else if o == "dhcp-boot"@ {
        OptKind::DhcpBoot
    } else {
        OptKind::Unknown
    }
}

/// Tells which option a name is (see `option_kind`).
pub fn option_kind_of(o: &[char]) -> (k: OptKind)
    ensures
        k == option_kind(o@),
{
    if chars_are(o, "bogus-priv") {
        OptKind::Flag(OPT_BOGUSPRIV)
    } else if chars_are(o, "log-queries") {
        OptKind::Flag(OPT_LOG)
    } else if chars_are(o, "selfmx") {
        OptKind::Flag(OPT_SELFMX)
    } else if chars_are(o, "no-hosts") {
        OptKind::Flag(OPT_NO_HOSTS)
    } else if chars_are(o, "no-poll") {
        OptKind::Flag(OPT_NO_POLL)
    } else if chars_are(o, "no-daemon") {
        OptKind::Flag(OPT_DEBUG)
    } else if chars_are(o, "strict-order") {
        OptKind::Flag(OPT_ORDER)
    } else if chars_are(o, "no-resolv") {
        OptKind::Flag(OPT_NO_RESOLV)
    } else if chars_are(o, "expand-hosts") {
        OptKind::Flag(OPT_EXPAND)
    } else if chars_are(o, "localmx") {
        OptKind::Flag(OPT_LOCALMX)
    } else if chars_are(o, "no-negcache") {
        OptKind::Flag(OPT_NO_NEG)
    } else if chars_are(o, "domain-needed") {
        OptKind::Flag(OPT_NODOTS_LOCAL)
    } else if chars_are(o, "pid-file") {
        OptKind::PidFile
    } else if chars_are(o, "resolv-file") {
        OptKind::ResolvFile
    } else if chars_are(o, "mx-host") {
        OptKind::MxHost
    } else if chars_are(o, "cache-size") {
        OptKind::CacheSize
    } else if chars_are(o, "mx-target") {
        OptKind::MxTarget
    } else if chars_are(o, "dhcp-leasefile") {
        OptKind::LeaseFile
    } else if chars_are(o, "addn-hosts") {
        OptKind::AddnHosts
    } else if chars_are(o, "domain") {
        OptKind::Domain
    } else if chars_are(o, "user") {
        OptKind::User
    } else if chars_are(o, "group") {
        OptKind::Group
    } else if chars_are(o, "interface") {
        OptKind::Interface
    } else if chars_are(o, "except-interface") {
        OptKind::ExceptInterface
    } else if chars_are(o, "bogus-nxdomain") {
        OptKind::BogusNxdomain
    } else if chars_are(o, "listen-address") {
        OptKind::ListenAddress
    } else if chars_are(o, "server") {
        OptKind::Server
    } else if chars_are(o, "local") {
        OptKind::Local
    } else if chars_are(o, "address") {
        OptKind::Address
    } else if chars_are(o, "port") {
        OptKind::Port
    } else if chars_are(o, "query-port") {
        OptKind::QueryPort
    } else if chars_are(o, "local-ttl") {
        OptKind::LocalTtl
    } else if chars_are(o, "dhcp-range") {
        OptKind::DhcpRange
    } else if chars_are(o, "dhcp-host") {
        OptKind::DhcpHost
    } else if chars_are(o, "dhcp-option") {
        OptKind::DhcpOption
    } else if chars_are(o, "dhcp-boot") {
        OptKind::DhcpBoot
    } else {
        OptKind::Unknown
    }
}


/// A name to listen on or not, with no address yet.
pub open spec fn new_iface(name: Seq<char>) -> InameView {
    InameView { name, addr: unspec(), found: false }
}

/// The configuration marked as holding a bad value, when `e`.
pub open spec fn with_error(c: ConfigView, e: bool) -> ConfigView {
    if e {
        ConfigView { options: OPT_ERROR, ..c }
    } else {
        c
    }
}

/// Naming a file of upstream servers: it takes the place of the default
/// one when that is first, else it is added.
pub open spec fn resolv_named(rs: Seq<ResolvView>, name: Seq<char>) -> Seq<ResolvView> {
    if rs.len() > 0 && rs[0].is_default {
        rs.update(0, ResolvView { is_default: false, name, ..rs[0] })
    } else {
        rs.push(ResolvView { is_default: false, logged: false, name })
    }
}

/// The listening addresses read from the first `n` pieces of a value, up
/// to the first that does not parse; and whether one did not.
pub open spec fn listen_acc(ps: Seq<Seq<char>>, n: int) -> (Seq<InameView>, bool)
    decreases n,
{
    if n <= 0 || n > ps.len() {
        (seq![], false)
    } else {
        let (a, bad) = listen_acc(ps, n - 1);
        if bad {
            (a, true)
        } else {
            match spec_sock_or_ip(ps[n - 1]) {
                Some(x) => (a.push(InameView { name: seq![], addr: x, found: false }), false),
                None => (a, true),
            }
        }
    }
}

/// A server line: a bad domain or port marks the configuration; an
/// `address` without a domain is a bad argument; an address that does not
/// parse refuses the line; otherwise the server goes first.
pub open spec fn server_line(c: ConfigView, a: Seq<char>, is_address: bool) -> LineOutcome {
    let sa = server_arg(a, is_address);
    let c1 = with_error(c, sa.opt_error);
    if sa.bad_arg {
        LineOutcome::Fail(c1, LineError::BadArgument)
    } else if sa.bad_ip {
        LineOutcome::Fail(c1, LineError::BadServerAddress)
    } else {
        LineOutcome::Done(ConfigView { serv_addrs: seq![sa.server] + c1.serv_addrs, ..c1 })
    }
}

/// What an option with value `a` does to the configuration.
pub open spec fn apply_option(k: OptKind, a: Seq<char>, c: ConfigView) -> LineOutcome {
    match k {
        OptKind::Flag(f) => LineOutcome::Done(ConfigView { options: c.options | f, ..c }),
        OptKind::PidFile => LineOutcome::Done(ConfigView { runfile: a, ..c }),
        OptKind::ResolvFile => LineOutcome::Done(ConfigView { resolv: resolv_named(c.resolv, a), ..c }),
        OptKind::MxHost => LineOutcome::Done(
            if spec_canonical(a) {
                ConfigView { mxname: a, ..c }
            } else {
                with_error(c, true)
            },
        ),
        OptKind::CacheSize => match spec_parse_dec(a, usize::MAX as int) {
            Some(n) => LineOutcome::Done(
                ConfigView {
                    cache_size: if n > MAX_CACHE {
                        MAX_CACHE
                    } else {
                        n as usize
                    },
                    ..c
                },
            ),
            None => LineOutcome::Fail(c, LineError::BadCacheSize),
        },
        OptKind::MxTarget => LineOutcome::Done(
            if spec_canonical(a) {
                ConfigView { mxtarget: a, ..c }
            } else {
                with_error(c, true)
            },
        ),
        OptKind::LeaseFile => LineOutcome::Done(ConfigView { lease_file: a, ..c }),
        OptKind::AddnHosts => LineOutcome::Done(
            if c.addn_hosts.len() > 0 {
                with_error(c, true)
            } else {
                ConfigView { addn_hosts: c.addn_hosts.push(a), ..c }
            },
        ),
        OptKind::Domain => LineOutcome::Done(
            if spec_canonical(a) {
                ConfigView { domain_suffix: Some(a), ..c }
            } else {
                with_error(c, true)
            },
        ),
        OptKind::User => LineOutcome::Done(ConfigView { username: a, ..c }),
        OptKind::Group => LineOutcome::Done(ConfigView { groupname: a, ..c }),
        OptKind::Interface => LineOutcome::Done(ConfigView { if_names: c.if_names.push(new_iface(a)), ..c }),
        OptKind::ExceptInterface => LineOutcome::Done(ConfigView { if_except: c.if_except.push(new_iface(a)), ..c }),
        OptKind::BogusNxdomain => LineOutcome::Done(
            match spec_parse_ipv4(a) {
                Some(x) => ConfigView { bogus_addr: c.bogus_addr.push(BogusAddr { addr: x }), ..c },
                None => with_error(c, true),
            },
        ),
        OptKind::ListenAddress => {
            let ps = pieces(a, ',');
            let (xs, bad) = listen_acc(ps, ps.len() as int);
            let c2 = ConfigView { if_addrs: c.if_addrs + xs, ..c };
            if bad {
                LineOutcome::Fail(c2, LineError::BadListenAddress)
            } else {
                LineOutcome::Done(c2)
            }
        },
        OptKind::Server => server_line(c, a, false),
        OptKind::Local => server_line(c, a, false),
        OptKind::Address => server_line(c, a, true),
        OptKind::Port => match spec_parse_dec(a, 65535) {
            Some(n) => LineOutcome::Done(ConfigView { port: n as u16, ..c }),
            None => LineOutcome::Fail(c, LineError::BadPort),
        },
        OptKind::QueryPort => match spec_parse_dec(a, 65535) {
            Some(n) => LineOutcome::Done(ConfigView { query_port: n as u16, ..c }),
            None => LineOutcome::Fail(c, LineError::BadQueryPort),
        },
        OptKind::LocalTtl => match spec_parse_dec(a, u32::MAX as int) {
            Some(n) => LineOutcome::Done(ConfigView { local_ttl: n as u32, ..c }),
            None => LineOutcome::Fail(c, LineError::BadLocalTtl),
        },
        OptKind::DhcpRange => if range_panics(a) {
            LineOutcome::Panic
        } else {
            let r = range_arg(a);
            let c1 = with_error(c, r.bad);
            LineOutcome::Done(ConfigView { dhcp: c1.dhcp.push(r.ctx), ..c1 })
        },
        OptKind::DhcpHost => {
            let (p, cfg, bad) = host_arg(a);
            if p {
                LineOutcome::Panic
            } else {
                let c1 = with_error(c, bad);
                LineOutcome::Done(ConfigView { dhcp_configs: c1.dhcp_configs.push(cfg), ..c1 })
            }
        },
        OptKind::DhcpOption => {
            let (ov, bad) = dhcp_opt_arg(a);
            let c1 = with_error(c, bad);
            LineOutcome::Done(ConfigView { dhcp_options: c1.dhcp_options.push(ov), ..c1 })
        },
        OptKind::DhcpBoot => {
            let b = boot_arg(a);
            LineOutcome::Done(
                ConfigView {
                    dhcp_file: b.file,
                    dhcp_sname: if b.sname is Some {
                        b.sname
                    } else {
                        c.dhcp_sname
                    },
                    dhcp_next_server: match b.next {
                        Some(x) => x,
                        None => c.dhcp_next_server,
                    },
                    options: if b.bad {
                        OPT_ERROR
                    } else {
                        c.options
                    },
                    ..c
                },
            )
        },
        OptKind::Unknown => LineOutcome::Done(c),
    }
}

/// Whether an option with value `a` makes the reader panic: a lease time
/// that overflows, or a host argument that panics (see `host_step`).
pub open spec fn option_panics(k: OptKind, a: Seq<char>) -> bool {
    match k {
        OptKind::DhcpRange => range_panics(a),
        OptKind::DhcpHost => host_arg(a).0,
        _ => false,
    }
}

/// What reading a line of the configuration file does: its first word
/// (words are parted by spaces, tabs and `|`) is `option` or
/// `option=value`; a line of separators alone is refused; an option that
/// leaves the configuration marked as holding a bad value is a bad
/// argument.
pub open spec fn line_outcome(line: Seq<char>, c: ConfigView) -> LineOutcome {
    match first_word(line) {
        None => LineOutcome::Fail(c, LineError::Blank),
        Some(w) => {
            let (o, a) = option_parts(w);
            match apply_option(option_kind(o), a, c) {
                LineOutcome::Done(c2) => if c2.options == OPT_ERROR {
                    LineOutcome::Fail(c2, LineError::BadArgument)
                } else {
                    LineOutcome::Done(c2)
                },
                other => other,
            }
        },
    }
}

/// Whether reading the line panics.
pub open spec fn line_panics(line: Seq<char>) -> bool {
    match first_word(line) {
        None => false,
        Some(w) => option_panics(option_kind(option_parts(w).0), option_parts(w).1),
    }
}

/// A line panics exactly when `line_panics` says so, whatever the
/// configuration.
pub proof fn lemma_line_panics(line: Seq<char>, c: ConfigView)
    ensures
        (line_outcome(line, c) is Panic) == line_panics(line),
{
}

/// Finds the first word of a line (see `first_word`).
pub(crate) fn first_word_exec(s: &[char]) -> (r: Option<Vec<char>>)
    ensures
        match first_word(s@) {
            Some(w) => r matches Some(v) && v@ == w,
            None => r is None,
        },
{
    let mut cur: Vec<char> = Vec::new();
    let mut i: usize = 0;
    while i < s.len()
        invariant
            i <= s@.len(),
            word_acc(s@, i as int) == (None::<Seq<char>>, cur@),
            forall|n: int| i <= n <= s@.len() ==> (#[trigger] word_acc(s@, n)).0 is None ==> true,
        decreases s.len() - i,
    {
        let c = s[i];
        if c == ' ' || c == '|' || c == '\t' {
            if cur.len() > 0 {
                proof {
                    assert(word_acc(s@, i + 1) == (Some(cur@), Seq::<char>::empty()));
                    lemma_word_found(s@, i + 1, s@.len() as int);
                }
                return Some(cur);
            }
        } else {
            cur.push(c);
        }
        i += 1;
    }
    if cur.len() > 0 {
        Some(cur)
    } else {
        None
    }
}

/// Once the first word is found it stays found.
proof fn lemma_word_found(s: Seq<char>, m: int, n: int)
    requires
        0 < m <= n <= s.len(),
        word_acc(s, m).0 is Some,
    ensures
        word_acc(s, n).0 == word_acc(s, m).0,
    decreases n - m,
{
    if m < n {
        lemma_word_found(s, m, n - 1);
    }
}

/// Parts a word into option and value (see `option_parts`).
pub(crate) fn option_parts_exec(w: &[char]) -> (r: (Vec<char>, Vec<char>))
    ensures
        (r.0@, r.1@) == option_parts(w@),
{
    let p = split_on(w, '=');
    assert(vecs_view(p@).len() == p@.len());
    if p.len() > 1 {
        assert(p@[0]@ == pieces(w@, '=')[0]);
        assert(p@[1]@ == pieces(w@, '=')[1]);
        (sub_chars(p[0].as_slice(), 0, p[0].len()), sub_chars(p[1].as_slice(), 0, p[1].len()))
    } else {
        (sub_chars(w, 0, w.len()), Vec::new())
    }
}

fn push_iname(v: &mut Vec<Iname>, x: Iname)
    ensures
        inames_view(final(v)@) == inames_view(old(v)@).push(x@),
{
    let ghost o = inames_view(v@);
    v.push(x);
    assert(inames_view(v@) =~= o.push(x@));
}

fn push_string(v: &mut Vec<String>, x: String)
    ensures
        strings_view(final(v)@) == strings_view(old(v)@).push(x@),
{
    let ghost o = strings_view(v@);
    v.push(x);
    assert(strings_view(v@) =~= o.push(x@));
}

fn push_context(v: &mut Vec<DhcpContext>, x: DhcpContext)
    ensures
        contexts_view(final(v)@) == contexts_view(old(v)@).push(x@),
{
    let ghost o = contexts_view(v@);
    v.push(x);
    assert(contexts_view(v@) =~= o.push(x@));
}

fn push_host(v: &mut Vec<DhcpConfig>, x: DhcpConfig)
    ensures
        configs_view(final(v)@) == configs_view(old(v)@).push(x@),
{
    let ghost o = configs_view(v@);
    v.push(x);
    assert(configs_view(v@) =~= o.push(x@));
}

fn push_opt(v: &mut Vec<DhcpOpt>, x: DhcpOpt)
    ensures
        opts_view(final(v)@) == opts_view(old(v)@).push(x@),
{
    let ghost o = opts_view(v@);
    v.push(x);
    assert(opts_view(v@) =~= o.push(x@));
}

fn push_server_first(v: &mut Vec<Server>, x: Server)
    ensures
        servers_view(final(v)@) == seq![x@] + servers_view(old(v)@),
{
    let ghost o = servers_view(v@);
    v.insert(0, x);
    assert(servers_view(v@) =~= seq![x@] + o);
}

/// Names a file of upstream servers (see `resolv_named`).
fn name_resolv(v: &mut Vec<ResolvC>, name: String)
    ensures
        resolvs_view(final(v)@) == resolv_named(resolvs_view(old(v)@), name@),
{
    let ghost o = resolvs_view(v@);
    if v.len() > 0 && v[0].is_default {
        let logged = v[0].logged;
        v.set(0, ResolvC { is_default: false, logged, name });
        assert(resolvs_view(v@) =~= o.update(0, ResolvView { is_default: false, name: name@, ..o[0] }));
    } else {
        v.push(ResolvC { is_default: false, logged: false, name });
        assert(resolvs_view(v@) =~= o.push(ResolvView { is_default: false, logged: false, name: name@ }));
    }
}

/// The listening addresses of a value (see `listen_acc`), added to
/// `v`; whether one did not parse.
fn add_listen(v: &mut Vec<Iname>, a: &[char]) -> (bad: bool)
    ensures
        ({
            let ps = pieces(a@, ',');
            let (xs, b) = listen_acc(ps, ps.len() as int);
            inames_view(final(v)@) == inames_view(old(v)@) + xs && bad == b
        }),
{
    let ps = split_on(a, ',');
    let ghost pv = pieces(a@, ',');
    let ghost o = inames_view(v@);
    assert(vecs_view(ps@).len() == ps@.len());
    let mut i: usize = 0;
    assert(o + Seq::<InameView>::empty() =~= o);
    while i < ps.len()
        invariant
            i <= ps@.len(),
            pv == pieces(a@, ','),
            vecs_view(ps@) == pv,
            pv.len() == ps@.len(),
            !listen_acc(pv, i as int).1,
            o == inames_view(old(v)@),
            inames_view(v@) == o + listen_acc(pv, i as int).0,
        decreases ps.len() - i,
    {
        assert(ps@[i as int]@ == pv[i as int]);
        match parse_sock_or_ip(ps[i].as_slice()) {
            Some(x) => {
                let ghost before = inames_view(v@);
                push_iname(v, Iname { name: String::new(), addr: x, found: false });
                assert(o + listen_acc(pv, i + 1).0 =~= before.push(InameView { name: seq![], addr: x, found: false }));
            },
            None => {
                proof {
                    assert(listen_acc(pv, i + 1) == (listen_acc(pv, i as int).0, true));
                    lemma_listen_bad(pv, i + 1, pv.len() as int);
                    assert(listen_acc(pv, pv.len() as int) == listen_acc(pv, i + 1));
                }
                return true;
            },
        }
        i += 1;
    }
    false
}

/// Once a piece does not parse, the addresses read stay as they were.
proof fn lemma_listen_bad(ps: Seq<Seq<char>>, m: int, n: int)
    requires
        0 < m <= n <= ps.len(),
        listen_acc(ps, m).1,
    ensures
        listen_acc(ps, n) == listen_acc(ps, m),
    decreases n - m,
{
    if m < n {
        lemma_listen_bad(ps, m, n - 1);
    }
}

/// Applies an option with value `a` (see `apply_option`).
fn apply_option_exec(config: &mut Config, k: OptKind, a: &[char]) -> (r: Result<(), LineError>)
    requires
        !option_panics(k, a@),
    ensures
        apply_option(k, a@, old(config)@) == outcome_of(r, final(config)@),
{
    match k {
        OptKind::Flag(f) => {
            config.options = config.options | f;
        },
        OptKind::PidFile => {
            config.runfile = string_from_chars(a);
        },
        OptKind::ResolvFile => {
            name_resolv(&mut config.resolv, string_from_chars(a));
        },
        OptKind::MxHost => {
            if canonical_chars(a) {
                config.mxname = string_from_chars(a);
            } else {
                config.options = OPT_ERROR;
            }
        },
        OptKind::CacheSize => match parse_dec(a, usize::MAX as u64) {
            Some(n) => {
                config.cache_size = if n > MAX_CACHE as u64 {
                    MAX_CACHE
                } else {
                    n as usize
                };
            },
            None => {
                return Err(LineError::BadCacheSize);
            },
        },
        OptKind::MxTarget => {
            if canonical_chars(a) {
                config.mxtarget = string_from_chars(a);
            } else {
                config.options = OPT_ERROR;
            }
        },
        OptKind::LeaseFile => {
            config.lease_file = string_from_chars(a);
        },
        OptKind::AddnHosts => {
            if config.addn_hosts.len() > 0 {
                config.options = OPT_ERROR;
            } else {
                push_string(&mut config.addn_hosts, string_from_chars(a));
            }
        },
        OptKind::Domain => {
            if canonical_chars(a) {
                config.domain_suffix = Some(string_from_chars(a));
            } else {
                config.options = OPT_ERROR;
            }
        },
        OptKind::User => {
            config.username = string_from_chars(a);
        },
        OptKind::Group => {
            config.groupname = string_from_chars(a);
        },
        OptKind::Interface => {
            push_iname(
                &mut config.if_names,
                Iname { name: string_from_chars(a), addr: MySockAddr { ip: AllAddr::V4(0), port: 0 }, found: false },
            );
        },
        OptKind::ExceptInterface => {
            push_iname(
                &mut config.if_except,
                Iname { name: string_from_chars(a), addr: MySockAddr { ip: AllAddr::V4(0), port: 0 }, found: false },
            );
        },
        OptKind::BogusNxdomain => match parse_ipv4(a) {
            Some(x) => {
                config.bogus_addr.push(BogusAddr { addr: x });
            },
            None => {
                config.options = OPT_ERROR;
            },
        },
        OptKind::ListenAddress => {
            if add_listen(&mut config.if_addrs, a) {
                return Err(LineError::BadListenAddress);
            }
        },
        OptKind::Server | OptKind::Local | OptKind::Address => {
            let is_address = match k {
                OptKind::Address => true,
                _ => false,
            };
            let sa = read_server_arg(a, is_address);
            if sa.opt_error {
                config.options = OPT_ERROR;
            }
            if sa.bad_arg {
                return Err(LineError::BadArgument);
            }
            if sa.bad_ip {
                return Err(LineError::BadServerAddress);
            }
            push_server_first(&mut config.serv_addrs, sa.server);
        },
        OptKind::Port => match parse_dec(a, 65535) {
            Some(n) => {
                config.port = n as u16;
            },
            None => {
                return Err(LineError::BadPort);
            },
        },
        OptKind::QueryPort => match parse_dec(a, 65535) {
            Some(n) => {
                config.query_port = n as u16;
            },
            None => {
                return Err(LineError::BadQueryPort);
            },
        },
        OptKind::LocalTtl => match parse_dec(a, 0xffff_ffff) {
            Some(n) => {
                config.local_ttl = n as u32;
            },
            None => {
                return Err(LineError::BadLocalTtl);
            },
        },
        OptKind::DhcpRange => {
            let (ctx, bad) = read_range_arg(a);
            if bad {
                config.options = OPT_ERROR;
            }
            push_context(&mut config.dhcp, ctx);
        },
        OptKind::DhcpHost => {
            let (cfg, bad) = read_host_arg(a);
            if bad {
                config.options = OPT_ERROR;
            }
            push_host(&mut config.dhcp_configs, cfg);
        },
        OptKind::DhcpOption => {
            let (opt, bad) = read_dhcp_opt_arg(a);
            if bad {
                config.options = OPT_ERROR;
            }
            push_opt(&mut config.dhcp_options, opt);
        },
        OptKind::DhcpBoot => {
            let b = read_boot_arg(a);
            config.dhcp_file = b.file;
            if b.sname.is_some() {
                config.dhcp_sname = b.sname;
            }
            match b.next {
                Some(x) => {
                    config.dhcp_next_server = x;
                },
                None => {},
            }
            if b.bad {
                config.options = OPT_ERROR;
            }
        },
        OptKind::Unknown => {},
    }
    Ok(())
}

/// Reads one line of the configuration file into `config` (see
/// `line_outcome`).
pub fn parse_line(line: &str, config: &mut Config) -> (r: Result<(), LineError>)
    requires
        !line_panics(line@),
    ensures
        line_outcome(line@, old(config)@) == outcome_of(r, final(config)@),
{
    let chars = str_chars(line);
    let w = match first_word_exec(chars.as_slice()) {
        None => {
            return Err(LineError::Blank);
        },
        Some(w) => w,
    };
    let (o, a) = option_parts_exec(w.as_slice());
    let k = option_kind_of(o.as_slice());
    match apply_option_exec(config, k, a.as_slice()) {
        Err(e) => {
            return Err(e);
        },
        Ok(()) => {},
    }
    if config.options == OPT_ERROR {
        return Err(LineError::BadArgument);
    }
    Ok(())
}

/// Tells whether reading the line would panic (see `line_panics`).
pub fn line_would_panic(line: &str) -> (b: bool)
    ensures
        b == line_panics(line@),
{
    let chars = str_chars(line);
    let w = match first_word_exec(chars.as_slice()) {
        None => {
            return false;
        },
        Some(w) => w,
    };
    let (o, a) = option_parts_exec(w.as_slice());
    match option_kind_of(o.as_slice()) {
        OptKind::DhcpRange => crate::confargs::range_would_panic(a.as_slice()),
        OptKind::DhcpHost => crate::confargs::host_would_panic(a.as_slice()),
        _ => false,
    }
}


// ---------------------------------------------------------------------
// The configuration file
// ---------------------------------------------------------------------

/// The text without its leading white space (see `spec_is_whitespace`).
pub open spec fn trim_start(s: Seq<char>) -> Seq<char>
    decreases s.len(),
{
    if s.len() > 0 && spec_is_whitespace(s[0]) {
        trim_start(s.drop_first())
    } else {
        s
    }
}

/// A line that is skipped: an empty one, or a comment (its first
/// character other than white space is `#`).
pub open spec fn is_skipped(line: Seq<char>) -> bool {
    line.len() == 0 || (trim_start(line).len() > 0 && trim_start(line)[0] == '#')
}

/// What reading the lines of a configuration file does.
pub enum FileOutcome {
    Panic,
    Done(ConfigView),
    /// The line at this index is refused.
    Fail(int, LineError),
}

/// Reading the first `n` lines, from the configuration `c0`.
pub open spec fn file_outcome(lines: Seq<Seq<char>>, n: int, c0: ConfigView) -> FileOutcome
    decreases n,
{
    if n <= 0 || n > lines.len() {
        FileOutcome::Done(c0)
    } else {
        match file_outcome(lines, n - 1, c0) {
            FileOutcome::Done(c) => {
                if is_skipped(lines[n - 1]) {
                    FileOutcome::Done(c)
                } else {
                    match line_outcome(lines[n - 1], c) {
                        LineOutcome::Panic => FileOutcome::Panic,
                        LineOutcome::Done(c2) => FileOutcome::Done(c2),
                        LineOutcome::Fail(_, e) => FileOutcome::Fail(n - 1, e),
                    }
                }
            },
            other => other,
        }
    }
}

/// The configuration a file gives: the defaults with the default file of
/// upstream servers, then each line that is not skipped, in order, up to
/// the first refused.
pub open spec fn config_file_outcome(lines: Seq<Seq<char>>) -> FileOutcome {
    let c0 = ConfigView {
        resolv: seq![ResolvView { is_default: true, logged: false, name: RESOLVFILE@ }],
        ..default_config()
    };
    file_outcome(lines, lines.len() as int, c0)
}

/// Tells whether a line is skipped (see `is_skipped`).
fn line_skipped(line: &str) -> (b: bool)
    ensures
        b == is_skipped(line@),
{
    let chars = str_chars(line);
    if chars.len() == 0 {
        return true;
    }
    let mut i: usize = 0;
    assert(chars@.skip(0) =~= chars@);
    while i < chars.len()
        invariant
            chars@ == line@,
            i <= chars@.len(),
            trim_start(line@) == trim_start(chars@.skip(i as int)),
        decreases chars.len() - i,
    {
        let c = chars[i];
        proof {
            assert(chars@.skip(i as int)[0] == c);
            assert(chars@.skip(i as int).drop_first() =~= chars@.skip(i + 1));
        }
        if !is_white(c) {
            return c == '#';
        }
        i += 1;
    }
    assert(chars@.skip(i as int).len() == 0);
    false
}

/// Whether a character is white space (see `spec_is_whitespace`).
pub(crate) fn is_white(c: char) -> (b: bool)
    ensures
        b == spec_is_whitespace(c),
{
    let u: u32 = c as u32;
    (9 <= u && u <= 13) || u == 32 || u == 0x85 || u == 0xA0 || u == 0x1680 || (0x2000 <= u && u <= 0x200A) || u
        == 0x2028 || u == 0x2029 || u == 0x202F || u == 0x205F || u == 0x3000
}

pub open spec fn lines_view(lines: Seq<String>) -> Seq<Seq<char>> {
    lines.map_values(|x: String| x@)
}

/// Reads the lines of a configuration file (see `config_file_outcome`):
/// the configuration, or the index of the line refused and why.
pub fn parse_config_lines(lines: &Vec<String>) -> (r: Result<Config, (usize, LineError)>)
    requires
        !(config_file_outcome(lines_view(lines@)) is Panic),
    ensures
        (match config_file_outcome(lines_view(lines@)) {
            FileOutcome::Done(c) => r matches Ok(cfg) && cfg@ == c,
            FileOutcome::Fail(k, e) => r matches Err(x) && x.0 == k && x.1 == e,
            FileOutcome::Panic => false,
        }),
{
    let ghost lv = lines_view(lines@);
    let mut config = Config::default();
    config_default(&mut config);
    let ghost c0 = config@;
    assert(c0.resolv =~= seq![ResolvView { is_default: true, logged: false, name: RESOLVFILE@ }]);
    proof {
        lemma_file_prefix(lv, lv.len() as int, c0);
    }
    let mut i: usize = 0;
    while i < lines.len()
        invariant
            i <= lines@.len(),
            lv == lines_view(lines@),
            lv.len() == lines@.len(),
            forall|n: int| 0 <= n <= lv.len() ==> !(#[trigger] file_outcome(lv, n, c0) is Panic),
            file_outcome(lv, lv.len() as int, c0) == config_file_outcome(lv),
            file_outcome(lv, i as int, c0) == FileOutcome::Done(config@),
        decreases lines.len() - i,
    {
        let line: &str = lines[i].as_str();
        assert(line@ == lv[i as int]);
        if !line_skipped(line) {
            proof {
                lemma_line_panics(line@, config@);
                assert(!(file_outcome(lv, i + 1, c0) is Panic));
            }
            match parse_line(line, &mut config) {
                Ok(()) => {},
                Err(e) => {
                    proof {
                        lemma_file_fail(lv, i + 1, lv.len() as int, c0);
                    }
                    return Err((i, e));
                },
            }
        }
        i += 1;
    }
    Ok(config)
}

/// Once a line is refused, the outcome stays that refusal.
proof fn lemma_file_fail(lines: Seq<Seq<char>>, m: int, n: int, c0: ConfigView)
    requires
        0 < m <= n <= lines.len(),
        file_outcome(lines, m, c0) is Fail,
    ensures
        file_outcome(lines, n, c0) == file_outcome(lines, m, c0),
    decreases n - m,
{
    if m < n {
        lemma_file_fail(lines, m, n - 1, c0);
    }
}

/// When reading all lines does not panic, no shorter prefix does.
proof fn lemma_file_prefix(lines: Seq<Seq<char>>, n: int, c0: ConfigView)
    requires
        0 <= n <= lines.len(),
    ensures
        !(file_outcome(lines, n, c0) is Panic) ==> forall|k: int| 0 <= k <= n ==> !(#[trigger] file_outcome(lines, k, c0) is Panic),
    decreases n,
{
    if n > 0 {
        lemma_file_prefix(lines, n - 1, c0);
    }
}

/// Tells whether reading the lines of a configuration file would panic.
#[verifier::rlimit(50)]
pub fn config_lines_would_panic(lines: &Vec<String>) -> (b: bool)
    ensures
        b == (config_file_outcome(lines_view(lines@)) is Panic),
{
    let ghost lv = lines_view(lines@);
    let mut config = Config::default();
    config_default(&mut config);
    let ghost c0 = config@;
    assert(c0.resolv =~= seq![ResolvView { is_default: true, logged: false, name: RESOLVFILE@ }]);
    let mut i: usize = 0;
    while i < lines.len()
        invariant
            i <= lines@.len(),
            lv == lines_view(lines@),
            lv.len() == lines@.len(),
            config_file_outcome(lv) == file_outcome(lv, lv.len() as int, c0),
            file_outcome(lv, i as int, c0) == FileOutcome::Done(config@),
        decreases lines.len() - i,
    {
        let line: &str = lines[i].as_str();
        assert(line@ == lv[i as int]);
        if !line_skipped(line) {
            proof {
                lemma_line_panics(line@, config@);
            }
            if line_would_panic(line) {
                proof {
                    lemma_file_panic(lv, i + 1, lv.len() as int, c0);
                }
                return true;
            }
            match parse_line(line, &mut config) {
                Ok(()) => {},
                Err(_) => {
                    proof {
                        lemma_file_fail(lv, i + 1, lv.len() as int, c0);
                    }
                    return false;
                },
            }
        }
        i += 1;
    }
    false
}

/// Once a line panics, the outcome stays a panic.
proof fn lemma_file_panic(lines: Seq<Seq<char>>, m: int, n: int, c0: ConfigView)
    requires
        0 < m <= n <= lines.len(),
        file_outcome(lines, m, c0) is Panic,
    ensures
        file_outcome(lines, n, c0) is Panic,
    decreases n - m,
{
    if m < n {
        lemma_file_panic(lines, m, n - 1, c0);
    }
}


// ---------------------------------------------------------------------
// The command line
// ---------------------------------------------------------------------

/// The options given on the command line.
pub struct Args {
    pub conf_file: Option<String>,
    pub listen_address: Option<Vec<String>>,
    pub address: Option<Vec<String>>,
    pub bogus_priv: bool,
    pub bogus_nxdomain: Option<Vec<String>>,
    pub cache_size: Option<i32>,
    pub no_daemon: bool,
    pub domain_needed: bool,
    pub selfmx: bool,
    pub expand_hosts: bool,
    pub group: Option<String>,
    pub dhcp_host: Option<String>,
    pub no_hosts: bool,
    pub hosts: Option<Vec<String>>,
    pub interface: Option<Vec<String>>,
    pub except_interface: Option<Vec<String>>,
    pub leasefile: Option<String>,
    pub localmx: bool,
    pub mx_host: Option<String>,
    pub dhcp_boot: Option<String>,
    pub no_poll: bool,
    pub no_negcache: bool,
    pub strict_order: bool,
    pub dhcp_option: Option<Vec<String>>,
    pub port: Option<u16>,
    pub log_queries: bool,
    pub query_port: Option<u16>,
    pub no_resolv: bool,
    pub resolv_file: Option<Vec<String>>,
    pub server: Option<Vec<String>>,
    pub local: Option<String>,
    pub local_domain: Option<String>,
    pub mx_target: Option<String>,
    pub local_ttl: Option<u32>,
    pub user: Option<String>,
    pub version: bool,
    pub help: bool,
    pub pid_file: Option<String>,
    pub dhcp_range: Option<Vec<String>>,
}

/// The texts of an optional list; none is an empty list.
pub open spec fn list_view(o: Option<Vec<String>>) -> Seq<Seq<char>> {
    match o {
        Some(v) => strings_view(v@),
        None => seq![],
    }
}

/// The flags the command line sets.
pub open spec fn args_flags(a: Args) -> u32 {
    (if a.bogus_priv { OPT_BOGUSPRIV } else { 0 }) | (if a.no_daemon { OPT_DEBUG } else { 0 }) | (if a.domain_needed {
        OPT_NODOTS_LOCAL
    } else {
        0
    }) | (if a.selfmx { OPT_SELFMX } else { 0 }) | (if a.expand_hosts { OPT_EXPAND } else { 0 }) | (if a.no_hosts {
        OPT_NO_HOSTS
    } else {
        0
    }) | (if a.localmx { OPT_LOCALMX } else { 0 }) | (if a.no_poll { OPT_NO_POLL } else { 0 }) | (if a.no_negcache {
        OPT_NO_NEG
    } else {
        0
    }) | (if a.strict_order { OPT_ORDER } else { 0 }) | (if a.no_resolv { OPT_NO_RESOLV } else { 0 }) | (
    if a.log_queries {
        OPT_LOG
    } else {
        0
    })
}

/// The listening addresses given, in turn: those that parse are added.
pub open spec fn listen_ok(c: Seq<InameView>, xs: Seq<Seq<char>>) -> Seq<InameView>
    decreases xs.len(),
{
    if xs.len() == 0 {
        c
    } else {
        let r = listen_ok(c, xs.drop_last());
        match spec_sock_or_ip(xs.last()) {
            Some(x) => r.push(InameView { name: seq![], addr: x, found: false }),
            None => r,
        }
    }
}

/// One server option from the command line (see `server_arg`): a bad
/// domain or port marks the configuration, an `address` without a domain
/// stops everything; otherwise the server goes first, even when its
/// address does not parse.
pub open spec fn server_opt(c: ConfigView, x: Seq<char>, is_address: bool) -> (ConfigView, bool) {
    let sa = server_arg(x, is_address);
    let c1 = with_error(c, sa.opt_error);
    if sa.bad_arg {
        (c1, true)
    } else {
        (ConfigView { serv_addrs: seq![sa.server] + c1.serv_addrs, ..c1 }, false)
    }
}

/// Server options in turn, up to one that stops everything.
pub open spec fn server_opts(c: ConfigView, xs: Seq<Seq<char>>, is_address: bool) -> (ConfigView, bool)
    decreases xs.len(),
{
    if xs.len() == 0 {
        (c, false)
    } else {
        let (c1, stop) = server_opts(c, xs.drop_last(), is_address);
        if stop {
            (c1, true)
        } else {
            server_opt(c1, xs.last(), is_address)
        }
    }
}

/// Names in turn, each added with no address.
pub open spec fn ifaces_added(c: Seq<InameView>, xs: Seq<Seq<char>>) -> Seq<InameView> {
    c + xs.map_values(|x: Seq<char>| new_iface(x))
}

/// The settings that take one value or a list of names, and the flags.
pub open spec fn merge_simple(c: ConfigView, a: Args) -> ConfigView {
    ConfigView {
        options: c.options | args_flags(a),
        cache_size: match a.cache_size {
            Some(n) => n as usize,
            None => c.cache_size,
        },
        port: match a.port {
            Some(n) => n,
            None => c.port,
        },
        query_port: match a.query_port {
            Some(n) => n,
            None => c.query_port,
        },
        local_ttl: match a.local_ttl {
            Some(n) => n,
            None => c.local_ttl,
        },
        username: match a.user {
            Some(u) => u@,
            None => c.username,
        },
        groupname: match a.group {
            Some(g) => g@,
            None => c.groupname,
        },
        if_names: ifaces_added(c.if_names, list_view(a.interface)),
        if_except: ifaces_added(c.if_except, list_view(a.except_interface)),
        addn_hosts: c.addn_hosts + list_view(a.hosts),
        mxname: match a.mx_host {
            Some(m) => m@,
            None => c.mxname,
        },
        mxtarget: match a.mx_target {
            Some(m) => m@,
            None => c.mxtarget,
        },
        domain_suffix: match a.local_domain {
            Some(d) => Some(d@),
            None => c.domain_suffix,
        },
        ..c
    }
}

/// The addresses given as bogus that parse.
pub open spec fn bogus_ok(c: Seq<BogusAddr>, xs: Seq<Seq<char>>) -> Seq<BogusAddr>
    decreases xs.len(),
{
    if xs.len() == 0 {
        c
    } else {
        let r = bogus_ok(c, xs.drop_last());
        match spec_parse_ipv4(xs.last()) {
            Some(x) => r.push(BogusAddr { addr: x }),
            None => r,
        }
    }
}

/// The files of upstream servers named, each taking the place of the
/// default one when that is first (see `resolv_named`).
pub open spec fn resolvs_named(c: Seq<ResolvView>, xs: Seq<Seq<char>>) -> Seq<ResolvView>
    decreases xs.len(),
{
    if xs.len() == 0 {
        c
    } else {
        resolv_named(resolvs_named(c, xs.drop_last()), xs.last())
    }
}

/// The files of upstream servers, the bogus addresses, the query port
/// again, the process id file and the lease file.  The files of upstream
/// servers are added once as they are, then named again one by one.
pub open spec fn merge_files(c: ConfigView, a: Args) -> ConfigView {
    let fresh = list_view(a.resolv_file).map_values(|x: Seq<char>| ResolvView { is_default: false, logged: false, name: x });
    ConfigView {
        bogus_addr: bogus_ok(c.bogus_addr, list_view(a.bogus_nxdomain)),
        resolv: resolvs_named(c.resolv + fresh, list_view(a.resolv_file)),
        runfile: match a.pid_file {
            Some(f) => f@,
            None => c.runfile,
        },
        lease_file: match a.leasefile {
            Some(f) => f@,
            None => c.lease_file,
        },
        ..c
    }
}

/// The ranges given, in turn (see `range_arg`; nothing marks the
/// configuration).
pub open spec fn ranges_added(c: Seq<ContextView>, xs: Seq<Seq<char>>) -> Seq<ContextView> {
    c + xs.map_values(|x: Seq<char>| range_arg(x).ctx)
}

/// The DHCP options given, in turn (see `dhcp_opt_arg`).
pub open spec fn dhcp_opts_added(c: Seq<OptView>, xs: Seq<Seq<char>>) -> Seq<OptView> {
    c + xs.map_values(|x: Seq<char>| dhcp_opt_arg(x).0)
}

/// The DHCP settings: ranges, a host, options and the boot settings.
pub open spec fn merge_dhcp(c: ConfigView, a: Args) -> ConfigView {
    let c1 = ConfigView {
        dhcp: ranges_added(c.dhcp, list_view(a.dhcp_range)),
        dhcp_configs: match a.dhcp_host {
            Some(h) => c.dhcp_configs.push(host_arg(h@).1),
            None => c.dhcp_configs,
        },
        dhcp_options: dhcp_opts_added(c.dhcp_options, list_view(a.dhcp_option)),
        ..c
    };
    match a.dhcp_boot {
        Some(b) => {
            let ba = boot_arg(b@);
            ConfigView {
                dhcp_file: ba.file,
                dhcp_sname: if ba.sname is Some {
                    ba.sname
                } else {
                    c1.dhcp_sname
                },
                dhcp_next_server: match ba.next {
                    Some(x) => x,
                    None => c1.dhcp_next_server,
                },
                ..c1
            }
        },
        None => c1,
    }
}

/// Whether the command line makes the reader panic: a range whose lease
/// time overflows, or a host argument that panics.
pub open spec fn args_panic(a: Args) -> bool {
    ||| exists|k: int| 0 <= k < list_view(a.dhcp_range).len() && range_panics(#[trigger] list_view(a.dhcp_range)[k])
    ||| (a.dhcp_host matches Some(h) && host_arg(h@).0)
}

/// The servers' source ports and the listening ports: a server without
/// a source address of its own sends from the query port, and every
/// listening address takes the DNS port.
pub open spec fn merge_ports(c: ConfigView) -> ConfigView {
    ConfigView {
        serv_addrs: c.serv_addrs.map_values(|s: ServerView| sent_from(s, c.query_port)),
        if_addrs: c.if_addrs.map_values(|i: InameView| InameView { addr: MySockAddr { port: c.port, ..i.addr }, ..i }),
        ..c
    }
}

/// A server without a source address of its own sends from port `qp`.
pub open spec fn sent_from(s: ServerView, qp: u16) -> ServerView {
    if s.flags & crate::dnsmasq::SERV_HAS_SOURCE == 0 {
        ServerView { source_addr: MySockAddr { port: qp, ..s.source_addr }, ..s }
    } else {
        s
    }
}

/// Why the command line is refused.
#[derive(Clone, Copy, Debug, PartialEq, Eq, Structural)]
pub enum MergeError {
    /// An `address` without a domain.
    BadAddress,
    /// A name for MX records is needed and the machine's name cannot be
    /// had.
    NoHostname,
    /// More than one file of upstream servers while they are not polled.
    OneResolvOnly,
}

/// What laying the command line over the configuration does.
pub enum MergeOutcome {
    Done(ConfigView),
    Fail(ConfigView, MergeError),
}

/// Everything before the machine's name is asked for: the listening
/// addresses, the `address` options (which may stop everything), the
/// single settings and flags, the servers and the local domain, the
/// files and bogus addresses, the DHCP settings, and the ports.
pub open spec fn merge_before_host(c: ConfigView, a: Args) -> (ConfigView, bool) {
    let c1 = ConfigView { if_addrs: listen_ok(c.if_addrs, list_view(a.listen_address)), ..c };
    let (c2, stop) = server_opts(c1, list_view(a.address), true);
    if stop {
        (c2, true)
    } else {
        let c3 = merge_simple(c2, a);
        let (c4, _) = server_opts(c3, list_view(a.server), false);
        let (c5, _) = match a.local {
            Some(l) => server_opt(c4, l@, false),
            None => (c4, false),
        };
        (merge_ports(merge_dhcp(merge_files(c5, a), a)), false)
    }
}

/// Whether the machine's name is needed: MX records for local hosts are
/// asked for, or an MX name or target is given.
pub open spec fn needs_host(c: ConfigView) -> bool {
    c.options & OPT_LOCALMX != 0 || c.mxname.len() > 0 || c.mxtarget.len() > 0
}

/// The end of the merge, given the machine's name `host` when it is
/// needed: an MX name or target not given is the machine's name, and
/// none being had refuses the command line; then no file of upstream
/// servers is kept when they are not to be read, and more than one is
/// refused when they are not polled.
pub open spec fn merge_finish(c: ConfigView, host: Option<Seq<char>>) -> MergeOutcome {
    let named = if needs_host(c) {
        match host {
            Some(h) => Some(
                ConfigView {
                    mxname: if c.mxname.len() == 0 {
                        h
                    } else {
                        c.mxname
                    },
                    mxtarget: if c.mxtarget.len() == 0 {
                        h
                    } else {
                        c.mxtarget
                    },
                    ..c
                },
            ),
            None => None,
        }
    } else {
        Some(c)
    };
    match named {
        None => MergeOutcome::Fail(c, MergeError::NoHostname),
        Some(c1) => if c1.options & OPT_NO_RESOLV != 0 {
            MergeOutcome::Done(ConfigView { resolv: seq![], ..c1 })
        } else if c1.resolv.len() > 1 && c1.options & OPT_NO_POLL != 0 {
            MergeOutcome::Fail(c1, MergeError::OneResolvOnly)
        } else {
            MergeOutcome::Done(c1)
        },
    }
}

/// Laying the command line over the configuration (the machine's name
/// being `host` when it is asked for).
pub open spec fn merge_outcome(c: ConfigView, a: Args, host: Option<Seq<char>>) -> MergeOutcome {
    let (c1, stop) = merge_before_host(c, a);
    if stop {
        MergeOutcome::Fail(c1, MergeError::BadAddress)
    } else {
        merge_finish(c1, host)
    }
}

/// The outcome of a merge that returned `r` and left `c`.
pub open spec fn merge_result(r: Result<(), MergeError>, c: ConfigView) -> MergeOutcome {
    match r {
        Ok(_) => MergeOutcome::Done(c),
        Err(e) => MergeOutcome::Fail(c, e),
    }
}

/// `hostname::get`: the name of this machine, read as text (bytes that
/// are not UTF-8 replaced); none when it cannot be had.  Nothing is
/// stated of the name, which depends on the machine.
#[verifier::external_body]
pub(crate) fn host_name() -> (r: Option<String>) {
    match hostname::get() {
        Ok(h) => Some(h.to_string_lossy().into_owned()),
        Err(_) => None,
    }
}


fn flags_of_args(a: &Args) -> (f: u32)
    ensures
        f == args_flags(*a),
{
    (if a.bogus_priv { OPT_BOGUSPRIV } else { 0 }) | (if a.no_daemon { OPT_DEBUG } else { 0 }) | (if a.domain_needed {
        OPT_NODOTS_LOCAL
    } else {
        0
    }) | (if a.selfmx { OPT_SELFMX } else { 0 }) | (if a.expand_hosts { OPT_EXPAND } else { 0 }) | (if a.no_hosts {
        OPT_NO_HOSTS
    } else {
        0
    }) | (if a.localmx { OPT_LOCALMX } else { 0 }) | (if a.no_poll { OPT_NO_POLL } else { 0 }) | (if a.no_negcache {
        OPT_NO_NEG
    } else {
        0
    }) | (if a.strict_order { OPT_ORDER } else { 0 }) | (if a.no_resolv { OPT_NO_RESOLV } else { 0 }) | (
    if a.log_queries {
        OPT_LOG
    } else {
        0
    })
}

/// A copy of a string.
pub(crate) fn copy_string(s: &String) -> (r: String)
    ensures
        r@ == s@,
{
    string_from_chars(str_chars(s.as_str()).as_slice())
}

impl Config {
    fn merge_listen(&mut self, xs: &Option<Vec<String>>)
        ensures
            final(self)@ == (ConfigView { if_addrs: listen_ok(old(self)@.if_addrs, list_view(*xs)), ..old(self)@ }),
    {
        match xs {
            None => {},
            Some(v) => {
                let ghost sv = strings_view(v@);
                let ghost o = old(self)@;
                let mut i: usize = 0;
                assert(sv.take(0) =~= Seq::<Seq<char>>::empty());
                while i < v.len()
                    invariant
                        i <= v@.len(),
                        sv == strings_view(v@),
                        sv.len() == v@.len(),
                        o == old(self)@,
                        self@ == (ConfigView { if_addrs: listen_ok(o.if_addrs, sv.take(i as int)), ..o }),
                    decreases v.len() - i,
                {
                    let ghost before = self@;
                    proof {
                        assert(sv.take(i + 1).drop_last() =~= sv.take(i as int));
                        assert(sv.take(i + 1).last() == v@[i as int]@);
                    }
                    let cs = str_chars(v[i].as_str());
                    match parse_sock_or_ip(cs.as_slice()) {
                        Some(x) => {
                            push_iname(&mut self.if_addrs, Iname { name: String::new(), addr: x, found: false });
                        },
                        None => {},
                    }
                    i += 1;
                }
                assert(sv.take(i as int) =~= sv);
            },
        }
    }

    fn merge_one_server(&mut self, x: &String, is_address: bool) -> (stop: bool)
        ensures
            (final(self)@, stop) == server_opt(old(self)@, x@, is_address),
    {
        let cs = str_chars(x.as_str());
        let sa = read_server_arg(cs.as_slice(), is_address);
        if sa.opt_error {
            self.options = OPT_ERROR;
        }
        if sa.bad_arg {
            return true;
        }
        push_server_first(&mut self.serv_addrs, sa.server);
        false
    }

    fn merge_servers(&mut self, xs: &Option<Vec<String>>, is_address: bool) -> (stop: bool)
        ensures
            (final(self)@, stop) == server_opts(old(self)@, list_view(*xs), is_address),
    {
        match xs {
            None => false,
            Some(v) => {
                let ghost sv = strings_view(v@);
                let ghost o = old(self)@;
                let mut i: usize = 0;
                assert(sv.take(0) =~= Seq::<Seq<char>>::empty());
                while i < v.len()
                    invariant
                        i <= v@.len(),
                        sv == strings_view(v@),
                        sv.len() == v@.len(),
                        o == old(self)@,
                        list_view(*xs) == sv,
                        server_opts(o, sv.take(i as int), is_address) == (self@, false),
                    decreases v.len() - i,
                {
                    proof {
                        assert(sv.take(i + 1).drop_last() =~= sv.take(i as int));
                        assert(sv.take(i + 1).last() == v@[i as int]@);
                    }
                    if self.merge_one_server(&v[i], is_address) {
                        proof {
                            assert(server_opts(o, sv.take(i + 1), is_address) == (self@, true));
                            lemma_server_opts_stop(o, sv, i + 1, sv.len() as int, is_address);
                            assert(sv.take(sv.len() as int) =~= sv);
                            assert(list_view(*xs) == sv);
                            assert(server_opts(o, sv, is_address) == (self@, true));
                        }
                        return true;
                    }
                    i += 1;
                }
                assert(sv.take(i as int) =~= sv);
                false
            },
        }
    }
}

/// Once a server option stops everything, later ones change nothing.
proof fn lemma_server_opts_stop(c: ConfigView, xs: Seq<Seq<char>>, m: int, n: int, is_address: bool)
    requires
        0 < m <= n <= xs.len(),
        server_opts(c, xs.take(m), is_address).1,
    ensures
        server_opts(c, xs.take(n), is_address) == server_opts(c, xs.take(m), is_address),
    decreases n - m,
{
    if m < n {
        lemma_server_opts_stop(c, xs, m, n - 1, is_address);
        assert(xs.take(n).drop_last() =~= xs.take(n - 1));
    } else {
        assert(xs.take(n) =~= xs.take(m));
    }
}


/// Adds names with no address (see `ifaces_added`).
fn add_ifaces(v: &mut Vec<Iname>, xs: &Option<Vec<String>>)
    ensures
        inames_view(final(v)@) == ifaces_added(inames_view(old(v)@), list_view(*xs)),
{
    let ghost o = inames_view(v@);
    match xs {
        None => {
            assert(ifaces_added(o, seq![]) =~= o);
        },
        Some(names) => {
            let ghost sv = strings_view(names@);
            let mut i: usize = 0;
            assert(o + sv.take(0).map_values(|x: Seq<char>| new_iface(x)) =~= o);
            while i < names.len()
                invariant
                    i <= names@.len(),
                    sv == strings_view(names@),
                    sv.len() == names@.len(),
                    o == inames_view(old(v)@),
                    inames_view(v@) == o + sv.take(i as int).map_values(|x: Seq<char>| new_iface(x)),
                decreases names.len() - i,
            {
                let ghost before = inames_view(v@);
                push_iname(
                    v,
                    Iname { name: copy_string(&names[i]), addr: MySockAddr { ip: AllAddr::V4(0), port: 0 }, found: false },
                );
                assert(o + sv.take(i + 1).map_values(|x: Seq<char>| new_iface(x)) =~= before.push(new_iface(sv[i as int])));
                i += 1;
            }
            assert(sv.take(i as int) =~= sv);
        },
    }
}

/// Adds copies of strings.
fn add_strings(v: &mut Vec<String>, xs: &Option<Vec<String>>)
    ensures
        strings_view(final(v)@) == strings_view(old(v)@) + list_view(*xs),
{
    let ghost o = strings_view(v@);
    match xs {
        None => {
            assert(o + Seq::<Seq<char>>::empty() =~= o);
        },
        Some(names) => {
            let ghost sv = strings_view(names@);
            let mut i: usize = 0;
            assert(o + sv.take(0) =~= o);
            while i < names.len()
                invariant
                    i <= names@.len(),
                    sv == strings_view(names@),
                    sv.len() == names@.len(),
                    o == strings_view(old(v)@),
                    strings_view(v@) == o + sv.take(i as int),
                decreases names.len() - i,
            {
                let ghost before = strings_view(v@);
                push_string(v, copy_string(&names[i]));
                assert(o + sv.take(i + 1) =~= before.push(sv[i as int]));
                i += 1;
            }
            assert(sv.take(i as int) =~= sv);
        },
    }
}

pub(crate) fn copy_opt_string(o: &Option<String>) -> (r: Option<String>)
    ensures
        opt_str_view(r) == opt_str_view(*o),
{
    match o {
        Some(x) => Some(copy_string(x)),
        None => None,
    }
}

impl Config {
    fn merge_simple_exec(&mut self, a: &Args)
        ensures
            final(self)@ == merge_simple(old(self)@, *a),
    {
        self.options = self.options | flags_of_args(a);
        match a.cache_size {
            Some(n) => {
                self.cache_size = n as usize;
            },
            None => {},
        }
        match a.port {
            Some(n) => {
                self.port = n;
            },
            None => {},
        }
        match a.query_port {
            Some(n) => {
                self.query_port = n;
            },
            None => {},
        }
        match a.local_ttl {
            Some(n) => {
                self.local_ttl = n;
            },
            None => {},
        }
        match &a.user {
            Some(u) => {
                self.username = copy_string(u);
            },
            None => {},
        }
        match &a.group {
            Some(g) => {
                self.groupname = copy_string(g);
            },
            None => {},
        }
        add_ifaces(&mut self.if_names, &a.interface);
        add_ifaces(&mut self.if_except, &a.except_interface);
        add_strings(&mut self.addn_hosts, &a.hosts);
        match &a.mx_host {
            Some(m) => {
                self.mxname = copy_string(m);
            },
            None => {},
        }
        match &a.mx_target {
            Some(m) => {
                self.mxtarget = copy_string(m);
            },
            None => {},
        }
        match &a.local_domain {
            Some(d) => {
                self.domain_suffix = Some(copy_string(d));
            },
            None => {},
        }
    }
}


impl Config {
    fn merge_files_exec(&mut self, a: &Args)
        ensures
            final(self)@ == merge_files(old(self)@, *a),
    {
        let ghost o = old(self)@;
        // bogus addresses
        match &a.bogus_nxdomain {
            None => {},
            Some(v) => {
                let ghost sv = strings_view(v@);
                let mut i: usize = 0;
                assert(sv.take(0) =~= Seq::<Seq<char>>::empty());
                while i < v.len()
                    invariant
                        i <= v@.len(),
                        sv == strings_view(v@),
                        sv.len() == v@.len(),
                        o == old(self)@,
                        self@ == (ConfigView { bogus_addr: bogus_ok(o.bogus_addr, sv.take(i as int)), ..o }),
                    decreases v.len() - i,
                {
                    proof {
                        assert(sv.take(i + 1).drop_last() =~= sv.take(i as int));
                        assert(sv.take(i + 1).last() == v@[i as int]@);
                    }
                    let cs = str_chars(v[i].as_str());
                    match parse_ipv4(cs.as_slice()) {
                        Some(x) => {
                            self.bogus_addr.push(BogusAddr { addr: x });
                        },
                        None => {},
                    }
                    i += 1;
                }
                assert(sv.take(i as int) =~= sv);
            },
        }
        let ghost o2 = self@;
        assert(o2 == ConfigView { bogus_addr: bogus_ok(o.bogus_addr, list_view(a.bogus_nxdomain)), ..o });
        // files of upstream servers: added as they are, then named again
        match &a.resolv_file {
            None => {
                assert(o.resolv + Seq::<Seq<char>>::empty().map_values(
                    |x: Seq<char>| ResolvView { is_default: false, logged: false, name: x },
                ) =~= o.resolv);
            },
            Some(v) => {
                let ghost sv = strings_view(v@);
                let ghost fresh = sv.map_values(|x: Seq<char>| ResolvView { is_default: false, logged: false, name: x });
                let mut i: usize = 0;
                assert(o.resolv + fresh.take(0) =~= o.resolv);
                while i < v.len()
                    invariant
                        i <= v@.len(),
                        sv == strings_view(v@),
                        sv.len() == v@.len(),
                        fresh == sv.map_values(|x: Seq<char>| ResolvView { is_default: false, logged: false, name: x }),
                        self@ == (ConfigView { resolv: o.resolv + fresh.take(i as int), ..o2 }),
                    decreases v.len() - i,
                {
                    let ghost before = resolvs_view(self.resolv@);
                    self.resolv.push(ResolvC { is_default: false, logged: false, name: copy_string(&v[i]) });
                    assert(resolvs_view(self.resolv@) =~= before.push(fresh[i as int]));
                    assert(o.resolv + fresh.take(i + 1) =~= before.push(fresh[i as int]));
                    i += 1;
                }
                assert(fresh.take(i as int) =~= fresh);
                let ghost base = o.resolv + fresh;
                let mut j: usize = 0;
                assert(sv.take(0) =~= Seq::<Seq<char>>::empty());
                while j < v.len()
                    invariant
                        j <= v@.len(),
                        sv == strings_view(v@),
                        sv.len() == v@.len(),
                        self@ == (ConfigView { resolv: resolvs_named(base, sv.take(j as int)), ..o2 }),
                    decreases v.len() - j,
                {
                    proof {
                        assert(sv.take(j + 1).drop_last() =~= sv.take(j as int));
                        assert(sv.take(j + 1).last() == v@[j as int]@);
                    }
                    name_resolv(&mut self.resolv, copy_string(&v[j]));
                    j += 1;
                }
                assert(sv.take(j as int) =~= sv);
            },
        }
        match &a.pid_file {
            Some(f) => {
                self.runfile = copy_string(f);
            },
            None => {},
        }
        match &a.leasefile {
            Some(f) => {
                self.lease_file = copy_string(f);
            },
            None => {},
        }
    }

    fn merge_dhcp_exec(&mut self, a: &Args)
        requires
            !args_panic(*a),
        ensures
            final(self)@ == merge_dhcp(old(self)@, *a),
    {
        let ghost o = old(self)@;
        match &a.dhcp_range {
            None => {
                assert(ranges_added(o.dhcp, seq![]) =~= o.dhcp);
            },
            Some(v) => {
                let ghost sv = strings_view(v@);
                let mut i: usize = 0;
                assert(o.dhcp + sv.take(0).map_values(|x: Seq<char>| range_arg(x).ctx) =~= o.dhcp);
                while i < v.len()
                    invariant
                        i <= v@.len(),
                        sv == strings_view(v@),
                        sv.len() == v@.len(),
                        sv == list_view(a.dhcp_range),
                        !args_panic(*a),
                        o == old(self)@,
                        self@ == (ConfigView {
                            dhcp: o.dhcp + sv.take(i as int).map_values(|x: Seq<char>| range_arg(x).ctx),
                            ..o
                        }),
                    decreases v.len() - i,
                {
                    let cs = str_chars(v[i].as_str());
                    assert(cs@ == sv[i as int]);
                    assert(!range_panics(sv[i as int]));
                    let (ctx, _bad) = read_range_arg(cs.as_slice());
                    let ghost before = contexts_view(self.dhcp@);
                    push_context(&mut self.dhcp, ctx);
                    assert(o.dhcp + sv.take(i + 1).map_values(|x: Seq<char>| range_arg(x).ctx) =~= before.push(
                        range_arg(sv[i as int]).ctx,
                    ));
                    i += 1;
                }
                assert(sv.take(i as int) =~= sv);
            },
        }
        match &a.dhcp_host {
            None => {},
            Some(h) => {
                let cs = str_chars(h.as_str());
                let (cfg, _bad) = read_host_arg(cs.as_slice());
                push_host(&mut self.dhcp_configs, cfg);
            },
        }
        let ghost o3 = self@;
        match &a.dhcp_option {
            None => {
                assert(dhcp_opts_added(o.dhcp_options, seq![]) =~= o.dhcp_options);
            },
            Some(v) => {
                let ghost sv = strings_view(v@);
                let mut i: usize = 0;
                assert(o.dhcp_options + sv.take(0).map_values(|x: Seq<char>| dhcp_opt_arg(x).0) =~= o.dhcp_options);
                while i < v.len()
                    invariant
                        i <= v@.len(),
                        sv == strings_view(v@),
                        sv.len() == v@.len(),
                        self@ == (ConfigView {
                            dhcp_options: o.dhcp_options + sv.take(i as int).map_values(|x: Seq<char>| dhcp_opt_arg(x).0),
                            ..o3
                        }),
                    decreases v.len() - i,
                {
                    let cs = str_chars(v[i].as_str());
                    assert(cs@ == sv[i as int]);
                    let (opt, _bad) = read_dhcp_opt_arg(cs.as_slice());
                    let ghost before = opts_view(self.dhcp_options@);
                    push_opt(&mut self.dhcp_options, opt);
                    assert(o.dhcp_options + sv.take(i + 1).map_values(|x: Seq<char>| dhcp_opt_arg(x).0) =~= before.push(
                        dhcp_opt_arg(sv[i as int]).0,
                    ));
                    i += 1;
                }
                assert(sv.take(i as int) =~= sv);
            },
        }
        match &a.dhcp_boot {
            None => {},
            Some(b) => {
                let cs = str_chars(b.as_str());
                let ba = read_boot_arg(cs.as_slice());
                self.dhcp_file = ba.file;
                if ba.sname.is_some() {
                    self.dhcp_sname = ba.sname;
                }
                match ba.next {
                    Some(x) => {
                        self.dhcp_next_server = x;
                    },
                    None => {},
                }
            },
        }
    }

    fn merge_ports_exec(&mut self)
        ensures
            final(self)@ == merge_ports(old(self)@),
    {
        let ghost o = old(self)@;
        let qp: u16 = self.query_port;
        let port: u16 = self.port;
        let mut servers: Vec<Server> = Vec::new();
        let mut i: usize = 0;
        while i < self.serv_addrs.len()
            invariant
                i <= self.serv_addrs@.len(),
                self@ == o,
                qp == o.query_port,
                servers_view(servers@) == o.serv_addrs.take(i as int).map_values(|s: ServerView| sent_from(s, o.query_port)),
            decreases self.serv_addrs.len() - i,
        {
            let s: &Server = &self.serv_addrs[i];
            assert(o.serv_addrs[i as int] == s@);
            let src = if s.flags & crate::dnsmasq::SERV_HAS_SOURCE == 0 {
                MySockAddr { ip: s.source_addr.ip, port: qp }
            } else {
                s.source_addr
            };
            let ghost before = servers_view(servers@);
            servers.push(Server { addr: s.addr, source_addr: src, sfd: s.sfd, domain: copy_string(&s.domain), flags: s.flags });
            assert(servers_view(servers@) =~= before.push(sent_from(o.serv_addrs[i as int], o.query_port)));
            assert(o.serv_addrs.take(i + 1).map_values(|s: ServerView| sent_from(s, o.query_port)) =~= before.push(
                sent_from(o.serv_addrs[i as int], o.query_port),
            ));
            i += 1;
        }
        assert(o.serv_addrs.take(i as int) =~= o.serv_addrs);
        let mut addrs: Vec<Iname> = Vec::new();
        let mut j: usize = 0;
        while j < self.if_addrs.len()
            invariant
                j <= self.if_addrs@.len(),
                self@ == o,
                port == o.port,
                inames_view(addrs@) == o.if_addrs.take(j as int).map_values(
                    |x: InameView| InameView { addr: MySockAddr { port: o.port, ..x.addr }, ..x },
                ),
            decreases self.if_addrs.len() - j,
        {
            let x: &Iname = &self.if_addrs[j];
            assert(o.if_addrs[j as int] == x@);
            push_iname(&mut addrs, Iname { name: copy_string(&x.name), addr: MySockAddr { ip: x.addr.ip, port }, found: x.found });
            assert(inames_view(addrs@) =~= o.if_addrs.take(j + 1).map_values(
                |x: InameView| InameView { addr: MySockAddr { port: o.port, ..x.addr }, ..x },
            ));
            j += 1;
        }
        assert(o.if_addrs.take(j as int) =~= o.if_addrs);
        self.serv_addrs = servers;
        self.if_addrs = addrs;
    }

    /// Ends laying the command line over the configuration (see
    /// `merge_finish`), given the machine's name when it is needed.
    pub fn finish_merge(&mut self, host: Option<String>) -> (r: Result<(), MergeError>)
        ensures
            merge_finish(old(self)@, opt_str_view(host)) == merge_result(r, final(self)@),
    {
        if self.options & OPT_LOCALMX != 0 || !self.mxname.as_str().is_empty() || !self.mxtarget.as_str().is_empty() {
            match host {
                None => {
                    return Err(MergeError::NoHostname);
                },
                Some(h) => {
                    if self.mxname.as_str().is_empty() {
                        self.mxname = copy_string(&h);
                    }
                    if self.mxtarget.as_str().is_empty() {
                        self.mxtarget = h;
                    }
                },
            }
        }
        if self.options & OPT_NO_RESOLV != 0 {
            self.resolv = Vec::new();
            assert(resolvs_view(self.resolv@) =~= Seq::<ResolvView>::empty());
            return Ok(());
        }
        if self.resolv.len() > 1 && self.options & OPT_NO_POLL != 0 {
            return Err(MergeError::OneResolvOnly);
        }
        Ok(())
    }

    /// Lays the command line over the configuration (see
    /// `merge_outcome`).  The machine's name is asked for only when MX
    /// records need it; what it is depends on the machine.
    pub fn merge_args(&mut self, args: &Args) -> (r: Result<(), MergeError>)
        requires
            !args_panic(*args),
        ensures
            exists|h: Option<Seq<char>>| merge_outcome(old(self)@, *args, h) == merge_result(r, final(self)@),
    {
        let ghost o = self@;
        self.merge_listen(&args.listen_address);
        if self.merge_servers(&args.address, true) {
            proof {
                assert(merge_outcome(o, *args, None) == merge_result(Err(MergeError::BadAddress), self@));
            }
            return Err(MergeError::BadAddress);
        }
        self.merge_simple_exec(args);
        self.merge_servers(&args.server, false);
        match &args.local {
            Some(l) => {
                self.merge_one_server(l, false);
            },
            None => {},
        }
        self.merge_files_exec(args);
        self.merge_dhcp_exec(args);
        self.merge_ports_exec();
        let ghost before = self@;
        let needed: bool = self.options & OPT_LOCALMX != 0 || !self.mxname.as_str().is_empty()
            || !self.mxtarget.as_str().is_empty();
        let host: Option<String> = if needed {
            host_name()
        } else {
            None
        };
        let r = self.finish_merge(host);
        proof {
            assert(merge_before_host(o, *args) == (before, false));
            assert(merge_outcome(o, *args, opt_str_view(host)) == merge_result(r, self@));
        }
        r
    }
}


/// Tells whether laying the command line over a configuration would panic
/// (see `args_panic`).
pub fn args_would_panic(a: &Args) -> (b: bool)
    ensures
        b == args_panic(*a),
{
    match &a.dhcp_range {
        None => {},
        Some(v) => {
            let ghost sv = strings_view(v@);
            let mut i: usize = 0;
            while i < v.len()
                invariant
                    i <= v@.len(),
                    sv == strings_view(v@),
                    sv == list_view(a.dhcp_range),
                    sv.len() == v@.len(),
                    forall|k: int| 0 <= k < i ==> !range_panics(#[trigger] sv[k]),
                decreases v.len() - i,
            {
                let cs = str_chars(v[i].as_str());
                assert(cs@ == sv[i as int]);
                if crate::confargs::range_would_panic(cs.as_slice()) {
                    return true;
                }
                i += 1;
            }
        },
    }
    match &a.dhcp_host {
        None => false,
        Some(h) => {
            let cs = str_chars(h.as_str());
            crate::confargs::host_would_panic(cs.as_slice())
        },
    }
}


// ---------------------------------------------------------------------
// Interfaces to listen on
// ---------------------------------------------------------------------

/// The position of the first entry with a name that is `name`; the
/// length when there is none.
pub open spec fn first_named(s: Seq<InameView>, name: Seq<char>) -> int
    decreases s.len(),
{
    if s.len() == 0 {
        0
    } else if s[0].name.len() > 0 && s[0].name == name {
        0
    } else {
        1 + first_named(s.drop_first(), name)
    }
}

/// Whether an entry holds exactly the address.
pub open spec fn addr_listed(s: Seq<InameView>, addr: MySockAddr) -> bool {
    exists|k: int| 0 <= k < s.len() && (#[trigger] s[k]).addr == addr
}

/// Whether an excluded entry has the name.
pub open spec fn name_excluded(s: Seq<InameView>, name: Seq<char>) -> bool {
    exists|k: int| 0 <= k < s.len() && (#[trigger] s[k]).name.len() > 0 && s[k].name == name
}

/// What an interface `name` with address `addr` does to the names and
/// addresses to listen on, and whether it is listened on: when names are
/// given, the first entry with its name is found (a loopback interface
/// need not be named); when addresses are given, every entry with its
/// address is found, and one must be; an excluded name is not listened
/// on.
pub open spec fn iface_choice(c: ConfigView, loopback: bool, name: Seq<char>, addr: MySockAddr) -> (ConfigView, bool) {
    let i = first_named(c.if_names, name);
    let names = if i < c.if_names.len() {
        c.if_names.update(i, InameView { found: true, ..c.if_names[i] })
    } else {
        c.if_names
    };
    let c1 = ConfigView { if_names: names, ..c };
    if c.if_names.len() > 0 && !loopback && i >= c.if_names.len() {
        (c1, false)
    } else {
        let addrs = c.if_addrs.map_values(|x: InameView| if x.addr == addr { InameView { found: true, ..x } } else { x });
        let c2 = ConfigView { if_addrs: addrs, ..c1 };
        if c.if_addrs.len() > 0 && !addr_listed(c.if_addrs, addr) {
            (c2, false)
        } else {
            (c2, !name_excluded(c.if_except, name))
        }
    }
}

proof fn lemma_first_named(s: Seq<InameView>, name: Seq<char>)
    ensures
        0 <= first_named(s, name) <= s.len(),
        first_named(s, name) < s.len() ==> s[first_named(s, name)].name.len() > 0 && s[first_named(s, name)].name
            == name,
        forall|k: int| 0 <= k < first_named(s, name) ==> !((#[trigger] s[k]).name.len() > 0 && s[k].name == name),
    decreases s.len(),
{
    if s.len() > 0 && !(s[0].name.len() > 0 && s[0].name == name) {
        lemma_first_named(s.drop_first(), name);
        assert forall|k: int| 0 <= k < first_named(s, name) implies !((#[trigger] s[k]).name.len() > 0 && s[k].name
            == name) by {
            if k > 0 {
                assert(s[k] == s.drop_first()[k - 1]);
            }
        }
    }
}

/// Finds the first entry with the name (see `first_named`).
fn find_named(v: &Vec<Iname>, name: &str) -> (r: usize)
    ensures
        r == first_named(inames_view(v@), name@),
        r <= v@.len(),
{
    let ghost s = inames_view(v@);
    proof {
        lemma_first_named(s, name@);
    }
    let mut i: usize = 0;
    while i < v.len()
        invariant
            s == inames_view(v@),
            i <= v@.len(),
            0 <= first_named(s, name@) <= s.len(),
            first_named(s, name@) < s.len() ==> s[first_named(s, name@)].name.len() > 0 && s[first_named(s, name@)].name
                == name@,
            forall|k: int| 0 <= k < first_named(s, name@) ==> !((#[trigger] s[k]).name.len() > 0 && s[k].name == name@),
            forall|k: int| 0 <= k < i ==> !((#[trigger] s[k]).name.len() > 0 && s[k].name == name@),
        decreases v.len() - i,
    {
        assert(s[i as int] == v@[i as int]@);
        if !v[i].name.as_str().is_empty() && crate::util::str_eq(v[i].name.as_str(), name) {
            return i;
        }
        i += 1;
    }
    i
}

impl Config {
    /// Decides whether to listen on interface `name` with address `addr`
    /// and marks the names and addresses it matches (see `iface_choice`).
    pub fn iface_wanted(&mut self, loopback: bool, name: &str, addr: MySockAddr) -> (b: bool)
        ensures
            (final(self)@, b) == iface_choice(old(self)@, loopback, name@, addr),
    {
        let ghost o = self@;
        let i: usize = find_named(&self.if_names, name);
        let found_name: bool = i < self.if_names.len();
        if found_name {
            let old_name = copy_string(&self.if_names[i].name);
            let a = self.if_names[i].addr;
            let ghost before = inames_view(self.if_names@);
            self.if_names.set(i, Iname { name: old_name, addr: a, found: true });
            assert(inames_view(self.if_names@) =~= before.update(i as int, InameView { found: true, ..before[i as int] }));
        }
        let ghost c1 = self@;
        if self.if_names.len() > 0 && !loopback && !found_name {
            return false;
        }
        let mut listed: bool = false;
        let mut addrs: Vec<Iname> = Vec::new();
        let mut j: usize = 0;
        while j < self.if_addrs.len()
            invariant
                self@ == c1,
                c1.if_addrs == o.if_addrs,
                j <= self.if_addrs@.len(),
                inames_view(addrs@) == o.if_addrs.take(j as int).map_values(
                    |x: InameView|
                        if x.addr == addr {
                            InameView { found: true, ..x }
                        } else {
                            x
                        },
                ),
                listed == exists|k: int| 0 <= k < j && (#[trigger] o.if_addrs[k]).addr == addr,
            decreases self.if_addrs.len() - j,
        {
            let x: &Iname = &self.if_addrs[j];
            assert(o.if_addrs[j as int] == x@);
            let hit: bool = x.addr == addr;
            if hit {
                listed = true;
            }
            push_iname(&mut addrs, Iname { name: copy_string(&x.name), addr: x.addr, found: x.found || hit });
            assert(inames_view(addrs@) =~= o.if_addrs.take(j + 1).map_values(
                |x: InameView|
                    if x.addr == addr {
                        InameView { found: true, ..x }
                    } else {
                        x
                    },
            ));
            j += 1;
        }
        assert(o.if_addrs.take(j as int) =~= o.if_addrs);
        let had_addrs: bool = self.if_addrs.len() > 0;
        self.if_addrs = addrs;
        if had_addrs && !listed {
            return false;
        }
        let ghost c2 = self@;
        let mut k: usize = 0;
        while k < self.if_except.len()
            invariant
                self@ == c2,
                o == old(self)@,
                c2 == iface_choice(o, loopback, name@, addr).0,
                self.if_except@ == old(self).if_except@,
                inames_view(self.if_except@) == o.if_except,
                k <= self.if_except@.len(),
                forall|m: int| 0 <= m < k ==> !((#[trigger] o.if_except[m]).name.len() > 0 && o.if_except[m].name == name@),
            decreases self.if_except.len() - k,
        {
            assert(o.if_except[k as int] == self.if_except@[k as int]@);
            if !self.if_except[k].name.as_str().is_empty() && crate::util::str_eq(self.if_except[k].name.as_str(), name) {
                assert(name_excluded(o.if_except, name@));
                return false;
            }
            k += 1;
        }
        true
    }
}

} // verus!
