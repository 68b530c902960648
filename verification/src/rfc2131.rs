//! RFC 2131 (DHCP): option encoding and lookup in a message.

use crate::dhcp::{
    addr_is_leased, addr_leased, address_allocate, address_available, candidate, configs_view,
    find_config, first_free_step, spec_find_config,
};
use crate::dnsmasq::{clone_bytes, opt_str_view, DhcpConfig, DhcpContext, DhcpLease, DhcpOpt, DhcpPacket, LeaseView};
use crate::lease::{
    clear_name, client_lease, hostname_unchanged, lemma_client_lease_in, lease_prune, lease_set_expires, lease_set_hostname,
    lease_set_hwaddr, last_match_fqdn, last_match_name, named_lease,
    lease_find_by_client, leases_view, opt_lease_view, prune_drops_named, spec_prune, suffix_fqdn, LeaseDb, LeaseFlags,
};
use crate::rfc1035::INADDRSZ;
use crate::util::{
    be32_bytes, be32_value, canonicalise, difftime, spec_canonical, spec_difftime, str_chars,
    string_from_chars, string_from_utf8_lossy, utf8_lossy, Time,
};
use vstd::utf8::encode_utf8;
use vstd::prelude::*;
use vstd::string::StringSliceAdditionalSpecFns;

verus! {

pub const BOOTREQUEST: u8 = 1;
pub const BOOTREPLY: u8 = 2;
pub const DHCP_COOKIE: u32 = 0x63825363;

pub const OPTION_PAD: u8 = 0;
pub const OPTION_NETMASK: u8 = 1;
pub const OPTION_ROUTER: u8 = 3;
pub const OPTION_DNSSERVER: u8 = 6;
pub const OPTION_HOSTNAME: u8 = 12;
pub const OPTION_DOMAINNAME: u8 = 15;
pub const OPTION_BROADCAST: u8 = 28;
pub const OPTION_CLIENT_ID: u8 = 61;
pub const OPTION_REQUESTED_IP: u8 = 50;
pub const OPTION_LEASE_TIME: u8 = 51;
pub const OPTION_OVERLOAD: u8 = 52;
pub const OPTION_MESSAGE_TYPE: u8 = 53;
pub const OPTION_SERVER_IDENTIFIER: u8 = 54;
pub const OPTION_REQUESTED_OPTIONS: u8 = 55;
pub const OPTION_MAXMESSAGE: u8 = 57;
pub const OPTION_END: u8 = 255;

pub const DHCPDISCOVER: u8 = 1;
pub const DHCPOFFER: u8 = 2;
pub const DHCPREQUEST: u8 = 3;
pub const DHCPDECLINE: u8 = 4;
pub const DHCPACK: u8 = 5;
pub const DHCPNAK: u8 = 6;
pub const DHCPRELEASE: u8 = 7;
pub const DHCPINFORM: u8 = 8;

pub const ARPHRD_ETHER: u8 = 1;

// ---------------------------------------------------------------------
// Writing options
// ---------------------------------------------------------------------

/// The `len` low-order bytes of `value`, most significant first.
pub open spec fn option_value_bytes(value: u32, len: int) -> Seq<u8> {
    be32_bytes(value).subrange(4 - len, 4)
}

/// The encoding of an option: its code, its length and its value.
pub open spec fn option_bytes(code: u8, len: int, value: u32) -> Seq<u8> {
    seq![code, len as u8] + option_value_bytes(value, len)
}

/// Whether `option_put` writes: only when the option and two more bytes
/// fit.
pub open spec fn option_fits(avail: int, len: int) -> bool {
    len + 2 < avail
}

proof fn lemma_value_byte(value: u32, len: usize, i: usize)
    requires
        len <= 4,
        i < len,
    ensures
        (value >> (8 * (len - (i + 1))) as u32) as u8 == be32_bytes(value)[4 - len + i],
{
    let k: u32 = (len - (i + 1)) as u32;
    assert(k < 4);
    let b: u8 = (value >> (8 * k)) as u8;
    assert(b == (value as int / 16777216) as u8 || k != 3) by (bit_vector)
        requires
            b == (value >> (8 * k)) as u8,
    ;
    assert(b == ((value as int / 65536) % 256) as u8 || k != 2) by (bit_vector)
        requires
            b == (value >> (8 * k)) as u8,
    ;
    assert(b == ((value as int / 256) % 256) as u8 || k != 1) by (bit_vector)
        requires
            b == (value >> (8 * k)) as u8,
    ;
    assert(b == (value as int % 256) as u8 || k != 0) by (bit_vector)
        requires
            b == (value >> (8 * k)) as u8,
    ;
}

/// Writes an option (code, length, then the `len` low-order bytes of
/// `value`, most significant first) at the start of `buffer` when it and
/// two more bytes fit, and gives the rest of the buffer; otherwise leaves
/// the buffer alone and gives all of it.
pub fn option_put(buffer: &mut [u8], option_code: u8, len: usize, value: u32) -> (rest: &mut [u8])
    requires
        len <= usize::MAX - 2,
        option_fits(old(buffer)@.len() as int, len as int) ==> len <= 4,
    ensures
        option_fits(old(buffer)@.len() as int, len as int) ==> {
            &&& rest@ == old(buffer)@.subrange(len + 2, old(buffer)@.len() as int)
            &&& final(buffer)@ == option_bytes(option_code, len as int, value) + final(rest)@
        },
        !option_fits(old(buffer)@.len() as int, len as int) ==> {
            &&& rest@ == old(buffer)@
            &&& final(buffer)@ == final(rest)@
        },
{
    if len + 2 < buffer.len() {
        buffer[0] = option_code;
        buffer[1] = len as u8;
        let mut i: usize = 0;
        while i < len
            invariant
                len <= 4,
                len + 2 < buffer@.len(),
                buffer@.len() == old(buffer)@.len(),
                i <= len,
                buffer@[0] == option_code,
                buffer@[1] == len as u8,
                forall|k: int| 2 <= k < 2 + i ==> #[trigger] buffer@[k] == be32_bytes(value)[4 - len + k - 2],
                forall|k: int| 2 + len <= k < buffer@.len() ==> buffer@[k] == old(buffer)@[k],
            decreases len - i,
        {
            proof {
                lemma_value_byte(value, len, i);
            }
            buffer[2 + i] = (value >> (8 * (len - (i + 1))) as u32) as u8;
            i += 1;
        }
        let ghost written = buffer@;
        let (head, tail) = buffer.split_at_mut(len + 2);
        assert(head@ =~= option_bytes(option_code, len as int, value));
        assert(tail@ =~= old(buffer)@.subrange(len + 2, old(buffer)@.len() as int));
        tail
    } else {
        buffer
    }
}

// ---------------------------------------------------------------------
// Reading options
// ---------------------------------------------------------------------

/// Whether `opt` appears in the request list before its end marker.
pub open spec fn spec_in_list(list: Seq<u8>, opt: u8) -> bool {
    exists|i: int|
        0 <= i < list.len() && list[i] == opt && forall|j: int| 0 <= j <= i ==> list[j] != OPTION_END
}

/// Checks whether `opt` appears in `list` before the end marker.
pub fn in_list(list: &[u8], opt: u8) -> (b: bool)
    ensures
        b == spec_in_list(list@, opt),
{
    let mut i: usize = 0;
    while i < list.len()
        invariant
            i <= list@.len(),
            forall|j: int| 0 <= j < i ==> list@[j] != OPTION_END && list@[j] != opt,
        decreases list@.len() - i,
    {
        let item: u8 = list[i];
        if item == OPTION_END {
            proof {
                assert forall|k: int| 0 <= k < list@.len() && list@[k] == opt implies !(forall|j: int|
                    0 <= j <= k ==> list@[j] != OPTION_END) by {
                    if k < i {
                    } else {
                        assert(list@[i as int] == OPTION_END);
                    }
                }
            }
            return false;
        }
        if item == opt {
            return true;
        }
        i += 1;
    }
    false
}

/// The index of the first configured option with code `opt`, looking
/// from index `i` on.
pub open spec fn find2_from(opts: Seq<DhcpOpt>, opt: u8, i: int) -> Option<int>
    decreases opts.len() - i,
{
    if i < 0 || i >= opts.len() {
        None
    } else if opts[i].opt == opt {
        Some(i)
    } else {
        find2_from(opts, opt, i + 1)
    }
}

/// The index of the first configured option with code `opt`.
pub open spec fn spec_find2(opts: Seq<DhcpOpt>, opt: u8) -> Option<int> {
    find2_from(opts, opt, 0)
}

proof fn lemma_find2_from(opts: Seq<DhcpOpt>, opt: u8, i: int)
    requires
        0 <= i <= opts.len(),
    ensures
        find2_from(opts, opt, i) matches Some(k) ==> i <= k < opts.len() && opts[k].opt == opt
            && forall|j: int| i <= j < k ==> opts[j].opt != opt,
        find2_from(opts, opt, i) is None ==> forall|j: int| i <= j < opts.len() ==> opts[j].opt != opt,
    decreases opts.len() - i,
{
    if i < opts.len() && opts[i].opt != opt {
        lemma_find2_from(opts, opt, i + 1);
    }
}

/// Finds the first configured option with code `opt`.
pub fn option_find2(opts: &[DhcpOpt], opt: u8) -> (r: Option<&DhcpOpt>)
    ensures
        r is None <==> spec_find2(opts@, opt) is None,
        r matches Some(o) ==> (spec_find2(opts@, opt) matches Some(k) && 0 <= k < opts@.len() && *o == opts@[k]),
        r is None <==> forall|i: int| 0 <= i < opts@.len() ==> opts@[i].opt != opt,
        r matches Some(o) ==> o.opt == opt,
{
    proof {
        lemma_find2_from(opts@, opt, 0);
    }
    let mut i: usize = 0;
    while i < opts.len()
        invariant
            i <= opts@.len(),
            forall|j: int| 0 <= j < i ==> opts@[j].opt != opt,
            find2_from(opts@, opt, 0) == find2_from(opts@, opt, i as int),
        decreases opts@.len() - i,
    {
        if opts[i].opt == opt {
            return Some(&opts[i]);
        }
        i += 1;
    }
    None
}

/// Whether the client asked for option `code` and no configured option
/// supplies it.
pub open spec fn wants_default(req: Seq<u8>, opts: Seq<DhcpOpt>, code: u8) -> bool {
    spec_in_list(req, code) && spec_find2(opts, code) is None
}

/// `acc` followed by an address option, when the client wants its default
/// and it fits in what is left of `avail` bytes.
pub open spec fn addr_option(acc: Seq<u8>, avail: int, req: Seq<u8>, opts: Seq<DhcpOpt>, code: u8, value: u32) -> Seq<u8> {
    if wants_default(req, opts, code) && option_fits(avail - acc.len(), 4) {
        acc + option_bytes(code, 4, value)
    } else {
        acc
    }
}

/// The encoding of an option whose value is `data`.
pub open spec fn data_option(code: u8, data: Seq<u8>) -> Seq<u8> {
    seq![code, data.len() as u8] + data
}

/// `acc` followed by the option `code` with value `data`, when `wanted`
/// holds and it fits in what is left of `avail` bytes.
pub open spec fn name_option(acc: Seq<u8>, avail: int, wanted: bool, code: u8, data: Option<Seq<u8>>) -> Seq<u8> {
    match data {
        Some(d) => if wanted && avail - acc.len() >= d.len() + 2 {
            acc + data_option(code, d)
        } else {
            acc
        },
        None => acc,
    }
}

/// `acc` followed by the configured options that the client asked for, in
/// the order of its request list from index `i` up to the end marker,
/// each when it fits; a host name option is never taken from there.
pub open spec fn config_options(acc: Seq<u8>, avail: int, req: Seq<u8>, opts: Seq<DhcpOpt>, i: int) -> Seq<u8>
    decreases req.len() - i,
{
    if i < 0 || i >= req.len() || req[i] == OPTION_END {
        acc
    } else {
        let next = match spec_find2(opts, req[i]) {
            Some(k) => if req[i] != OPTION_HOSTNAME && avail - acc.len() >= opts[k].len + 2 {
                acc + data_option(opts[k].opt, opts[k].val@)
            } else {
                acc
            },
            None => acc,
        };
        config_options(next, avail, req, opts, i + 1)
    }
}

/// The options written in answer to the client's request list, into a
/// buffer of `avail` bytes: the netmask, broadcast address, router and
/// DNS server of the context, the domain name and the host name, when
/// asked for and not configured; then the configured options asked for.
pub open spec fn req_options_bytes(
    context: DhcpContext,
    avail: int,
    req: Seq<u8>,
    opts: Seq<DhcpOpt>,
    domain: Option<Seq<u8>>,
    host: Option<Seq<u8>>,
) -> Seq<u8> {
    if req.len() == 0 {
        seq![]
    } else {
        let a1 = addr_option(seq![], avail, req, opts, OPTION_NETMASK, context.netmask);
        let a2 = addr_option(a1, avail, req, opts, OPTION_BROADCAST, context.broadcast);
        let a3 = addr_option(a2, avail, req, opts, OPTION_ROUTER, context.serv_addr);
        let a4 = addr_option(a3, avail, req, opts, OPTION_DNSSERVER, context.serv_addr);
        let a5 = name_option(a4, avail, wants_default(req, opts, OPTION_DOMAINNAME), OPTION_DOMAINNAME, domain);
        let a6 = name_option(a5, avail, spec_in_list(req, OPTION_HOSTNAME), OPTION_HOSTNAME, host);
        config_options(a6, avail, req, opts, 0)
    }
}

/// A configured option is well formed when its value has the length it
/// gives, and that length leaves room for the two header bytes in a byte.
pub open spec fn opts_wf(opts: Seq<DhcpOpt>) -> bool {
    forall|i: int| 0 <= i < opts.len() ==> opts[i].val@.len() == opts[i].len as int && opts[i].len <= 253
}

/// The bytes of an optional string.
pub open spec fn opt_bytes(s: Option<&str>) -> Option<Seq<u8>> {
    match s {
        Some(t) => Some(t.spec_bytes()),
        None => None,
    }
}

/// Writes an option with value `data` at the start of `p` and gives the
/// rest.
fn put_data<'a>(p: &'a mut [u8], code: u8, data: &[u8]) -> (rest: &'a mut [u8])
    requires
        old(p)@.len() >= data@.len() + 2,
    ensures
        rest@ == old(p)@.subrange(data@.len() + 2int, old(p)@.len() as int),
        final(p)@ == data_option(code, data@) + final(rest)@,
{
    let n: usize = data.len();
    let plen: usize = p.len();
    let (head, tail) = p.split_at_mut(n + 2);
    head[0] = code;
    head[1] = n as u8;
    let mut i: usize = 0;
    while i < n
        invariant
            n == data@.len(),
            n + 2 <= plen,
            head@.len() == n + 2,
            i <= n,
            head@[0] == code,
            head@[1] == n as u8,
            forall|k: int| 0 <= k < i ==> head@[k + 2] == data@[k],
        decreases n - i,
    {
        head[i + 2] = data[i];
        i += 1;
    }
    assert(head@ =~= data_option(code, data@));
    tail
}

proof fn lemma_config_options_grow(acc: Seq<u8>, avail: int, req: Seq<u8>, opts: Seq<DhcpOpt>, i: int)
    ensures
        exists|more: Seq<u8>| config_options(acc, avail, req, opts, i) == acc + more,
    decreases req.len() - i,
{
    if !(i < 0 || i >= req.len() || req[i] == OPTION_END) {
        let next = match spec_find2(opts, req[i]) {
            Some(k) => if req[i] != OPTION_HOSTNAME && avail - acc.len() >= opts[k].len + 2 {
                acc + data_option(opts[k].opt, opts[k].val@)
            } else {
                acc
            },
            None => acc,
        };
        lemma_config_options_grow(next, avail, req, opts, i + 1);
        let more = choose|more: Seq<u8>| config_options(next, avail, req, opts, i + 1) == next + more;
        assert(exists|m: Seq<u8>| next == acc + m) by {
            if next == acc {
                assert(next == acc + seq![]);
            } else {
                assert(next == acc + next.subrange(acc.len() as int, next.len() as int));
            }
        }
        let m = choose|m: Seq<u8>| next == acc + m;
        assert(config_options(acc, avail, req, opts, i) == acc + (m + more));
    } else {
        assert(config_options(acc, avail, req, opts, i) == acc + seq![]);
    }
}

/// Writes the address option `code` when the client wants its default and
/// it fits, after `acc` already written into a buffer of `avail` bytes;
/// gives the rest of the buffer.
fn put_default_addr<'a>(
    p: &'a mut [u8],
    req_options: &[u8],
    config_opts: &[DhcpOpt],
    code: u8,
    value: u32,
    Ghost(acc): Ghost<Seq<u8>>,
    Ghost(avail): Ghost<int>,
) -> (rest: &'a mut [u8])
    requires
        avail == acc.len() + old(p)@.len(),
    ensures
        ({
            let w = addr_option(acc, avail, req_options@, config_opts@, code, value);
            let d = w.subrange(acc.len() as int, w.len() as int);
            &&& acc.len() <= w.len() <= avail
            &&& w == acc + d
            &&& rest@ == old(p)@.subrange(d.len() as int, old(p)@.len() as int)
            &&& final(p)@ == d + final(rest)@
        }),
{
    if in_list(req_options, code) && option_find2(config_opts, code).is_none() {
        let ghost before = p@;
        let r = option_put(p, code, INADDRSZ as usize, value);
        proof {
            if option_fits(before.len() as int, 4) {
                let w = acc + option_bytes(code, 4, value);
                assert(w.subrange(acc.len() as int, w.len() as int) =~= option_bytes(code, 4, value));
            } else {
                assert(acc.subrange(acc.len() as int, acc.len() as int) =~= seq![]);
                assert(acc =~= acc + seq![]);
                assert(before.subrange(0, before.len() as int) =~= before);
            }
        }
        r
    } else {
        proof {
            assert(acc.subrange(acc.len() as int, acc.len() as int) =~= seq![]);
            assert(acc =~= acc + seq![]);
            assert(old(p)@.subrange(0, old(p)@.len() as int) =~= old(p)@);
        }
        p
    }
}

/// Writes the option `code` with the bytes of `data` when `wanted` holds
/// and it fits, after `acc` already written into a buffer of `avail`
/// bytes; gives the rest of the buffer.
fn put_default_name<'a>(
    p: &'a mut [u8],
    wanted: bool,
    code: u8,
    data: Option<&str>,
    Ghost(acc): Ghost<Seq<u8>>,
    Ghost(avail): Ghost<int>,
) -> (rest: &'a mut [u8])
    requires
        avail == acc.len() + old(p)@.len(),
    ensures
        ({
            let w = name_option(acc, avail, wanted, code, opt_bytes(data));
            let d = w.subrange(acc.len() as int, w.len() as int);
            &&& acc.len() <= w.len() <= avail
            &&& w == acc + d
            &&& rest@ == old(p)@.subrange(d.len() as int, old(p)@.len() as int)
            &&& final(p)@ == d + final(rest)@
        }),
{
    match data {
        Some(d) => {
            let db: &[u8] = d.as_bytes();
            if wanted && p.len() >= 2 && p.len() - 2 >= db.len() {
                let r = put_data(p, code, db);
                proof {
                    let w = acc + data_option(code, db@);
                    assert(w.subrange(acc.len() as int, w.len() as int) =~= data_option(code, db@));
                }
                return r;
            }
        },
        None => {},
    }
    proof {
        assert(acc.subrange(acc.len() as int, acc.len() as int) =~= seq![]);
        assert(acc =~= acc + seq![]);
        assert(old(p)@.subrange(0, old(p)@.len() as int) =~= old(p)@);
    }
    p
}

proof fn lemma_chain(fb: Seq<u8>, acc: Seq<u8>, fp: Seq<u8>, d: Seq<u8>, fq: Seq<u8>)
    requires
        fb == acc + fp,
        fp == d + fq,
    ensures
        fb == (acc + d) + fq,
{
    assert(fb =~= (acc + d) + fq);
}

proof fn lemma_rest(ob: Seq<u8>, acc_len: int, p: Seq<u8>, d_len: int, q: Seq<u8>)
    requires
        0 <= acc_len <= ob.len(),
        p == ob.subrange(acc_len, ob.len() as int),
        0 <= d_len <= p.len(),
        q == p.subrange(d_len, p.len() as int),
    ensures
        q == ob.subrange(acc_len + d_len, ob.len() as int),
{
    assert(q =~= ob.subrange(acc_len + d_len, ob.len() as int));
}

/// Writes the configured options that the client asked for (see
/// `config_options`), starting after `acc` already written, and gives the
/// rest of the buffer.
fn put_configured<'a>(
    buf: &'a mut [u8],
    req_options: &[u8],
    config_opts: &[DhcpOpt],
    Ghost(acc0): Ghost<Seq<u8>>,
    Ghost(avail): Ghost<int>,
) -> (rest: &'a mut [u8])
    requires
        opts_wf(config_opts@),
        avail == acc0.len() + old(buf)@.len(),
    ensures
        ({
            let w = config_options(acc0, avail, req_options@, config_opts@, 0);
            &&& acc0.len() <= w.len() <= avail
            &&& w.subrange(0, acc0.len() as int) == acc0
            &&& rest@ == old(buf)@.subrange(w.len() - acc0.len(), old(buf)@.len() as int)
            &&& final(buf)@ == w.subrange(acc0.len() as int, w.len() as int) + final(rest)@
        }),
{
    let ghost req = req_options@;
    let ghost opts = config_opts@;
    let ghost ob = buf@;
    let ghost mut acc: Seq<u8> = acc0;
    let ghost mut written: Seq<u8> = seq![];
    let mut p = buf;
    assert(ob.subrange(0, ob.len() as int) =~= ob);
    let mut i: usize = 0;
    while i < req_options.len()
        invariant_except_break
            config_options(acc0, avail, req, opts, 0) == config_options(acc, avail, req, opts, i as int),
        invariant
            req == req_options@,
            opts == config_opts@,
            opts_wf(opts),
            i <= req.len(),
            avail == acc0.len() + ob.len(),
            acc == acc0 + written,
            acc.len() <= avail,
            p@ == ob.subrange(written.len() as int, ob.len() as int),
            final(buf)@ == written + final(p)@,
        ensures
            config_options(acc0, avail, req, opts, 0) == acc,
        decreases req.len() - i,
    {
        let r: u8 = req_options[i];
        if r == OPTION_END {
            break;
        }
        match option_find2(config_opts, r) {
            Some(opt) => {
                if r != OPTION_HOSTNAME && p.len() >= (opt.len as usize) + 2 {
                    p = put_data(p, opt.opt, opt.val.as_slice());
                    proof {
                        acc = acc + data_option(opt.opt, opt.val@);
                        written = written + data_option(opt.opt, opt.val@);
                    }
                }
            },
            None => {},
        }
        i += 1;
    }
    assert(acc.subrange(0, acc0.len() as int) =~= acc0);
    assert(acc.subrange(acc0.len() as int, acc.len() as int) =~= written);
    p
}

/// Answers the client's request list: writes, from the start of `buffer`,
/// the options it asked for (see `req_options_bytes`) and gives the rest
/// of the buffer.
#[verifier::rlimit(60)]
pub fn do_req_options<'a>(
    context: &DhcpContext,
    buffer: &'a mut [u8],
    req_options: &[u8],
    config_opts: &[DhcpOpt],
    domainname: Option<&str>,
    hostname: Option<&str>,
) -> (rest: &'a mut [u8])
    requires
        opts_wf(config_opts@),
    ensures
        ({
            let w = req_options_bytes(
                *context,
                old(buffer)@.len() as int,
                req_options@,
                config_opts@,
                opt_bytes(domainname),
                opt_bytes(hostname),
            );
            &&& w.len() <= old(buffer)@.len()
            &&& rest@ == old(buffer)@.subrange(w.len() as int, old(buffer)@.len() as int)
            &&& final(buffer)@ == w + final(rest)@
        }),
{
    if req_options.len() == 0 {
        assert(old(buffer)@.subrange(0, old(buffer)@.len() as int) =~= old(buffer)@);
        return buffer;
    }
    let ghost avail = buffer@.len() as int;
    let ghost ob = buffer@;
    let ghost req = req_options@;
    let ghost opts = config_opts@;
    assert(ob.subrange(0, avail) =~= ob);
    let ghost empty: Seq<u8> = seq![];
    let p0 = buffer;
    let ghost f0 = final(p0)@;
    let ghost v0 = p0@;
    let p1 = put_default_addr(p0, req_options, config_opts, OPTION_NETMASK, context.netmask, Ghost(empty), Ghost(avail));
    let ghost a1 = addr_option(seq![], avail, req, opts, OPTION_NETMASK, context.netmask);
    proof {
        let d = a1.subrange(0, a1.len() as int);
        assert(final(buffer)@ =~= seq![] + f0);
        lemma_chain(final(buffer)@, seq![], f0, d, final(p1)@);
        assert(seq![] + d =~= a1);
        lemma_rest(ob, 0, ob, d.len() as int, p1@);
    }
    let ghost f1 = final(p1)@;
    let ghost v1 = p1@;
    let p2 = put_default_addr(p1, req_options, config_opts, OPTION_BROADCAST, context.broadcast, Ghost(a1), Ghost(avail));
    let ghost a2 = addr_option(a1, avail, req, opts, OPTION_BROADCAST, context.broadcast);
    proof {
        let d = a2.subrange(a1.len() as int, a2.len() as int);
        lemma_chain(final(buffer)@, a1, f1, d, final(p2)@);
        lemma_rest(ob, a1.len() as int, v1, d.len() as int, p2@);
    }
    let ghost f2 = final(p2)@;
    let ghost v2 = p2@;
    let p3 = put_default_addr(p2, req_options, config_opts, OPTION_ROUTER, context.serv_addr, Ghost(a2), Ghost(avail));
    let ghost a3 = addr_option(a2, avail, req, opts, OPTION_ROUTER, context.serv_addr);
    proof {
        let d = a3.subrange(a2.len() as int, a3.len() as int);
        lemma_chain(final(buffer)@, a2, f2, d, final(p3)@);
        lemma_rest(ob, a2.len() as int, v2, d.len() as int, p3@);
    }
    let ghost f3 = final(p3)@;
    let ghost v3 = p3@;
    let p4 = put_default_addr(p3, req_options, config_opts, OPTION_DNSSERVER, context.serv_addr, Ghost(a3), Ghost(avail));
    let ghost a4 = addr_option(a3, avail, req, opts, OPTION_DNSSERVER, context.serv_addr);
    proof {
        let d = a4.subrange(a3.len() as int, a4.len() as int);
        lemma_chain(final(buffer)@, a3, f3, d, final(p4)@);
        lemma_rest(ob, a3.len() as int, v3, d.len() as int, p4@);
    }
    let want_domain: bool = in_list(req_options, OPTION_DOMAINNAME) && option_find2(config_opts, OPTION_DOMAINNAME).is_none();
    let ghost f4 = final(p4)@;
    let ghost v4 = p4@;
    let p5 = put_default_name(p4, want_domain, OPTION_DOMAINNAME, domainname, Ghost(a4), Ghost(avail));
    let ghost a5 = name_option(a4, avail, want_domain, OPTION_DOMAINNAME, opt_bytes(domainname));
    proof {
        let d = a5.subrange(a4.len() as int, a5.len() as int);
        lemma_chain(final(buffer)@, a4, f4, d, final(p5)@);
        lemma_rest(ob, a4.len() as int, v4, d.len() as int, p5@);
    }
    let want_host: bool = in_list(req_options, OPTION_HOSTNAME);
    let ghost f5 = final(p5)@;
    let ghost v5 = p5@;
    let p6 = put_default_name(p5, want_host, OPTION_HOSTNAME, hostname, Ghost(a5), Ghost(avail));
    let ghost a6 = name_option(a5, avail, want_host, OPTION_HOSTNAME, opt_bytes(hostname));
    proof {
        let d = a6.subrange(a5.len() as int, a6.len() as int);
        lemma_chain(final(buffer)@, a5, f5, d, final(p6)@);
        lemma_rest(ob, a5.len() as int, v5, d.len() as int, p6@);
    }
    let ghost f6 = final(p6)@;
    let ghost v6 = p6@;
    let p7 = put_configured(p6, req_options, config_opts, Ghost(a6), Ghost(avail));
    let ghost w = config_options(a6, avail, req, opts, 0);
    proof {
        let d = w.subrange(a6.len() as int, w.len() as int);
        assert(w =~= a6 + d);
        lemma_chain(final(buffer)@, a6, f6, d, final(p7)@);
        lemma_rest(ob, a6.len() as int, v6, d.len() as int, p7@);
    }
    p7
}

/// `acc` followed by an option with the `len` low-order bytes of `value`,
/// when it fits in what is left of `avail` bytes.
pub open spec fn put_if(acc: Seq<u8>, avail: int, code: u8, len: int, value: u32) -> Seq<u8> {
    if option_fits(avail - acc.len(), len) {
        acc + option_bytes(code, len, value)
    } else {
        acc
    }
}

/// The options of a reply, written into `avail` bytes: the message type,
/// the server identifier and the lease time where given, the options the
/// client asked for, and the end marker; each only when it fits.
pub open spec fn reply_options_bytes(
    kind: u8,
    server: Option<u32>,
    lease_time: Option<u32>,
    context: DhcpContext,
    avail: int,
    req: Seq<u8>,
    opts: Seq<DhcpOpt>,
    domain: Option<Seq<u8>>,
) -> Seq<u8> {
    let w1 = put_if(seq![], avail, OPTION_MESSAGE_TYPE, 1, kind as u32);
    let w2 = match server {
        Some(s) => put_if(w1, avail, OPTION_SERVER_IDENTIFIER, 4, s),
        None => w1,
    };
    let w3 = match lease_time {
        Some(t) => put_if(w2, avail, OPTION_LEASE_TIME, 4, t),
        None => w2,
    };
    let w4 = w3 + req_options_bytes(context, avail - w3.len(), req, opts, domain, None);
    put_if(w4, avail, OPTION_END, 0, 0)
}

/// Writes an option when it fits, after `acc` already written into a
/// buffer of `avail` bytes; gives the rest of the buffer.
fn put_acc<'a>(
    p: &'a mut [u8],
    code: u8,
    len: usize,
    value: u32,
    Ghost(acc): Ghost<Seq<u8>>,
    Ghost(avail): Ghost<int>,
) -> (rest: &'a mut [u8])
    requires
        avail == acc.len() + old(p)@.len(),
        len <= 4,
    ensures
        ({
            let w = put_if(acc, avail, code, len as int, value);
            let d = w.subrange(acc.len() as int, w.len() as int);
            &&& acc.len() <= w.len() <= avail
            &&& w == acc + d
            &&& rest@ == old(p)@.subrange(d.len() as int, old(p)@.len() as int)
            &&& final(p)@ == d + final(rest)@
        }),
{
    let ghost before = p@;
    let r = option_put(p, code, len, value);
    proof {
        if option_fits(before.len() as int, len as int) {
            let w = acc + option_bytes(code, len as int, value);
            assert(w.subrange(acc.len() as int, w.len() as int) =~= option_bytes(code, len as int, value));
        } else {
            assert(acc.subrange(acc.len() as int, acc.len() as int) =~= seq![]);
            assert(acc =~= acc + seq![]);
            assert(before.subrange(0, before.len() as int) =~= before);
        }
    }
    r
}

/// Writes the options of a reply (see `reply_options_bytes`) at the start
/// of `buf`, leaving the bytes after them as they were; gives how many
/// bytes were written.
fn put_reply_options(
    buf: &mut [u8],
    kind: u8,
    server: Option<u32>,
    lease_time: Option<u32>,
    context: &DhcpContext,
    req: &[u8],
    opts: &[DhcpOpt],
    domain: Option<&str>,
) -> (n: usize)
    requires
        opts_wf(opts@),
    ensures
        ({
            let w = reply_options_bytes(kind, server, lease_time, *context, old(buf)@.len() as int, req@, opts@, opt_bytes(domain));
            &&& n == w.len()
            &&& w.len() <= old(buf)@.len()
            &&& final(buf)@ == w + old(buf)@.subrange(w.len() as int, old(buf)@.len() as int)
        }),
{
    let ghost avail = buf@.len() as int;
    let ghost ob = buf@;
    let total: usize = buf.len();
    let ghost empty: Seq<u8> = seq![];
    assert(ob.subrange(0, avail) =~= ob);
    let p0 = buf;
    let ghost f0 = final(p0)@;
    let p1 = put_acc(p0, OPTION_MESSAGE_TYPE, 1, kind as u32, Ghost(empty), Ghost(avail));
    let ghost w1 = put_if(seq![], avail, OPTION_MESSAGE_TYPE, 1, kind as u32);
    proof {
        let d = w1.subrange(0, w1.len() as int);
        assert(final(buf)@ =~= seq![] + f0);
        lemma_chain(final(buf)@, seq![], f0, d, final(p1)@);
        assert(seq![] + d =~= w1);
        lemma_rest(ob, 0, ob, d.len() as int, p1@);
    }
    let ghost f1 = final(p1)@;
    let ghost v1 = p1@;
    let p2 = match server {
        Some(s) => put_acc(p1, OPTION_SERVER_IDENTIFIER, 4, s, Ghost(w1), Ghost(avail)),
        None => p1,
    };
    let ghost w2 = match server {
        Some(s) => put_if(w1, avail, OPTION_SERVER_IDENTIFIER, 4, s),
        None => w1,
    };
    proof {
        let d = w2.subrange(w1.len() as int, w2.len() as int);
        if server is None {
            assert(w1 =~= w1 + d);
            assert(f1 =~= d + final(p2)@);
            assert(v1.subrange(0, v1.len() as int) =~= v1);
        }
        lemma_chain(final(buf)@, w1, f1, d, final(p2)@);
        lemma_rest(ob, w1.len() as int, v1, d.len() as int, p2@);
    }
    let ghost f2 = final(p2)@;
    let ghost v2 = p2@;
    let p3 = match lease_time {
        Some(t) => put_acc(p2, OPTION_LEASE_TIME, 4, t, Ghost(w2), Ghost(avail)),
        None => p2,
    };
    let ghost w3 = match lease_time {
        Some(t) => put_if(w2, avail, OPTION_LEASE_TIME, 4, t),
        None => w2,
    };
    proof {
        let d = w3.subrange(w2.len() as int, w3.len() as int);
        if lease_time is None {
            assert(w2 =~= w2 + d);
            assert(f2 =~= d + final(p3)@);
            assert(v2.subrange(0, v2.len() as int) =~= v2);
        }
        lemma_chain(final(buf)@, w2, f2, d, final(p3)@);
        lemma_rest(ob, w2.len() as int, v2, d.len() as int, p3@);
    }
    let ghost f3 = final(p3)@;
    let ghost v3 = p3@;
    let p4 = do_req_options(context, p3, req, opts, domain, None);
    let ghost w4 = w3 + req_options_bytes(*context, avail - w3.len(), req@, opts@, opt_bytes(domain), None);
    proof {
        let d = w4.subrange(w3.len() as int, w4.len() as int);
        assert(d =~= req_options_bytes(*context, avail - w3.len(), req@, opts@, opt_bytes(domain), None));
        lemma_chain(final(buf)@, w3, f3, d, final(p4)@);
        lemma_rest(ob, w3.len() as int, v3, d.len() as int, p4@);
    }
    let ghost f4 = final(p4)@;
    let ghost v4 = p4@;
    let p5 = put_acc(p4, OPTION_END, 0, 0, Ghost(w4), Ghost(avail));
    let ghost w5 = put_if(w4, avail, OPTION_END, 0, 0);
    proof {
        let d = w5.subrange(w4.len() as int, w5.len() as int);
        lemma_chain(final(buf)@, w4, f4, d, final(p5)@);
        lemma_rest(ob, w4.len() as int, v4, d.len() as int, p5@);
    }
    let left: usize = p5.len();
    assert(w5 == reply_options_bytes(kind, server, lease_time, *context, avail, req@, opts@, opt_bytes(domain)));
    total - left
}

/// The value part of an option.
pub fn option_ptr(opt: &[u8]) -> (r: &[u8])
    requires
        opt@.len() >= 2,
    ensures
        r@ == opt@.subrange(2, opt@.len() as int),
{
    &opt[2..opt.len()]
}

/// The length byte of an option.
pub fn option_len(opt: &[u8]) -> (r: usize)
    requires
        opt@.len() >= 2,
    ensures
        r == opt@[1] as usize,
{
    opt[1] as usize
}

/// The first four bytes, read as a big-endian number.
pub fn option_uint(opt: &[u8]) -> (r: u32)
    requires
        opt@.len() >= 4,
    ensures
        r == be32_value(opt@[0], opt@[1], opt@[2], opt@[3]),
{
    let mut s: &[u8] = opt;
    crate::util::get_long(&mut s)
}

/// The IPv4 address held in the value of an option.
pub fn option_addr(opt: &[u8]) -> (r: u32)
    requires
        opt@.len() >= 6,
    ensures
        r == be32_value(opt@[2], opt@[3], opt@[4], opt@[5]),
{
    let v = option_ptr(opt);
    option_uint(v)
}

/// How searching an options area ends.
pub enum FindResult {
    /// The option and its value: the offset and length of its bytes.
    Found(int, int),
    /// No such option before the end marker or the end of the area.
    Missing,
    /// An option runs past the area.
    Malformed,
}

/// Searches `data` (of which only the first `end` bytes count for the
/// bounds checks) from offset `i` for option `option`.  Pads are skipped,
/// an overload option records which other areas hold options, the end
/// marker stops the search.  Gives the result and the overload value.
pub open spec fn find_from(data: Seq<u8>, end: int, option: u8, i: int, overload: u8) -> (FindResult, u8)
    decreases data.len() - i,
{
    if !(0 <= i < data.len()) {
        (FindResult::Missing, overload)
    } else if data[i] == OPTION_END {
        (FindResult::Missing, overload)
    } else if data[i] == OPTION_PAD {
        find_from(data, end, option, i + 1, overload)
    } else if data[i] == OPTION_OVERLOAD {
        if i + 2 >= data.len() || i + 2 >= end {
            (FindResult::Malformed, overload)
        } else {
            find_from(data, end, option, i + 3, data[i + 2])
        }
    } else if i + 1 >= data.len() || i + 1 >= end {
        (FindResult::Malformed, overload)
    } else {
        let opt_len = data[i + 1] as int;
        if i + 2 + opt_len > data.len() || i + 2 + opt_len > end {
            (FindResult::Malformed, overload)
        } else if data[i] == option {
            (FindResult::Found(i, 2 + opt_len), overload)
        } else {
            find_from(data, end, option, i + 2 + opt_len, overload)
        }
    }
}

proof fn lemma_find_from_found(data: Seq<u8>, end: int, option: u8, i: int, overload: u8)
    requires
        0 <= i,
    ensures
        find_from(data, end, option, i, overload).0 matches FindResult::Found(st, n) ==> (0 <= st
            && st + n <= data.len() && n >= 2 && n == 2 + data[st + 1] as int && data[st] == option),
    decreases data.len() - i,
{
    if 0 <= i < data.len() && data[i] != OPTION_END {
        if data[i] == OPTION_PAD {
            lemma_find_from_found(data, end, option, i + 1, overload);
        } else if data[i] == OPTION_OVERLOAD {
            if !(i + 2 >= data.len() || i + 2 >= end) {
                lemma_find_from_found(data, end, option, i + 3, data[i + 2]);
            }
        } else if !(i + 1 >= data.len() || i + 1 >= end) {
            let opt_len = data[i + 1] as int;
            if !(i + 2 + opt_len > data.len() || i + 2 + opt_len > end) && data[i] != option {
                lemma_find_from_found(data, end, option, i + 2 + opt_len, overload);
            }
        }
    }
}

fn find_exec<'a>(data: &'a [u8], end: usize, option: u8, overload: &mut u8) -> (r: Option<&'a [u8]>)
    ensures
        *final(overload) == find_from(data@, end as int, option, 0, *old(overload)).1,
        r is None <==> !(find_from(data@, end as int, option, 0, *old(overload)).0 is Found),
        r matches Some(s) ==> (find_from(data@, end as int, option, 0, *old(overload)).0 matches FindResult::Found(st, n)
            && s@ == data@.subrange(st, st + n)),
{
    let mut i: usize = 0;
    let ghost target = find_from(data@, end as int, option, 0, *old(overload));
    let dl: usize = data.len();
    while i < dl
        invariant
            dl == data@.len(),
            target == find_from(data@, end as int, option, 0, *old(overload)),
            find_from(data@, end as int, option, i as int, *overload) == target,
        decreases data@.len() - i,
    {
        let b: u8 = data[i];
        if b == OPTION_END {
            return None;
        } else if b == OPTION_PAD {
            i += 1;
        } else if b == OPTION_OVERLOAD {
            if dl - i <= 2 || end <= i || end - i <= 2 {
                return None;
            }
            *overload = data[i + 2];
            i += 3;
        } else {
            if dl - i <= 1 || end <= i || end - i <= 1 {
                return None;
            }
            let opt_len: usize = data[i + 1] as usize;
            if opt_len + 2 > dl - i || opt_len + 2 > end - i {
                return None;
            }
            if b == option {
                return Some(&data[i..i + 2 + opt_len]);
            }
            i += 2 + opt_len;
        }
    }
    None
}

/// The option `option` of a message: looked for in the first
/// `min(sz, 308)` bytes of the options area, then, as the overload option
/// directs, in the boot file area and then in the server name area.
pub open spec fn spec_option_find(p: DhcpPacket, sz: int, option: u8) -> Option<Seq<u8>> {
    let limit = if sz < 308 {
        sz
    } else {
        308
    };
    let (r1, ov1) = find_from(p.options@, limit, option, 0, 0);
    if let FindResult::Found(s, n) = r1 {
        Some(p.options@.subrange(s, s + n))
    } else {
        let (r2, ov2) = if ov1 & 1 != 0 {
            find_from(p.file@, 128, option, 0, ov1)
        } else {
            (FindResult::Missing, ov1)
        };
        if let FindResult::Found(s, n) = r2 {
            Some(p.file@.subrange(s, s + n))
        } else if ov2 & 2 != 0 {
            if let FindResult::Found(s, n) = find_from(p.sname@, 64, option, 0, ov2).0 {
                Some(p.sname@.subrange(s, s + n))
            } else {
                None
            }
        } else {
            None
        }
    }
}

proof fn lemma_option_find_shape(p: DhcpPacket, sz: int, option: u8)
    ensures
        spec_option_find(p, sz, option) matches Some(o) ==> o.len() >= 2 && o.len() == 2 + o[1] as int
            && o[0] == option,
{
    let limit = if sz < 308 {
        sz
    } else {
        308
    };
    lemma_find_from_found(p.options@, limit, option, 0, 0);
    let ov1 = find_from(p.options@, limit, option, 0, 0).1;
    lemma_find_from_found(p.file@, 128, option, 0, ov1);
    let ov2 = if ov1 & 1 != 0 {
        find_from(p.file@, 128, option, 0, ov1).1
    } else {
        ov1
    };
    lemma_find_from_found(p.sname@, 64, option, 0, ov2);
}

/// Finds an option in a message, following the overload option into the
/// boot file and server name areas.  The result holds the option's code,
/// length and value.
pub fn option_find(packet: &DhcpPacket, sz: usize, option: u8) -> (r: Option<&[u8]>)
    ensures
        r is None <==> spec_option_find(*packet, sz as int, option) is None,
        r matches Some(s) ==> spec_option_find(*packet, sz as int, option) == Some(s@),
        r matches Some(s) ==> s@.len() >= 2 && s@.len() == 2 + s@[1] as int && s@[0] == option,
{
    proof {
        lemma_option_find_shape(*packet, sz as int, option);
    }
    let mut overload: u8 = 0;
    let size_limit: usize = if sz < 308 {
        sz
    } else {
        308
    };
    if let Some(result) = find_exec(packet.options.as_slice(), size_limit, option, &mut overload) {
        return Some(result);
    }
    if (overload & 1) != 0 {
        if let Some(result) = find_exec(packet.file.as_slice(), 128, option, &mut overload) {
            return Some(result);
        }
    }
    if (overload & 2) != 0 {
        if let Some(result) = find_exec(packet.sname.as_slice(), 64, option, &mut overload) {
            return Some(result);
        }
    }
    None
}

// ---------------------------------------------------------------------
// Answering a client
// ---------------------------------------------------------------------

/// What the server's configuration contributes to a reply.
pub struct DncpReplyArgs<'a> {
    pub dhcp_configs: &'a [DhcpConfig],
    pub domain_suffix: &'a Option<String>,
    /// The boot file name (the name of a path).
    pub dhcp_file: &'a str,
    pub dhcp_sname: &'a Option<String>,
    pub dhcp_next_server: u32,
    pub dhcp_options: &'a [DhcpOpt],
    /// How many bytes of the message were received.
    pub sz: usize,
    pub now: Time,
}

/// A field of `n` bytes holding the first `n - 1` bytes of `data` at most,
/// then zeros.
pub open spec fn padded_field(data: Option<Seq<u8>>, n: int) -> Seq<u8> {
    Seq::new(
        n as nat,
        |i: int|
            match data {
                Some(d) => if i < n - 1 && i < d.len() {
                    d[i]
                } else {
                    0u8
                },
                None => 0u8,
            },
    )
}

/// The bytes of the text of an optional string.
pub open spec fn opt_string_bytes(s: Option<String>) -> Option<Seq<u8>> {
    match s {
        Some(t) => Some(encode_utf8(t@)),
        None => None,
    }
}

fn fill_field<const N: usize>(dst: &mut [u8; N], data: Option<&str>)
    requires
        N >= 1,
    ensures
        final(dst)@ == padded_field(opt_bytes(data), N as int),
{
    let mut i: usize = 0;
    while i < N
        invariant
            i <= N,
            dst@.len() == N,
            forall|k: int| 0 <= k < i ==> dst@[k] == 0u8,
        decreases N - i,
    {
        dst[i] = 0;
        i += 1;
    }
    match data {
        Some(d) => {
            let b: &[u8] = d.as_bytes();
            let n: usize = if b.len() < N - 1 {
                b.len()
            } else {
                N - 1
            };
            let mut j: usize = 0;
            while j < n
                invariant
                    n <= N - 1,
                    n <= b@.len(),
                    n == (if b@.len() < N - 1 { b@.len() } else { (N - 1) as nat }),
                    j <= n,
                    dst@.len() == N,
                    forall|k: int| 0 <= k < j ==> dst@[k] == b@[k],
                    forall|k: int| j <= k < N ==> dst@[k] == 0u8,
                decreases n - j,
            {
                dst[j] = b[j];
                j += 1;
            }
        },
        None => {},
    }
    assert(dst@ =~= padded_field(opt_bytes(data), N as int));
}

/// Sets the server name and boot file fields of a message: each is
/// cleared, then takes the given text, cut to leave a final zero byte.
pub fn bootp_option_put(packet: &mut DhcpPacket, dhcp_file: Option<&str>, dhcp_sname: Option<&str>)
    ensures
        final(packet).sname@ == padded_field(opt_bytes(dhcp_sname), 64),
        final(packet).file@ == padded_field(opt_bytes(dhcp_file), 128),
        *final(packet) == (DhcpPacket { sname: final(packet).sname, file: final(packet).file, ..*old(packet) }),
{
    fill_field(&mut packet.sname, dhcp_sname);
    fill_field(&mut packet.file, dhcp_file);
}

/// Whether a message is a boot request from an Ethernet client with the
/// DHCP cookie.
pub open spec fn reply_header_ok(m: DhcpPacket) -> bool {
    m.op == BOOTREQUEST && m.htype == ARPHRD_ETHER && m.hlen == 6 && m.cookie == DHCP_COOKIE
}

/// The client identifier of a message and its length: the value of the
/// client identifier option, or else the hardware address with length 0.
pub open spec fn reply_clid(m: DhcpPacket, sz: int) -> (Seq<u8>, usize) {
    match spec_option_find(m, sz, OPTION_CLIENT_ID) {
        Some(o) => (o.subrange(2, o.len() as int), o[1] as usize),
        None => (m.chaddr@.subrange(0, 6), 0),
    }
}

/// The options the client asks for, with an end marker; empty when it
/// sends no list.
pub open spec fn reply_req_list(m: DhcpPacket, sz: int) -> Seq<u8> {
    match spec_option_find(m, sz, OPTION_REQUESTED_OPTIONS) {
        Some(o) => o.subrange(2, o.len() as int) + seq![OPTION_END],
        None => seq![],
    }
}

/// The index of the first dot, or the length.
pub open spec fn char_dot(s: Seq<char>) -> int
    decreases s.len(),
{
    if s.len() == 0 {
        0
    } else if s[0] == '.' {
        0
    } else {
        1 + char_dot(s.drop_first())
    }
}

/// The host name a client may have: a name with a dot keeps only what
/// comes before the dot, when what comes after it up to the next dot is
/// the configured domain; otherwise the name stays whole.
pub open spec fn strip_domain(name: Seq<char>, suffix: Option<Seq<char>>) -> Seq<char> {
    let i = char_dot(name);
    if i >= name.len() {
        name
    } else {
        let rest = name.subrange(i + 1, name.len() as int);
        let seg = rest.subrange(0, char_dot(rest));
        match suffix {
            Some(sfx) => if seg == sfx {
                name.subrange(0, i)
            } else {
                name
            },
            None => name,
        }
    }
}

/// The configuration found for the client of a message.
pub open spec fn reply_find_config(
    ctx: DhcpContext,
    m: DhcpPacket,
    sz: int,
    configs: Seq<DhcpConfig>,
    hostname: Option<Seq<char>>,
) -> Option<int> {
    let (clid, clid_len) = reply_clid(m, sz);
    spec_find_config(configs_view(configs), Some(ctx), clid, clid_len, m.chaddr@.subrange(0, 6), hostname)
}

/// The host name of the client of a message: the one configured for it,
/// else the one it sends unless that one holds only legal characters; then
/// cut at the configured domain (see `strip_domain`).
pub open spec fn reply_hostname(
    ctx: DhcpContext,
    m: DhcpPacket,
    sz: int,
    configs: Seq<DhcpConfig>,
    suffix: Option<Seq<char>>,
) -> Seq<char> {
    let raw = match reply_find_config(ctx, m, sz, configs, None) {
        Some(i) => match configs[i]@.hostname {
            Some(n) => n,
            None => Seq::empty(),
        },
        None => match spec_option_find(m, sz, OPTION_HOSTNAME) {
            Some(o) => {
                let h = utf8_lossy(o.subrange(2, o.len() as int));
                if spec_canonical(h) {
                    Seq::empty()
                } else {
                    h
                }
            },
            None => Seq::empty(),
        },
    };
    strip_domain(raw, suffix)
}

/// The lease time the server offers by default: that of the client's
/// configuration, else that of the context.
pub open spec fn reply_def_time(ctx: DhcpContext, configs: Seq<DhcpConfig>, cfg: Option<int>) -> u32 {
    match cfg {
        Some(i) => configs[i].lease_time,
        None => ctx.lease_time,
    }
}

/// The lease time put in an offer and the one given on
/// acknowledgement.  A requested time is taken when it is shorter than
/// the default (and the default is not infinite); without a request, an
/// offer gives what is left of the client's lease.
pub open spec fn reply_times(m: DhcpPacket, sz: int, def: u32, lease: Option<LeaseView>, now: Time) -> (u32, u32) {
    match spec_option_find(m, sz, OPTION_LEASE_TIME) {
        Some(o) => {
            let req = be32_value(o[0], o[1], o[2], o[3]);
            if def == 0xffffffffu32 || (req != 0xffffffffu32 && req < def) {
                (req, req)
            } else {
                (def, def)
            }
        },
        None => match lease {
            Some(l) => (spec_difftime(l.expires, now) as u32, def),
            None => (def, def),
        },
    }
}

/// The lease time granted against a requested one: with a finite default,
/// neither the offered nor the acknowledged time ever exceeds the default,
/// a shorter request is granted exactly, and a longer (or infinite) one
/// gets the default; with an infinite default the request is granted.
pub proof fn law_requested_lease_time(m: DhcpPacket, sz: int, def: u32, lease: Option<LeaseView>, now: Time)
    requires
        spec_option_find(m, sz, OPTION_LEASE_TIME) matches Some(o) && o.len() >= 4,
    ensures
        ({
            let o = spec_option_find(m, sz, OPTION_LEASE_TIME)->0;
            let req = be32_value(o[0], o[1], o[2], o[3]);
            let (offered, given) = reply_times(m, sz, def, lease, now);
            &&& def != 0xffff_ffffu32 ==> offered <= def && given <= def
            &&& def != 0xffff_ffffu32 && req < def ==> offered == req && given == req
            &&& def != 0xffff_ffffu32 && req >= def ==> offered == def && given == def
            &&& def == 0xffff_ffffu32 ==> offered == req && given == req
        }),
{
}

/// The message type of a message, when it has one.
pub open spec fn reply_type(m: DhcpPacket, sz: int) -> Option<u8> {
    match spec_option_find(m, sz, OPTION_MESSAGE_TYPE) {
        Some(o) => Some(o[2]),
        None => None,
    }
}

/// The IPv4 address held in an option.
pub open spec fn opt_addr_value(o: Seq<u8>) -> u32 {
    be32_value(o[2], o[3], o[4], o[5])
}

/// The options that a reply reads hold enough bytes: the lease time (its
/// first four bytes are read), the message type, and, in a discover or a
/// request, the addresses that are read.
pub open spec fn reply_reads_ok(ctx: DhcpContext, m: DhcpPacket, sz: int) -> bool {
    reply_header_ok(m) ==> {
        &&& (spec_option_find(m, sz, OPTION_LEASE_TIME) matches Some(o) ==> o.len() >= 4)
        &&& (spec_option_find(m, sz, OPTION_MESSAGE_TYPE) matches Some(o) ==> o.len() >= 3)
        &&& (reply_type(m, sz) == Some(DHCPDISCOVER) ==> (spec_option_find(m, sz, OPTION_REQUESTED_IP) matches Some(o) ==> o.len() >= 6))
        &&& (reply_type(m, sz) == Some(DHCPREQUEST) && m.ciaddr == 0 ==> {
            &&& (spec_option_find(m, sz, OPTION_SERVER_IDENTIFIER) matches Some(o) ==> o.len() >= 6)
            &&& (match spec_option_find(m, sz, OPTION_SERVER_IDENTIFIER) {
                Some(o) => o.len() >= 6 && opt_addr_value(o) == ctx.serv_addr,
                None => true,
            } ==> (spec_option_find(m, sz, OPTION_REQUESTED_IP) matches Some(o) ==> o.len() >= 6))
        })
    }
}

/// The fields of a message that a reply may change.
pub struct PacketFields {
    pub op: u8,
    pub ciaddr: u32,
    pub yiaddr: u32,
    pub siaddr: u32,
    pub sname: Seq<u8>,
    pub file: Seq<u8>,
    pub options: Seq<u8>,
}

/// The changeable fields of a message as they are.
pub open spec fn fields_of(m: DhcpPacket) -> PacketFields {
    PacketFields {
        op: m.op,
        ciaddr: m.ciaddr,
        yiaddr: m.yiaddr,
        siaddr: m.siaddr,
        sname: m.sname@,
        file: m.file@,
        options: m.options@,
    }
}

/// `p` is `m` with the changeable fields `f`.
pub open spec fn packet_is(p: DhcpPacket, m: DhcpPacket, f: PacketFields) -> bool {
    &&& fields_of(p) == f
    &&& p.htype == m.htype && p.hlen == m.hlen && p.hops == m.hops && p.xid == m.xid
    &&& p.secs == m.secs && p.flags == m.flags && p.giaddr == m.giaddr && p.chaddr == m.chaddr
    &&& p.cookie == m.cookie
}

/// The state a reply leaves: what it returns, the message, the last
/// address handed out by the context, the leases and their flags.
pub struct ReplyView {
    pub ret: int,
    pub mess: PacketFields,
    pub last: u32,
    pub leases: Seq<LeaseView>,
    pub flags: LeaseFlags,
}

/// The options area starting with `w`, the rest as it was.
pub open spec fn with_options(f: PacketFields, w: Seq<u8>) -> Seq<u8> {
    w + f.options.subrange(w.len() as int, 308)
}

/// The options of a refusal: only the message type.
pub open spec fn nak_options(ctx: DhcpContext) -> Seq<u8> {
    reply_options_bytes(DHCPNAK, None, None, ctx, 308, seq![], seq![], None)
}

/// A refusal: all addresses cleared, no server name or boot file, only the
/// message type.  Returned as a negative length, so that it is broadcast.
pub open spec fn nak_reply(f: PacketFields, ctx: DhcpContext, leases: Seq<LeaseView>, flags: LeaseFlags) -> ReplyView {
    let w = nak_options(ctx);
    ReplyView {
        ret: -(240 + w.len()),
        mess: PacketFields {
            ciaddr: 0,
            yiaddr: 0,
            siaddr: 0,
            sname: padded_field(None, 64),
            file: padded_field(None, 128),
            options: with_options(f, w),
            ..f
        },
        last: ctx.last,
        leases,
        flags,
    }
}

/// No answer: the message as `f`, nothing else changed.
pub open spec fn no_reply(f: PacketFields, ctx: DhcpContext, leases: Seq<LeaseView>, flags: LeaseFlags) -> ReplyView {
    ReplyView { ret: 0, mess: f, last: ctx.last, leases, flags }
}

/// An offer or acknowledgement of the address `yiaddr`: the server name and
/// boot file, the next server, and options of type `kind` with the lease
/// time `time`.
pub open spec fn grant_reply(
    f: PacketFields,
    ctx: DhcpContext,
    a: DncpReplyArgs,
    kind: u8,
    yiaddr: u32,
    time: u32,
    req: Seq<u8>,
    leases: Seq<LeaseView>,
    flags: LeaseFlags,
) -> ReplyView {
    let w = reply_options_bytes(kind, Some(ctx.serv_addr), Some(time), ctx, 308, req, a.dhcp_options@, opt_string_bytes(*a.domain_suffix));
    ReplyView {
        ret: 240 + w.len() as int,
        mess: PacketFields {
            yiaddr,
            siaddr: a.dhcp_next_server,
            sname: padded_field(opt_string_bytes(*a.dhcp_sname), 64),
            file: padded_field(Some(encode_utf8(a.dhcp_file@)), 128),
            options: with_options(f, w),
            ..f
        },
        last: ctx.last,
        leases,
        flags,
    }
}

/// The lease file and DNS flags after pruning.
pub open spec fn prune_flags(s: Seq<LeaseView>, target: Option<LeaseView>, now: Time, flags: LeaseFlags) -> LeaseFlags {
    LeaseFlags {
        dns_dirty: flags.dns_dirty || prune_drops_named(s, target, now),
        file_dirty: flags.file_dirty || spec_prune(s, target, now).len() < s.len(),
    }
}

/// A lease with its hardware address set from the first six bytes of
/// `hw`, and the flags after it.
pub open spec fn set_hwaddr_view(l: LeaseView, hw: Seq<u8>, flags: LeaseFlags) -> (LeaseView, LeaseFlags) {
    if hw.len() >= 6 {
        (
            LeaseView { hwaddr: hw.subrange(0, 6), ..l },
            LeaseFlags { file_dirty: flags.file_dirty || l.hwaddr != hw.subrange(0, 6), ..flags },
        )
    } else {
        (l, flags)
    }
}

/// A lease with its expiry set, and the flags after it.
pub open spec fn set_expires_view(l: LeaseView, exp: Time, flags: LeaseFlags) -> (LeaseView, LeaseFlags) {
    (
        LeaseView { expires: exp, ..l },
        if l.expires != exp {
            LeaseFlags { dns_dirty: true, file_dirty: true }
        } else {
            flags
        },
    )
}

/// A lease with its host name set (see `lease_set_hostname`), the other
/// leases and the flags after it.
pub open spec fn set_hostname_view(
    l: LeaseView,
    name: Seq<char>,
    suffix: Option<Seq<char>>,
    s: Seq<LeaseView>,
    flags: LeaseFlags,
) -> (LeaseView, Seq<LeaseView>, LeaseFlags) {
    if hostname_unchanged(l, name) {
        (l, s, flags)
    } else {
        let taken = if name.len() > 0 {
            last_match_name(s, name)
        } else {
            None
        };
        let taken_fqdn = if name.len() > 0 {
            last_match_fqdn(s, name)
        } else {
            None
        };
        let new_name = match taken {
            Some(n) => n,
            None => name,
        };
        let new_fqdn = match taken_fqdn {
            Some(f) => Some(f),
            None => suffix_fqdn(name, suffix),
        };
        (
            named_lease(l, new_name, new_fqdn),
            if name.len() > 0 {
                clear_name(s, name)
            } else {
                s
            },
            LeaseFlags { dns_dirty: true, file_dirty: true },
        )
    }
}

/// When a lease granted for `secs` seconds from `now` runs out; the epoch
/// for an infinite lease.
pub open spec fn expiry_after(now: Time, secs: u32) -> Time {
    if secs == 0xffffffffu32 {
        Time { secs: 0, nanos: 0 }
    } else {
        Time { secs: (now.secs + secs) as u64, nanos: now.nanos }
    }
}

/// The leases and flags after recording a granted lease: a lease the
/// client had gets its hardware address, host name and expiry set on a
/// copy, of which only the clearing of the host name from other leases
/// remains; without one, a new lease for the address is added.
pub open spec fn record_lease(
    lease: Option<LeaseView>,
    clid: Seq<u8>,
    clid_len: usize,
    chaddr: Seq<u8>,
    addr: u32,
    name: Seq<char>,
    suffix: Option<Seq<char>>,
    renewal: u32,
    now: Time,
    s: Seq<LeaseView>,
    flags: LeaseFlags,
) -> (Seq<LeaseView>, LeaseFlags) {
    let base = match lease {
        Some(l) => l,
        None => LeaseView {
            clid_len,
            clid,
            hostname: None,
            fqdn: None,
            expires: now,
            hwaddr: seq![0u8, 0u8, 0u8, 0u8, 0u8, 0u8],
            addr,
        },
    };
    let (l1, f1) = set_hwaddr_view(base, chaddr, flags);
    let (l2, s2, f2) = set_hostname_view(l1, name, suffix, s, f1);
    let (l3, f3) = set_expires_view(l2, expiry_after(now, renewal), f2);
    match lease {
        Some(_) => (s2, f3),
        None => (s2.push(l3), f3),
    }
}

/// The address a discover is offered, and the context's last address
/// after it: the address of the client's lease; else the address
/// configured for it, when no lease holds it; else the address it asks
/// for, when free; else the next free address of the context.  None when
/// the range has none.
pub open spec fn discover_addr(
    ctx: DhcpContext,
    configs: Seq<DhcpConfig>,
    cfg: Option<int>,
    lease: Option<LeaseView>,
    requested: Option<u32>,
    leases: Seq<LeaseView>,
) -> Option<(u32, u32)> {
    let cfg_addr: Option<u32> = match cfg {
        Some(i) => if configs[i].addr != 0 && !addr_leased(leases, configs[i].addr) {
            Some(configs[i].addr)
        } else {
            None
        },
        None => None,
    };
    let free_requested: Option<u32> = match requested {
        Some(y) => if ctx.start <= y <= ctx.end && !addr_leased(leases, y) {
            Some(y)
        } else {
            None
        },
        None => None,
    };
    match lease {
        Some(l) => Some((l.addr, ctx.last)),
        None => match cfg_addr {
            Some(c) => Some((c, ctx.last)),
            None => match free_requested {
                Some(y) => Some((y, ctx.last)),
                None => {
                    let k = first_free_step(leases, configs, ctx.start, ctx.end, ctx.last, 1);
                    if k <= ctx.end as int - ctx.start as int + 1 {
                        let c = candidate(ctx.start, ctx.end, ctx.last, k);
                        Some((c, c))
                    } else {
                        None
                    }
                },
            },
        },
    }
}

/// A release: the client's lease, if it has one, is pruned away.
pub open spec fn release_outcome(
    f1: PacketFields,
    ctx: DhcpContext,
    lease: Option<LeaseView>,
    now: Time,
    leases: Seq<LeaseView>,
    flags: LeaseFlags,
) -> ReplyView {
    match lease {
        Some(l) => no_reply(f1, ctx, spec_prune(leases, Some(l), now), prune_flags(leases, Some(l), now, flags)),
        None => no_reply(f1, ctx, leases, flags),
    }
}

/// A discover: an offer of the address chosen by `discover_addr`, or no
/// answer when the range is exhausted.
pub open spec fn discover_outcome(
    f1: PacketFields,
    ctx: DhcpContext,
    m: DhcpPacket,
    a: DncpReplyArgs,
    cfg: Option<int>,
    lease: Option<LeaseView>,
    req: Seq<u8>,
    expires_time: u32,
    leases: Seq<LeaseView>,
    flags: LeaseFlags,
) -> ReplyView {
    let requested = match spec_option_find(m, a.sz as int, OPTION_REQUESTED_IP) {
        Some(o) => Some(opt_addr_value(o)),
        None => None,
    };
    let y0 = match requested {
        Some(y) => y,
        None => m.yiaddr,
    };
    match discover_addr(ctx, a.dhcp_configs@, cfg, lease, requested, leases) {
        Some((y, last)) => grant_reply(f1, DhcpContext { last, ..ctx }, a, DHCPOFFER, y, expires_time, req, leases, flags),
        None => no_reply(PacketFields { yiaddr: y0, ..f1 }, ctx, leases, flags),
    }
}

/// A request for the address `y` (no client address given): a lease for
/// another address is pruned; the request is refused when the address is
/// not free and not configured for the client; otherwise the lease is
/// recorded and acknowledged.
pub open spec fn request_addr_outcome(
    f1: PacketFields,
    ctx: DhcpContext,
    m: DhcpPacket,
    a: DncpReplyArgs,
    cfg: Option<int>,
    lease: Option<LeaseView>,
    clid: Seq<u8>,
    clid_len: usize,
    name: Seq<char>,
    req: Seq<u8>,
    renewal_time: u32,
    y: u32,
    leases: Seq<LeaseView>,
    flags: LeaseFlags,
) -> ReplyView {
    let configs = a.dhcp_configs@;
    let f2 = PacketFields { yiaddr: y, ..f1 };
    let (lease1, leases1, flags1) = match lease {
        Some(l) => if l.addr != y {
            (None, spec_prune(leases, Some(l), a.now), prune_flags(leases, Some(l), a.now, flags))
        } else {
            (lease, leases, flags)
        },
        None => (lease, leases, flags),
    };
    if lease1 is None && !(ctx.start <= y <= ctx.end && !addr_leased(leases1, y)) && (match cfg {
        Some(i) => configs[i].addr == 0 || configs[i].addr != y,
        None => true,
    }) {
        nak_reply(f2, ctx, leases1, flags1)
    } else {
        let (leases2, flags2) = record_lease(
            lease1,
            clid,
            clid_len,
            m.chaddr@,
            y,
            name,
            opt_str_view(*a.domain_suffix),
            renewal_time,
            a.now,
            leases1,
            flags1,
        );
        grant_reply(f2, ctx, a, DHCPACK, y, renewal_time, req, leases2, flags2)
    }
}

/// A request: with a client address, a refusal unless it is the address
/// of the client's lease, and otherwise no answer; without one, no answer
/// when it names another server or no address, else see
/// `request_addr_outcome`.
pub open spec fn request_outcome(
    f1: PacketFields,
    ctx: DhcpContext,
    m: DhcpPacket,
    a: DncpReplyArgs,
    cfg: Option<int>,
    lease: Option<LeaseView>,
    clid: Seq<u8>,
    clid_len: usize,
    name: Seq<char>,
    req: Seq<u8>,
    renewal_time: u32,
    leases: Seq<LeaseView>,
    flags: LeaseFlags,
) -> ReplyView {
    let sz = a.sz as int;
    if m.ciaddr != 0 {
        if lease matches Some(l) && l.addr == m.ciaddr {
            no_reply(PacketFields { yiaddr: m.ciaddr, ..f1 }, ctx, leases, flags)
        } else {
            nak_reply(f1, ctx, leases, flags)
        }
    } else if spec_option_find(m, sz, OPTION_SERVER_IDENTIFIER) matches Some(o) && ctx.serv_addr
        != opt_addr_value(o) {
        no_reply(f1, ctx, leases, flags)
    } else {
        match spec_option_find(m, sz, OPTION_REQUESTED_IP) {
            Some(o) => request_addr_outcome(
                f1,
                ctx,
                m,
                a,
                cfg,
                lease,
                clid,
                clid_len,
                name,
                req,
                renewal_time,
                opt_addr_value(o),
                leases,
                flags,
            ),
            None => no_reply(f1, ctx, leases, flags),
        }
    }
}

/// An inform: an acknowledgement with the options asked for.
pub open spec fn inform_outcome(
    f1: PacketFields,
    ctx: DhcpContext,
    a: DncpReplyArgs,
    req: Seq<u8>,
    leases: Seq<LeaseView>,
    flags: LeaseFlags,
) -> ReplyView {
    let w = reply_options_bytes(
        DHCPACK,
        Some(ctx.serv_addr),
        None,
        ctx,
        308,
        req,
        a.dhcp_options@,
        opt_string_bytes(*a.domain_suffix),
    );
    ReplyView {
        ret: 240 + w.len() as int,
        mess: PacketFields { options: with_options(f1, w), ..f1 },
        last: ctx.last,
        leases,
        flags,
    }
}

/// What answering a message does (see `dncp_reply`).
pub open spec fn spec_dncp_reply(
    ctx: DhcpContext,
    m: DhcpPacket,
    leases: Seq<LeaseView>,
    flags: LeaseFlags,
    a: DncpReplyArgs,
) -> ReplyView {
    let f0 = fields_of(m);
    if !reply_header_ok(m) {
        no_reply(f0, ctx, leases, flags)
    } else {
        let sz = a.sz as int;
        let f1 = PacketFields { op: BOOTREPLY, ..f0 };
        let configs = a.dhcp_configs@;
        let suffix = opt_str_view(*a.domain_suffix);
        let (clid, clid_len) = reply_clid(m, sz);
        let lease = client_lease(leases, clid, clid_len);
        let req = reply_req_list(m, sz);
        let name = reply_hostname(ctx, m, sz, configs, suffix);
        let cfg = reply_find_config(ctx, m, sz, configs, Some(name));
        let def = reply_def_time(ctx, configs, cfg);
        let (expires_time, renewal_time) = reply_times(m, sz, def, lease, a.now);
        match reply_type(m, sz) {
            Some(t) => if t == DHCPRELEASE {
                release_outcome(f1, ctx, lease, a.now, leases, flags)
            } else if t == DHCPDISCOVER {
                discover_outcome(f1, ctx, m, a, cfg, lease, req, expires_time, leases, flags)
            } else if t == DHCPREQUEST {
                request_outcome(f1, ctx, m, a, cfg, lease, clid, clid_len, name, req, renewal_time, leases, flags)
            } else if t == DHCPINFORM {
                inform_outcome(f1, ctx, a, req, leases, flags)
            } else {
                no_reply(f1, ctx, leases, flags)
            },
            None => no_reply(f1, ctx, leases, flags),
        }
    }
}

fn reply_clid_exec(mess: &DhcpPacket, sz: usize) -> (r: (Vec<u8>, usize))
    ensures
        (r.0@, r.1) == reply_clid(*mess, sz as int),
{
    match option_find(mess, sz, OPTION_CLIENT_ID) {
        Some(opt) => {
            let data = option_ptr(opt);
            let mut v: Vec<u8> = Vec::new();
            let mut i: usize = 0;
            while i < data.len()
                invariant
                    i <= data@.len(),
                    v@ == data@.take(i as int),
                decreases data@.len() - i,
            {
                v.push(data[i]);
                i += 1;
                assert(data@.take(i as int) =~= data@.take(i - 1).push(data@[i - 1]));
            }
            assert(data@.take(data@.len() as int) =~= data@);
            (v, option_len(opt))
        },
        None => {
            let mut v: Vec<u8> = Vec::new();
            let mut i: usize = 0;
            while i < 6
                invariant
                    i <= 6,
                    v@ == mess.chaddr@.take(i as int),
                decreases 6 - i,
            {
                v.push(mess.chaddr[i]);
                i += 1;
                assert(mess.chaddr@.take(i as int) =~= mess.chaddr@.take(i - 1).push(mess.chaddr@[i - 1]));
            }
            assert(mess.chaddr@.take(6) =~= mess.chaddr@.subrange(0, 6));
            (v, 0)
        },
    }
}

fn reply_req_exec(mess: &DhcpPacket, sz: usize) -> (r: Vec<u8>)
    ensures
        r@ == reply_req_list(*mess, sz as int),
{
    let mut v: Vec<u8> = Vec::new();
    match option_find(mess, sz, OPTION_REQUESTED_OPTIONS) {
        Some(opt) => {
            let len: usize = option_len(opt);
            let data = option_ptr(opt);
            let mut i: usize = 0;
            while i < len
                invariant
                    len == data@.len(),
                    i <= len,
                    v@ == data@.take(i as int),
                decreases len - i,
            {
                v.push(data[i]);
                i += 1;
                assert(data@.take(i as int) =~= data@.take(i - 1).push(data@[i - 1]));
            }
            assert(data@.take(len as int) =~= data@);
            v.push(OPTION_END);
        },
        None => {},
    }
    v
}

proof fn lemma_char_dot(s: Seq<char>, i: int)
    requires
        0 <= i <= s.len(),
        forall|k: int| 0 <= k < i ==> s[k] != '.',
        i < s.len() ==> s[i] == '.',
    ensures
        char_dot(s) == i,
    decreases i,
{
    if i > 0 {
        assert forall|k: int| 0 <= k < i - 1 implies s.drop_first()[k] != '.' by {
            assert(s.drop_first()[k] == s[k + 1]);
        }
        if i < s.len() {
            assert(s.drop_first()[i - 1] == s[i]);
        }
        lemma_char_dot(s.drop_first(), i - 1);
    }
}

/// The first dot in `v` from index `from` on, or the length.
fn find_dot(v: &Vec<char>, from: usize) -> (i: usize)
    requires
        from <= v@.len(),
    ensures
        from <= i <= v@.len(),
        forall|k: int| from <= k < i ==> v@[k] != '.',
        i < v@.len() ==> v@[i as int] == '.',
{
    let mut i: usize = from;
    while i < v.len() && v[i] != '.'
        invariant
            from <= i <= v@.len(),
            forall|k: int| from <= k < i ==> v@[k] != '.',
        decreases v@.len() - i,
    {
        i += 1;
    }
    i
}

fn chars_eq(a: &[char], b: &[char]) -> (r: bool)
    ensures
        r == (a@ == b@),
{
    if a.len() != b.len() {
        return false;
    }
    let mut i: usize = 0;
    while i < a.len()
        invariant
            a@.len() == b@.len(),
            i <= a@.len(),
            forall|k: int| 0 <= k < i ==> a@[k] == b@[k],
        decreases a@.len() - i,
    {
        if a[i] != b[i] {
            return false;
        }
        i += 1;
    }
    assert(a@ =~= b@);
    true
}

/// Cuts a host name at the configured domain (see `strip_domain`).
fn strip_domain_exec(name: String, suffix: &Option<String>) -> (r: String)
    ensures
        r@ == strip_domain(name@, opt_str_view(*suffix)),
{
    let v: Vec<char> = str_chars(name.as_str());
    let i: usize = find_dot(&v, 0);
    proof {
        lemma_char_dot(v@, i as int);
    }
    if i >= v.len() {
        return name;
    }
    let j: usize = find_dot(&v, i + 1);
    let ghost rest = v@.subrange(i + 1, v@.len() as int);
    proof {
        assert forall|k: int| 0 <= k < j - (i + 1) implies rest[k] != '.' by {
            assert(rest[k] == v@[k + i + 1]);
        }
        if j < v@.len() {
            assert(rest[j - (i + 1)] == v@[j as int]);
        }
        lemma_char_dot(rest, j - (i + 1));
    }
    match suffix {
        Some(sfx) => {
            let sv: Vec<char> = str_chars(sfx.as_str());
            let seg: &[char] = &v.as_slice()[i + 1..j];
            assert(seg@ =~= rest.subrange(0, char_dot(rest)));
            if chars_eq(seg, sv.as_slice()) {
                let head: &[char] = &v.as_slice()[0..i];
                return string_from_chars(head);
            }
            name
        },
        None => name,
    }
}

fn reply_hostname_exec(
    ctx: &DhcpContext,
    mess: &DhcpPacket,
    sz: usize,
    configs: &[DhcpConfig],
    suffix: &Option<String>,
) -> (r: String)
    ensures
        r@ == reply_hostname(*ctx, *mess, sz as int, configs@, opt_str_view(*suffix)),
{
    let (clid, clid_len) = reply_clid_exec(mess, sz);
    let hw: [u8; 6] = [mess.chaddr[0], mess.chaddr[1], mess.chaddr[2], mess.chaddr[3], mess.chaddr[4], mess.chaddr[5]];
    assert(hw@ =~= mess.chaddr@.subrange(0, 6));
    let mut hostname: String = String::new();
    proof {
        reveal_strlit("");
    }
    match find_config(configs, Some(ctx), clid.as_slice(), clid_len, hw, None) {
        Some(cfg) => {
            match cfg.hostname {
                Some(n) => {
                    hostname = n;
                },
                None => {},
            }
        },
        None => {
            match option_find(mess, sz, OPTION_HOSTNAME) {
                Some(opt) => {
                    let bytes = option_ptr(opt);
                    let h: String = string_from_utf8_lossy(bytes);
                    if !canonicalise(h.as_str()) {
                        hostname = h;
                    }
                },
                None => {},
            }
        },
    }
    proof {
        assert(""@ =~= Seq::<char>::empty());
    }
    strip_domain_exec(hostname, suffix)
}

fn reply_times_exec(mess: &DhcpPacket, sz: usize, def: u32, lease: &Option<DhcpLease>, now: Time) -> (r: (u32, u32))
    requires
        spec_option_find(*mess, sz as int, OPTION_LEASE_TIME) matches Some(o) ==> o.len() >= 4,
        now.wf(),
        now.secs <= i64::MAX as u64,
        lease matches Some(l) ==> l.expires.wf() && l.expires.secs <= i64::MAX as u64,
    ensures
        r == reply_times(*mess, sz as int, def, opt_lease_view(*lease), now),
{
    match option_find(mess, sz, OPTION_LEASE_TIME) {
        Some(opt) => {
            let req_time: u32 = option_uint(opt);
            if def == 0xffffffffu32 || (req_time != 0xffffffffu32 && req_time < def) {
                (req_time, req_time)
            } else {
                (def, def)
            }
        },
        None => match lease {
            Some(l) => {
                let d: i64 = difftime(l.expires, now);
                (d as u32, def)
            },
            None => (def, def),
        },
    }
}


/// The configuration `cfg` is the one at index `idx` of `configs`.
pub open spec fn cfg_is(cfg: Option<DhcpConfig>, configs: Seq<DhcpConfig>, idx: Option<int>) -> bool {
    match idx {
        None => cfg is None,
        Some(i) => 0 <= i < configs.len() && (cfg matches Some(c) && c@ == configs[i]@),
    }
}

/// Writes the options of a reply into the options area of a message.
fn put_message_options(
    mess: &mut DhcpPacket,
    kind: u8,
    server: Option<u32>,
    lease_time: Option<u32>,
    context: &DhcpContext,
    req: &[u8],
    opts: &[DhcpOpt],
    domain: Option<&str>,
) -> (n: usize)
    requires
        opts_wf(opts@),
    ensures
        ({
            let w = reply_options_bytes(kind, server, lease_time, *context, 308, req@, opts@, opt_bytes(domain));
            &&& n == w.len()
            &&& n <= 308
            &&& final(mess).options@ == w + old(mess).options@.subrange(w.len() as int, 308)
            &&& *final(mess) == (DhcpPacket { options: final(mess).options, ..*old(mess) })
        }),
{
    let buf: &mut [u8] = &mut mess.options;
    put_reply_options(buf, kind, server, lease_time, context, req, opts, domain)
}

fn opt_as_str(s: &Option<String>) -> (r: Option<&str>)
    ensures
        opt_bytes(r) == opt_string_bytes(*s),
{
    match s {
        Some(t) => Some(t.as_str()),
        None => None,
    }
}

/// Makes the message an offer or acknowledgement (see `grant_reply`);
/// gives its length.
fn grant_exec(
    mess: &mut DhcpPacket,
    context: &DhcpContext,
    args: &DncpReplyArgs,
    kind: u8,
    yiaddr: u32,
    time: u32,
    req: &Vec<u8>,
) -> (ret: i32)
    requires
        opts_wf(args.dhcp_options@),
    ensures
        ({
            let r = grant_reply(fields_of(*old(mess)), *context, *args, kind, yiaddr, time, req@, seq![], LeaseFlags { dns_dirty: false, file_dirty: false });
            &&& ret as int == r.ret
            &&& packet_is(*final(mess), *old(mess), r.mess)
        }),
{
    mess.yiaddr = yiaddr;
    bootp_option_put(mess, Some(args.dhcp_file), opt_as_str(args.dhcp_sname));
    mess.siaddr = args.dhcp_next_server;
    let n = put_message_options(
        mess,
        kind,
        Some(context.serv_addr),
        Some(time),
        context,
        req.as_slice(),
        args.dhcp_options,
        opt_as_str(args.domain_suffix),
    );
    (240 + n) as i32
}

/// Makes the message a refusal (see `nak_reply`); gives its negative
/// length.
fn nak_exec(mess: &mut DhcpPacket, context: &DhcpContext) -> (ret: i32)
    ensures
        ({
            let r = nak_reply(fields_of(*old(mess)), *context, seq![], LeaseFlags { dns_dirty: false, file_dirty: false });
            &&& ret as int == r.ret
            &&& packet_is(*final(mess), *old(mess), r.mess)
        }),
{
    mess.siaddr = 0;
    mess.yiaddr = 0;
    mess.ciaddr = 0;
    bootp_option_put(mess, None, None);
    let no_req: Vec<u8> = Vec::new();
    let no_opts: Vec<DhcpOpt> = Vec::new();
    let n = put_message_options(mess, DHCPNAK, None, None, context, no_req.as_slice(), no_opts.as_slice(), None);
    assert(no_req@ =~= seq![]);
    assert(no_opts@ =~= seq![]);
    -((240 + n) as i32)
}

/// Answers a discover (see `discover_outcome`).
fn reply_discover(
    context: &mut DhcpContext,
    mess: &mut DhcpPacket,
    db: &LeaseDb,
    args: &DncpReplyArgs,
    m: &DhcpPacket,
    cfg: &Option<DhcpConfig>,
    lease: &Option<DhcpLease>,
    req: &Vec<u8>,
    expires_time: u32,
    Ghost(cfg_idx): Ghost<Option<int>>,
) -> (ret: i32)
    requires
        cfg_is(*cfg, args.dhcp_configs@, cfg_idx),
        spec_option_find(*m, args.sz as int, OPTION_REQUESTED_IP) matches Some(o) ==> o.len() >= 6,
        old(context).start <= old(context).last <= old(context).end,
        opts_wf(args.dhcp_options@),
        old(mess).yiaddr == m.yiaddr,
    ensures
        ({
            let r = discover_outcome(
                fields_of(*old(mess)),
                *old(context),
                *m,
                *args,
                cfg_idx,
                opt_lease_view(*lease),
                req@,
                expires_time,
                leases_view(db.leases@),
                db.flags,
            );
            &&& ret as int == r.ret
            &&& packet_is(*final(mess), *old(mess), r.mess)
            &&& *final(context) == (DhcpContext { last: r.last, ..*old(context) })
        }),
{
    let configs = args.dhcp_configs;
    let requested: Option<u32> = match option_find(m, args.sz, OPTION_REQUESTED_IP) {
        Some(o) => Some(option_addr(o)),
        None => None,
    };
    let y0: u32 = match requested {
        Some(y) => y,
        None => mess.yiaddr,
    };
    mess.yiaddr = y0;
    let chosen: Option<u32> = match lease {
        Some(l) => Some(l.addr),
        None => {
            let cfg_addr: Option<u32> = match cfg {
                Some(c) => if c.addr != 0 && !addr_is_leased(db, c.addr) {
                    Some(c.addr)
                } else {
                    None
                },
                None => None,
            };
            match cfg_addr {
                Some(c) => Some(c),
                None => {
                    if requested.is_some() && address_available(context, y0, db) {
                        Some(y0)
                    } else {
                        let mut y: u32 = y0;
                        address_allocate(context, configs, &mut y, db)
                    }
                },
            }
        },
    };
    match chosen {
        Some(y) => grant_exec(mess, context, args, DHCPOFFER, y, expires_time, req),
        None => 0,
    }
}


/// Records a granted lease (see `record_lease`).
fn record_lease_exec(
    db: &mut LeaseDb,
    lease: Option<DhcpLease>,
    clid: &Vec<u8>,
    clid_len: usize,
    chaddr: &[u8; 16],
    addr: u32,
    name: &String,
    suffix: &Option<String>,
    renewal: u32,
    now: Time,
)
    requires
        now.secs <= i64::MAX as u64,
    ensures
        ({
            let (s, f) = record_lease(
                opt_lease_view(lease),
                clid@,
                clid_len,
                chaddr@,
                addr,
                name@,
                opt_str_view(*suffix),
                renewal,
                now,
                leases_view(old(db).leases@),
                old(db).flags,
            );
            &&& leases_view(final(db).leases@) == s
            &&& final(db).flags == f
        }),
{
    let exp: Time = if renewal == 0xffffffffu32 {
        Time::epoch()
    } else {
        Time { secs: now.secs + renewal as u64, nanos: now.nanos }
    };
    match lease {
        Some(l) => {
            let mut lc: DhcpLease = l;
            lease_set_hwaddr(&mut lc, chaddr.as_slice(), &mut db.flags);
            lease_set_hostname(&mut lc, name.as_str(), suffix, &mut db.leases, &mut db.flags);
            lease_set_expires(&mut lc, exp, &mut db.flags);
        },
        None => {
            let mut temp = DhcpLease {
                clid_len,
                clid: clone_bytes(clid),
                hostname: None,
                fqdn: None,
                expires: now,
                hwaddr: [0u8; 6],
                addr,
            };
            assert(temp.hwaddr@ =~= seq![0u8, 0u8, 0u8, 0u8, 0u8, 0u8]);
            lease_set_hwaddr(&mut temp, chaddr.as_slice(), &mut db.flags);
            lease_set_hostname(&mut temp, name.as_str(), suffix, &mut db.leases, &mut db.flags);
            lease_set_expires(&mut temp, exp, &mut db.flags);
            let ghost before = db.leases@;
            db.leases.push(temp);
            assert(leases_view(db.leases@) =~= leases_view(before).push(temp@));
        },
    }
}

/// Answers a request (see `request_outcome`).
fn reply_request(
    context: &DhcpContext,
    mess: &mut DhcpPacket,
    db: &mut LeaseDb,
    args: &DncpReplyArgs,
    m: &DhcpPacket,
    cfg: &Option<DhcpConfig>,
    lease: Option<DhcpLease>,
    clid: &Vec<u8>,
    clid_len: usize,
    name: &String,
    req: &Vec<u8>,
    renewal_time: u32,
    Ghost(cfg_idx): Ghost<Option<int>>,
) -> (ret: i32)
    requires
        cfg_is(*cfg, args.dhcp_configs@, cfg_idx),
        m.ciaddr == 0 ==> {
            &&& (spec_option_find(*m, args.sz as int, OPTION_SERVER_IDENTIFIER) matches Some(o) ==> o.len() >= 6)
            &&& (match spec_option_find(*m, args.sz as int, OPTION_SERVER_IDENTIFIER) {
                Some(o) => o.len() >= 6 && opt_addr_value(o) == context.serv_addr,
                None => true,
            } ==> (spec_option_find(*m, args.sz as int, OPTION_REQUESTED_IP) matches Some(o) ==> o.len() >= 6))
        },
        old(mess).ciaddr == m.ciaddr,
        old(mess).chaddr == m.chaddr,
        opts_wf(args.dhcp_options@),
        args.now.secs <= i64::MAX as u64,
    ensures
        ({
            let r = request_outcome(
                fields_of(*old(mess)),
                *context,
                *m,
                *args,
                cfg_idx,
                opt_lease_view(lease),
                clid@,
                clid_len,
                name@,
                req@,
                renewal_time,
                leases_view(old(db).leases@),
                old(db).flags,
            );
            &&& ret as int == r.ret
            &&& packet_is(*final(mess), *old(mess), r.mess)
            &&& leases_view(final(db).leases@) == r.leases
            &&& final(db).flags == r.flags
        }),
{
    let now: Time = args.now;
    if mess.ciaddr != 0 {
        let owns: bool = match &lease {
            Some(l) => l.addr == mess.ciaddr,
            None => false,
        };
        if !owns {
            return nak_exec(mess, context);
        }
        mess.yiaddr = mess.ciaddr;
        return 0;
    }
    match option_find(m, args.sz, OPTION_SERVER_IDENTIFIER) {
        Some(o) => {
            if context.serv_addr != option_addr(o) {
                return 0;
            }
        },
        None => {},
    }
    let y: u32 = match option_find(m, args.sz, OPTION_REQUESTED_IP) {
        Some(o) => option_addr(o),
        None => {
            return 0;
        },
    };
    mess.yiaddr = y;
    let moved: bool = match &lease {
        Some(l) => l.addr != y,
        None => false,
    };
    let mut lease1: Option<DhcpLease> = lease;
    if moved {
        match &lease1 {
            Some(l) => lease_prune(db, Some(l), now),
            None => {},
        }
        lease1 = None;
    }
    let refused_by_cfg: bool = match cfg {
        Some(c) => c.addr == 0 || c.addr != y,
        None => true,
    };
    if lease1.is_none() && !address_available(context, y, db) && refused_by_cfg {
        return nak_exec(mess, context);
    }
    record_lease_exec(db, lease1, clid, clid_len, &mess.chaddr, y, name, args.domain_suffix, renewal_time, now);
    grant_exec(mess, context, args, DHCPACK, y, renewal_time, req)
}


/// Answers a DHCP message from a client, in place: the message becomes the
/// reply.  Gives the length of the reply, negative when it must be
/// broadcast, or 0 when there is nothing to send.  Besides a boot request
/// from an Ethernet client, every message is left alone.  A release drops
/// the client's lease; a discover is offered an address (see
/// `discover_addr`); a request is acknowledged and its lease recorded, or
/// refused; an inform is acknowledged with the options asked for.  See
/// `spec_dncp_reply` for every case.
pub fn dncp_reply(
    context: &mut DhcpContext,
    mess: &mut DhcpPacket,
    db: &mut LeaseDb,
    args: &DncpReplyArgs,
) -> (ret: i32)
    requires
        reply_reads_ok(*old(context), *old(mess), args.sz as int),
        opts_wf(args.dhcp_options@),
        old(context).start <= old(context).last <= old(context).end,
        args.now.wf(),
        args.now.secs <= i64::MAX as u64,
        forall|i: int|
            0 <= i < old(db).leases@.len() ==> (#[trigger] old(db).leases@[i]).expires.wf()
                && old(db).leases@[i].expires.secs <= i64::MAX as u64,
    ensures
        ({
            let r = spec_dncp_reply(*old(context), *old(mess), leases_view(old(db).leases@), old(db).flags, *args);
            &&& ret as int == r.ret
            &&& packet_is(*final(mess), *old(mess), r.mess)
            &&& *final(context) == (DhcpContext { last: r.last, ..*old(context) })
            &&& leases_view(final(db).leases@) == r.leases
            &&& final(db).flags == r.flags
        }),
{
    if mess.op != BOOTREQUEST || mess.htype != ARPHRD_ETHER || mess.hlen != 6 || mess.cookie
        != DHCP_COOKIE {
        return 0;
    }
    let m: DhcpPacket = *mess;
    let sz: usize = args.sz;
    let configs: &[DhcpConfig] = args.dhcp_configs;
    mess.op = BOOTREPLY;
    let (clid, clid_len) = reply_clid_exec(&m, sz);
    let lease: Option<DhcpLease> = lease_find_by_client(db, clid.as_slice(), clid_len);
    let req: Vec<u8> = reply_req_exec(&m, sz);
    let name: String = reply_hostname_exec(context, &m, sz, configs, args.domain_suffix);
    let hw: [u8; 6] = [m.chaddr[0], m.chaddr[1], m.chaddr[2], m.chaddr[3], m.chaddr[4], m.chaddr[5]];
    assert(hw@ =~= m.chaddr@.subrange(0, 6));
    let cfg: Option<DhcpConfig> = find_config(configs, Some(&*context), clid.as_slice(), clid_len, hw, Some(name.clone()));
    let ghost cfg_idx = reply_find_config(*old(context), m, sz as int, configs@, Some(name@));
    let def_time: u32 = match &cfg {
        Some(c) => c.lease_time,
        None => context.lease_time,
    };
    proof {
        match opt_lease_view(lease) {
            Some(lv) => {
                let s = leases_view(old(db).leases@);
                assert(client_lease(s, clid@, clid_len) == Some(lv));
                lemma_client_lease_in(s, clid@, clid_len, 0);
                let k = choose|k: int| 0 <= k < s.len() && s[k] == lv;
                assert(s[k] == old(db).leases@[k]@);
            },
            None => {},
        }
    }
    let (expires_time, renewal_time) = reply_times_exec(&m, sz, def_time, &lease, args.now);
    let kind: Option<u8> = match option_find(&m, sz, OPTION_MESSAGE_TYPE) {
        Some(o) => Some(o[2]),
        None => None,
    };
    match kind {
        Some(t) => {
            if t == DHCPRELEASE {
                match &lease {
                    Some(l) => lease_prune(db, Some(l), args.now),
                    None => {},
                }
                0
            } else if t == DHCPDISCOVER {
                reply_discover(context, mess, db, args, &m, &cfg, &lease, &req, expires_time, Ghost(cfg_idx))
            } else if t == DHCPREQUEST {
                reply_request(context, mess, db, args, &m, &cfg, lease, &clid, clid_len, &name, &req, renewal_time, Ghost(cfg_idx))
            } else if t == DHCPINFORM {
                let n = put_message_options(
                    mess,
                    DHCPACK,
                    Some(context.serv_addr),
                    None,
                    context,
                    req.as_slice(),
                    args.dhcp_options,
                    opt_as_str(args.domain_suffix),
                );
                (240 + n) as i32
            } else {
                0
            }
        },
        None => 0,
    }
}

} // verus!
