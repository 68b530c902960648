//! DHCP address management: which configuration applies to a client,
//! whether an address is free, and the choice of the next free address.

use crate::cache::{cv_unhash_dhcp, Cache};
use crate::dnsmasq::{DhcpConfig, DhcpConfigView, DhcpContext, DhcpPacket};
use crate::dnsmasq::LeaseView;
use crate::lease::{
    cv_update_dns, is_live, lease_find_by_addr, lease_prune, lease_times_ok, lease_update_dns, leases_view,
    live_leases, prune_drops_named, spec_prune, LeaseDb, LeaseFlags,
};
use crate::rfc2131::{dncp_reply, opts_wf, packet_is, reply_reads_ok, spec_dncp_reply, DncpReplyArgs, PacketFields};
use crate::util::Time;
use crate::util::str_eq;
use vstd::prelude::*;

verus! {

/// Whether a configured address may be used on the network of the
/// context: always without a context, always for a configuration without
/// an address, and otherwise when the address lies in the context's
/// network.
pub open spec fn spec_in_context(context: Option<DhcpContext>, config: Option<DhcpConfigView>) -> bool {
    match context {
        None => true,
        Some(cont) => match config {
            None => false,
            Some(conf) => conf.addr == 0 || (conf.addr & cont.netmask) == (cont.start
                & cont.netmask),
        },
    }
}

/// Whether the address of `config` fits the context (see
/// `spec_in_context`).
pub fn is_addr_in_context(context: Option<&DhcpContext>, config: Option<&DhcpConfig>) -> (b: bool)
    ensures
        b == spec_in_context(
            match context {
                Some(c) => Some(*c),
                None => None,
            },
            match config {
                Some(c) => Some(c@),
                None => None,
            },
        ),
{
    match context {
        None => true,
        Some(cont) => match config {
            None => false,
            Some(conf) => conf.addr == 0 || (conf.addr & cont.netmask) == (cont.start
                & cont.netmask),
        },
    }
}

/// The first element of `s` that satisfies `p`, or the length of `s`.
pub open spec fn first_where(s: Seq<DhcpConfigView>, p: spec_fn(DhcpConfigView) -> bool) -> int
    decreases s.len(),
{
    if s.len() == 0 {
        0
    } else if p(s[0]) {
        0
    } else {
        1 + first_where(s.drop_first(), p)
    }
}

pub proof fn lemma_first_where(s: Seq<DhcpConfigView>, p: spec_fn(DhcpConfigView) -> bool)
    ensures
        0 <= first_where(s, p) <= s.len(),
        first_where(s, p) < s.len() ==> p(s[first_where(s, p)]),
        forall|k: int| 0 <= k < first_where(s, p) ==> !p(#[trigger] s[k]),
    decreases s.len(),
{
    if s.len() > 0 && !p(s[0]) {
        lemma_first_where(s.drop_first(), p);
        assert forall|k: int| 0 <= k < first_where(s, p) implies !p(#[trigger] s[k]) by {
            if k > 0 {
                assert(s[k] == s.drop_first()[k - 1]);
            }
        }
    }
}

proof fn lemma_first_where_is(s: Seq<DhcpConfigView>, p: spec_fn(DhcpConfigView) -> bool, i: int)
    requires
        0 <= i <= s.len(),
        i < s.len() ==> p(s[i]),
        forall|k: int| 0 <= k < i ==> !p(#[trigger] s[k]),
    ensures
        first_where(s, p) == i,
{
    lemma_first_where(s, p);
    if first_where(s, p) < i {
        assert(!p(s[first_where(s, p)]));
    } else if first_where(s, p) > i {
        assert(!p(s[i]));
    }
}

/// The plain values of a list of configurations.
pub open spec fn configs_view(s: Seq<DhcpConfig>) -> Seq<DhcpConfigView> {
    s.map_values(|c: DhcpConfig| c@)
}

/// A configuration for the client identifier: the same identifier, or
/// the identifier less a leading zero byte (some clients prefix ASCII
/// identifiers with one).
pub open spec fn clid_config(
    c: DhcpConfigView,
    context: Option<DhcpContext>,
    clid: Seq<u8>,
    clid_len: usize,
) -> bool {
    &&& spec_in_context(context, Some(c))
    &&& {
        ||| (c.clid_len == clid_len && c.clid == clid)
        ||| (clid.len() > 0 && clid[0] == 0 && c.clid_len == clid_len - 1 && clid.len() > 1
            && c.clid.len() >= clid_len - 1 && clid.subrange(1, clid.len() as int)
            == c.clid.subrange(0, clid_len - 1))
    }
}

/// A configuration for the hardware address.
pub open spec fn hw_config(c: DhcpConfigView, context: Option<DhcpContext>, hwaddr: Seq<u8>) -> bool {
    spec_in_context(context, Some(c)) && c.hwaddr == hwaddr
}

/// A configuration for the host name.
pub open spec fn name_config(c: DhcpConfigView, context: Option<DhcpContext>, name: Seq<char>) -> bool {
    spec_in_context(context, Some(c)) && c.hostname == Some(name)
}

/// The configuration that applies to a client: the first that matches its
/// client identifier (when it sent one), else the first that matches its
/// hardware address, else the first that matches its host name (when one
/// is given).  The index into `s`, or none.
pub open spec fn spec_find_config(
    s: Seq<DhcpConfigView>,
    context: Option<DhcpContext>,
    clid: Seq<u8>,
    clid_len: usize,
    hwaddr: Seq<u8>,
    hostname: Option<Seq<char>>,
) -> Option<int> {
    let i1 = first_where(s, |c: DhcpConfigView| clid_config(c, context, clid, clid_len));
    let i2 = first_where(s, |c: DhcpConfigView| hw_config(c, context, hwaddr));
    if clid_len != 0 && i1 < s.len() {
        Some(i1)
    } else if i2 < s.len() {
        Some(i2)
    } else {
        match hostname {
            Some(name) => {
                let i3 = first_where(s, |c: DhcpConfigView| name_config(c, context, name));
                if i3 < s.len() {
                    Some(i3)
                } else {
                    None
                }
            },
            None => None,
        }
    }
}

fn bytes_eq(a: &[u8], b: &[u8]) -> (r: bool)
    ensures
        r == (a@ == b@),
{
    if a.len() != b.len() {
        return false;
    }
    let mut i: usize = 0;
    while i < a.len()
        invariant
            a@.len() == b@.len(),
            i <= a@.len(),
            forall|k: int| 0 <= k < i ==> a@[k] == b@[k],
        decreases a@.len() - i,
    {
        if a[i] != b[i] {
            return false;
        }
        i += 1;
    }
    assert(a@ =~= b@);
    true
}

/// Finds the configuration that applies to a client (see
/// `spec_find_config`) and gives a copy of it.
pub fn find_config(
    configs: &[DhcpConfig],
    context: Option<&DhcpContext>,
    clid: &[u8],
    clid_len: usize,
    hwaddr: [u8; 6],
    hostname: Option<String>,
) -> (r: Option<DhcpConfig>)
    ensures
        ({
            let ctx = match context {
                Some(c) => Some(*c),
                None => None,
            };
            let found = spec_find_config(
                configs_view(configs@),
                ctx,
                clid@,
                clid_len,
                hwaddr@,
                opt_string_view(hostname),
            );
            &&& (r is None <==> found is None)
            &&& (r matches Some(c) ==> (found matches Some(i) && 0 <= i < configs@.len() && c@ == configs@[i]@))
        }),
{
    let ghost ctx = match context {
        Some(c) => Some(*c),
        None => None,
    };
    let ghost s = configs_view(configs@);
    let ghost p1 = |c: DhcpConfigView| clid_config(c, ctx, clid@, clid_len);
    let ghost p2 = |c: DhcpConfigView| hw_config(c, ctx, hwaddr@);
    if clid_len != 0 {
        let mut i: usize = 0;
        while i < configs.len()
            invariant
                i <= configs@.len(),
                s == configs_view(configs@),
                clid_len != 0,
                p1 == (|c: DhcpConfigView| clid_config(c, ctx, clid@, clid_len)),
                ctx == (match context {
                    Some(c) => Some(*c),
                    None => None,
                }),
                forall|k: int| 0 <= k < i ==> !p1(#[trigger] s[k]),
            decreases configs@.len() - i,
        {
            let config: &DhcpConfig = &configs[i];
            let in_ctx: bool = is_addr_in_context(context, Some(config));
            let m1: bool = config.clid_len == clid_len && bytes_eq(config.clid.as_slice(), clid);
            let m2: bool = clid.len() > 0 && clid[0] == 0 && config.clid_len == clid_len - 1
                && clid.len() > 1 && config.clid.len() >= clid_len - 1 && bytes_eq(
                &clid[1..clid.len()],
                &config.clid.as_slice()[0..clid_len - 1],
            );
            assert(s[i as int] == config@);
            if (m1 && in_ctx) || (m2 && in_ctx) {
                proof {
                    lemma_first_where_is(s, p1, i as int);
                }
                return Some(config.clone_config());
            }
            i += 1;
        }
        proof {
            lemma_first_where_is(s, p1, s.len() as int);
        }
    }
    let mut i: usize = 0;
    while i < configs.len()
        invariant
            i <= configs@.len(),
            s == configs_view(configs@),
            p2 == (|c: DhcpConfigView| hw_config(c, ctx, hwaddr@)),
            p1 == (|c: DhcpConfigView| clid_config(c, ctx, clid@, clid_len)),
            clid_len != 0 ==> first_where(s, p1) == s.len(),
            ctx == (match context {
                Some(c) => Some(*c),
                None => None,
            }),
            forall|k: int| 0 <= k < i ==> !p2(#[trigger] s[k]),
        decreases configs@.len() - i,
    {
        let config: &DhcpConfig = &configs[i];
        assert(s[i as int] == config@);
        if bytes_eq(config.hwaddr.as_slice(), hwaddr.as_slice()) && is_addr_in_context(
            context,
            Some(config),
        ) {
            proof {
                lemma_first_where_is(s, p2, i as int);
            }
            return Some(config.clone_config());
        }
        i += 1;
    }
    proof {
        lemma_first_where_is(s, p2, s.len() as int);
    }
    let ghost hv = opt_string_view(hostname);
    if let Some(host_name) = hostname {
        assert(hv == Some(host_name@));
        let ghost p3 = |c: DhcpConfigView| name_config(c, ctx, host_name@);
        let mut i: usize = 0;
        while i < configs.len()
            invariant
                i <= configs@.len(),
                s == configs_view(configs@),
                p3 == (|c: DhcpConfigView| name_config(c, ctx, host_name@)),
                p2 == (|c: DhcpConfigView| hw_config(c, ctx, hwaddr@)),
                p1 == (|c: DhcpConfigView| clid_config(c, ctx, clid@, clid_len)),
                clid_len != 0 ==> first_where(s, p1) == s.len(),
                first_where(s, p2) == s.len(),
                hv == Some(host_name@),
                hv == opt_string_view(hostname),
                ctx == (match context {
                    Some(c) => Some(*c),
                    None => None,
                }),
                forall|k: int| 0 <= k < i ==> !p3(#[trigger] s[k]),
            decreases configs@.len() - i,
        {
            let config: &DhcpConfig = &configs[i];
            assert(s[i as int] == config@);
            let m: bool = match &config.hostname {
                Some(c_hostname) => str_eq(c_hostname.as_str(), host_name.as_str()),
                None => false,
            };
            if m && is_addr_in_context(context, Some(config)) {
                proof {
                    lemma_first_where_is(s, p3, i as int);
                    assert(spec_find_config(s, ctx, clid@, clid_len, hwaddr@, hv) == Some(i as int));
                }
                return Some(config.clone_config());
            }
            i += 1;
        }
        proof {
            lemma_first_where_is(s, p3, s.len() as int);
        }
    }
    None
}

/// The characters of an optional string (owned).
pub open spec fn opt_string_view(o: Option<String>) -> Option<Seq<char>> {
    match o {
        Some(s) => Some(s@),
        None => None,
    }
}


// ---------------------------------------------------------------------
// Address allocation
// ---------------------------------------------------------------------

/// Whether some lease holds the address.
pub open spec fn addr_leased(leases: Seq<LeaseView>, a: u32) -> bool {
    exists|i: int| 0 <= i < leases.len() && leases[i].addr == a
}

/// Whether some host configuration reserves the address.
pub open spec fn addr_reserved(configs: Seq<DhcpConfig>, a: u32) -> bool {
    exists|i: int| 0 <= i < configs.len() && configs[i].addr == a
}

/// Whether some lease holds the address.
pub(crate) fn addr_is_leased(db: &LeaseDb, taddr: u32) -> (b: bool)
    ensures
        b == addr_leased(leases_view(db.leases@), taddr),
{
    let found = lease_find_by_addr(db, taddr);
    proof {
        if found is None {
            assert forall|i: int| 0 <= i < leases_view(db.leases@).len() implies leases_view(db.leases@)[i].addr != taddr by {
                assert(leases_view(db.leases@)[i] == db.leases@[i]@);
            }
        } else {
            let i = choose|i: int| 0 <= i < db.leases@.len() && db.leases@[i].addr == taddr;
            assert(leases_view(db.leases@)[i] == db.leases@[i]@);
        }
    }
    found.is_some()
}

/// An address is available in a context when it lies in the range and
/// no lease holds it.
pub fn address_available(context: &DhcpContext, taddr: u32, db: &LeaseDb) -> (b: bool)
    ensures
        b == (context.start <= taddr && taddr <= context.end && !addr_leased(leases_view(db.leases@), taddr)),
{
    if taddr < context.start || taddr > context.end || addr_is_leased(db, taddr) {
        return false;
    }
    true
}

/// The `k`-th address after `last` in the context's range, going round
/// from the end back to the start.
pub open spec fn candidate(start: u32, end: u32, last: u32, k: int) -> u32 {
    let n = end as int - start as int + 1;
    (start as int + (last as int - start as int + k) % n) as u32
}

/// The number of steps, from 1 on, to the first candidate that is neither
/// leased nor reserved; the size of the range plus one when there is none.
pub open spec fn first_free_step(
    leases: Seq<LeaseView>,
    configs: Seq<DhcpConfig>,
    start: u32,
    end: u32,
    last: u32,
    k: int,
) -> int
    decreases end as int - start as int + 2 - k,
{
    let n = end as int - start as int + 1;
    if k > n || k < 1 {
        n + 1
    } else if !addr_leased(leases, candidate(start, end, last, k)) && !addr_reserved(
        configs,
        candidate(start, end, last, k),
    ) {
        k
    } else {
        first_free_step(leases, configs, start, end, last, k + 1)
    }
}

proof fn lemma_step_mod(x: int, n: int)
    requires
        n >= 1,
        x >= 0,
    ensures
        (x + 1) % n == if x % n == n - 1 {
            0
        } else {
            x % n + 1
        },
{
    assert((x + 1) % n == if x % n == n - 1 {
        0
    } else {
        x % n + 1
    }) by (nonlinear_arith)
        requires
            n >= 1,
            x >= 0,
    ;
}

proof fn lemma_candidate_range(start: u32, end: u32, last: u32, k: int)
    requires
        start <= last <= end,
        k >= 0,
    ensures
        start <= candidate(start, end, last, k) <= end,
{
    let n = end as int - start as int + 1;
    let x = last as int - start as int + k;
    assert(0 <= x % n < n) by (nonlinear_arith)
        requires
            n >= 1,
            x >= 0,
    ;
}

proof fn lemma_candidate_full(start: u32, end: u32, last: u32)
    requires
        start <= last <= end,
    ensures
        candidate(start, end, last, end as int - start as int + 1) == last,
        candidate(start, end, last, 0) == last,
{
    let n = end as int - start as int + 1;
    let off = last as int - start as int;
    assert((off + n) % n == off && off % n == off) by (nonlinear_arith)
        requires
            n >= 1,
            0 <= off < n,
    ;
}

proof fn lemma_first_free_step(leases: Seq<LeaseView>, configs: Seq<DhcpConfig>, start: u32, end: u32, last: u32, k: int)
    requires
        start <= end,
    ensures
        ({
            let j = first_free_step(leases, configs, start, end, last, k);
            let n = end as int - start as int + 1;
            j == n + 1 || (1 <= j <= n && !addr_leased(leases, candidate(start, end, last, j)) && !addr_reserved(
                configs,
                candidate(start, end, last, j),
            ))
        }),
    decreases end as int - start as int + 2 - k,
{
    let n = end as int - start as int + 1;
    if !(k > n || k < 1) {
        let c = candidate(start, end, last, k);
        if addr_leased(leases, c) || addr_reserved(configs, c) {
            lemma_first_free_step(leases, configs, start, end, last, k + 1);
        }
    }
}

/// An address handed out by allocation lies in the context's range, and
/// no lease holds it and no host configuration reserves it.
pub proof fn law_allocated_address_is_free(leases: Seq<LeaseView>, configs: Seq<DhcpConfig>, start: u32, end: u32, last: u32)
    requires
        start <= last <= end,
        first_free_step(leases, configs, start, end, last, 1) <= end as int - start as int + 1,
    ensures
        ({
            let a = candidate(start, end, last, first_free_step(leases, configs, start, end, last, 1));
            start <= a <= end && !addr_leased(leases, a) && !addr_reserved(configs, a)
        }),
{
    lemma_first_free_step(leases, configs, start, end, last, 1);
    lemma_candidate_range(start, end, last, first_free_step(leases, configs, start, end, last, 1));
}

/// Chooses the next free address of a context: starting after the one
/// last handed out and going round the range once, the first that no
/// lease holds and no host configuration reserves.  It becomes the
/// context's last address and is written to `addrp`.  When there is
/// none the context comes back to where it started.
pub fn address_allocate(
    context: &mut DhcpContext,
    configs: &[DhcpConfig],
    addrp: &mut u32,
    db: &LeaseDb,
) -> (r: Option<u32>)
    requires
        old(context).start <= old(context).last <= old(context).end,
    ensures
        ({
            let (st, en, la) = (old(context).start, old(context).end, old(context).last);
            let n = en as int - st as int + 1;
            let k = first_free_step(leases_view(db.leases@), configs@, st, en, la, 1);
            &&& final(context).start == st && final(context).end == en
            &&& *final(context) == (DhcpContext { last: final(context).last, ..*old(context) })
            &&& if k <= n {
                let c = candidate(st, en, la, k);
                &&& r == Some(c)
                &&& final(context).last == c
                &&& *final(addrp) == c
            } else {
                &&& r is None
                &&& final(context).last == la
                &&& *final(addrp) == *old(addrp)
            }
        }),
{
    let start_ctx: u32 = context.start;
    let end_ctx: u32 = context.end;
    let start: u32 = context.last;
    let ghost n = end_ctx as int - start_ctx as int + 1;
    let ghost target = first_free_step(leases_view(db.leases@), configs@, start_ctx, end_ctx, start, 1);
    let mut k: u64 = 0;
    proof {
        lemma_candidate_full(start_ctx, end_ctx, start);
    }
    loop
        invariant
            start_ctx == context.start,
            end_ctx == context.end,
            *context == (DhcpContext { last: context.last, ..*old(context) }),
            start == old(context).last,
            start_ctx <= start <= end_ctx,
            n == end_ctx as int - start_ctx as int + 1,
            0 <= k < n,
            context.last == candidate(start_ctx, end_ctx, start, k as int),
            target == first_free_step(leases_view(db.leases@), configs@, start_ctx, end_ctx, start, 1),
            first_free_step(leases_view(db.leases@), configs@, start_ctx, end_ctx, start, k as int + 1) == target,
            *addrp == *old(addrp),
        decreases n - k,
    {
        proof {
            lemma_candidate_range(start_ctx, end_ctx, start, k as int);
            lemma_step_mod(start as int - start_ctx as int + k, n);
        }
        if context.last == context.end {
            context.last = context.start;
        } else {
            context.last = context.last + 1;
        }
        k = k + 1;
        assert(context.last == candidate(start_ctx, end_ctx, start, k as int));
        if !addr_is_leased(db, context.last) {
            let mut is_reserved: bool = false;
            let mut i: usize = 0;
            while i < configs.len()
                invariant
                    i <= configs@.len(),
                    is_reserved == exists|j: int| 0 <= j < i && configs@[j].addr == context.last,
                decreases configs@.len() - i,
            {
                if configs[i].addr == context.last {
                    is_reserved = true;
                }
                i += 1;
            }
            if !is_reserved {
                *addrp = context.last;
                return Some(context.last);
            }
        }
        proof {
            lemma_candidate_full(start_ctx, end_ctx, start);
            let off = start as int - start_ctx as int;
            if (k as int) < n {
                assert((off + k) % n == off + k - (if off + k >= n { n } else { 0 }))
                    by (nonlinear_arith)
                    requires
                        0 <= off < n,
                        1 <= k < n,
                ;
            }
            assert(!(!addr_leased(leases_view(db.leases@), context.last) && !addr_reserved(configs@, context.last)));
            assert(first_free_step(leases_view(db.leases@), configs@, start_ctx, end_ctx, start, k as int)
                == first_free_step(leases_view(db.leases@), configs@, start_ctx, end_ctx, start, k as int + 1));
        }
        if context.last == start {
            proof {
                assert(k as int == n);
            }
            return None;
        }
    }
}

// ---------------------------------------------------------------------
// Handling a DHCP message
// ---------------------------------------------------------------------

/// Where the reply to a DHCP message goes.
#[derive(Clone, Copy, Debug, PartialEq, Eq, Structural)]
pub enum DhcpDest {
    /// No reply.
    Nothing,
    /// To the relay agent at this address (server port).
    Relay(u32),
    /// To the client at this address (client port).
    Client(u32),
    /// As a raw frame on the interface: broadcast, or to the client's
    /// hardware address and the address offered.
    Raw(bool),
}

/// What handling a DHCP message leads to.
pub struct DhcpOutcome {
    pub dest: DhcpDest,
    /// The length of the reply.
    pub len: usize,
    /// Whether the lease file must be written.
    pub write_lease_file: bool,
}

/// Where a reply goes: nowhere when there is none; to the relay agent
/// when the message came through one, to the client's address when it has
/// one, otherwise as a raw frame, broadcast when the client asked for it
/// or the reply says so (a negative length).
pub open spec fn dest_of(ret: int, m: PacketFields, flags: u16, giaddr: u32) -> DhcpDest {
    if ret == 0 {
        DhcpDest::Nothing
    } else if giaddr != 0 {
        DhcpDest::Relay(giaddr)
    } else if m.ciaddr != 0 {
        DhcpDest::Client(m.ciaddr)
    } else {
        DhcpDest::Raw(flags & 0x8000 != 0 || ret < 0)
    }
}

/// The leases and their flags after dropping the expired ones.
pub open spec fn pruned(s: Seq<LeaseView>, f: LeaseFlags, now: Time) -> (Seq<LeaseView>, LeaseFlags) {
    let l = spec_prune(s, None, now);
    (l, LeaseFlags { dns_dirty: f.dns_dirty || prune_drops_named(s, None, now), file_dirty: f.file_dirty || l.len() < s.len() })
}

/// Pruning keeps leases whose times can be compared.
proof fn lemma_live_times(s: Seq<LeaseView>, now: Time)
    requires
        lease_times_ok(s),
    ensures
        lease_times_ok(live_leases(s, now)),
    decreases s.len(),
{
    if s.len() > 0 {
        assert(lease_times_ok(s.drop_last())) by {
            assert forall|i: int| 0 <= i < s.drop_last().len() implies (#[trigger] s.drop_last()[i]).expires.wf()
                && s.drop_last()[i].expires.secs <= i64::MAX as u64 by {
                assert(s.drop_last()[i] == s[i]);
            }
        }
        lemma_live_times(s.drop_last(), now);
        let r = live_leases(s.drop_last(), now);
        if is_live(s.last(), now) {
            assert forall|i: int| 0 <= i < r.push(s.last()).len() implies (#[trigger] r.push(s.last())[i]).expires.wf()
                && r.push(s.last())[i].expires.secs <= i64::MAX as u64 by {
                if i < r.len() {
                    assert(r.push(s.last())[i] == r[i]);
                }
            }
        }
    }
}

/// What handling a DHCP message needs so that nothing on the way panics
/// or runs over: readable options, a sane context, comparable times, and
/// DNS records that can be added again.
pub open spec fn dhcp_packet_ok(ctx: DhcpContext, mess: DhcpPacket, db: LeaseDb, cache: Cache, args: DncpReplyArgs) -> bool {
    let (l1, f1) = pruned(leases_view(db.leases@), db.flags, args.now);
    let rv = spec_dncp_reply(ctx, mess, l1, f1, args);
    &&& reply_reads_ok(ctx, mess, args.sz as int)
    &&& opts_wf(args.dhcp_options@)
    &&& ctx.start <= ctx.last <= ctx.end
    &&& args.now.wf()
    &&& args.now.secs <= i64::MAX as u64
    &&& lease_times_ok(leases_view(db.leases@))
    &&& lease_times_ok(rv.leases)
    &&& cache.next_uid + 2 * rv.leases.len() < u64::MAX
    &&& cache.length + 2 * rv.leases.len() < usize::MAX
    &&& rv.flags.dns_dirty ==> !cv_update_dns(cv_unhash_dhcp(cache@), rv.leases, rv.leases.len() as int).1
    &&& -i32::MAX <= rv.ret
}

/// Handles a DHCP message `mess` of `args.sz` bytes: when it is longer
/// than the fixed part, expired leases are dropped, the reply is built in
/// `mess` (see `dncp_reply`), the DNS records of the leases refreshed (see
/// `lease_update_dns`), and the outcome says where the reply goes and how
/// long it is, and whether the lease file must be written.
pub fn dhcp_packet(
    context: &mut DhcpContext,
    mess: &mut DhcpPacket,
    db: &mut LeaseDb,
    cache: &mut Cache,
    args: &DncpReplyArgs,
) -> (r: DhcpOutcome)
    requires
        old(cache).wf(),
        args.sz > 236 ==> dhcp_packet_ok(*old(context), *old(mess), *old(db), *old(cache), *args),
    ensures
        final(cache).wf(),
        args.sz <= 236 ==> {
            &&& *final(context) == *old(context)
            &&& *final(mess) == *old(mess)
            &&& final(db).leases@ == old(db).leases@ && final(db).flags == old(db).flags
            &&& final(cache)@ == old(cache)@
            &&& r.dest == DhcpDest::Nothing
            &&& !r.write_lease_file
        },
        args.sz > 236 ==> {
            let (l1, f1) = pruned(leases_view(old(db).leases@), old(db).flags, args.now);
            let rv = spec_dncp_reply(*old(context), *old(mess), l1, f1, *args);
            &&& packet_is(*final(mess), *old(mess), rv.mess)
            &&& *final(context) == (DhcpContext { last: rv.last, ..*old(context) })
            &&& leases_view(final(db).leases@) == rv.leases
            &&& r.write_lease_file == rv.flags.file_dirty
            &&& !final(db).flags.file_dirty
            &&& !final(db).flags.dns_dirty
            &&& (rv.flags.dns_dirty ==> final(cache)@ == cv_update_dns(
                cv_unhash_dhcp(old(cache)@),
                rv.leases,
                rv.leases.len() as int,
            ).0)
            &&& (!rv.flags.dns_dirty ==> final(cache)@ == old(cache)@)
            &&& r.dest == dest_of(rv.ret, rv.mess, old(mess).flags, old(mess).giaddr)
            &&& r.len as int == (if rv.ret < 0 {
                -rv.ret
            } else {
                rv.ret
            })
        },
{
    if args.sz <= 236 {
        return DhcpOutcome { dest: DhcpDest::Nothing, len: 0, write_lease_file: false };
    }
    let ghost s0 = leases_view(db.leases@);
    lease_prune(db, None, args.now);
    proof {
        lemma_live_times(s0, args.now);
        assert forall|i: int| 0 <= i < db.leases@.len() implies (#[trigger] db.leases@[i]).expires.wf()
            && db.leases@[i].expires.secs <= i64::MAX as u64 by {
            assert(leases_view(db.leases@)[i] == db.leases@[i]@);
        }
    }
    let ret: i32 = dncp_reply(context, mess, db, args);
    let write: bool = lease_update_dns(db, cache, false);
    let len: usize = if ret < 0 {
        (-ret) as usize
    } else {
        ret as usize
    };
    let dest: DhcpDest = if ret == 0 {
        DhcpDest::Nothing
    } else if mess.giaddr != 0 {
        DhcpDest::Relay(mess.giaddr)
    } else if mess.ciaddr != 0 {
        DhcpDest::Client(mess.ciaddr)
    } else {
        DhcpDest::Raw(mess.flags & 0x8000 != 0 || ret < 0)
    };
    DhcpOutcome { dest, len, write_lease_file: write }
}

} // verus!
