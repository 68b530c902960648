//! The DHCP lease database: lookup, expiry and the updates that mark the
//! lease file and the DNS entries as needing a refresh.

use crate::cache::{cache_add_dhcp_entry, cache_unhash_dhcp, cv_add_dhcp_entry, cv_unhash_dhcp, Cache, CacheView};
use crate::dnsmasq::{clone_opt_string, opt_str_view, DhcpLease, LeaseView, F_REVERSE};
use crate::util::{
    hostname_isequal, spec_hostname_isequal, str_chars, str_eq, string_from_chars, time_before,
    time_lt,
    Time,
};
use vstd::prelude::*;

verus! {

/// Whether the lease file, and the DNS entries made from the leases, must
/// be written again.
#[derive(Clone, Copy, Debug, PartialEq, Eq, Structural)]
pub struct LeaseFlags {
    pub dns_dirty: bool,
    pub file_dirty: bool,
}

/// The leases, with the flags that record unsaved changes.
#[derive(Debug)]
pub struct LeaseDb {
    pub leases: Vec<DhcpLease>,
    pub flags: LeaseFlags,
}

/// The plain values of a list of leases.
pub open spec fn leases_view(s: Seq<DhcpLease>) -> Seq<LeaseView> {
    s.map_values(|l: DhcpLease| l@)
}

/// A lease is kept when it never expires (its expiry is the epoch) or
/// expires after `now`.
pub open spec fn is_live(l: LeaseView, now: Time) -> bool {
    (l.expires.secs == 0 && l.expires.nanos == 0) || time_lt(now, l.expires)
}

/// The leases that are still live at `now`, in order.
pub open spec fn live_leases(s: Seq<LeaseView>, now: Time) -> Seq<LeaseView>
    decreases s.len(),
{
    if s.len() == 0 {
        seq![]
    } else {
        let r = live_leases(s.drop_last(), now);
        if is_live(s.last(), now) {
            r.push(s.last())
        } else {
            r
        }
    }
}

/// The first lease with the given hardware address and IP address, or the
/// length of the list when there is none.
pub open spec fn index_of_lease(s: Seq<LeaseView>, hwaddr: Seq<u8>, addr: u32) -> int
    decreases s.len(),
{
    if s.len() == 0 {
        0
    } else if s[0].hwaddr == hwaddr && s[0].addr == addr {
        0
    } else {
        1 + index_of_lease(s.drop_first(), hwaddr, addr)
    }
}

/// The leases left after pruning: the live ones, less the first that
/// matches the target's hardware and IP address.
pub open spec fn spec_prune(s: Seq<LeaseView>, target: Option<LeaseView>, now: Time) -> Seq<LeaseView> {
    let live = live_leases(s, now);
    match target {
        Some(t) => {
            let i = index_of_lease(live, t.hwaddr, t.addr);
            if i < live.len() {
                live.remove(i)
            } else {
                live
            }
        },
        None => live,
    }
}

/// Pruning keeps every lease that is still live, among them every lease
/// that never ends (its end time zero).
pub proof fn law_prune_keeps_live(s: Seq<LeaseView>, now: Time, l: LeaseView)
    requires
        s.contains(l),
        is_live(l, now),
    ensures
        spec_prune(s, None, now).contains(l),
    decreases s.len(),
{
    if s.last() == l {
        assert(live_leases(s, now).last() == l);
    } else {
        let i = choose|i: int| 0 <= i < s.len() && s[i] == l;
        assert(s.drop_last()[i] == l);
        law_prune_keeps_live(s.drop_last(), now, l);
        let r = live_leases(s.drop_last(), now);
        let j = choose|j: int| 0 <= j < r.len() && r[j] == l;
        if is_live(s.last(), now) {
            assert(r.push(s.last())[j] == l);
        }
    }
}

/// Pruning drops every lease that has ended.
pub proof fn law_prune_drops_ended(s: Seq<LeaseView>, now: Time)
    ensures
        forall|k: int| 0 <= k < spec_prune(s, None, now).len() ==> is_live(#[trigger] spec_prune(s, None, now)[k], now),
    decreases s.len(),
{
    if s.len() > 0 {
        law_prune_drops_ended(s.drop_last(), now);
        let r = live_leases(s.drop_last(), now);
        assert(spec_prune(s.drop_last(), None, now) == r);
        assert forall|k: int| 0 <= k < r.len() implies is_live(#[trigger] r[k], now) by {
            assert(is_live(spec_prune(s.drop_last(), None, now)[k], now));
        }
        if is_live(s.last(), now) {
            assert forall|k: int| 0 <= k < r.push(s.last()).len() implies is_live(#[trigger] r.push(s.last())[k], now) by {
                if k < r.len() {
                    assert(r.push(s.last())[k] == r[k]);
                }
            }
        }
    }
}

/// Whether pruning drops a lease that has a host name.
pub open spec fn prune_drops_named(s: Seq<LeaseView>, target: Option<LeaseView>, now: Time) -> bool {
    let live = live_leases(s, now);
    ||| exists|i: int| 0 <= i < s.len() && !is_live(s[i], now) && s[i].hostname is Some
    ||| match target {
        Some(t) => {
            let i = index_of_lease(live, t.hwaddr, t.addr);
            i < live.len() && live[i].hostname is Some
        },
        None => false,
    }
}

proof fn lemma_live_len(s: Seq<LeaseView>, now: Time)
    ensures
        live_leases(s, now).len() <= s.len(),
        live_leases(s, now).len() == s.len() <==> forall|i: int|
            0 <= i < s.len() ==> is_live(s[i], now),
    decreases s.len(),
{
    if s.len() > 0 {
        lemma_live_len(s.drop_last(), now);
        if forall|i: int| 0 <= i < s.len() ==> is_live(s[i], now) {
            assert forall|i: int| 0 <= i < s.drop_last().len() implies is_live(
                s.drop_last()[i],
                now,
            ) by {
                assert(s.drop_last()[i] == s[i]);
            }
        }
        if forall|i: int| 0 <= i < s.drop_last().len() ==> is_live(s.drop_last()[i], now) {
            if is_live(s.last(), now) {
                assert forall|i: int| 0 <= i < s.len() implies is_live(s[i], now) by {
                    if i < s.len() - 1 {
                        assert(s[i] == s.drop_last()[i]);
                    }
                }
            }
        }
    }
}

proof fn lemma_index_of_lease(s: Seq<LeaseView>, hwaddr: Seq<u8>, addr: u32)
    ensures
        0 <= index_of_lease(s, hwaddr, addr) <= s.len(),
        index_of_lease(s, hwaddr, addr) < s.len() ==> s[index_of_lease(s, hwaddr, addr)].hwaddr
            == hwaddr && s[index_of_lease(s, hwaddr, addr)].addr == addr,
        forall|k: int|
            0 <= k < index_of_lease(s, hwaddr, addr) ==> !(s[k].hwaddr == hwaddr && s[k].addr
                == addr),
    decreases s.len(),
{
    if s.len() > 0 && !(s[0].hwaddr == hwaddr && s[0].addr == addr) {
        lemma_index_of_lease(s.drop_first(), hwaddr, addr);
        assert forall|k: int| 0 <= k < index_of_lease(s, hwaddr, addr) implies !(s[k].hwaddr
            == hwaddr && s[k].addr == addr) by {
            if k > 0 {
                assert(s[k] == s.drop_first()[k - 1]);
            }
        }
    }
}

fn is_live_exec(l: &DhcpLease, now: Time) -> (b: bool)
    ensures
        b == is_live(l@, now),
{
    (l.expires.secs == 0 && l.expires.nanos == 0) || time_before(now, l.expires)
}

fn same_hwaddr(a: &[u8; 6], b: &[u8; 6]) -> (r: bool)
    ensures
        r == (a@ == b@),
{
    let mut i: usize = 0;
    while i < 6
        invariant
            i <= 6,
            a@.len() == 6,
            b@.len() == 6,
            forall|k: int| 0 <= k < i ==> a@[k] == b@[k],
        decreases 6 - i,
    {
        if a[i] != b[i] {
            return false;
        }
        i += 1;
    }
    assert(a@ =~= b@);
    true
}

/// Drops the expired leases and, when a target is given, the first
/// remaining lease with its hardware and IP address.  The DNS entries are
/// marked for a refresh when a dropped lease had a host name, the lease
/// file when anything was dropped.
pub fn lease_prune(db: &mut LeaseDb, target: Option<&DhcpLease>, now: Time)
    ensures
        leases_view(final(db).leases@) == spec_prune(
            leases_view(old(db).leases@),
            match target {
                Some(t) => Some(t@),
                None => None,
            },
            now,
        ),
        final(db).flags.dns_dirty == (old(db).flags.dns_dirty || prune_drops_named(
            leases_view(old(db).leases@),
            match target {
                Some(t) => Some(t@),
                None => None,
            },
            now,
        )),
        final(db).flags.file_dirty == (old(db).flags.file_dirty || leases_view(
            final(db).leases@,
        ).len() < old(db).leases@.len()),
{
    let ghost s = leases_view(db.leases@);
    let ghost tv = match target {
        Some(t) => Some(t@),
        None => None::<LeaseView>,
    };
    let mut kept: Vec<DhcpLease> = Vec::new();
    let mut dropped_named: bool = false;
    let n: usize = db.leases.len();
    let mut i: usize = 0;
    while i < n
        invariant
            n == db.leases@.len(),
            s == leases_view(db.leases@),
            i <= n,
            leases_view(kept@) == live_leases(s.take(i as int), now),
            dropped_named == exists|k: int|
                0 <= k < i && !is_live(s[k], now) && s[k].hostname is Some,
        decreases n - i,
    {
        let l: &DhcpLease = &db.leases[i];
        assert(s.take(i + 1).drop_last() =~= s.take(i as int));
        assert(s.take(i + 1).last() == s[i as int]);
        if is_live_exec(l, now) {
            kept.push(l.clone_lease());
            assert(leases_view(kept@) =~= live_leases(s.take(i as int), now).push(s[i as int]));
        } else {
            if l.hostname.is_some() {
                dropped_named = true;
            }
        }
        i += 1;
    }
    assert(s.take(n as int) =~= s);
    proof {
        lemma_live_len(s, now);
    }
    let mut removed_any: bool = kept.len() < n;
    let mut named: bool = dropped_named;
    if let Some(t) = target {
        let ghost live = leases_view(kept@);
        let mut j: usize = 0;
        while j < kept.len() && !(same_hwaddr(&kept[j].hwaddr, &t.hwaddr) && kept[j].addr == t.addr)
            invariant
                j <= kept@.len(),
                live == leases_view(kept@),
                forall|k: int| 0 <= k < j ==> !(live[k].hwaddr == t@.hwaddr && live[k].addr == t.addr),
            decreases kept@.len() - j,
        {
            j += 1;
        }
        let found: bool = j < kept.len();
        proof {
            lemma_index_of_lease(live, t@.hwaddr, t.addr);
            if found {
                assert(live[j as int].hwaddr == t@.hwaddr && live[j as int].addr == t.addr);
                if index_of_lease(live, t@.hwaddr, t.addr) < j {
                } else if index_of_lease(live, t@.hwaddr, t.addr) > j {
                }
                assert(index_of_lease(live, t@.hwaddr, t.addr) == j);
            } else {
                assert(index_of_lease(live, t@.hwaddr, t.addr) == live.len());
            }
        }
        if found {
            if kept[j].hostname.is_some() {
                named = true;
            }
            kept.remove(j);
            removed_any = true;
            assert(leases_view(kept@) =~= live.remove(j as int));
        }
    }
    db.leases = kept;
    if named {
        db.flags.dns_dirty = true;
    }
    if removed_any {
        db.flags.file_dirty = true;
    }
}


// ---------------------------------------------------------------------
// Lookup
// ---------------------------------------------------------------------

/// Whether a lease belongs to the client: by client identifier when one
/// is given, otherwise (for leases without one) by hardware address.
pub open spec fn matches_client(l: LeaseView, clid: Seq<u8>, clid_len: usize) -> bool {
    if clid_len > 0 {
        l.clid.len() > 0 && l.clid_len == clid_len && l.clid == clid
    } else {
        l.clid.len() == 0 && l.hwaddr == clid
    }
}

fn bytes_equal(a: &[u8], b: &[u8]) -> (r: bool)
    ensures
        r == (a@ == b@),
{
    if a.len() != b.len() {
        return false;
    }
    let mut i: usize = 0;
    while i < a.len()
        invariant
            a@.len() == b@.len(),
            i <= a@.len(),
            forall|k: int| 0 <= k < i ==> a@[k] == b@[k],
        decreases a@.len() - i,
    {
        if a[i] != b[i] {
            return false;
        }
        i += 1;
    }
    assert(a@ =~= b@);
    true
}

/// The first lease, from index `i` on, that belongs to the client.
pub open spec fn client_lease_from(s: Seq<LeaseView>, clid: Seq<u8>, clid_len: usize, i: int) -> Option<LeaseView>
    decreases s.len() - i,
{
    if i < 0 || i >= s.len() {
        None
    } else if matches_client(s[i], clid, clid_len) {
        Some(s[i])
    } else {
        client_lease_from(s, clid, clid_len, i + 1)
    }
}

/// A lease found for a client is one of the leases.
pub proof fn lemma_client_lease_in(s: Seq<LeaseView>, clid: Seq<u8>, clid_len: usize, i: int)
    requires
        0 <= i,
    ensures
        client_lease_from(s, clid, clid_len, i) matches Some(l) ==> exists|k: int| 0 <= k < s.len() && s[k] == l,
    decreases s.len() - i,
{
    if i < s.len() && !matches_client(s[i], clid, clid_len) {
        lemma_client_lease_in(s, clid, clid_len, i + 1);
    }
}

/// The first lease that belongs to the client.
pub open spec fn client_lease(s: Seq<LeaseView>, clid: Seq<u8>, clid_len: usize) -> Option<LeaseView> {
    client_lease_from(s, clid, clid_len, 0)
}

/// The plain values of an optional lease.
pub open spec fn opt_lease_view(l: Option<DhcpLease>) -> Option<LeaseView> {
    match l {
        Some(x) => Some(x@),
        None => None,
    }
}

/// Finds the lease of a client (see `matches_client`); gives a copy of
/// the first that matches.
pub fn lease_find_by_client(db: &LeaseDb, clid: &[u8], clid_len: usize) -> (r: Option<DhcpLease>)
    ensures
        opt_lease_view(r) == client_lease(leases_view(db.leases@), clid@, clid_len),
        r is None <==> forall|i: int|
            0 <= i < db.leases@.len() ==> !matches_client(db.leases@[i]@, clid@, clid_len),
        r matches Some(l) ==> exists|i: int|
            0 <= i < db.leases@.len() && l@ == db.leases@[i]@ && matches_client(l@, clid@, clid_len)
                && forall|j: int| 0 <= j < i ==> !matches_client(db.leases@[j]@, clid@, clid_len),
{
    let mut i: usize = 0;
    while i < db.leases.len()
        invariant
            i <= db.leases@.len(),
            forall|j: int| 0 <= j < i ==> !matches_client(db.leases@[j]@, clid@, clid_len),
            client_lease(leases_view(db.leases@), clid@, clid_len) == client_lease_from(
                leases_view(db.leases@),
                clid@,
                clid_len,
                i as int,
            ),
        decreases db.leases@.len() - i,
    {
        let l: &DhcpLease = &db.leases[i];
        assert(leases_view(db.leases@)[i as int] == db.leases@[i as int]@);
        let m: bool = if clid_len > 0 {
            l.clid.len() > 0 && l.clid_len == clid_len && bytes_equal(l.clid.as_slice(), clid)
        } else {
            l.clid.len() == 0 && bytes_equal(l.hwaddr.as_slice(), clid)
        };
        if m {
            return Some(l.clone_lease());
        }
        i += 1;
    }
    None
}

/// Finds the lease of an address; gives a copy of the first.
pub fn lease_find_by_addr(db: &LeaseDb, addr: u32) -> (r: Option<DhcpLease>)
    ensures
        r is None <==> forall|i: int| 0 <= i < db.leases@.len() ==> db.leases@[i].addr != addr,
        r matches Some(l) ==> exists|i: int|
            0 <= i < db.leases@.len() && l@ == db.leases@[i]@ && l.addr == addr && forall|j: int|
                0 <= j < i ==> db.leases@[j].addr != addr,
{
    let mut i: usize = 0;
    while i < db.leases.len()
        invariant
            i <= db.leases@.len(),
            forall|j: int| 0 <= j < i ==> db.leases@[j].addr != addr,
        decreases db.leases@.len() - i,
    {
        if db.leases[i].addr == addr {
            return Some(db.leases[i].clone_lease());
        }
        i += 1;
    }
    None
}

// ---------------------------------------------------------------------
// Updates
// ---------------------------------------------------------------------

/// Sets the expiry of a lease; a change marks the file and the DNS
/// entries.
pub fn lease_set_expires(lease: &mut DhcpLease, exp: Time, flags: &mut LeaseFlags)
    ensures
        final(lease)@ == (LeaseView { expires: exp, ..old(lease)@ }),
        *final(flags) == (if old(lease).expires != exp {
            LeaseFlags { dns_dirty: true, file_dirty: true }
        } else {
            *old(flags)
        }),
{
    if lease.expires != exp {
        flags.dns_dirty = true;
        flags.file_dirty = true;
    }
    lease.expires = exp;
}

/// Sets the hardware address of a lease from the first six bytes given;
/// fewer than six bytes change nothing.  A change marks the file.
pub fn lease_set_hwaddr(lease: &mut DhcpLease, hwaddr: &[u8], flags: &mut LeaseFlags)
    ensures
        hwaddr@.len() >= 6 ==> final(lease)@ == (LeaseView {
            hwaddr: hwaddr@.subrange(0, 6),
            ..old(lease)@
        }),
        hwaddr@.len() < 6 ==> final(lease)@ == old(lease)@,
        final(flags).dns_dirty == old(flags).dns_dirty,
        final(flags).file_dirty == (old(flags).file_dirty || (hwaddr@.len() >= 6
            && old(lease).hwaddr@ != hwaddr@.subrange(0, 6))),
{
    if hwaddr.len() >= 6 {
        let arr: [u8; 6] = [hwaddr[0], hwaddr[1], hwaddr[2], hwaddr[3], hwaddr[4], hwaddr[5]];
        assert(arr@ =~= hwaddr@.subrange(0, 6));
        if !same_hwaddr(&lease.hwaddr, &arr) {
            flags.file_dirty = true;
            lease.hwaddr = arr;
        }
    }
}

/// `name + "." + suffix`.
pub open spec fn spec_fqdn(name: Seq<char>, suffix: Seq<char>) -> Seq<char> {
    name + seq!['.'] + suffix
}

fn make_fqdn(name: &str, suffix: &str) -> (r: String)
    ensures
        r@ == spec_fqdn(name@, suffix@),
{
    let mut v: Vec<char> = str_chars(name);
    v.push('.');
    let sv: Vec<char> = str_chars(suffix);
    let mut i: usize = 0;
    let ghost start = v@;
    while i < sv.len()
        invariant
            i <= sv@.len(),
            v@ == start + sv@.take(i as int),
        decreases sv@.len() - i,
    {
        v.push(sv[i]);
        i += 1;
        assert(sv@.take(i as int) =~= sv@.take(i - 1) + seq![sv@[i - 1]]);
    }
    assert(sv@.take(sv@.len() as int) =~= sv@);
    assert(v@ =~= spec_fqdn(name@, suffix@));
    string_from_chars(v.as_slice())
}

/// Whether setting the host name `name` leaves the lease as it is: the
/// lease already has that name, or the name is empty and the lease has
/// none.
pub open spec fn hostname_unchanged(l: LeaseView, name: Seq<char>) -> bool {
    if name.len() > 0 {
        l.hostname == Some(name)
    } else {
        l.hostname is None
    }
}

/// The lease with the given name and domain.
pub open spec fn named_lease(l: LeaseView, name: Seq<char>, fqdn: Option<Seq<char>>) -> LeaseView {
    LeaseView { hostname: Some(name), fqdn, ..l }
}

/// The domain name made from a host name and the optional domain.
pub open spec fn suffix_fqdn(name: Seq<char>, suffix: Option<Seq<char>>) -> Option<Seq<char>> {
    match suffix {
        Some(sfx) => Some(spec_fqdn(name, sfx)),
        None => None,
    }
}

/// Sets the host name of a lease without looking at other leases: the
/// domain name becomes `name.suffix` when a domain is configured.  Both
/// the file and the DNS entries are marked, unless nothing changes.
pub fn lease_set_hostname_single(
    lease: &mut DhcpLease,
    name: &str,
    suffix: &Option<String>,
    flags: &mut LeaseFlags,
)
    ensures
        hostname_unchanged(old(lease)@, name@) ==> final(lease)@ == old(lease)@ && *final(flags)
            == *old(flags),
        !hostname_unchanged(old(lease)@, name@) ==> final(lease)@ == named_lease(
            old(lease)@,
            name@,
            suffix_fqdn(name@, opt_str_view(*suffix)),
        ) && *final(flags) == (LeaseFlags { dns_dirty: true, file_dirty: true }),
{
    if !name.is_empty() {
        if let Some(hostname) = &lease.hostname {
            if str_eq(hostname.as_str(), name) {
                return;
            }
        }
    } else if lease.hostname.is_none() {
        return;
    }
    let new_fqdn: Option<String> = match suffix {
        Some(sfx) => Some(make_fqdn(name, sfx.as_str())),
        None => None,
    };
    lease.hostname = Some(name.to_owned());
    lease.fqdn = new_fqdn;
    flags.file_dirty = true;
    flags.dns_dirty = true;
}


/// Whether a lease holds the host name `name` (ignoring ASCII case).
pub open spec fn name_matches(l: LeaseView, name: Seq<char>) -> bool {
    l.hostname matches Some(h) && spec_hostname_isequal(h, name)
}

/// The host name of the last lease that holds `name`.
pub open spec fn last_match_name(s: Seq<LeaseView>, name: Seq<char>) -> Option<Seq<char>>
    decreases s.len(),
{
    if s.len() == 0 {
        None
    } else if name_matches(s.last(), name) {
        s.last().hostname
    } else {
        last_match_name(s.drop_last(), name)
    }
}

/// The domain name of the last lease that holds `name` and has one.
pub open spec fn last_match_fqdn(s: Seq<LeaseView>, name: Seq<char>) -> Option<Seq<char>>
    decreases s.len(),
{
    if s.len() == 0 {
        None
    } else if name_matches(s.last(), name) && s.last().fqdn is Some {
        s.last().fqdn
    } else {
        last_match_fqdn(s.drop_last(), name)
    }
}

/// The leases with the name `name` taken away from every lease that held
/// it.
pub open spec fn clear_name(s: Seq<LeaseView>, name: Seq<char>) -> Seq<LeaseView> {
    Seq::new(
        s.len(),
        |i: int|
            if name_matches(s[i], name) {
                LeaseView { hostname: None, fqdn: None, ..s[i] }
            } else {
                s[i]
            },
    )
}

/// Sets the host name of a lease, keeping host names unique: every other
/// lease that holds the same name (ignoring ASCII case) loses its name and
/// domain name, and the lease takes over the name and domain name of the
/// last such lease; otherwise it gets `name` and, with a domain
/// configured, `name.suffix`.  Both the file and the DNS entries are
/// marked, unless nothing changes.
pub fn lease_set_hostname(
    lease: &mut DhcpLease,
    name: &str,
    suffix: &Option<String>,
    leases: &mut Vec<DhcpLease>,
    flags: &mut LeaseFlags,
)
    ensures
        hostname_unchanged(old(lease)@, name@) ==> final(lease)@ == old(lease)@ && *final(flags)
            == *old(flags) && final(leases)@ == old(leases)@,
        !hostname_unchanged(old(lease)@, name@) ==> {
            let s = leases_view(old(leases)@);
            let taken = if name@.len() > 0 {
                last_match_name(s, name@)
            } else {
                None
            };
            let taken_fqdn = if name@.len() > 0 {
                last_match_fqdn(s, name@)
            } else {
                None
            };
            let new_name = match taken {
                Some(n) => n,
                None => name@,
            };
            let new_fqdn = match taken_fqdn {
                Some(f) => Some(f),
                None => suffix_fqdn(name@, opt_str_view(*suffix)),
            };
            &&& final(lease)@ == named_lease(old(lease)@, new_name, new_fqdn)
            &&& leases_view(final(leases)@) == (if name@.len() > 0 {
                clear_name(s, name@)
            } else {
                s
            })
            &&& *final(flags) == (LeaseFlags { dns_dirty: true, file_dirty: true })
        },
{
    if !name.is_empty() {
        if let Some(hostname) = &lease.hostname {
            if str_eq(hostname.as_str(), name) {
                return;
            }
        }
    } else if lease.hostname.is_none() {
        return;
    }
    let mut new_name: Option<String> = None;
    let mut new_fqdn: Option<String> = None;
    let ghost s = leases_view(leases@);
    if !name.is_empty() {
        let n: usize = leases.len();
        let mut i: usize = 0;
        while i < n
            invariant
                n == leases@.len(),
                s.len() == n,
                i <= n,
                name@.len() > 0,
                forall|k: int| 0 <= k < i ==> leases_view(leases@)[k] == clear_name(s, name@)[k],
                forall|k: int| i <= k < n ==> leases_view(leases@)[k] == s[k],
                opt_str_view(new_name) == last_match_name(s.take(i as int), name@),
                opt_str_view(new_fqdn) == last_match_fqdn(s.take(i as int), name@),
            decreases n - i,
        {
            assert(s.take(i + 1).drop_last() =~= s.take(i as int));
            assert(s.take(i + 1).last() == s[i as int]);
            let matched: bool = match &leases[i].hostname {
                Some(h) => hostname_isequal(h.as_str(), name),
                None => false,
            };
            if matched {
                let mut l: DhcpLease = leases[i].clone_lease();
                new_name = clone_opt_string(&l.hostname);
                if l.fqdn.is_some() {
                    new_fqdn = clone_opt_string(&l.fqdn);
                }
                l.hostname = None;
                l.fqdn = None;
                leases.set(i, l);
            }
            i += 1;
        }
        assert(s.take(n as int) =~= s);
        assert(leases_view(leases@) =~= clear_name(s, name@));
    }
    if new_name.is_none() {
        new_name = Some(name.to_owned());
    }
    if suffix.is_some() && new_fqdn.is_none() {
        match suffix {
            Some(sfx) => {
                new_fqdn = Some(make_fqdn(name, sfx.as_str()));
            },
            None => {},
        }
    }
    lease.hostname = new_name;
    lease.fqdn = new_fqdn;
    flags.file_dirty = true;
    flags.dns_dirty = true;
    proof {
        if name@.len() == 0 {
            assert(leases_view(leases@) =~= s);
        }
    }
}

/// The DNS records of the first `n` leases added in turn to the cache:
/// a lease with a full name gets a record for it (which also answers
/// reverse searches) and one for its host name, if any; a lease with a host
/// name alone gets one for it (which answers reverse searches).  Gives the
/// cache and whether adding stops at a fault on the way (see
/// `cv_add_dhcp_entry`).
pub open spec fn cv_update_dns(c: CacheView, leases: Seq<LeaseView>, n: int) -> (CacheView, bool)
    decreases n,
{
    if n <= 0 || n > leases.len() {
        (c, false)
    } else {
        let (c0, p0) = cv_update_dns(c, leases, n - 1);
        let l = leases[n - 1];
        if p0 {
            (c0, true)
        } else {
            match l.fqdn {
                Some(f) => {
                    let (c1, p1) = cv_add_dhcp_entry(c0, f, l.addr, l.expires, F_REVERSE);
                    if p1 {
                        (c1, true)
                    } else {
                        match l.hostname {
                            Some(h) => cv_add_dhcp_entry(c1, h, l.addr, l.expires, 0),
                            None => (c1, false),
                        }
                    }
                },
                None => match l.hostname {
                    Some(h) => cv_add_dhcp_entry(c0, h, l.addr, l.expires, F_REVERSE),
                    None => (c0, false),
                },
            }
        }
    }
}

/// The leases' times can be compared.
pub open spec fn lease_times_ok(s: Seq<LeaseView>) -> bool {
    forall|i: int| 0 <= i < s.len() ==> (#[trigger] s[i]).expires.wf() && s[i].expires.secs <= i64::MAX as u64
}

/// Refreshes what the leases have changed: says whether the lease file
/// must be written (it was marked; the mark is cleared, the caller writes
/// it), and, when the DNS entries were marked or `force_dns` is set, takes
/// the DHCP records out of the cache and adds those of every lease again
/// (see `cv_update_dns`), clearing the mark.
pub fn lease_update_dns(db: &mut LeaseDb, cache: &mut Cache, force_dns: bool) -> (write_file: bool)
    requires
        old(cache).wf(),
        lease_times_ok(leases_view(old(db).leases@)),
        old(cache).next_uid + 2 * old(db).leases@.len() < u64::MAX,
        old(cache).length + 2 * old(db).leases@.len() < usize::MAX,
        (old(db).flags.dns_dirty || force_dns) ==> !cv_update_dns(
            cv_unhash_dhcp(old(cache)@),
            leases_view(old(db).leases@),
            old(db).leases@.len() as int,
        ).1,
    ensures
        final(cache).wf(),
        write_file == old(db).flags.file_dirty,
        !final(db).flags.file_dirty,
        final(db).leases@ == old(db).leases@,
        (old(db).flags.dns_dirty || force_dns) ==> {
            &&& final(cache)@ == cv_update_dns(
                cv_unhash_dhcp(old(cache)@),
                leases_view(old(db).leases@),
                old(db).leases@.len() as int,
            ).0
            &&& !final(db).flags.dns_dirty
        },
        !(old(db).flags.dns_dirty || force_dns) ==> final(cache)@ == old(cache)@ && !final(db).flags.dns_dirty,
{
    let write_file: bool = db.flags.file_dirty;
    db.flags.file_dirty = false;
    if db.flags.dns_dirty || force_dns {
        let ghost len0 = cache.length;
        let ghost uid0 = cache.next_uid;
        cache_unhash_dhcp(cache);
        let ghost start = cache@;
        let ghost lv = leases_view(db.leases@);
        let mut i: usize = 0;
        while i < db.leases.len()
            invariant
                cache.wf(),
                lv == leases_view(db.leases@),
                lease_times_ok(lv),
                i <= db.leases@.len(),
                cache.length <= len0 + 2 * i,
                cache.next_uid <= uid0 + 2 * i,
                uid0 + 2 * db.leases@.len() < u64::MAX,
                len0 + 2 * db.leases@.len() < usize::MAX,
                !cv_update_dns(start, lv, lv.len() as int).1,
                cv_update_dns(start, lv, i as int) == (cache@, false),
            decreases db.leases@.len() - i,
        {
            proof {
                if cv_update_dns(start, lv, i as int + 1).1 {
                    lemma_update_dns_stops(start, lv, i as int + 1, lv.len() as int);
                }
            }
            let lease: &DhcpLease = &db.leases[i];
            assert(lv[i as int] == lease@);
            match &lease.fqdn {
                Some(f) => {
                    cache_add_dhcp_entry(cache, f.as_str(), lease.addr, lease.expires, F_REVERSE);
                    match &lease.hostname {
                        Some(h) => {
                            cache_add_dhcp_entry(cache, h.as_str(), lease.addr, lease.expires, 0);
                        },
                        None => {},
                    }
                },
                None => {
                    match &lease.hostname {
                        Some(h) => {
                            cache_add_dhcp_entry(cache, h.as_str(), lease.addr, lease.expires, F_REVERSE);
                        },
                        None => {},
                    }
                },
            }
            i += 1;
        }
        db.flags.dns_dirty = false;
    }
    write_file
}

/// Once the additions stop, they stay stopped.
proof fn lemma_update_dns_stops(c: CacheView, leases: Seq<LeaseView>, i: int, n: int)
    requires
        0 <= i <= n <= leases.len(),
        cv_update_dns(c, leases, i).1,
    ensures
        cv_update_dns(c, leases, n).1,
    decreases n - i,
{
    if i < n {
        lemma_update_dns_stops(c, leases, i, n - 1);
    }
}

} // verus!
