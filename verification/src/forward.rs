//! Forwarding of DNS queries: the table of queries sent upstream, with the
//! ids they were sent under.

use crate::dnsmasq::{
    spec_header_bytes, spec_header_of, AllAddr, Header, MySockAddr, Server, F_IPV4, F_IPV6, F_NEG,
    F_NOERR, F_NXDOMAIN, OPT_NODOTS_LOCAL, OPT_ORDER, QUERY, SERV_FOR_NODOTS, SERV_HAS_DOMAIN,
    SERV_LITERAL_ADDRESS, SERV_NO_ADDR, SERV_TYPE,
};
use crate::cache::{Cache, CacheView};
use crate::dnsmasq::{BogusAddr, NOERROR, NXDOMAIN, OPT_NO_NEG};
use crate::extract::{
    addr_outcome, bogus_outcome, check_for_bogus_wildcard, extract_addresses, extract_neg_addrs, neg_outcome,
    room_for, BogusOutcome, LearnOutcome,
};
use crate::rfc1035::{extract_request, header_of, name_rest, name_text, query_kind, request_readable};
use crate::util::{
    be16_value, difftime, hostname_isequal, rand16, spec_difftime, spec_hostname_isequal, str_chars,
    string_from_chars, Time,
};
use vstd::prelude::*;

verus! {

/// Most queries that may wait for an answer at a time.
pub const FTABSIZ: u32 = 150;

/// Seconds after which a query that has not been answered may be dropped.
pub const TIMEOUT: u32 = 40;

/// Seconds between two warnings that the table is full.
pub const LOGRATE: i64 = 120;

/// A query forwarded upstream.
#[derive(Clone, Copy, Debug)]
pub struct Frec {
    /// Where the query came from.
    pub source: MySockAddr,
    /// The index of the server it was last sent to.
    pub sent_to: Option<usize>,
    /// The id the client gave the query.
    pub orig_id: u16,
    /// The id it was forwarded under; 0 while the record is free.
    pub new_id: u16,
    /// The descriptor of the socket the query came in on.
    pub fd: i32,
    pub time: Time,
}

impl Frec {
    /// A free record made at `now`.
    pub fn new(now: Time) -> (f: Frec)
        ensures
            f.source == (MySockAddr { ip: AllAddr::V4(0), port: 0 }),
            f.sent_to is None,
            f.orig_id == 0,
            f.new_id == 0,
            f.fd == -1,
            f.time == now,
    {
        Frec { source: MySockAddr::unspecified(), sent_to: None, orig_id: 0, new_id: 0, fd: -1, time: now }
    }
}

/// The forwarded queries, the ids in use, and when the table last warned
/// that it was full.
#[derive(Debug)]
pub struct FrecTable {
    pub frecs: Vec<Frec>,
    pub ids: Vec<u16>,
    pub warn_time: Time,
}

impl FrecTable {
    /// An empty table.
    pub fn new() -> (t: FrecTable)
        ensures
            t.frecs@.len() == 0,
            t.ids@.len() == 0,
            t.warn_time == (Time { secs: 0, nanos: 0 }),
    {
        FrecTable { frecs: Vec::new(), ids: Vec::new(), warn_time: Time::epoch() }
    }
}

/// Empties the list of ids in use.  The first time the records are
/// dropped too; later every record is freed (its id set to 0).
pub fn forward_init(table: &mut FrecTable, first: bool)
    ensures
        final(table).ids@.len() == 0,
        final(table).warn_time == old(table).warn_time,
        first ==> final(table).frecs@.len() == 0,
        !first ==> final(table).frecs@.len() == old(table).frecs@.len() && forall|i: int|
            0 <= i < old(table).frecs@.len() ==> final(table).frecs@[i] == (Frec {
                new_id: 0,
                ..old(table).frecs@[i]
            }),
{
    table.ids.clear();
    if first {
        table.frecs.clear();
    } else {
        let n: usize = table.frecs.len();
        let mut i: usize = 0;
        while i < n
            invariant
                n == old(table).frecs@.len(),
                table.frecs@.len() == n,
                i <= n,
                table.ids@.len() == 0,
                table.warn_time == old(table).warn_time,
                forall|k: int| 0 <= k < i ==> table.frecs@[k] == (Frec { new_id: 0, ..old(table).frecs@[k] }),
                forall|k: int| i <= k < n ==> table.frecs@[k] == old(table).frecs@[k],
            decreases n - i,
        {
            let mut f: Frec = table.frecs[i];
            f.new_id = 0;
            table.frecs.set(i, f);
            i += 1;
        }
    }
}

/// The ids of `s` other than `id`, in order.
pub open spec fn without_id(s: Seq<u16>, id: u16) -> Seq<u16> {
    s.filter(other_than(id))
}

/// Whether an id is not `id`.
pub open spec fn other_than(id: u16) -> spec_fn(u16) -> bool {
    |x: u16| x != id
}

/// Takes `id` off the list of ids in use.
pub fn delete_frec_list_id(table: &mut FrecTable, id: u16)
    ensures
        final(table).ids@ == without_id(old(table).ids@, id),
        final(table).frecs@ == old(table).frecs@,
        final(table).warn_time == old(table).warn_time,
{
    let ghost s = table.ids@;
    let mut kept: Vec<u16> = Vec::new();
    let mut i: usize = 0;
    while i < table.ids.len()
        invariant
            s == table.ids@,
            i <= s.len(),
            kept@ == without_id(s.take(i as int), id),
        decreases s.len() - i,
    {
        let x: u16 = table.ids[i];
        proof {
            assert(s.take(i + 1).drop_last() =~= s.take(i as int));
            reveal_with_fuel(Seq::filter, 1);
        }
        if x != id {
            kept.push(x);
        }
        i += 1;
    }
    assert(s.take(s.len() as int) =~= s);
    table.ids = kept;
}

/// Frees every record of queries that came in on the socket `fd`, and
/// takes their ids off the list in use.
pub fn reap_forward(table: &mut FrecTable, fd: i32)
    ensures
        final(table).frecs@.len() == old(table).frecs@.len(),
        forall|i: int|
            0 <= i < old(table).frecs@.len() ==> final(table).frecs@[i] == (if old(table).frecs@[i].fd
                == fd {
                Frec { new_id: 0, ..old(table).frecs@[i] }
            } else {
                old(table).frecs@[i]
            }),
        forall|x: u16| #[trigger] final(table).ids@.contains(x) <==> (old(table).ids@.contains(x) && !exists|i: int|
            0 <= i < old(table).frecs@.len() && old(table).frecs@[i].fd == fd && old(table).frecs@[i].new_id == x),
        final(table).warn_time == old(table).warn_time,
{
    let n: usize = table.frecs.len();
    let mut i: usize = 0;
    while i < n
        invariant
            n == old(table).frecs@.len(),
            table.frecs@.len() == n,
            i <= n,
            table.warn_time == old(table).warn_time,
            forall|k: int|
                0 <= k < i ==> table.frecs@[k] == (if old(table).frecs@[k].fd == fd {
                    Frec { new_id: 0, ..old(table).frecs@[k] }
                } else {
                    old(table).frecs@[k]
                }),
            forall|k: int| i <= k < n ==> table.frecs@[k] == old(table).frecs@[k],
            forall|x: u16| #[trigger] table.ids@.contains(x) <==> (old(table).ids@.contains(x) && !exists|k: int|
                0 <= k < i && old(table).frecs@[k].fd == fd && old(table).frecs@[k].new_id == x),
        decreases n - i,
    {
        let f: Frec = table.frecs[i];
        if f.fd == fd {
            let ghost before = table.ids@;
            delete_frec_list_id(table, f.new_id);
            proof {
                assert forall|x: u16| #[trigger] table.ids@.contains(x) <==> (before.contains(x) && x != f.new_id) by {
                    lemma_without_id_contains(before, f.new_id, x);
                }
            }
            let mut g: Frec = f;
            g.new_id = 0;
            table.frecs.set(i, g);
        }
        i += 1;
    }
}

proof fn lemma_without_id_contains(s: Seq<u16>, id: u16, x: u16)
    ensures
        without_id(s, id).contains(x) <==> (s.contains(x) && x != id),
{
    let p = other_than(id);
    if s.contains(x) && x != id {
        let k = choose|k: int| 0 <= k < s.len() && s[k] == x;
        s.lemma_filter_contains(p, k);
    }
    if without_id(s, id).contains(x) {
        s.lemma_filter_contains_rev(p, x);
        let k = choose|k: int| 0 <= k < without_id(s, id).len() && without_id(s, id)[k] == x;
        s.lemma_filter_pred(p, k);
    }
}

/// The index of the first record, from index `i` on, forwarded under the
/// id `id`.
pub open spec fn frec_with_id(frecs: Seq<Frec>, id: u16, i: int) -> Option<int>
    decreases frecs.len() - i,
{
    if i < 0 || i >= frecs.len() {
        None
    } else if frecs[i].new_id == id {
        Some(i)
    } else {
        frec_with_id(frecs, id, i + 1)
    }
}

/// Finds the record of the query forwarded under the id `id`: the index
/// of the first such record.
pub fn lookup_frec(table: &FrecTable, id: u16) -> (r: Option<usize>)
    ensures
        r is None <==> frec_with_id(table.frecs@, id, 0) is None,
        r matches Some(v) ==> frec_with_id(table.frecs@, id, 0) == Some(v as int),
        r matches Some(i) ==> i < table.frecs@.len() && table.frecs@[i as int].new_id == id,
{
    let mut i: usize = 0;
    while i < table.frecs.len()
        invariant
            i <= table.frecs@.len(),
            frec_with_id(table.frecs@, id, 0) == frec_with_id(table.frecs@, id, i as int),
        decreases table.frecs@.len() - i,
    {
        if table.frecs[i].new_id == id {
            return Some(i);
        }
        i += 1;
    }
    None
}

/// Whether a record holds a query of the client `addr` with its id `id`.
pub open spec fn from_sender(f: Frec, id: u16, addr: MySockAddr) -> bool {
    f.new_id != 0 && f.orig_id == id && f.source == addr
}

/// The index of the first record, from index `i` on, that holds a query
/// of the client `addr` with its id `id`.
pub open spec fn frec_of_sender(frecs: Seq<Frec>, id: u16, addr: MySockAddr, i: int) -> Option<int>
    decreases frecs.len() - i,
{
    if i < 0 || i >= frecs.len() {
        None
    } else if from_sender(frecs[i], id, addr) {
        Some(i)
    } else {
        frec_of_sender(frecs, id, addr, i + 1)
    }
}

/// Finds the record of a query still waiting that the client `addr` sent
/// with the id `id`.
pub fn lookup_frec_by_sender(table: &FrecTable, id: u16, addr: MySockAddr) -> (r: Option<usize>)
    ensures
        r is None <==> frec_of_sender(table.frecs@, id, addr, 0) is None,
        r matches Some(v) ==> frec_of_sender(table.frecs@, id, addr, 0) == Some(v as int),
        r matches Some(i) ==> i < table.frecs@.len() && from_sender(table.frecs@[i as int], id, addr),
{
    let mut i: usize = 0;
    while i < table.frecs.len()
        invariant
            i <= table.frecs@.len(),
            frec_of_sender(table.frecs@, id, addr, 0) == frec_of_sender(table.frecs@, id, addr, i as int),
        decreases table.frecs@.len() - i,
    {
        let f: Frec = table.frecs[i];
        if f.new_id != 0 && f.orig_id == id && f.source == addr {
            return Some(i);
        }
        i += 1;
    }
    None
}

/// How many random ids are tried before the free ids are searched in
/// order.
pub const ID_TRIES: u32 = 64;

/// Whether some id from 1 to 65535 is not in use.
pub open spec fn has_free_id(ids: Seq<u16>) -> bool {
    exists|x: u16| x != 0 && !ids.contains(x)
}

fn id_in_use(ids: &Vec<u16>, x: u16) -> (b: bool)
    ensures
        b == ids@.contains(x),
{
    let mut i: usize = 0;
    while i < ids.len()
        invariant
            i <= ids@.len(),
            forall|k: int| 0 <= k < i ==> ids@[k] != x,
        decreases ids@.len() - i,
    {
        if ids[i] == x {
            return true;
        }
        i += 1;
    }
    false
}

/// A random id from 1 to 65535 that is not in use.  Random ids are drawn
/// until a free one comes up (a draw that fails counts as a try); after
/// `ID_TRIES` draws the lowest free id is taken.
pub fn get_id(table: &FrecTable) -> (r: u16)
    requires
        has_free_id(table.ids@),
    ensures
        r != 0,
        !table.ids@.contains(r),
{
    let mut tries: u32 = 0;
    while tries < ID_TRIES
        invariant
            tries <= ID_TRIES,
        decreases ID_TRIES - tries,
    {
        if let Some(ret) = rand16() {
            if ret != 0 && !id_in_use(&table.ids, ret) {
                return ret;
            }
        }
        tries += 1;
    }
    let mut x: u16 = 1;
    while x < 65535
        invariant
            1 <= x <= 65535,
            has_free_id(table.ids@),
            forall|y: u16| 1 <= y < x ==> table.ids@.contains(y),
        decreases 65535 - x,
    {
        if !id_in_use(&table.ids, x) {
            return x;
        }
        x += 1;
    }
    proof {
        let w = choose|w: u16| w != 0 && !table.ids@.contains(w);
        assert(w == 65535u16);
    }
    65535
}

/// The choice of a record for a new query, scanning the records from index
/// `i` on with `oldtime` and `oldest` so far: the first free record;
/// failing that, the record last found whose time is not a whole second
/// after the oldest time seen before it (starting from `now`).
pub open spec fn oldest_from(frecs: Seq<Frec>, i: int, oldtime: Time, oldest: Option<int>) -> (Option<int>, Time, Option<int>)
    decreases frecs.len() - i,
{
    if i < 0 || i >= frecs.len() {
        (None, oldtime, oldest)
    } else if frecs[i].new_id == 0 {
        (Some(i), oldtime, oldest)
    } else if spec_difftime(frecs[i].time, oldtime) <= 0 {
        oldest_from(frecs, i + 1, frecs[i].time, Some(i))
    } else {
        oldest_from(frecs, i + 1, oldtime, oldest)
    }
}

/// The records' times can be compared.
pub open spec fn frec_times_ok(frecs: Seq<Frec>) -> bool {
    forall|i: int| 0 <= i < frecs.len() ==> (#[trigger] frecs[i]).time.wf() && frecs[i].time.secs <= i64::MAX as u64
}

/// What `get_new_frec` does to a table: the record chosen and the table
/// after it, and whether a warning that the table is full is due.
pub open spec fn spec_new_frec(frecs: Seq<Frec>, warn: Time, now: Time) -> (Option<int>, Seq<Frec>, Time, bool) {
    let (free, oldtime, oldest) = oldest_from(frecs, 0, now, None);
    match free {
        Some(i) => (Some(i), frecs.update(i, Frec { time: now, ..frecs[i] }), warn, false),
        None => {
            if oldest matches Some(o) && spec_difftime(now, oldtime) > TIMEOUT as int {
                let o = oldest->0;
                (Some(o), frecs.update(o, Frec { time: now, ..frecs[o] }), warn, false)
            } else if frecs.len() > FTABSIZ as int {
                let due = (warn.secs == 0 && warn.nanos == 0) || spec_difftime(now, warn) > LOGRATE as int;
                (None, frecs, if due { now } else { warn }, due)
            } else {
                let f = Frec {
                    source: MySockAddr { ip: AllAddr::V4(0), port: 0 },
                    sent_to: None,
                    orig_id: 0,
                    new_id: 0,
                    fd: -1i32,
                    time: now,
                };
                (Some(frecs.len() as int), frecs.push(f), warn, false)
            }
        },
    }
}

proof fn lemma_oldest_from(frecs: Seq<Frec>, i: int, oldtime: Time, oldest: Option<int>)
    requires
        0 <= i,
        oldest matches Some(o) ==> 0 <= o < frecs.len(),
    ensures
        ({
            let (free, t, o) = oldest_from(frecs, i, oldtime, oldest);
            &&& (free matches Some(k) ==> 0 <= k < frecs.len())
            &&& (o matches Some(k) ==> 0 <= k < frecs.len())
            &&& (o is None ==> oldest is None)
        }),
    decreases frecs.len() - i,
{
    if 0 <= i < frecs.len() && frecs[i].new_id != 0 {
        if spec_difftime(frecs[i].time, oldtime) <= 0 {
            lemma_oldest_from(frecs, i + 1, frecs[i].time, Some(i));
        } else {
            lemma_oldest_from(frecs, i + 1, oldtime, oldest);
        }
    }
}

/// Finds a record for a new query: a free one (its time set to now); or
/// else the oldest one, when it has waited more than `TIMEOUT` seconds;
/// or else a new one, unless the table already holds more than `FTABSIZ`.
/// Gives the index of the record and whether a warning that the table is
/// full is due (at most one in `LOGRATE` seconds).
pub fn get_new_frec(table: &mut FrecTable, now: Time) -> (r: (Option<usize>, bool))
    requires
        frec_times_ok(old(table).frecs@),
        now.wf(),
        now.secs <= i64::MAX as u64,
        old(table).warn_time.wf(),
        old(table).warn_time.secs <= i64::MAX as u64,
    ensures
        ({
            let (choice, frecs, warn, due) = spec_new_frec(old(table).frecs@, old(table).warn_time, now);
            &&& (r.0 is None <==> choice is None)
            &&& (r.0 matches Some(v) ==> choice == Some(v as int))
            &&& r.1 == due
            &&& final(table).frecs@ == frecs
            &&& final(table).warn_time == warn
            &&& final(table).ids@ == old(table).ids@
            &&& (r.0 matches Some(i) ==> i < final(table).frecs@.len())
        }),
{
    let ghost s = table.frecs@;
    let n: usize = table.frecs.len();
    let mut oldtime: Time = now;
    let mut oldest: Option<usize> = None;
    let mut i: usize = 0;
    while i < n
        invariant
            n == s.len(),
            s == table.frecs@,
            frec_times_ok(s),
            table.warn_time == old(table).warn_time,
            table.ids@ == old(table).ids@,
            old(table).frecs@ == s,
            old(table).warn_time.wf(),
            old(table).warn_time.secs <= i64::MAX as u64,
            now.wf(),
            now.secs <= i64::MAX as u64,
            oldtime.wf(),
            oldtime.secs <= i64::MAX as u64,
            i <= n,
            oldest matches Some(o) ==> o < i,
            oldest_from(s, 0, now, None) == oldest_from(
                s,
                i as int,
                oldtime,
                match oldest {
                    Some(o) => Some(o as int),
                    None => None,
                },
            ),
        decreases n - i,
    {
        let f: Frec = table.frecs[i];
        if f.new_id == 0 {
            proof {
                lemma_oldest_from(s, 0, now, None);
            }
            let mut g: Frec = f;
            g.time = now;
            table.frecs.set(i, g);
            return (Some(i), false);
        }
        if difftime(f.time, oldtime) <= 0 {
            oldtime = f.time;
            oldest = Some(i);
        }
        i += 1;
    }
    proof {
        lemma_oldest_from(s, 0, now, None);
    }
    match oldest {
        Some(o) => {
            if difftime(now, oldtime) > TIMEOUT as i64 {
                let mut g: Frec = table.frecs[o];
                g.time = now;
                table.frecs.set(o, g);
                return (Some(o), false);
            }
        },
        None => {},
    }
    if n > FTABSIZ as usize {
        let due: bool = (table.warn_time.secs == 0 && table.warn_time.nanos == 0) || difftime(now, table.warn_time) > LOGRATE;
        if due {
            table.warn_time = now;
        }
        return (None, due);
    }
    table.frecs.push(Frec::new(now));
    (Some(n), false)
}


// ---------------------------------------------------------------------
// Forwarding a query
// ---------------------------------------------------------------------

/// The kind and name of the single question of a query (see
/// `extract_request`).
pub open spec fn request_of(packet: Seq<u8>) -> (u16, Seq<char>) {
    let h = spec_header_of(packet);
    let q = packet.subrange(12, packet.len() as int);
    let rest = name_rest(packet, q);
    if h.qdcount != 1 || h.opcode != QUERY {
        (0, seq![])
    } else {
        (query_kind(be16_value(rest[0], rest[1]), be16_value(rest[2], rest[3])), name_text(packet, q))
    }
}

/// What matching a name against the configured servers has found so far:
/// the kind of server, the flags and address of an answer from
/// configuration, the domain and the length of the longest domain matched.
pub struct MatchState {
    pub typ: u32,
    pub flags: u16,
    pub addrp: Option<AllAddr>,
    pub domain: Seq<char>,
    pub matchlen: int,
}

/// The flag of the address family of a server's address.
pub open spec fn addr_flag(a: MySockAddr) -> u16 {
    match a.ip {
        AllAddr::V4(_) => F_IPV4,
        AllAddr::V6(_) => F_IPV6,
    }
}

/// One server looked at while matching: a server for names with dots
/// (unless a domain server already matched) answers from its literal
/// address when the query asks for its family; a domain server whose
/// domain ends the name, and is longer than any matched before, becomes
/// the domain (and answers from its literal address likewise).
pub open spec fn match_step(serv: Server, name: Seq<char>, gotname: u16, st: MatchState) -> MatchState {
    let fl = serv.flags;
    if fl & SERV_FOR_NODOTS != 0 && st.typ != SERV_HAS_DOMAIN && name.contains('.') {
        if fl & SERV_LITERAL_ADDRESS != 0 {
            if addr_flag(serv.addr) & gotname != 0 {
                MatchState { typ: SERV_FOR_NODOTS, flags: addr_flag(serv.addr), addrp: Some(serv.addr.ip), ..st }
            } else {
                st
            }
        } else {
            MatchState { flags: 0, ..st }
        }
    } else if fl & SERV_HAS_DOMAIN != 0 {
        let dlen = serv.domain@.len() as int;
        if name.len() >= dlen && spec_hostname_isequal(name.subrange(name.len() - dlen, name.len() as int), serv.domain@)
            && dlen > st.matchlen {
            if fl & SERV_LITERAL_ADDRESS != 0 {
                if addr_flag(serv.addr) & gotname != 0 {
                    MatchState {
                        typ: SERV_HAS_DOMAIN,
                        flags: addr_flag(serv.addr),
                        addrp: Some(serv.addr.ip),
                        domain: serv.domain@,
                        matchlen: dlen,
                    }
                } else {
                    st
                }
            } else {
                MatchState { flags: 0, domain: serv.domain@, matchlen: dlen, ..st }
            }
        } else {
            st
        }
    } else {
        st
    }
}

/// Matching a name against the servers from index `i` on.
pub open spec fn match_servers(servers: Seq<Server>, name: Seq<char>, gotname: u16, i: int, st: MatchState) -> MatchState
    decreases servers.len() - i,
{
    if i < 0 || i >= servers.len() {
        st
    } else {
        match_servers(servers, name, gotname, i + 1, match_step(servers[i], name, gotname, st))
    }
}

/// Whether a server may take a query of kind `typ` for `domain`.
pub open spec fn accepts(serv: Server, typ: u32, domain: Seq<char>) -> bool {
    (typ == (serv.flags & SERV_TYPE) && typ != SERV_HAS_DOMAIN) || spec_hostname_isequal(domain, serv.domain@)
}

/// How trying the servers ends.
pub enum ScanEnd {
    /// Sent to the server at this index.
    Sent(int),
    /// No server took the query: the flags and address to answer with.
    Exhausted(u16, Option<AllAddr>),
}

/// Trying the servers in turn, the `k`-th from `start` on (going round the
/// list): the first that takes the query, has no literal address and its
/// own socket, gets it; a server without an address makes the answer
/// "no error".
pub open spec fn send_scan(
    servers: Seq<Server>,
    start: int,
    k: int,
    typ: u32,
    domain: Seq<char>,
    flags: u16,
    addrp: Option<AllAddr>,
) -> ScanEnd
    decreases servers.len() - k,
{
    if k < 0 || k >= servers.len() {
        ScanEnd::Exhausted(flags, addrp)
    } else {
        let s = (start + k) % (servers.len() as int);
        let serv = servers[s];
        let a = Some(serv.addr.ip);
        if accepts(serv, typ, domain) && serv.flags & SERV_NO_ADDR != 0 {
            send_scan(servers, start, k + 1, typ, domain, F_NOERR, a)
        } else if accepts(serv, typ, domain) && serv.flags & SERV_LITERAL_ADDRESS == 0 && serv.sfd is Some {
            ScanEnd::Sent(s)
        } else {
            send_scan(servers, start, k + 1, typ, domain, flags, a)
        }
    }
}

/// The server after the one at `s`, going round the list.
pub open spec fn next_server(servers: Seq<Server>, s: int) -> int {
    if s + 1 < servers.len() {
        s + 1
    } else {
        0
    }
}

/// What to do with a query.
pub enum ForwardAction {
    /// Send it to the server at this index, over that server's socket.
    Send(usize),
    /// Answer the client directly with `setup_reply` and these flags and
    /// address.
    Answer(u16, Option<AllAddr>),
}

/// The plain values of an action.
pub enum ActionView {
    Send(int),
    Answer(u16, Option<AllAddr>),
}

/// The outcome of a query: the action, the server to start from next
/// time, the records and ids afterwards, when the table last warned, and
/// whether a warning that it is full is due.
pub struct ForwardOutcome {
    pub action: ActionView,
    pub last: Option<int>,
    pub frecs: Seq<Frec>,
    pub ids: Seq<u16>,
    pub warn: Time,
    pub table_full: bool,
    /// The id written into the header of the query that is sent.
    pub header_id: u16,
}

/// What is left to do once the record `f` (at index `fi` of `frecs`) holds
/// the query: try the servers from the one it is to be sent to; when
/// none takes it, free the record and answer from `flags` and `addrp`.
pub open spec fn forward_scan(
    frecs: Seq<Frec>,
    ids: Seq<u16>,
    fi: int,
    servers: Seq<Server>,
    last_server: Option<int>,
    typ: u32,
    domain: Seq<char>,
    addrp: Option<AllAddr>,
    warn: Time,
    full: bool,
    header_id: u16,
) -> ForwardOutcome {
    let f = frecs[fi];
    match f.sent_to {
        Some(st) => match send_scan(servers, st as int, 0, typ, domain, 0, addrp) {
            ScanEnd::Sent(s) => ForwardOutcome {
                action: ActionView::Send(s),
                last: if domain.len() > 0 {
                    last_server
                } else {
                    Some(next_server(servers, s))
                },
                frecs: frecs.update(fi, Frec { sent_to: Some(s as usize), ..f }),
                ids,
                warn,
                table_full: full,
                header_id,
            },
            ScanEnd::Exhausted(fl, a) => ForwardOutcome {
                action: ActionView::Answer(fl, a),
                last: last_server,
                frecs: frecs.update(fi, Frec { new_id: 0, ..f }),
                ids: without_id(ids, f.new_id),
                warn,
                table_full: full,
                header_id,
            },
        },
        None => ForwardOutcome {
            action: ActionView::Answer(0, addrp),
            last: last_server,
            frecs: frecs.update(fi, Frec { new_id: 0, ..f }),
            ids: without_id(ids, f.new_id),
            warn,
            table_full: full,
            header_id,
        },
    }
}

/// What forwarding a query does (see `forward_query`); `new_id` is the id
/// drawn for a new record.
pub open spec fn spec_forward_query(
    frecs: Seq<Frec>,
    ids: Seq<u16>,
    warn: Time,
    servers: Seq<Server>,
    last_server: Option<int>,
    options: u32,
    packet: Seq<u8>,
    udpaddr: MySockAddr,
    fd: i32,
    now: Time,
    new_id: u16,
) -> ForwardOutcome {
    let (gotname, name) = request_of(packet);
    let header = spec_header_of(packet);
    let found = frec_of_sender(frecs, header.id, udpaddr, 0);
    if !header.rd || servers.len() == 0 {
        ForwardOutcome {
            action: ActionView::Answer(0, None),
            last: last_server,
            frecs,
            ids,
            warn,
            table_full: false,
            header_id: header.id,
        }
    } else if let Some(fi) = found {
        retry_outcome(frecs, ids, warn, servers, last_server, fi, header.id)
    } else {
        new_query_outcome(frecs, ids, warn, servers, last_server, options, gotname, name, udpaddr, fd, now, new_id, header.id)
    }
}

/// A query the client sent again: it goes on to the server after the one
/// it was last sent to.
pub open spec fn retry_outcome(
    frecs: Seq<Frec>,
    ids: Seq<u16>,
    warn: Time,
    servers: Seq<Server>,
    last_server: Option<int>,
    fi: int,
    header_id: u16,
) -> ForwardOutcome {
    let f = frecs[fi];
    let (typ, domain) = match f.sent_to {
        Some(s) => ((servers[s as int].flags & SERV_TYPE) as u32, servers[s as int].domain@),
        None => (0u32, Seq::<char>::empty()),
    };
    let moved = match f.sent_to {
        Some(s) => Frec { sent_to: Some(next_server(servers, s as int) as usize), ..f },
        None => f,
    };
    forward_scan(frecs.update(fi, moved), ids, fi, servers, last_server, typ, domain, None, warn, false, header_id)
}

/// A query seen for the first time (see `spec_forward_query`).
pub open spec fn new_query_outcome(
    frecs: Seq<Frec>,
    ids: Seq<u16>,
    warn: Time,
    servers: Seq<Server>,
    last_server: Option<int>,
    options: u32,
    gotname: u16,
    name: Seq<char>,
    udpaddr: MySockAddr,
    fd: i32,
    now: Time,
    new_id: u16,
    header_id: u16,
) -> ForwardOutcome {
    let m = if gotname != 0 {
        match_servers(servers, name, gotname, 0, MatchState { typ: 0, flags: 0, addrp: None, domain: seq![], matchlen: 0 })
    } else {
        MatchState { typ: 0, flags: 0, addrp: None, domain: seq![], matchlen: 0 }
    };
    if m.flags != 0 && m.addrp is Some {
        ForwardOutcome {
            action: ActionView::Answer(m.flags, m.addrp),
            last: last_server,
            frecs,
            ids,
            warn,
            table_full: false,
            header_id,
        }
    } else if gotname != 0 && options & OPT_NODOTS_LOCAL != 0 && !name.contains('.') {
        ForwardOutcome {
            action: ActionView::Answer(F_NXDOMAIN, m.addrp),
            last: last_server,
            frecs,
            ids,
            warn,
            table_full: false,
            header_id,
        }
    } else {
        let (choice, frecs1, warn1, full) = spec_new_frec(frecs, warn, now);
        match choice {
            None => ForwardOutcome {
                action: ActionView::Answer(F_NEG, m.addrp),
                last: last_server,
                frecs: frecs1,
                ids,
                warn: warn1,
                table_full: full,
                header_id,
            },
            Some(fi) => {
                let sent_to = if m.typ != 0 || options & OPT_ORDER != 0 {
                    Some(0usize)
                } else {
                    match last_server {
                        Some(l) => Some(l as usize),
                        None => None,
                    }
                };
                let f = Frec { sent_to, source: udpaddr, new_id, fd, orig_id: header_id, ..frecs1[fi] };
                forward_scan(
                    frecs1.update(fi, f),
                    ids.push(new_id),
                    fi,
                    servers,
                    last_server,
                    m.typ,
                    m.domain,
                    m.addrp,
                    warn1,
                    full,
                    new_id,
                )
            },
        }
    }
}

fn match_servers_exec(servers: &[Server], name: &String, gotname: u16) -> (r: (u32, u16, Option<AllAddr>, String))
    ensures
        ({
            let m = match_servers(
                servers@,
                name@,
                gotname,
                0,
                MatchState { typ: 0, flags: 0, addrp: None, domain: seq![], matchlen: 0 },
            );
            r.0 == m.typ && r.1 == m.flags && r.2 == m.addrp && r.3@ == m.domain
        }),
{
    let chars: Vec<char> = str_chars(name.as_str());
    let mut has_dot: bool = false;
    let mut j: usize = 0;
    while j < chars.len()
        invariant
            j <= chars@.len(),
            has_dot == exists|k: int| 0 <= k < j && chars@[k] == '.',
        decreases chars@.len() - j,
    {
        if chars[j] == '.' {
            has_dot = true;
        }
        j += 1;
    }
    assert(has_dot == name@.contains('.'));
    let namelen: usize = chars.len();
    let mut typ: u32 = 0;
    let mut flags: u16 = 0;
    let mut addrp: Option<AllAddr> = None;
    let mut domain: String = String::new();
    let mut matchlen: usize = 0;
    let ghost init = MatchState { typ: 0, flags: 0, addrp: None, domain: seq![], matchlen: 0 };
    proof {
        reveal_strlit("");
    }
    let mut i: usize = 0;
    while i < servers.len()
        invariant
            chars@ == name@,
            namelen == chars@.len(),
            has_dot == name@.contains('.'),
            i <= servers@.len(),
            matchlen <= namelen,
            match_servers(servers@, name@, gotname, 0, init) == match_servers(
                servers@,
                name@,
                gotname,
                i as int,
                MatchState { typ, flags, addrp, domain: domain@, matchlen: matchlen as int },
            ),
        decreases servers@.len() - i,
    {
        let serv: &Server = &servers[i];
        let fl: u32 = serv.flags;
        let sflag: u16 = match serv.addr.ip {
            AllAddr::V4(_) => F_IPV4,
            AllAddr::V6(_) => F_IPV6,
        };
        if fl & SERV_FOR_NODOTS != 0 && typ != SERV_HAS_DOMAIN && has_dot {
            if fl & SERV_LITERAL_ADDRESS != 0 {
                if sflag & gotname != 0 {
                    typ = SERV_FOR_NODOTS;
                    flags = sflag;
                    addrp = Some(serv.addr.ip);
                }
            } else {
                flags = 0;
            }
        } else if fl & SERV_HAS_DOMAIN != 0 {
            let dchars: Vec<char> = str_chars(serv.domain.as_str());
            let dlen: usize = dchars.len();
            if namelen >= dlen && dlen > matchlen {
                let tail: &[char] = &chars.as_slice()[namelen - dlen..namelen];
                let suffix: String = string_from_chars(tail);
                if hostname_isequal(suffix.as_str(), serv.domain.as_str()) {
                    if fl & SERV_LITERAL_ADDRESS != 0 {
                        if sflag & gotname != 0 {
                            typ = SERV_HAS_DOMAIN;
                            flags = sflag;
                            domain = serv.domain.clone();
                            matchlen = dlen;
                            addrp = Some(serv.addr.ip);
                        }
                    } else {
                        flags = 0;
                        domain = serv.domain.clone();
                        matchlen = dlen;
                    }
                }
            }
        }
        i += 1;
    }
    (typ, flags, addrp, domain)
}

fn send_scan_exec(servers: &[Server], start: usize, typ: u32, domain: &String, addrp0: Option<AllAddr>) -> (r: (Option<usize>, u16, Option<AllAddr>))
    requires
        start < servers@.len(),
    ensures
        match send_scan(servers@, start as int, 0, typ, domain@, 0, addrp0) {
            ScanEnd::Sent(s) => (r.0 matches Some(v) && v as int == s) && 0 <= s < servers@.len(),
            ScanEnd::Exhausted(fl, a) => r.0 is None && r.1 == fl && r.2 == a,
        },
{
    let n: usize = servers.len();
    let mut flags: u16 = 0;
    let mut addrp: Option<AllAddr> = addrp0;
    let mut k: usize = 0;
    while k < n
        invariant
            n == servers@.len(),
            start < n,
            k <= n,
            send_scan(servers@, start as int, 0, typ, domain@, 0, addrp0) == send_scan(
                servers@,
                start as int,
                k as int,
                typ,
                domain@,
                flags,
                addrp,
            ),
        decreases n - k,
    {
        let s: usize = if k < n - start {
            start + k
        } else {
            k - (n - start)
        };
        assert(s as int == (start + k) % (n as int)) by (nonlinear_arith)
            requires
                start < n,
                k < n,
                s == (if start + k < n { start + k } else { start + k - n }),
        ;
        let serv: &Server = &servers[s];
        let ok: bool = (typ == (serv.flags & SERV_TYPE) && typ != SERV_HAS_DOMAIN) || hostname_isequal(
            domain.as_str(),
            serv.domain.as_str(),
        );
        if ok && serv.flags & SERV_NO_ADDR != 0 {
            flags = F_NOERR;
        } else if ok && serv.flags & SERV_LITERAL_ADDRESS == 0 && serv.sfd.is_some() {
            return (Some(s), flags, addrp);
        }
        addrp = Some(serv.addr.ip);
        k += 1;
    }
    (None, flags, addrp)
}

/// The records point only at servers of the list.
pub open spec fn frecs_fit(frecs: Seq<Frec>, n: int) -> bool {
    forall|i: int| 0 <= i < frecs.len() ==> ((#[trigger] frecs[i]).sent_to matches Some(s) ==> s < n)
}

/// Tries the servers for the query held by record `fi` (see
/// `forward_scan`).
fn forward_scan_exec(
    table: &mut FrecTable,
    fi: usize,
    servers: &[Server],
    last_server: Option<usize>,
    typ: u32,
    domain: &String,
    addrp: Option<AllAddr>,
) -> (r: (ForwardAction, Option<usize>))
    requires
        fi < old(table).frecs@.len(),
        old(table).frecs@[fi as int].sent_to matches Some(s) ==> s < servers@.len(),
    ensures
        ({
            let o = forward_scan(
                old(table).frecs@,
                old(table).ids@,
                fi as int,
                servers@,
                match last_server {
                    Some(l) => Some(l as int),
                    None => None,
                },
                typ,
                domain@,
                addrp,
                old(table).warn_time,
                false,
                0,
            );
            &&& (match r.0 {
                ForwardAction::Send(s) => o.action == ActionView::Send(s as int),
                ForwardAction::Answer(fl, a) => o.action == ActionView::Answer(fl, a),
            })
            &&& (match r.1 {
                Some(l) => o.last == Some(l as int),
                None => o.last is None,
            })
            &&& final(table).frecs@ == o.frecs
            &&& final(table).ids@ == o.ids
            &&& final(table).warn_time == old(table).warn_time
        }),
{
    let f: Frec = table.frecs[fi];
    match f.sent_to {
        Some(st) => {
            let (sent, fl, a) = send_scan_exec(servers, st, typ, domain, addrp);
            match sent {
                Some(s) => {
                    let mut g: Frec = f;
                    g.sent_to = Some(s);
                    table.frecs.set(fi, g);
                    let dchars: Vec<char> = str_chars(domain.as_str());
                    let next: Option<usize> = if dchars.len() > 0 {
                        last_server
                    } else if s < servers.len() - 1 {
                        Some(s + 1)
                    } else {
                        Some(0)
                    };
                    (ForwardAction::Send(s), next)
                },
                None => {
                    delete_frec_list_id(table, f.new_id);
                    let mut g: Frec = f;
                    g.new_id = 0;
                    table.frecs.set(fi, g);
                    (ForwardAction::Answer(fl, a), last_server)
                },
            }
        },
        None => {
            delete_frec_list_id(table, f.new_id);
            let mut g: Frec = f;
            g.new_id = 0;
            table.frecs.set(fi, g);
            (ForwardAction::Answer(0, addrp), last_server)
        },
    }
}

/// What `forward_query` decided.
pub struct ForwardResult {
    pub action: ForwardAction,
    /// The server to start from next time.
    pub last_server: Option<usize>,
    /// Whether a warning that the table is full is due.
    pub table_full: bool,
    /// The id in the header of the query sent upstream: the new id of a
    /// query forwarded for the first time, else the client's id.
    pub query_id: u16,
}

/// Whether a query seen for the first time gets a record (and a new id):
/// no literal address answers it, it is not a plain name kept local, and
/// the table has room.
pub open spec fn gets_record(
    frecs: Seq<Frec>,
    warn: Time,
    servers: Seq<Server>,
    options: u32,
    gotname: u16,
    name: Seq<char>,
    now: Time,
) -> bool {
    let m = if gotname != 0 {
        match_servers(servers, name, gotname, 0, MatchState { typ: 0, flags: 0, addrp: None, domain: seq![], matchlen: 0 })
    } else {
        MatchState { typ: 0, flags: 0, addrp: None, domain: seq![], matchlen: 0 }
    };
    &&& !(m.flags != 0 && m.addrp is Some)
    &&& !(gotname != 0 && options & OPT_NODOTS_LOCAL != 0 && !name.contains('.'))
    &&& spec_new_frec(frecs, warn, now).0 is Some
}

/// Whether a query gets a new record and a new id.
pub open spec fn draws_id(frecs: Seq<Frec>, warn: Time, servers: Seq<Server>, options: u32, packet: Seq<u8>, udpaddr: MySockAddr, now: Time) -> bool {
    let (gotname, name) = request_of(packet);
    let header = spec_header_of(packet);
    &&& header.rd && servers.len() > 0
    &&& frec_of_sender(frecs, header.id, udpaddr, 0) is None
    &&& gets_record(frecs, warn, servers, options, gotname, name, now)
}

proof fn lemma_frec_of_sender(frecs: Seq<Frec>, id: u16, addr: MySockAddr, i: int)
    requires
        0 <= i,
    ensures
        frec_of_sender(frecs, id, addr, i) matches Some(k) ==> 0 <= k < frecs.len(),
    decreases frecs.len() - i,
{
    if 0 <= i < frecs.len() && !from_sender(frecs[i], id, addr) {
        lemma_frec_of_sender(frecs, id, addr, i + 1);
    }
}

/// The plain values of an action and of the next server, as the
/// outcome `o` gives them.
pub open spec fn result_is(action: ForwardAction, last: Option<usize>, o: ForwardOutcome) -> bool {
    &&& (match action {
        ForwardAction::Send(s) => o.action == ActionView::Send(s as int),
        ForwardAction::Answer(fl, a) => o.action == ActionView::Answer(fl, a),
    })
    &&& (match last {
        Some(l) => o.last == Some(l as int),
        None => o.last is None,
    })
}

/// The server index as a plain value.
pub open spec fn opt_index(l: Option<usize>) -> Option<int> {
    match l {
        Some(i) => Some(i as int),
        None => None,
    }
}

/// Handles a query sent again (see `retry_outcome`).
fn forward_retry(
    table: &mut FrecTable,
    servers: &[Server],
    last_server: Option<usize>,
    fi: usize,
    header_id: u16,
) -> (r: (ForwardAction, Option<usize>))
    requires
        fi < old(table).frecs@.len(),
        frecs_fit(old(table).frecs@, servers@.len() as int),
    ensures
        ({
            let o = retry_outcome(
                old(table).frecs@,
                old(table).ids@,
                old(table).warn_time,
                servers@,
                opt_index(last_server),
                fi as int,
                header_id,
            );
            &&& result_is(r.0, r.1, o)
            &&& final(table).frecs@ == o.frecs
            &&& final(table).ids@ == o.ids
            &&& final(table).warn_time == o.warn
        }),
{
    let f: Frec = table.frecs[fi];
    let no_domain: String = String::new();
    proof {
        reveal_strlit("");
    }
    let (typ, domain): (u32, String) = match f.sent_to {
        Some(s) => (servers[s].flags & SERV_TYPE, servers[s].domain.clone()),
        None => (0, no_domain),
    };
    match f.sent_to {
        Some(s) => {
            let mut g: Frec = f;
            g.sent_to = if s < servers.len() - 1 {
                Some(s + 1)
            } else {
                Some(0)
            };
            table.frecs.set(fi, g);
        },
        None => {},
    }
    forward_scan_exec(table, fi, servers, last_server, typ, &domain, None)
}

/// Handles a query seen for the first time (see `new_query_outcome`);
/// gives the action, the next server, whether a warning is due, and the
/// id drawn.
fn forward_new(
    table: &mut FrecTable,
    servers: &[Server],
    last_server: Option<usize>,
    options: u32,
    gotname: u16,
    name: &String,
    udpaddr: MySockAddr,
    fd: i32,
    now: Time,
    header_id: u16,
) -> (r: (ForwardAction, Option<usize>, bool, u16))
    requires
        last_server matches Some(l) ==> l < servers@.len(),
        servers@.len() > 0,
        frec_times_ok(old(table).frecs@),
        now.wf(),
        now.secs <= i64::MAX as u64,
        old(table).warn_time.wf(),
        old(table).warn_time.secs <= i64::MAX as u64,
        gets_record(old(table).frecs@, old(table).warn_time, servers@, options, gotname, name@, now)
            ==> has_free_id(old(table).ids@),
    ensures
        ({
            let o = new_query_outcome(
                old(table).frecs@,
                old(table).ids@,
                old(table).warn_time,
                servers@,
                opt_index(last_server),
                options,
                gotname,
                name@,
                udpaddr,
                fd,
                now,
                r.3,
                header_id,
            );
            &&& result_is(r.0, r.1, o)
            &&& final(table).frecs@ == o.frecs
            &&& final(table).ids@ == o.ids
            &&& final(table).warn_time == o.warn
            &&& r.2 == o.table_full
            &&& o.header_id == r.3
            &&& (gets_record(old(table).frecs@, old(table).warn_time, servers@, options, gotname, name@, now)
                ==> r.3 != 0 && !old(table).ids@.contains(r.3))
        }),
{
    let (typ, flags, addrp, domain) = if gotname != 0 {
        match_servers_exec(servers, name, gotname)
    } else {
        proof {
            reveal_strlit("");
        }
        (0u32, 0u16, None, String::new())
    };
    let nchars: Vec<char> = str_chars(name.as_str());
    let mut has_dot: bool = false;
    let mut j: usize = 0;
    while j < nchars.len()
        invariant
            j <= nchars@.len(),
            has_dot == exists|k: int| 0 <= k < j && nchars@[k] == '.',
        decreases nchars@.len() - j,
    {
        if nchars[j] == '.' {
            has_dot = true;
        }
        j += 1;
    }
    assert(has_dot == name@.contains('.'));
    if flags != 0 && addrp.is_some() {
        return (ForwardAction::Answer(flags, addrp), last_server, false, header_id);
    }
    if gotname != 0 && options & OPT_NODOTS_LOCAL != 0 && !has_dot {
        return (ForwardAction::Answer(F_NXDOMAIN, addrp), last_server, false, header_id);
    }
    let (choice, full) = get_new_frec(table, now);
    match choice {
        None => (ForwardAction::Answer(F_NEG, addrp), last_server, full, header_id),
        Some(fi) => {
            let id: u16 = get_id(table);
            let sent_to: Option<usize> = if typ != 0 || options & OPT_ORDER != 0 {
                Some(0)
            } else {
                last_server
            };
            let mut f: Frec = table.frecs[fi];
            f.sent_to = sent_to;
            f.source = udpaddr;
            f.new_id = id;
            f.fd = fd;
            f.orig_id = header_id;
            table.frecs.set(fi, f);
            table.ids.push(id);
            let (action, last) = forward_scan_exec(table, fi, servers, last_server, typ, &domain, addrp);
            (action, last, full, id)
        },
    }
}

/// Decides what to do with a query from a client, and keeps the table of
/// forwarded queries: a query without recursion, or with no server, is
/// refused; a repeated query goes on to the next server; a query that a
/// server's literal address answers, or a plain name when plain names are
/// local, is answered at once; any other gets a record and a new id
/// (unless the table is full) and goes to the servers in turn.  When it
/// is sent, the header of `packet` is rewritten with `query_id`.  See
/// `spec_forward_query` for every case.
pub fn forward_query(
    table: &mut FrecTable,
    servers: &[Server],
    last_server: Option<usize>,
    options: u32,
    packet: &mut [u8],
    udpaddr: MySockAddr,
    fd: i32,
    now: Time,
) -> (r: ForwardResult)
    requires
        request_readable(old(packet)@),
        last_server matches Some(l) ==> l < servers@.len(),
        frecs_fit(old(table).frecs@, servers@.len() as int),
        frec_times_ok(old(table).frecs@),
        now.wf(),
        now.secs <= i64::MAX as u64,
        old(table).warn_time.wf(),
        old(table).warn_time.secs <= i64::MAX as u64,
        draws_id(old(table).frecs@, old(table).warn_time, servers@, options, old(packet)@, udpaddr, now)
            ==> has_free_id(old(table).ids@),
    ensures
        ({
            let o = spec_forward_query(
                old(table).frecs@,
                old(table).ids@,
                old(table).warn_time,
                servers@,
                opt_index(last_server),
                options,
                old(packet)@,
                udpaddr,
                fd,
                now,
                r.query_id,
            );
            &&& result_is(r.action, r.last_server, o)
            &&& final(table).frecs@ == o.frecs
            &&& final(table).ids@ == o.ids
            &&& final(table).warn_time == o.warn
            &&& r.table_full == o.table_full
            &&& r.query_id == o.header_id
            &&& (draws_id(old(table).frecs@, old(table).warn_time, servers@, options, old(packet)@, udpaddr, now)
                ==> r.query_id != 0 && !old(table).ids@.contains(r.query_id))
            &&& (r.action matches ForwardAction::Send(_) ==> final(packet)@ == spec_header_bytes(
                Header { id: r.query_id, ..spec_header_of(old(packet)@) },
            ) + old(packet)@.subrange(12, old(packet)@.len() as int))
            &&& (r.action matches ForwardAction::Answer(_, _) ==> final(packet)@ == old(packet)@)
        }),
{
    let (gotname, name) = extract_request(packet);
    let header: Header = header_of(packet);
    let ghost frecs0 = table.frecs@;
    let found: Option<usize> = lookup_frec_by_sender(table, header.id, udpaddr);
    proof {
        lemma_frec_of_sender(frecs0, header.id, udpaddr, 0);
    }
    let (action, last, table_full, query_id): (ForwardAction, Option<usize>, bool, u16) = if !header.rd
        || servers.len() == 0 {
        (ForwardAction::Answer(0, None), last_server, false, header.id)
    } else if let Some(fi) = found {
        let (a, l) = forward_retry(table, servers, last_server, fi, header.id);
        (a, l, false, header.id)
    } else {
        forward_new(table, servers, last_server, options, gotname, &name, udpaddr, fd, now, header.id)
    };
    match action {
        ForwardAction::Send(_) => {
            let mut h: Header = header;
            h.id = query_id;
            let hb: Vec<u8> = h.to_bytes();
            let mut k: usize = 0;
            while k < 12
                invariant
                    hb@.len() == 12,
                    packet@.len() == old(packet)@.len(),
                    packet@.len() >= 12,
                    k <= 12,
                    forall|m: int| 0 <= m < k ==> packet@[m] == hb@[m],
                    forall|m: int| 12 <= m < packet@.len() ==> packet@[m] == old(packet)@[m],
                decreases 12 - k,
            {
                packet[k] = hb[k];
                k += 1;
            }
            assert(packet@ =~= hb@ + old(packet)@.subrange(12, old(packet)@.len() as int));
        },
        ForwardAction::Answer(_, _) => {},
    }
    ForwardResult { action, last_server: last, table_full, query_id }
}

// ---------------------------------------------------------------------
// Replies from upstream
// ---------------------------------------------------------------------

/// What a reply teaches the cache: its answers when it has some and says
/// NOERROR, otherwise the negative records it implies, unless those are
/// turned off.
#[verifier::opaque]
pub open spec fn learn_outcome(c: CacheView, packet: Seq<u8>, opts: u32, now: Time) -> LearnOutcome {
    let h = spec_header_of(packet);
    if h.rcode == NOERROR && h.ancount != 0 {
        addr_outcome(c, packet, now)
    } else if opts & OPT_NO_NEG == 0 {
        neg_outcome(c, packet, now)
    } else {
        LearnOutcome::Done(c)
    }
}

/// How handling a reply from upstream ends.
pub enum ReplyOutcome {
    Panic,
    /// The server to use first from now on, the query record whose client
    /// gets the reply (if any), the reply as it is to be sent, and the
    /// cache afterwards.
    Done(Option<usize>, Option<usize>, Seq<u8>, CacheView),
}

/// Handling a reply from upstream: only a response to a query still
/// waiting, with NOERROR or NXDOMAIN, is used.  A server without a
/// domain that answered becomes the one to use first; for a standard
/// query the reply is checked for bogus addresses (when some are set and
/// it says NOERROR) and, unless it was bogus, learnt from; the reply then
/// goes back to the client under the client's id, not truncated.
pub open spec fn reply_outcome(
    c: CacheView,
    frecs: Seq<Frec>,
    servers: Seq<Server>,
    bogus: Seq<BogusAddr>,
    opts: u32,
    packet: Seq<u8>,
    now: Time,
    last: Option<usize>,
) -> ReplyOutcome {
    if packet.len() < 12 {
        ReplyOutcome::Panic
    } else {
        let h = spec_header_of(packet);
        if !h.qr {
            ReplyOutcome::Done(last, None, packet, c)
        } else {
            match frec_with_id(frecs, h.id, 0) {
                None => ReplyOutcome::Done(last, None, packet, c),
                Some(i) => if !(h.rcode == NOERROR || h.rcode == NXDOMAIN) {
                    ReplyOutcome::Done(last, None, packet, c)
                } else {
                    let f = frecs[i];
                    let last2 = match f.sent_to {
                        Some(s) => if servers[s as int].domain@.len() == 0 {
                            Some(s)
                        } else {
                            last
                        },
                        None => last,
                    };
                    let learnt: Option<(Seq<u8>, CacheView)> = if h.opcode == QUERY {
                        if bogus.len() > 0 && h.rcode == NOERROR {
                            match bogus_outcome(c, packet, bogus, now) {
                                BogusOutcome::Panic => None,
                                BogusOutcome::Done(r, p1, c1) => if r != 0 {
                                    Some((p1, c1))
                                } else {
                                    match learn_outcome(c1, p1, opts, now) {
                                        LearnOutcome::Panic => None,
                                        LearnOutcome::Done(c2) => Some((p1, c2)),
                                    }
                                },
                            }
                        } else {
                            match learn_outcome(c, packet, opts, now) {
                                LearnOutcome::Panic => None,
                                LearnOutcome::Done(c2) => Some((packet, c2)),
                            }
                        }
                    } else {
                        Some((packet, c))
                    };
                    match learnt {
                        None => ReplyOutcome::Panic,
                        Some((p1, c1)) => {
                            let h3 = Header { id: f.orig_id, tc: false, ..spec_header_of(p1) };
                            ReplyOutcome::Done(
                                last2,
                                Some(i as usize),
                                spec_header_bytes(h3) + p1.subrange(12, p1.len() as int),
                                c1,
                            )
                        },
                    }
                },
            }
        }
    }
}

/// What to do with a reply from upstream.
pub struct ReplyResult {
    /// The server to use first from now on.
    pub last_server: Option<usize>,
    /// The query record whose client gets the reply.
    pub answer: Option<usize>,
}

/// Learns from a reply (see `learn_outcome`).
fn learn_reply(caches: &mut Cache, packet: &[u8], options: u32, now: Time)
    requires
        old(caches).wf(),
        !(learn_outcome(old(caches)@, packet@, options, now) is Panic),
        now.wf(),
        now.secs <= (i64::MAX - u32::MAX) as u64,
        room_for(*old(caches), 4294967296),
        packet@.len() >= 12,
    ensures
        final(caches).wf(),
        learn_outcome(old(caches)@, packet@, options, now) == LearnOutcome::Done(final(caches)@),
{
    reveal(learn_outcome);
    let h: Header = header_of(packet);
    if h.rcode == NOERROR && h.ancount != 0 {
        extract_addresses(caches, packet, now);
    } else if options & OPT_NO_NEG == 0 {
        extract_neg_addrs(caches, packet, now);
    }
}

/// Handles a reply from upstream held in `packet` (see `reply_outcome`);
/// the caller sends the reply to the client of the record named in the
/// result.
#[verifier::rlimit(50)]
#[verifier::spinoff_prover]
pub fn reply_query(
    caches: &mut Cache,
    table: &FrecTable,
    servers: &[Server],
    bogus: &[BogusAddr],
    options: u32,
    packet: &mut [u8],
    now: Time,
    last_server: Option<usize>,
) -> (r: ReplyResult)
    requires
        old(caches).wf(),
        now.wf(),
        now.secs <= (i64::MAX - u32::MAX) as u64,
        room_for(*old(caches), 4294967296),
        forall|i: int| 0 <= i < table.frecs@.len() ==> ((#[trigger] table.frecs@[i]).sent_to matches Some(s) ==> s < servers@.len()),
        !(reply_outcome(old(caches)@, table.frecs@, servers@, bogus@, options, old(packet)@, now, last_server) is Panic),
    ensures
        final(caches).wf(),
        reply_outcome(old(caches)@, table.frecs@, servers@, bogus@, options, old(packet)@, now, last_server)
            == ReplyOutcome::Done(r.last_server, r.answer, final(packet)@, final(caches)@),
{
    let header: Header = header_of(packet);
    if !header.qr {
        return ReplyResult { last_server, answer: None };
    }
    let i: usize = match lookup_frec(table, header.id) {
        None => {
            return ReplyResult { last_server, answer: None };
        },
        Some(i) => i,
    };
    if !(header.rcode == NOERROR || header.rcode == NXDOMAIN) {
        return ReplyResult { last_server, answer: None };
    }
    let f: Frec = table.frecs[i];
    let mut last: Option<usize> = last_server;
    match f.sent_to {
        Some(s) => {
            if servers[s].domain.as_str().is_empty() {
                last = Some(s);
            }
        },
        None => {},
    }
    if header.opcode == QUERY {
        if bogus.len() > 0 && header.rcode == NOERROR {
            let hit: u32 = check_for_bogus_wildcard(caches, packet, bogus, now);
            if hit == 0 {
                learn_reply(caches, packet, options, now);
            }
        } else {
            learn_reply(caches, packet, options, now);
        }
    }
    let mut h: Header = header_of(packet);
    h.id = f.orig_id;
    h.tc = false;
    put_header(packet, h);
    ReplyResult { last_server: last, answer: Some(i) }
}

/// Writes header `h` over the first twelve bytes of `packet`.
fn put_header(packet: &mut [u8], h: Header)
    requires
        old(packet)@.len() >= 12,
    ensures
        final(packet)@ == spec_header_bytes(h) + old(packet)@.subrange(12, old(packet)@.len() as int),
{
    let ghost p1 = packet@;
    let hb: Vec<u8> = h.to_bytes();
    let mut k: usize = 0;
    while k < 12
        invariant
            hb@ == spec_header_bytes(h),
            hb@.len() == 12,
            packet@.len() == p1.len(),
            p1 == old(packet)@,
            packet@.len() >= 12,
            k <= 12,
            forall|m: int| 0 <= m < k ==> packet@[m] == hb@[m],
            forall|m: int| 12 <= m < packet@.len() ==> packet@[m] == p1[m],
        decreases 12 - k,
    {
        packet[k] = hb[k];
        k += 1;
    }
    assert(packet@ =~= hb@ + p1.subrange(12, p1.len() as int));
}


/// The record found for an id carries that id.
proof fn lemma_frec_with_id(frecs: Seq<Frec>, id: u16, k: int)
    requires
        frec_with_id(frecs, id, k) is Some,
    ensures
        k <= frec_with_id(frecs, id, k)->0 < frecs.len(),
        frecs[frec_with_id(frecs, id, k)->0].new_id == id,
    decreases frecs.len() - k,
{
    if k >= 0 && k < frecs.len() && frecs[k].new_id != id {
        lemma_frec_with_id(frecs, id, k + 1);
    }
}

/// A reply from upstream reaches a client only when it answers that
/// client's query (its id is the one the query was forwarded under), and
/// it goes back under the id the client used.
pub proof fn law_reply_under_client_id(
    c: CacheView,
    frecs: Seq<Frec>,
    servers: Seq<Server>,
    bogus: Seq<BogusAddr>,
    opts: u32,
    packet: Seq<u8>,
    now: Time,
    last: Option<usize>,
    i: usize,
)
    requires
        frecs.len() <= usize::MAX,
        reply_outcome(c, frecs, servers, bogus, opts, packet, now, last) matches ReplyOutcome::Done(_, Some(j), _, _) && j == i,
    ensures
        i < frecs.len(),
        frecs[i as int].new_id == spec_header_of(packet).id,
        ({
            let out = reply_outcome(c, frecs, servers, bogus, opts, packet, now, last)->Done_2;
            out.len() >= 12 && spec_header_of(out).id == frecs[i as int].orig_id
        }),
{
    let h = spec_header_of(packet);
    assert(frec_with_id(frecs, h.id, 0) is Some);
    lemma_frec_with_id(frecs, h.id, 0);
    assert forall|hh: Header, rest: Seq<u8>|
        (#[trigger] (spec_header_bytes(hh) + rest)).len() >= 12 && spec_header_of(spec_header_bytes(hh) + rest).id == hh.id by {
        lemma_id_of_bytes(hh, rest);
    }
}

/// The id read back from a header followed by anything is the header's.
proof fn lemma_id_of_bytes(h: Header, rest: Seq<u8>)
    ensures
        (spec_header_bytes(h) + rest).len() >= 12,
        spec_header_of(spec_header_bytes(h) + rest).id == h.id,
{
    crate::util::lemma_short_roundtrip(h.id);
    let b = spec_header_bytes(h) + rest;
    assert(b[0] == spec_header_bytes(h)[0]);
    assert(b[1] == spec_header_bytes(h)[1]);
}


/// Every record that waits for a reply has its id among those in use.
pub open spec fn ids_cover(frecs: Seq<Frec>, ids: Seq<u16>) -> bool {
    forall|j: int| 0 <= j < frecs.len() && (#[trigger] frecs[j]).new_id != 0 ==> ids.contains(frecs[j].new_id)
}

/// The first record with id `x` is the one at `fi` when no record before
/// it has that id.
proof fn lemma_frec_with_id_at(frecs: Seq<Frec>, x: u16, k: int, fi: int)
    requires
        0 <= k <= fi < frecs.len(),
        frecs[fi].new_id == x,
        forall|j: int| 0 <= j < fi ==> (#[trigger] frecs[j]).new_id != x,
    ensures
        frec_with_id(frecs, x, k) == Some(fi),
    decreases fi - k,
{
    if k < fi {
        lemma_frec_with_id_at(frecs, x, k + 1, fi);
    }
}

/// A query forwarded upstream under a fresh id comes back to its client:
/// the upstream reply that carries that id (a response saying NOERROR or
/// NXDOMAIN) is handed to the record of that query, whose client is the
/// one that asked, and it goes out under the id the client used.
pub proof fn law_forwarded_reply_returns_to_client(
    frecs: Seq<Frec>,
    ids: Seq<u16>,
    warn: Time,
    servers: Seq<Server>,
    last_server: Option<int>,
    options: u32,
    query: Seq<u8>,
    udpaddr: MySockAddr,
    fd: i32,
    now: Time,
    new_id: u16,
    c: CacheView,
    bogus: Seq<BogusAddr>,
    options2: u32,
    reply: Seq<u8>,
    now2: Time,
    last2: Option<usize>,
)
    requires
        frecs.len() < usize::MAX,
        ids_cover(frecs, ids),
        new_id != 0,
        !ids.contains(new_id),
        draws_id(frecs, warn, servers, options, query, udpaddr, now),
        spec_forward_query(frecs, ids, warn, servers, last_server, options, query, udpaddr, fd, now, new_id).action is Send,
        reply.len() >= 12,
        spec_header_of(reply).qr,
        spec_header_of(reply).id == new_id,
        spec_header_of(reply).rcode == NOERROR || spec_header_of(reply).rcode == NXDOMAIN,
        !(reply_outcome(
            c,
            spec_forward_query(frecs, ids, warn, servers, last_server, options, query, udpaddr, fd, now, new_id).frecs,
            servers,
            bogus,
            options2,
            reply,
            now2,
            last2,
        ) is Panic),
    ensures
        ({
            let o = spec_forward_query(frecs, ids, warn, servers, last_server, options, query, udpaddr, fd, now, new_id);
            reply_outcome(c, o.frecs, servers, bogus, options2, reply, now2, last2) matches ReplyOutcome::Done(_, Some(i), out, _)
                && i < o.frecs.len() && o.frecs[i as int].source == udpaddr && out.len() >= 12
                && spec_header_of(out).id == spec_header_of(query).id
        }),
{
    let o = spec_forward_query(frecs, ids, warn, servers, last_server, options, query, udpaddr, fd, now, new_id);
    let header = spec_header_of(query);
    let (free, oldtime, oldest) = oldest_from(frecs, 0, now, None);
    lemma_oldest_from(frecs, 0, now, None);
    let (choice, frecs1, warn1, full) = spec_new_frec(frecs, warn, now);
    let fi = choice->0;
    assert(0 <= fi < frecs1.len());
    assert(frecs1.len() <= frecs.len() + 1);
    assert forall|j: int| 0 <= j < frecs1.len() && j != fi implies (#[trigger] frecs1[j]) == frecs[j] by {}
    assert forall|j: int| 0 <= j < o.frecs.len() && j != fi implies (#[trigger] o.frecs[j]).new_id != new_id by {
        assert(o.frecs[j] == frecs1[j]);
        if frecs[j].new_id == new_id {
            assert(ids.contains(frecs[j].new_id));
        }
    }
    assert(o.frecs[fi].new_id == new_id);
    assert(o.frecs[fi].source == udpaddr);
    assert(o.frecs[fi].orig_id == header.id);
    lemma_frec_with_id_at(o.frecs, new_id, 0, fi);
    assert forall|hh: Header, rest: Seq<u8>|
        (#[trigger] (spec_header_bytes(hh) + rest)).len() >= 12 && spec_header_of(spec_header_bytes(hh) + rest).id == hh.id by {
        lemma_id_of_bytes(hh, rest);
    }
}

} // verus!
