//! The cache of DNS answers: records kept in hash buckets by name, with the
//! records learnt from upstream also on a list of recent use, from which
//! the least recently used is dropped when the cache is full.

use crate::dnsmasq::{
    AllAddr, Crec, F_CONFIG, F_DHCP, F_FORWARD, F_HOSTS, F_IMMORTAL, F_IPV4, F_IPV6, F_NEG, F_REVERSE,
    OPT_EXPAND, OPT_NO_HOSTS,
};
use crate::util::{
    canonicalise, difftime, hostname_isequal, spec_canonical, spec_difftime, spec_hostname_isequal, str_chars, str_eq,
    string_from_chars, Time,
};
use vstd::prelude::*;
use vstd::string::StringSliceAdditionalSpecFns;
use vstd::utf8::encode_utf8;

verus! {

/// What a cache record holds, as plain values.
pub struct CrecView {
    pub ttd: Time,
    pub addr: Option<AllAddr>,
    pub flags: u16,
    pub name: Seq<char>,
}

impl View for Crec {
    type V = CrecView;

    open spec fn view(&self) -> CrecView {
        CrecView { ttd: self.ttd, addr: self.addr, flags: self.flags, name: self.name@ }
    }
}

impl CacheRec {
    /// A copy of the record.
    pub fn copy(&self) -> (c: CacheRec)
        ensures
            c@ == self@,
    {
        CacheRec { uid: self.uid, crec: self.crec.copy(), prev: self.prev, next: self.next }
    }
}

impl Crec {
    /// A copy of the record.
    pub fn copy(&self) -> (c: Crec)
        ensures
            c@ == self@,
    {
        Crec { ttd: self.ttd, addr: self.addr, flags: self.flags, name: self.name.clone() }
    }
}

/// A record in the hash table, with its neighbours on the list of recent
/// use (none when it is not on the list).
#[derive(Debug)]
pub struct CacheRec {
    /// Tells records apart.
    pub uid: u64,
    pub crec: Crec,
    pub prev: Option<u64>,
    pub next: Option<u64>,
}

/// A cache record as plain values.
pub struct RecView {
    pub uid: u64,
    pub crec: CrecView,
    pub prev: Option<u64>,
    pub next: Option<u64>,
}

impl View for CacheRec {
    type V = RecView;

    open spec fn view(&self) -> RecView {
        RecView { uid: self.uid, crec: self.crec@, prev: self.prev, next: self.next }
    }
}

/// The plain values of the records.
pub open spec fn recs_view(s: Seq<CacheRec>) -> Seq<RecView> {
    s.map_values(|r: CacheRec| r@)
}

/// The plain values of a record that may be absent.
pub open spec fn opt_rec_view(r: Option<CacheRec>) -> Option<RecView> {
    match r {
        Some(x) => Some(x@),
        None => None,
    }
}

/// The plain values of a list of records.
pub open spec fn crecs_view(s: Seq<Crec>) -> Seq<CrecView> {
    s.map_values(|c: Crec| c@)
}

/// The round-robin position kept for a name that several records answer.
#[derive(Debug)]
pub struct RoundRobin {
    pub name: String,
    pub index: usize,
}

/// The DNS cache.
#[derive(Debug)]
pub struct Cache {
    /// How many records learnt from upstream the cache may hold.
    pub cache_size: usize,
    /// How many records the hash table holds.
    pub length: usize,
    /// The most recently used record.
    pub head: Option<u64>,
    /// The least recently used record.
    pub tail: Option<u64>,
    /// The records made from DHCP leases.
    pub dhcp_inuse: Vec<Crec>,
    /// The records of the answer being inserted.
    pub new_chain: Vec<Crec>,
    pub log_queries: u32,
    pub cache_inserted: usize,
    pub cache_live_freed: usize,
    /// The hash table: its records in the order they were added, each
    /// bucket holding those whose name hashes to it.
    pub records: Vec<CacheRec>,
    pub hash_size: usize,
    pub round_robin: Vec<RoundRobin>,
    /// The records found by the last search by name, as they were then,
    /// and how far they have been handed out.
    pub match_name: Vec<CacheRec>,
    pub match_name_index: usize,
    /// The same for the last search by address.
    pub match_addr: Vec<CacheRec>,
    pub match_addr_index: usize,
    /// Whether an insertion failed since the last start of one.
    pub insert_error: bool,
    /// The next record identifier.
    pub next_uid: u64,
}

/// The whole cache as plain values.  (Its `length` is the number of
/// records in the table: see `Cache::wf`.)
pub struct CacheView {
    pub cache_size: usize,
    pub links: Links,
    pub dhcp_inuse: Seq<CrecView>,
    pub new_chain: Seq<CrecView>,
    pub log_queries: u32,
    pub cache_inserted: usize,
    pub cache_live_freed: usize,
    pub hash_size: usize,
    pub name_matches: Seq<RecView>,
    pub name_index: usize,
    pub addr_matches: Seq<RecView>,
    pub addr_index: usize,
    pub rr: Map<Seq<char>, usize>,
    pub insert_error: bool,
    pub next_uid: u64,
}

impl View for Cache {
    type V = CacheView;

    open spec fn view(&self) -> CacheView {
        CacheView {
            cache_size: self.cache_size,
            links: self.links(),
            dhcp_inuse: crecs_view(self.dhcp_inuse@),
            new_chain: crecs_view(self.new_chain@),
            log_queries: self.log_queries,
            cache_inserted: self.cache_inserted,
            cache_live_freed: self.cache_live_freed,
            hash_size: self.hash_size,
            name_matches: recs_view(self.match_name@),
            name_index: self.match_name_index,
            addr_matches: recs_view(self.match_addr@),
            addr_index: self.match_addr_index,
            rr: rr_view(self.round_robin@),
            insert_error: self.insert_error,
            next_uid: self.next_uid,
        }
    }
}

/// Whether a record with identifier `uid` is in the table.
pub open spec fn present(recs: Seq<RecView>, uid: u64) -> bool {
    exists|i: int| 0 <= i < recs.len() && recs[i].uid == uid
}

/// The position of the record `uid` (of the first, should there be two).
pub open spec fn pos_of(recs: Seq<RecView>, uid: u64) -> int
    decreases recs.len(),
{
    if recs.len() == 0 {
        0
    } else if recs[0].uid == uid {
        0
    } else {
        1 + pos_of(recs.drop_first(), uid)
    }
}

proof fn lemma_pos_of(recs: Seq<RecView>, uid: u64)
    ensures
        0 <= pos_of(recs, uid) <= recs.len(),
        pos_of(recs, uid) < recs.len() <==> present(recs, uid),
        pos_of(recs, uid) < recs.len() ==> recs[pos_of(recs, uid)].uid == uid,
        forall|k: int| 0 <= k < pos_of(recs, uid) ==> recs[k].uid != uid,
    decreases recs.len(),
{
    if recs.len() > 0 && recs[0].uid != uid {
        lemma_pos_of(recs.drop_first(), uid);
        assert forall|k: int| 0 <= k < pos_of(recs, uid) implies recs[k].uid != uid by {
            if k > 0 {
                assert(recs[k] == recs.drop_first()[k - 1]);
            }
        }
        if present(recs.drop_first(), uid) {
            let j = choose|j: int| 0 <= j < recs.drop_first().len() && recs.drop_first()[j].uid == uid;
            assert(recs[j + 1].uid == uid);
        }
        if present(recs, uid) {
            let j = choose|j: int| 0 <= j < recs.len() && recs[j].uid == uid;
            assert(j > 0);
            assert(recs.drop_first()[j - 1].uid == uid);
        }
    }
}

/// The uid, when a record with it is in the table.
pub open spec fn alive(recs: Seq<RecView>, uid: Option<u64>) -> Option<u64> {
    match uid {
        Some(u) => if present(recs, u) {
            Some(u)
        } else {
            None
        },
        None => None,
    }
}

/// The records with the neighbours of record `uid` set.
pub open spec fn set_links(recs: Seq<RecView>, uid: u64, prev: Option<u64>, next: Option<u64>) -> Seq<RecView> {
    if present(recs, uid) {
        let i = pos_of(recs, uid);
        recs.update(i, RecView { prev, next, ..recs[i] })
    } else {
        recs
    }
}

/// The records with the previous neighbour of record `uid` set.
pub open spec fn set_prev(recs: Seq<RecView>, uid: u64, prev: Option<u64>) -> Seq<RecView> {
    if present(recs, uid) {
        let i = pos_of(recs, uid);
        recs.update(i, RecView { prev, ..recs[i] })
    } else {
        recs
    }
}

/// The records with the next neighbour of record `uid` set.
pub open spec fn set_next(recs: Seq<RecView>, uid: u64, next: Option<u64>) -> Seq<RecView> {
    if present(recs, uid) {
        let i = pos_of(recs, uid);
        recs.update(i, RecView { next, ..recs[i] })
    } else {
        recs
    }
}

/// The table and the two ends of the list of recent use.
pub struct Links {
    pub recs: Seq<RecView>,
    pub head: Option<u64>,
    pub tail: Option<u64>,
}

/// Putting record `uid` at the head of the list.
pub open spec fn spec_link(l: Links, uid: u64) -> Links {
    let r1 = match alive(l.recs, l.head) {
        Some(h) => set_prev(l.recs, h, Some(uid)),
        None => l.recs,
    };
    let r2 = set_links(r1, uid, None, l.head);
    Links { recs: r2, head: Some(uid), tail: if l.tail is None { Some(uid) } else { l.tail } }
}

/// Taking record `uid` off the list: its neighbours are joined, the ends
/// moved when it was one.
pub open spec fn spec_unlink(l: Links, uid: u64) -> Links {
    let i = pos_of(l.recs, uid);
    let prev = alive(l.recs, l.recs[i].prev);
    let next = alive(l.recs, l.recs[i].next);
    let (r1, head) = match prev {
        Some(p) => (set_next(l.recs, p, next), l.head),
        None => (l.recs, next),
    };
    let (r2, tail) = match next {
        Some(n) => (set_prev(r1, n, prev), l.tail),
        None => (r1, prev),
    };
    Links { recs: set_links(r2, uid, None, None), head, tail }
}

/// Setting neighbours keeps every record's identifier and content.
pub open spec fn same_content(a: Seq<RecView>, b: Seq<RecView>) -> bool {
    a.len() == b.len() && forall|k: int| 0 <= k < a.len() ==> (#[trigger] a[k]).uid == b[k].uid && a[k].crec == b[k].crec
}

proof fn lemma_set_content(recs: Seq<RecView>, uid: u64, p: Option<u64>, n: Option<u64>)
    ensures
        same_content(set_links(recs, uid, p, n), recs),
        same_content(set_prev(recs, uid, p), recs),
        same_content(set_next(recs, uid, n), recs),
{
    lemma_pos_of(recs, uid);
}

proof fn lemma_same_content_trans(a: Seq<RecView>, b: Seq<RecView>, c: Seq<RecView>)
    requires
        same_content(a, b),
        same_content(b, c),
    ensures
        same_content(a, c),
{
    assert forall|k: int| 0 <= k < a.len() implies (#[trigger] a[k]).uid == c[k].uid && a[k].crec == c[k].crec by {
        assert(a[k].uid == b[k].uid);
        assert(b[k].uid == c[k].uid);
    }
}

proof fn lemma_unlink_content(l: Links, uid: u64)
    ensures
        same_content(spec_unlink(l, uid).recs, l.recs),
        same_content(spec_link(l, uid).recs, l.recs),
{
    let i = pos_of(l.recs, uid);
    let prev = alive(l.recs, l.recs[i].prev);
    let next = alive(l.recs, l.recs[i].next);
    let r1 = match prev {
        Some(p) => set_next(l.recs, p, next),
        None => l.recs,
    };
    match prev {
        Some(p) => lemma_set_content(l.recs, p, None, next),
        None => {},
    }
    let r2 = match next {
        Some(n) => set_prev(r1, n, prev),
        None => r1,
    };
    match next {
        Some(n) => lemma_set_content(r1, n, prev, None),
        None => {},
    }
    lemma_set_content(r2, uid, None, None);
    lemma_same_content_trans(r2, r1, l.recs);
    lemma_same_content_trans(set_links(r2, uid, None, None), r2, l.recs);
    let q1 = match alive(l.recs, l.head) {
        Some(h) => set_prev(l.recs, h, Some(uid)),
        None => l.recs,
    };
    match alive(l.recs, l.head) {
        Some(h) => lemma_set_content(l.recs, h, Some(uid), None),
        None => {},
    }
    lemma_set_content(q1, uid, None, l.head);
    lemma_same_content_trans(set_links(q1, uid, None, l.head), q1, l.recs);
}

/// The records less the record `uid`.
pub open spec fn without_uid(recs: Seq<RecView>, uid: u64) -> Seq<RecView> {
    if present(recs, uid) {
        recs.remove(pos_of(recs, uid))
    } else {
        recs
    }
}

/// Removing record `uid`: off the list, then out of the table.
pub open spec fn spec_remove(l: Links, uid: u64) -> Links {
    let u = spec_unlink(l, uid);
    Links { recs: without_uid(u.recs, uid), ..u }
}

/// The record `uid` of the table.
pub open spec fn rec_of(recs: Seq<RecView>, uid: u64) -> RecView {
    recs[pos_of(recs, uid)]
}

/// The list of recent use runs through the records `order`, from the head
/// to the tail: each is in the table once, and each names the one before
/// it as its previous neighbour and the one after it as its next.
pub open spec fn list_shape(l: Links, order: Seq<u64>) -> bool {
    &&& order.no_duplicates()
    &&& forall|k: int| 0 <= k < order.len() ==> present(l.recs, #[trigger] order[k])
    &&& l.head == (if order.len() == 0 { None } else { Some(order[0]) })
    &&& l.tail == (if order.len() == 0 { None } else { Some(order[order.len() - 1]) })
    &&& forall|k: int|
        0 <= k < order.len() ==> (#[trigger] rec_of(l.recs, order[k])).prev == (if k == 0 {
            None
        } else {
            Some(order[k - 1])
        })
    &&& forall|k: int|
        0 <= k < order.len() ==> (#[trigger] rec_of(l.recs, order[k])).next == (if k + 1 == order.len() {
            None
        } else {
            Some(order[k + 1])
        })
}

proof fn lemma_pos_at(recs: Seq<RecView>, uid: u64, j: int)
    requires
        uids_distinct(recs),
        0 <= j < recs.len(),
        recs[j].uid == uid,
    ensures
        pos_of(recs, uid) == j,
{
    lemma_pos_of(recs, uid);
    assert(present(recs, uid));
}

/// Changing the record `a` in place (same identifier) changes what is read
/// of `a` alone.
proof fn lemma_update_at(recs: Seq<RecView>, a: u64, r: RecView, b: u64)
    requires
        uids_distinct(recs),
        present(recs, a),
        present(recs, b),
        r.uid == a,
    ensures
        uids_distinct(recs.update(pos_of(recs, a), r)),
        present(recs.update(pos_of(recs, a), r), b),
        rec_of(recs.update(pos_of(recs, a), r), b) == (if a == b {
            r
        } else {
            rec_of(recs, b)
        }),
{
    lemma_pos_of(recs, a);
    lemma_pos_of(recs, b);
    let ia = pos_of(recs, a);
    let jb = pos_of(recs, b);
    let r2 = recs.update(ia, r);
    assert forall|x: int, y: int| 0 <= x < y < r2.len() implies r2[x].uid != r2[y].uid by {
        assert(r2[x].uid == recs[x].uid);
        assert(r2[y].uid == recs[y].uid);
    }
    assert(r2[jb].uid == b);
    lemma_pos_at(r2, b, jb);
}

proof fn lemma_set_next_at(recs: Seq<RecView>, a: u64, n: Option<u64>, b: u64)
    requires
        uids_distinct(recs),
        present(recs, a),
        present(recs, b),
    ensures
        uids_distinct(set_next(recs, a, n)),
        present(set_next(recs, a, n), b),
        rec_of(set_next(recs, a, n), b) == (if a == b {
            RecView { next: n, ..rec_of(recs, a) }
        } else {
            rec_of(recs, b)
        }),
{
    lemma_pos_of(recs, a);
    lemma_update_at(recs, a, RecView { next: n, ..rec_of(recs, a) }, b);
}

proof fn lemma_set_prev_at(recs: Seq<RecView>, a: u64, p: Option<u64>, b: u64)
    requires
        uids_distinct(recs),
        present(recs, a),
        present(recs, b),
    ensures
        uids_distinct(set_prev(recs, a, p)),
        present(set_prev(recs, a, p), b),
        rec_of(set_prev(recs, a, p), b) == (if a == b {
            RecView { prev: p, ..rec_of(recs, a) }
        } else {
            rec_of(recs, b)
        }),
{
    lemma_pos_of(recs, a);
    lemma_update_at(recs, a, RecView { prev: p, ..rec_of(recs, a) }, b);
}

proof fn lemma_set_links_at(recs: Seq<RecView>, a: u64, p: Option<u64>, n: Option<u64>, b: u64)
    requires
        uids_distinct(recs),
        present(recs, a),
        present(recs, b),
    ensures
        uids_distinct(set_links(recs, a, p, n)),
        present(set_links(recs, a, p, n), b),
        a != b ==> rec_of(set_links(recs, a, p, n), b) == rec_of(recs, b),
{
    lemma_pos_of(recs, a);
    lemma_update_at(recs, a, RecView { prev: p, next: n, ..rec_of(recs, a) }, b);
}

/// Taking record `u` out of the table leaves what is read of the others.
proof fn lemma_without_at(recs: Seq<RecView>, u: u64, b: u64)
    requires
        uids_distinct(recs),
        present(recs, u),
        present(recs, b),
        b != u,
    ensures
        uids_distinct(without_uid(recs, u)),
        present(without_uid(recs, u), b),
        rec_of(without_uid(recs, u), b) == rec_of(recs, b),
{
    lemma_pos_of(recs, u);
    lemma_pos_of(recs, b);
    let iu = pos_of(recs, u);
    let jb = pos_of(recs, b);
    let r2 = recs.remove(iu);
    assert forall|x: int, y: int| 0 <= x < y < r2.len() implies r2[x].uid != r2[y].uid by {
        let x0 = if x < iu { x } else { x + 1 };
        let y0 = if y < iu { y } else { y + 1 };
        assert(r2[x] == recs[x0]);
        assert(r2[y] == recs[y0]);
    }
    let j2 = if jb < iu { jb } else { jb - 1 };
    assert(jb != iu);
    assert(r2[j2] == recs[jb]);
    lemma_pos_at(r2, b, j2);
}

/// Taking record `u` out of the table: it is no longer there.
proof fn lemma_without_gone(recs: Seq<RecView>, u: u64)
    requires
        uids_distinct(recs),
        present(recs, u),
    ensures
        !present(without_uid(recs, u), u),
        uids_distinct(without_uid(recs, u)),
{
    lemma_pos_of(recs, u);
    let iu = pos_of(recs, u);
    let r2 = recs.remove(iu);
    if present(r2, u) {
        let x = choose|x: int| 0 <= x < r2.len() && r2[x].uid == u;
        let x0 = if x < iu { x } else { x + 1 };
        assert(r2[x] == recs[x0]);
    }
    assert forall|x: int, y: int| 0 <= x < y < r2.len() implies r2[x].uid != r2[y].uid by {
        let x0 = if x < iu { x } else { x + 1 };
        let y0 = if y < iu { y } else { y + 1 };
        assert(r2[x] == recs[x0]);
        assert(r2[y] == recs[y0]);
    }
}

proof fn lemma_distinct_same_content(a: Seq<RecView>, b: Seq<RecView>)
    requires
        same_content(a, b),
        uids_distinct(b),
    ensures
        uids_distinct(a),
{
    assert forall|x: int, y: int| 0 <= x < y < a.len() implies a[x].uid != a[y].uid by {
        assert(a[x].uid == b[x].uid);
        assert(a[y].uid == b[y].uid);
    }
}

/// Taking a record of the list off it: the list runs through the others
/// in the same order, and the record names no neighbour.
#[verifier::spinoff_prover]
#[verifier::rlimit(40)]
proof fn lemma_unlink_shape(l: Links, order: Seq<u64>, uid: u64)
    requires
        uids_distinct(l.recs),
        list_shape(l, order),
        order.contains(uid),
    ensures
        list_shape(spec_unlink(l, uid), order.remove(order.index_of(uid))),
        uids_distinct(spec_unlink(l, uid).recs),
        same_content(spec_unlink(l, uid).recs, l.recs),
        present(spec_unlink(l, uid).recs, uid),
        rec_of(spec_unlink(l, uid).recs, uid).prev is None,
        rec_of(spec_unlink(l, uid).recs, uid).next is None,
        !order.remove(order.index_of(uid)).contains(uid),
{
    let recs = l.recs;
    let o = order;
    let k = o.index_of(uid);
    let o2 = o.remove(k);
    let len = o.len();
    assert(o[k] == uid);
    assert(present(recs, uid));
    lemma_unlink_content(l, uid);
    let p = if k == 0 { None } else { Some(o[k - 1]) };
    let n = if k + 1 == len { None } else { Some(o[k + 1]) };
    assert(rec_of(recs, o[k]).prev == p);
    assert(rec_of(recs, o[k]).next == n);
    assert(alive(recs, recs[pos_of(recs, uid)].prev) == p) by {
        if k > 0 {
            assert(present(recs, o[k - 1]));
        }
    }
    assert(alive(recs, recs[pos_of(recs, uid)].next) == n) by {
        if k + 1 < len {
            assert(present(recs, o[k + 1]));
        }
    }
    let r1 = match p {
        Some(pp) => set_next(recs, pp, n),
        None => recs,
    };
    let r2 = match n {
        Some(nn) => set_prev(r1, nn, p),
        None => r1,
    };
    let r3 = set_links(r2, uid, None, None);
    let u = spec_unlink(l, uid);
    assert(u.recs == r3);
    assert(!o2.contains(uid)) by {
        if o2.contains(uid) {
            let j = choose|j: int| 0 <= j < o2.len() && o2[j] == uid;
            let j0 = if j < k { j } else { j + 1 };
            assert(o2[j] == o[j0]);
        }
    }
    // What is read of each other record of the list.
    assert forall|b: u64| #[trigger] o2.contains(b) implies {
        &&& present(r3, b)
        &&& rec_of(r3, b) == (if Some(b) == p {
            RecView { next: n, ..rec_of(recs, b) }
        } else if Some(b) == n {
            RecView { prev: p, ..rec_of(recs, b) }
        } else {
            rec_of(recs, b)
        })
    } by {
        let jb = choose|j: int| 0 <= j < o2.len() && o2[j] == b;
        let j0 = if jb < k { jb } else { jb + 1 };
        assert(o2[jb] == o[j0]);
        assert(present(recs, b));
        assert(b != uid);
        match p {
            Some(pp) => {
                assert(present(recs, pp));
                lemma_set_next_at(recs, pp, n, b);
                lemma_set_next_at(recs, pp, n, uid);
                if n is Some {
                    lemma_set_next_at(recs, pp, n, n->0);
                }
            },
            None => {},
        }
        match n {
            Some(nn) => {
                assert(present(r1, nn)) by {
                    match p {
                        Some(pp) => lemma_set_next_at(recs, pp, n, nn),
                        None => {},
                    }
                }
                lemma_set_prev_at(r1, nn, p, b);
                lemma_set_prev_at(r1, nn, p, uid);
            },
            None => {},
        }
        lemma_set_links_at(r2, uid, None, None, b);
        if p is Some && n is Some {
            assert(p->0 != n->0);
        }
    }
    // The record itself.
    match p {
        Some(pp) => lemma_set_next_at(recs, pp, n, uid),
        None => {},
    }
    match n {
        Some(nn) => {
            match p {
                Some(pp) => lemma_set_next_at(recs, pp, n, nn),
                None => {},
            }
            lemma_set_prev_at(r1, nn, p, uid);
        },
        None => {},
    }
    lemma_set_links_at(r2, uid, None, None, uid);
    lemma_pos_of(r2, uid);
    lemma_update_at(r2, uid, RecView { prev: None, next: None, ..rec_of(r2, uid) }, uid);
    // The shape of the rest of the list.
    assert(o2.no_duplicates()) by {
        assert forall|x: int, y: int| 0 <= x < y < o2.len() implies o2[x] != o2[y] by {
            let x0 = if x < k { x } else { x + 1 };
            let y0 = if y < k { y } else { y + 1 };
            assert(o2[x] == o[x0]);
            assert(o2[y] == o[y0]);
        }
    }
    assert forall|j: int| 0 <= j < o2.len() implies present(r3, #[trigger] o2[j]) by {
        assert(o2.contains(o2[j]));
    }
    assert forall|j: int| 0 <= j < o2.len() implies (#[trigger] rec_of(r3, o2[j])).prev == (if j == 0 {
        None
    } else {
        Some(o2[j - 1])
    }) && rec_of(r3, o2[j]).next == (if j + 1 == o2.len() {
        None
    } else {
        Some(o2[j + 1])
    }) by {
        let b = o2[j];
        assert(o2.contains(b));
        let j0 = if j < k { j } else { j + 1 };
        assert(o2[j] == o[j0]);
        assert(rec_of(recs, o[j0]).prev == (if j0 == 0 { None } else { Some(o[j0 - 1]) }));
        assert(rec_of(recs, o[j0]).next == (if j0 + 1 == len { None } else { Some(o[j0 + 1]) }));
        if j > 0 {
            let jm = if j - 1 < k { j - 1 } else { j };
            assert(o2[j - 1] == o[jm]);
        }
        if j + 1 < o2.len() {
            let jp = if j + 1 < k { j + 1 } else { j + 2 };
            assert(o2[j + 1] == o[jp]);
        }
        if Some(b) == p {
            assert(j0 == k - 1);
        }
        if Some(b) == n {
            assert(j0 == k + 1);
        }
    }
    if o2.len() > 0 {
        if k == 0 {
            assert(o2[0] == o[1]);
        } else {
            assert(o2[0] == o[0]);
        }
        if k == len - 1 {
            assert(o2[o2.len() - 1] == o[len - 2]);
        } else {
            assert(o2[o2.len() - 1] == o[len - 1]);
        }
    }
}

/// Removing a record keeps the list of recent use a chain: the list runs
/// through the same records less the one removed, in the same order, from
/// head to tail with each record naming its neighbours, the record is gone
/// from the table and the table holds one record fewer.  (`remove_crec`
/// changes the table and the list as `spec_remove` says, and the length
/// with them.)
pub proof fn law_remove_keeps_list(l: Links, order: Seq<u64>, uid: u64)
    requires
        uids_distinct(l.recs),
        list_shape(l, order),
        order.contains(uid),
    ensures
        list_shape(spec_remove(l, uid), order.remove(order.index_of(uid))),
        uids_distinct(spec_remove(l, uid).recs),
        !present(spec_remove(l, uid).recs, uid),
        spec_remove(l, uid).recs.len() == l.recs.len() - 1,
{
    let o2 = order.remove(order.index_of(uid));
    let u = spec_unlink(l, uid);
    let fin = spec_remove(l, uid);
    lemma_unlink_shape(l, order, uid);
    lemma_remove_len(l, uid);
    lemma_without_gone(u.recs, uid);
    assert forall|j: int| 0 <= j < o2.len() implies present(fin.recs, #[trigger] o2[j]) && rec_of(fin.recs, o2[j])
        == rec_of(u.recs, o2[j]) by {
        assert(o2.contains(o2[j]));
        lemma_without_at(u.recs, uid, o2[j]);
    }
    assert forall|j: int| 0 <= j < o2.len() implies (#[trigger] rec_of(fin.recs, o2[j])).prev == (if j == 0 {
        None
    } else {
        Some(o2[j - 1])
    }) by {
        assert(rec_of(fin.recs, o2[j]) == rec_of(u.recs, o2[j]));
    }
    assert forall|j: int| 0 <= j < o2.len() implies (#[trigger] rec_of(fin.recs, o2[j])).next == (if j + 1 == o2.len() {
        None
    } else {
        Some(o2[j + 1])
    }) by {
        assert(rec_of(fin.recs, o2[j]) == rec_of(u.recs, o2[j]));
    }
}

/// Putting a record of the table that is off the list at the head of the
/// list keeps the list a chain: it runs through the record first, then
/// through the others in the same order.
pub proof fn law_link_keeps_list(l: Links, order: Seq<u64>, uid: u64)
    requires
        uids_distinct(l.recs),
        list_shape(l, order),
        present(l.recs, uid),
        !order.contains(uid),
    ensures
        list_shape(spec_link(l, uid), seq![uid] + order),
        uids_distinct(spec_link(l, uid).recs),
        same_content(spec_link(l, uid).recs, l.recs),
{
    let u = l;
    let o2 = order;
    let o3 = seq![uid] + o2;
    lemma_unlink_content(u, uid);
    let m = spec_link(u, uid);
    let q1 = match alive(u.recs, u.head) {
        Some(h) => set_prev(u.recs, h, Some(uid)),
        None => u.recs,
    };
    // What is read of each record after the link.
    assert forall|b: u64| #[trigger] o3.contains(b) implies {
        &&& present(m.recs, b)
        &&& uids_distinct(m.recs)
        &&& rec_of(m.recs, b) == (if b == uid {
            RecView { prev: None, next: u.head, ..rec_of(u.recs, uid) }
        } else if Some(b) == u.head {
            RecView { prev: Some(uid), ..rec_of(u.recs, b) }
        } else {
            rec_of(u.recs, b)
        })
    } by {
        let jb = choose|j: int| 0 <= j < o3.len() && o3[j] == b;
        if jb > 0 {
            assert(o3[jb] == o2[jb - 1]);
        }
        assert(present(u.recs, b));
        match alive(u.recs, u.head) {
            Some(h) => {
                assert(o2.len() > 0 && h == o2[0]);
                assert(o2.contains(o2[0]));
                assert(h != uid);
                lemma_set_prev_at(u.recs, h, Some(uid), b);
                lemma_set_prev_at(u.recs, h, Some(uid), uid);
            },
            None => {},
        }
        lemma_pos_of(q1, uid);
        lemma_update_at(q1, uid, RecView { prev: None, next: u.head, ..rec_of(q1, uid) }, b);
    }
    assert(o3.no_duplicates()) by {
        assert forall|x: int, y: int| 0 <= x < y < o3.len() implies o3[x] != o3[y] by {
            assert(o3[y] == o2[y - 1]);
            if x > 0 {
                assert(o3[x] == o2[x - 1]);
            } else {
                assert(o2.contains(o2[y - 1]));
            }
        }
    }
    assert forall|j: int| 0 <= j < o3.len() implies present(m.recs, #[trigger] o3[j]) by {
        assert(o3.contains(o3[j]));
    }
    assert forall|j: int| 0 <= j < o3.len() implies (#[trigger] rec_of(m.recs, o3[j])).prev == (if j == 0 {
        None
    } else {
        Some(o3[j - 1])
    }) && rec_of(m.recs, o3[j]).next == (if j + 1 == o3.len() {
        None
    } else {
        Some(o3[j + 1])
    }) by {
        assert(o3.contains(o3[j]));
        if j > 0 {
            assert(o3[j] == o2[j - 1]);
            assert(o2.contains(o2[j - 1]));
            if j > 1 {
                assert(o3[j - 1] == o2[j - 2]);
            }
            if j + 1 < o3.len() {
                assert(o3[j + 1] == o2[j]);
            }
        } else if o2.len() > 0 {
            assert(o3[1] == o2[0]);
        }
    }
    lemma_distinct_same_content(m.recs, l.recs);
    if o2.len() > 0 {
        assert(o3[o3.len() - 1] == o2[o2.len() - 1]);
    }
}

/// Moving a record of the list to its head keeps the list a chain: it runs
/// through the record first, then through the others in the same order.
pub proof fn law_move_to_front_keeps_list(l: Links, order: Seq<u64>, uid: u64)
    requires
        uids_distinct(l.recs),
        list_shape(l, order),
        order.contains(uid),
    ensures
        list_shape(spec_move_to_front(l, uid), seq![uid] + order.remove(order.index_of(uid))),
        uids_distinct(spec_move_to_front(l, uid).recs),
        same_content(spec_move_to_front(l, uid).recs, l.recs),
{
    let o2 = order.remove(order.index_of(uid));
    assert(order[order.index_of(uid)] == uid);
    assert(present(l.recs, uid));
    let u = spec_unlink(l, uid);
    lemma_unlink_shape(l, order, uid);
    law_link_keeps_list(u, o2, uid);
    lemma_same_content_trans(spec_link(u, uid).recs, u.recs, l.recs);
    assert(spec_move_to_front(l, uid) == spec_link(u, uid));
}

/// Removing the records `uids` in turn.
pub open spec fn spec_remove_all(l: Links, uids: Seq<u64>) -> Links
    decreases uids.len(),
{
    if uids.len() == 0 {
        l
    } else {
        spec_remove_all(spec_remove(l, uids[0]), uids.drop_first())
    }
}

proof fn lemma_remove_len(l: Links, uid: u64)
    requires
        present(l.recs, uid),
    ensures
        spec_remove(l, uid).recs.len() == l.recs.len() - 1,
{
    lemma_unlink_content(l, uid);
    let u = spec_unlink(l, uid);
    assert(present(u.recs, uid)) by {
        let j = choose|j: int| 0 <= j < l.recs.len() && l.recs[j].uid == uid;
        assert(u.recs[j].uid == uid);
    }
    lemma_pos_of(u.recs, uid);
}

proof fn lemma_remove_each_len(l: Links, uids: Seq<u64>)
    ensures
        spec_remove_each(l, uids).recs.len() <= l.recs.len(),
    decreases uids.len(),
{
    if uids.len() > 0 {
        if present(l.recs, uids[0]) {
            lemma_remove_len(l, uids[0]);
            lemma_remove_each_len(spec_remove(l, uids[0]), uids.drop_first());
        } else {
            lemma_remove_each_len(l, uids.drop_first());
        }
    }
}

/// The identifiers are distinct.
pub open spec fn uids_distinct(recs: Seq<RecView>) -> bool {
    forall|i: int, j: int| 0 <= i < j < recs.len() ==> recs[i].uid != recs[j].uid
}

/// Everything but the table and the ends of the list is the same.
pub open spec fn frame(a: Cache, b: Cache) -> bool {
    &&& a.cache_size == b.cache_size
    &&& a.length == b.length
    &&& a.dhcp_inuse@ == b.dhcp_inuse@
    &&& a.new_chain@ == b.new_chain@
    &&& a.log_queries == b.log_queries
    &&& a.cache_inserted == b.cache_inserted
    &&& a.cache_live_freed == b.cache_live_freed
    &&& a.hash_size == b.hash_size
    &&& a.round_robin@ == b.round_robin@
    &&& a.match_name@ == b.match_name@
    &&& a.match_name_index == b.match_name_index
    &&& a.match_addr@ == b.match_addr@
    &&& a.match_addr_index == b.match_addr_index
    &&& a.insert_error == b.insert_error
    &&& a.next_uid == b.next_uid
}


// ---------------------------------------------------------------------
// Hashing and scanning
// ---------------------------------------------------------------------

/// An ASCII capital letter made small; other bytes stay.
pub open spec fn lower_byte(b: u8) -> u8 {
    if 65 <= b <= 90 {
        (b + 32) as u8
    } else {
        b
    }
}

/// A sum in 32-bit wrapping arithmetic.
pub open spec fn wrap32(x: int) -> int {
    if x > u32::MAX {
        x - 0x1_0000_0000
    } else {
        x
    }
}

/// The sum, in 32-bit wrapping arithmetic, of the bytes made small.
pub open spec fn hash_sum(bytes: Seq<u8>) -> int
    decreases bytes.len(),
{
    if bytes.len() == 0 {
        0
    } else {
        wrap32(hash_sum(bytes.drop_last()) + lower_byte(bytes.last()))
    }
}

/// The bucket of a name: the sum of its bytes, ignoring ASCII case, cut to
/// the hash size (a power of two).
pub open spec fn bucket_of(name: Seq<char>, hash_size: usize) -> usize {
    ((hash_sum(encode_utf8(name)) as u32) as usize) & ((hash_size - 1) as usize)
}

/// Whether a record has run out at `now`: it is not immortal and its time
/// is a whole second or more past.
pub open spec fn expired(r: CrecView, now: Time) -> bool {
    r.flags & F_IMMORTAL == 0 && spec_difftime(now, r.ttd) > 0
}

/// Whether a record is still good at `now`: immortal, or its time is at
/// least a whole second ahead.
pub open spec fn live_at(r: CrecView, now: Time) -> bool {
    r.flags & F_IMMORTAL != 0 || spec_difftime(now, r.ttd) < 0
}

/// The flags by which records are told apart when freeing them.
pub open spec fn status_of(flags: u16) -> u16 {
    flags & (F_HOSTS | F_DHCP | F_FORWARD | F_REVERSE | F_IPV4 | F_IPV6)
}

/// Whether scanning frees a record: it has run out, or it is of the kind
/// `fl` and holds the name (forward) or the address (otherwise); records
/// from the hosts file or from DHCP stay.
pub open spec fn frees(r: CrecView, name: Seq<char>, addr: Option<AllAddr>, now: Time, fl: u16) -> bool {
    let matching = if fl & F_FORWARD != 0 {
        fl == status_of(r.flags) && spec_hostname_isequal(r.name, name)
    } else {
        fl == status_of(r.flags) && r.addr == addr
    };
    (expired(r, now) || matching) && r.flags & (F_HOSTS | F_DHCP) == 0
}

/// The records, from index `i` on, in bucket `b` that scanning frees.
pub open spec fn bucket_targets(
    recs: Seq<RecView>,
    hs: usize,
    b: usize,
    i: int,
    name: Seq<char>,
    addr: Option<AllAddr>,
    now: Time,
    fl: u16,
) -> Seq<u64>
    decreases recs.len() - i,
{
    if i < 0 || i >= recs.len() {
        seq![]
    } else {
        let rest = bucket_targets(recs, hs, b, i + 1, name, addr, now, fl);
        if bucket_of(recs[i].crec.name, hs) == b && frees(recs[i].crec, name, addr, now, fl) {
            seq![recs[i].uid] + rest
        } else {
            rest
        }
    }
}

/// The records that scanning frees, bucket by bucket from bucket `b` on.
pub open spec fn all_targets(
    recs: Seq<RecView>,
    hs: usize,
    b: int,
    name: Seq<char>,
    addr: Option<AllAddr>,
    now: Time,
    fl: u16,
) -> Seq<u64>
    decreases hs - b,
{
    if b < 0 || b >= hs {
        seq![]
    } else {
        bucket_targets(recs, hs, b as usize, 0, name, addr, now, fl) + all_targets(recs, hs, b + 1, name, addr, now, fl)
    }
}

/// The flags that decide what scanning frees.
pub open spec fn scan_kind(flags: u16) -> u16 {
    flags & (F_FORWARD | F_REVERSE | F_IPV6 | F_IPV4)
}

/// The records that scanning frees: for a forward kind, those in the
/// bucket of the name; otherwise those in every bucket, in bucket order.
pub open spec fn scan_targets(
    recs: Seq<RecView>,
    hs: usize,
    name: Option<Seq<char>>,
    addr: Option<AllAddr>,
    now: Time,
    flags: u16,
) -> Seq<u64> {
    let fl = scan_kind(flags);
    let n = match name {
        Some(x) => x,
        None => Seq::empty(),
    };
    if fl & F_FORWARD != 0 {
        bucket_targets(recs, hs, bucket_of(n, hs), 0, n, addr, now, fl)
    } else {
        all_targets(recs, hs, 0, n, addr, now, fl)
    }
}

/// Removing in turn those of the records `uids` that are in the table.
pub open spec fn spec_remove_each(l: Links, uids: Seq<u64>) -> Links
    decreases uids.len(),
{
    if uids.len() == 0 {
        l
    } else if present(l.recs, uids[0]) {
        spec_remove_each(spec_remove(l, uids[0]), uids.drop_first())
    } else {
        spec_remove_each(l, uids.drop_first())
    }
}

/// The records' times can be compared.
pub open spec fn times_ok(recs: Seq<RecView>) -> bool {
    forall|i: int| 0 <= i < recs.len() ==> (#[trigger] recs[i]).crec.ttd.wf() && recs[i].crec.ttd.secs <= i64::MAX as u64
}

fn addr_eq(a: Option<AllAddr>, b: Option<AllAddr>) -> (r: bool)
    ensures
        r == (a == b),
{
    match (a, b) {
        (Some(AllAddr::V4(x)), Some(AllAddr::V4(y))) => x == y,
        (Some(AllAddr::V6(x)), Some(AllAddr::V6(y))) => x == y,
        (None, None) => true,
        _ => false,
    }
}

fn frees_exec(r: &Crec, name: &str, addr: Option<AllAddr>, now: Time, fl: u16) -> (b: bool)
    requires
        r.ttd.wf(),
        r.ttd.secs <= i64::MAX as u64,
        now.wf(),
        now.secs <= i64::MAX as u64,
    ensures
        b == frees(r@, name@, addr, now, fl),
{
    let status: u16 = r.flags & (F_HOSTS | F_DHCP | F_FORWARD | F_REVERSE | F_IPV4 | F_IPV6);
    let is_expired: bool = r.flags & F_IMMORTAL == 0 && difftime(now, r.ttd) > 0;
    let matching: bool = if fl & F_FORWARD != 0 {
        fl == status && hostname_isequal(r.name.as_str(), name)
    } else {
        fl == status && addr_eq(r.addr, addr)
    };
    (is_expired || matching) && r.flags & (F_HOSTS | F_DHCP) == 0
}


// ---------------------------------------------------------------------
// Inserting
// ---------------------------------------------------------------------

/// The hash size for a cache of `size` records: starting from `h`, doubled
/// until it is at least a tenth of the size.
pub open spec fn hash_size_for(size: usize, h: int) -> int
    decreases size / 10 - h,
{
    if h <= 0 || h >= size / 10 {
        h
    } else if 2 * h >= size / 10 {
        2 * h
    } else {
        hash_size_for(size, 2 * h)
    }
}

/// Making room for one more record of an answer being inserted, with
/// `chain_len` records already waiting and at most `fuel` records to drop:
/// while the table and the waiting records fill the cache, the least
/// recently used record (the tail, which is first taken off the list) is
/// freed with every record of its name or address and kind.  Gives the
/// table afterwards, how many drops were made, and whether the insertion
/// fails: when too many records wait, or there is nothing left to drop.
pub open spec fn spec_evict(l: Links, hs: usize, chain_len: int, size: int, now: Time, fuel: nat) -> (Links, nat, bool)
    decreases fuel,
{
    if chain_len > size {
        (l, 0, true)
    } else if l.recs.len() + chain_len >= size {
        if fuel == 0 {
            (l, 0, true)
        } else {
            match l.tail {
                None => (l, 0, true),
                Some(t) => {
                    let l1 = Links { tail: None, ..l };
                    let l2 = if present(l.recs, t) {
                        let r = l.recs[pos_of(l.recs, t)].crec;
                        spec_remove_each(l1, scan_targets(l1.recs, hs, Some(r.name), r.addr, now, r.flags))
                    } else {
                        l1
                    };
                    let (l3, k, e) = spec_evict(l2, hs, chain_len, size, now, (fuel - 1) as nat);
                    (l3, k + 1, e)
                },
            }
        }
    } else {
        (l, 0, false)
    }
}

/// The record that an insertion adds to the waiting answer.
pub open spec fn new_crec(name: Option<Seq<char>>, addr: Option<AllAddr>, now: Time, ttl: u32, flags: u16) -> CrecView {
    CrecView {
        ttd: Time { secs: (now.secs + ttl) as u64, nanos: now.nanos },
        addr,
        flags,
        name: match name {
            Some(n) => n,
            None => Seq::empty(),
        },
    }
}

/// Adding the waiting records to the table and at the head of the list,
/// in order, with identifiers from `uid` on.
pub open spec fn spec_add_chain(l: Links, chain: Seq<CrecView>, uid: u64) -> Links
    decreases chain.len(),
{
    if chain.len() == 0 {
        l
    } else {
        let l1 = Links { recs: l.recs.push(RecView { uid, crec: chain[0], prev: None, next: None }), ..l };
        spec_add_chain(spec_link(l1, uid), chain.drop_first(), (uid + 1) as u64)
    }
}


/// The settings and the fields that inserting leaves alone are the same.
pub open spec fn same_settings(a: Cache, b: Cache) -> bool {
    &&& a.cache_size == b.cache_size
    &&& a.hash_size == b.hash_size
    &&& a.dhcp_inuse@ == b.dhcp_inuse@
    &&& a.log_queries == b.log_queries
    &&& a.cache_inserted == b.cache_inserted
    &&& a.round_robin@ == b.round_robin@
    &&& a.match_name@ == b.match_name@
    &&& a.match_name_index == b.match_name_index
    &&& a.match_addr@ == b.match_addr@
    &&& a.match_addr_index == b.match_addr_index
    &&& a.next_uid == b.next_uid
}

/// The name of a string that may be absent.
pub open spec fn opt_str(name: Option<&str>) -> Option<Seq<char>> {
    match name {
        Some(n) => Some(n@),
        None => None,
    }
}

/// What inserting a record does to the cache: nothing after a failure;
/// otherwise the records of the same name (or address) and kind, and
/// those run out, are freed; room is made (see `spec_evict`); and, unless
/// that fails, the new record waits.  A negative reverse record has no
/// name.
pub open spec fn cv_insert(c: CacheView, name: Option<Seq<char>>, addr: Option<AllAddr>, now: Time, ttl: u32, flags: u16) -> CacheView {
    let name2 = if flags & F_NEG != 0 && flags & F_REVERSE != 0 {
        None
    } else {
        name
    };
    let flags2 = flags & !F_CONFIG;
    if c.insert_error {
        c
    } else {
        let l1 = spec_remove_each(c.links, scan_targets(c.links.recs, c.hash_size, name2, addr, now, flags2));
        let (l2, k, e) = spec_evict(l1, c.hash_size, c.new_chain.len() as int, c.cache_size as int, now, (l1.recs.len() + 1) as nat);
        CacheView {
            links: l2,
            cache_live_freed: (c.cache_live_freed + k) as usize,
            insert_error: e,
            new_chain: if e {
                c.new_chain
            } else {
                c.new_chain.push(new_crec(name2, addr, now, ttl, flags2))
            },
            ..c
        }
    }
}

/// Starting an insertion: the waiting records go, an earlier failure is
/// forgotten.
pub open spec fn cv_start_insert(c: CacheView) -> CacheView {
    CacheView { new_chain: Seq::empty(), insert_error: false, ..c }
}

/// Ending an insertion: unless it failed, the waiting records join the
/// table and the head of the list, in order.
pub open spec fn cv_end_insert(c: CacheView) -> CacheView {
    if c.insert_error {
        c
    } else {
        CacheView {
            links: spec_add_chain(c.links, c.new_chain, c.next_uid),
            new_chain: Seq::empty(),
            next_uid: (c.next_uid + c.new_chain.len()) as u64,
            cache_inserted: (c.cache_inserted + c.new_chain.len()) as usize,
            ..c
        }
    }
}

/// Scanning (see `Cache::cache_scan_free`).
pub open spec fn cv_scan_free(c: CacheView, name: Option<Seq<char>>, addr: Option<AllAddr>, now: Time, flags: u16) -> CacheView {
    CacheView { links: spec_remove_each(c.links, scan_targets(c.links.recs, c.hash_size, name, addr, now, flags)), ..c }
}

impl Cache {
    /// The table and the ends of the list.
    pub open spec fn links(&self) -> Links {
        Links { recs: recs_view(self.records@), head: self.head, tail: self.tail }
    }

    /// The cache's own invariant: distinct identifiers below `next_uid`,
    /// `length` counting the table, a hash size that is a power of two.
    pub open spec fn wf(&self) -> bool {
        &&& uids_distinct(recs_view(self.records@))
        &&& forall|i: int| 0 <= i < self.records@.len() ==> (#[trigger] self.records@[i]).uid < self.next_uid
        &&& self.length == self.records@.len()
        &&& self.hash_size >= 1
        &&& times_ok(recs_view(self.records@))
        &&& forall|i: int|
            0 <= i < self.new_chain@.len() ==> (#[trigger] self.new_chain@[i]).ttd.wf() && self.new_chain@[i].ttd.secs
                <= i64::MAX as u64
    }

    /// The position of record `uid`, found by its identifier.
    fn find_pos(&self, uid: u64) -> (r: Option<usize>)
        ensures
            r is None <==> !present(recs_view(self.records@), uid),
            r matches Some(i) ==> i == pos_of(recs_view(self.records@), uid) && i < self.records@.len(),
    {
        let ghost rv = recs_view(self.records@);
        proof {
            lemma_pos_of(rv, uid);
        }
        let mut i: usize = 0;
        while i < self.records.len()
            invariant
                rv == recs_view(self.records@),
                i <= self.records@.len(),
                forall|k: int| 0 <= k < i ==> rv[k].uid != uid,
            decreases self.records@.len() - i,
        {
            assert(rv[i as int] == self.records@[i as int]@);
            if self.records[i].uid == uid {
                proof {
                    lemma_pos_of(rv, uid);
                    if pos_of(rv, uid) < i {
                        assert(rv[pos_of(rv, uid)].uid == uid);
                    }
                }
                return Some(i);
            }
            i += 1;
        }
        proof {
            if present(rv, uid) {
                let j = choose|j: int| 0 <= j < rv.len() && rv[j].uid == uid;
                assert(rv[j].uid != uid);
            }
        }
        None
    }

    fn alive_exec(&self, uid: Option<u64>) -> (r: Option<u64>)
        ensures
            r == alive(recs_view(self.records@), uid),
    {
        match uid {
            Some(u) => if self.find_pos(u).is_some() {
                Some(u)
            } else {
                None
            },
            None => None,
        }
    }

    fn set_links_exec(&mut self, uid: u64, prev: Option<u64>, next: Option<u64>)
        ensures
            recs_view(final(self).records@) == set_links(recs_view(old(self).records@), uid, prev, next),
            final(self).head == old(self).head,
            final(self).tail == old(self).tail,
            final(self).records@.len() == old(self).records@.len(),
            forall|k: int|
                0 <= k < old(self).records@.len() ==> (#[trigger] final(self).records@[k]).uid == old(self).records@[k].uid,
            frame(*old(self), *final(self)),
    {
        match self.find_pos(uid) {
            Some(i) => {
                let ghost rv = recs_view(self.records@);
                let r: CacheRec = CacheRec {
                    uid: self.records[i].uid,
                    crec: self.records[i].crec.copy(),
                    prev,
                    next,
                };
                self.records.set(i, r);
                assert(recs_view(self.records@) =~= rv.update(i as int, RecView { prev, next, ..rv[i as int] }));
            },
            None => {},
        }
    }

    fn set_prev_exec(&mut self, uid: u64, prev: Option<u64>)
        ensures
            recs_view(final(self).records@) == set_prev(recs_view(old(self).records@), uid, prev),
            final(self).head == old(self).head,
            final(self).tail == old(self).tail,
            final(self).records@.len() == old(self).records@.len(),
            forall|k: int|
                0 <= k < old(self).records@.len() ==> (#[trigger] final(self).records@[k]).uid == old(self).records@[k].uid,
            frame(*old(self), *final(self)),
    {
        match self.find_pos(uid) {
            Some(i) => {
                let ghost rv = recs_view(self.records@);
                let r: CacheRec = CacheRec {
                    uid: self.records[i].uid,
                    crec: self.records[i].crec.copy(),
                    prev,
                    next: self.records[i].next,
                };
                self.records.set(i, r);
                assert(recs_view(self.records@) =~= rv.update(i as int, RecView { prev, ..rv[i as int] }));
            },
            None => {},
        }
    }

    fn set_next_exec(&mut self, uid: u64, next: Option<u64>)
        ensures
            recs_view(final(self).records@) == set_next(recs_view(old(self).records@), uid, next),
            final(self).head == old(self).head,
            final(self).tail == old(self).tail,
            final(self).records@.len() == old(self).records@.len(),
            forall|k: int|
                0 <= k < old(self).records@.len() ==> (#[trigger] final(self).records@[k]).uid == old(self).records@[k].uid,
            frame(*old(self), *final(self)),
    {
        match self.find_pos(uid) {
            Some(i) => {
                let ghost rv = recs_view(self.records@);
                let r: CacheRec = CacheRec {
                    uid: self.records[i].uid,
                    crec: self.records[i].crec.copy(),
                    prev: self.records[i].prev,
                    next,
                };
                self.records.set(i, r);
                assert(recs_view(self.records@) =~= rv.update(i as int, RecView { next, ..rv[i as int] }));
            },
            None => {},
        }
    }

    /// Puts record `uid` at the head of the list of recent use.
    fn cache_link(&mut self, uid: u64)
        ensures
            final(self).links() == spec_link(old(self).links(), uid),
            final(self).records@.len() == old(self).records@.len(),
            forall|k: int|
                0 <= k < old(self).records@.len() ==> (#[trigger] final(self).records@[k]).uid == old(self).records@[k].uid,
            frame(*old(self), *final(self)),
    {
        let h: Option<u64> = self.alive_exec(self.head);
        match h {
            Some(hu) => self.set_prev_exec(hu, Some(uid)),
            None => {},
        }
        let head: Option<u64> = self.head;
        self.set_links_exec(uid, None, head);
        self.head = Some(uid);
        if self.tail.is_none() {
            self.tail = Some(uid);
        }
    }

    /// Takes record `uid` off the list of recent use.
    fn cache_unlink(&mut self, uid: u64)
        requires
            present(recs_view(old(self).records@), uid),
        ensures
            final(self).links() == spec_unlink(old(self).links(), uid),
            final(self).records@.len() == old(self).records@.len(),
            forall|k: int|
                0 <= k < old(self).records@.len() ==> (#[trigger] final(self).records@[k]).uid == old(self).records@[k].uid,
            frame(*old(self), *final(self)),
    {
        let ghost l0 = self.links();
        let i: usize = match self.find_pos(uid) {
            Some(i) => i,
            None => {
                assert(false);
                0
            },
        };
        assert(l0.recs[i as int] == self.records@[i as int]@);
        let p0: Option<u64> = self.records[i].prev;
        let n0: Option<u64> = self.records[i].next;
        let prev: Option<u64> = self.alive_exec(p0);
        let next: Option<u64> = self.alive_exec(n0);
        match prev {
            Some(p) => self.set_next_exec(p, next),
            None => {
                self.head = next;
            },
        }
        match next {
            Some(n) => self.set_prev_exec(n, prev),
            None => {
                self.tail = prev;
            },
        }
        self.set_links_exec(uid, None, None);
    }

    /// Removes record `uid` from the list and the table.
    pub fn remove_crec(&mut self, uid: u64)
        requires
            old(self).wf(),
            present(recs_view(old(self).records@), uid),
        ensures
            final(self).wf(),
            final(self).links() == spec_remove(old(self).links(), uid),
            final(self).length == old(self).length - 1,
            frame(*old(self), Cache { length: old(self).length, ..*final(self) }),
    {
        let ghost before = self.links();
        self.cache_unlink(uid);
        let ghost mid = recs_view(self.records@);
        proof {
            lemma_unlink_content(before, uid);
        }
        assert forall|a: int, b: int| 0 <= a < b < mid.len() implies mid[a].uid != mid[b].uid by {
            assert(mid[a] == self.records@[a]@);
            assert(mid[b] == self.records@[b]@);
            assert(before.recs[a] == old(self).records@[a]@);
            assert(before.recs[b] == old(self).records@[b]@);
        }
        assert(present(mid, uid)) by {
            let j = choose|j: int| 0 <= j < before.recs.len() && before.recs[j].uid == uid;
            assert(before.recs[j] == old(self).records@[j]@);
            assert(mid[j] == self.records@[j]@);
        }
        let i: usize = match self.find_pos(uid) {
            Some(i) => i,
            None => {
                assert(false);
                0
            },
        };
        let ghost rs = self.records@;
        let _r = self.records.remove(i);
        assert(recs_view(self.records@) =~= mid.remove(i as int));
        self.length = self.length - 1;
        assert forall|a: int, b: int| 0 <= a < b < self.records@.len() implies self.records@[a].uid != self.records@[b].uid by {
            if a < i {
                assert(self.records@[a] == rs[a]);
            } else {
                assert(self.records@[a] == rs[a + 1]);
            }
            if b < i {
                assert(self.records@[b] == rs[b]);
            } else {
                assert(self.records@[b] == rs[b + 1]);
            }
            assert(mid[a] == rs[a]@);
            assert(mid[a + 1] == rs[a + 1]@);
            assert(mid[b] == rs[b]@);
            assert(mid[b + 1] == rs[b + 1]@);
        }
        assert forall|k: int| 0 <= k < self.records@.len() implies (#[trigger] self.records@[k]).uid < self.next_uid by {
            if k < i {
                assert(self.records@[k] == rs[k]);
            } else {
                assert(self.records@[k] == rs[k + 1]);
            }
        }
        assert forall|k: int| 0 <= k < recs_view(self.records@).len() implies (#[trigger] recs_view(self.records@)[k]).crec.ttd.wf()
            && recs_view(self.records@)[k].crec.ttd.secs <= i64::MAX as u64 by {
            let j = if k < i { k } else { k + 1 };
            assert(recs_view(self.records@)[k] == mid[j]);
            assert(mid[j].crec == before.recs[j].crec);
        }
        assert(uids_distinct(recs_view(self.records@))) by {
            assert forall|a: int, b: int| 0 <= a < b < recs_view(self.records@).len() implies recs_view(self.records@)[a].uid != recs_view(self.records@)[b].uid by {
                assert(recs_view(self.records@)[a] == self.records@[a]@);
                assert(recs_view(self.records@)[b] == self.records@[b]@);
            }
        }
    }

    /// The bucket of a name (see `bucket_of`).
    fn hash_bucket(&self, name: &str) -> (b: usize)
        requires
            self.hash_size >= 1,
        ensures
            b == bucket_of(name@, self.hash_size),
    {
        let bytes: &[u8] = name.as_bytes();
        let mut val: u32 = 0;
        let mut i: usize = 0;
        while i < bytes.len()
            invariant
                i <= bytes@.len(),
                bytes@ == encode_utf8(name@),
                val as int == hash_sum(bytes@.take(i as int)),
            decreases bytes@.len() - i,
        {
            let c: u8 = bytes[i];
            let lc: u8 = if 65 <= c && c <= 90 {
                c + 32
            } else {
                c
            };
            assert(bytes@.take(i + 1).drop_last() =~= bytes@.take(i as int));
            assert(bytes@.take(i + 1).last() == c);
            val = val.wrapping_add(lc as u32);
            i += 1;
        }
        assert(bytes@.take(bytes@.len() as int) =~= bytes@);
        (val as usize) & (self.hash_size - 1)
    }

    /// The records of bucket `b` that scanning frees (see
    /// `bucket_targets`).
    fn bucket_targets_exec(&self, b: usize, name: &str, addr: Option<AllAddr>, now: Time, fl: u16) -> (v: Vec<u64>)
        requires
            self.wf(),
            now.wf(),
            now.secs <= i64::MAX as u64,
        ensures
            v@ == bucket_targets(recs_view(self.records@), self.hash_size, b, 0, name@, addr, now, fl),
    {
        let ghost rv = recs_view(self.records@);
        let mut v: Vec<u64> = Vec::new();
        let n: usize = self.records.len();
        let mut i: usize = n;
        while i > 0
            invariant
                n == self.records@.len(),
                rv == recs_view(self.records@),
                self.wf(),
                now.wf(),
                now.secs <= i64::MAX as u64,
                i <= n,
                v@ == bucket_targets(rv, self.hash_size, b, i as int, name@, addr, now, fl),
            decreases i,
        {
            i -= 1;
            let r: &CacheRec = &self.records[i];
            assert(rv[i as int] == r@);
            assert(times_ok(rv));
            let inb: bool = self.hash_bucket(r.crec.name.as_str()) == b;
            if inb && frees_exec(&r.crec, name, addr, now, fl) {
                let mut w: Vec<u64> = Vec::new();
                w.push(r.uid);
                let mut k: usize = 0;
                while k < v.len()
                    invariant
                        k <= v@.len(),
                        w@ == seq![r.uid] + v@.take(k as int),
                    decreases v@.len() - k,
                {
                    w.push(v[k]);
                    k += 1;
                    assert(v@.take(k as int) =~= v@.take(k - 1).push(v@[k - 1]));
                }
                assert(v@.take(v@.len() as int) =~= v@);
                v = w;
            }
        }
        v
    }

    /// The records that scanning frees (see `scan_targets`).
    fn scan_targets_exec(&self, name: Option<&str>, addr: Option<AllAddr>, now: Time, flags: u16) -> (v: Vec<u64>)
        requires
            self.wf(),
            now.wf(),
            now.secs <= i64::MAX as u64,
        ensures
            v@ == scan_targets(
                recs_view(self.records@),
                self.hash_size,
                match name {
                    Some(x) => Some(x@),
                    None => None,
                },
                addr,
                now,
                flags,
            ),
    {
        let fl: u16 = flags & (F_FORWARD | F_REVERSE | F_IPV6 | F_IPV4);
        let n: &str = match name {
            Some(x) => x,
            None => "",
        };
        proof {
            reveal_strlit("");
        }
        assert(n@ == (match name {
            Some(x) => x@,
            None => Seq::<char>::empty(),
        }));
        if fl & F_FORWARD != 0 {
            let b: usize = self.hash_bucket(n);
            self.bucket_targets_exec(b, n, addr, now, fl)
        } else {
            let mut v: Vec<u64> = Vec::new();
            let hs: usize = self.hash_size;
            let mut b: usize = hs;
            while b > 0
                invariant
                    hs == self.hash_size,
                    self.wf(),
                    now.wf(),
                    now.secs <= i64::MAX as u64,
                    b <= hs,
                    v@ == all_targets(recs_view(self.records@), hs, b as int, n@, addr, now, fl),
                decreases b,
            {
                b -= 1;
                let w: Vec<u64> = self.bucket_targets_exec(b, n, addr, now, fl);
                let mut joined: Vec<u64> = w;
                let mut k: usize = 0;
                let ghost wv = joined@;
                while k < v.len()
                    invariant
                        k <= v@.len(),
                        joined@ == wv + v@.take(k as int),
                    decreases v@.len() - k,
                {
                    joined.push(v[k]);
                    k += 1;
                    assert(v@.take(k as int) =~= v@.take(k - 1).push(v@[k - 1]));
                }
                assert(v@.take(v@.len() as int) =~= v@);
                v = joined;
            }
            v
        }
    }

    /// Removes in turn those of the records `uids` that are in the table.
    fn remove_each(&mut self, uids: &Vec<u64>)
        requires
            old(self).wf(),
        ensures
            final(self).wf(),
            final(self).links() == spec_remove_each(old(self).links(), uids@),
            frame(*old(self), Cache { length: old(self).length, ..*final(self) }),
            final(self).length <= old(self).length,
    {
        proof {
            lemma_remove_each_len(old(self).links(), uids@);
        }
        let mut k: usize = 0;
        assert(uids@.skip(0) =~= uids@);
        while k < uids.len()
            invariant
                self.wf(),
                k <= uids@.len(),
                spec_remove_each(old(self).links(), uids@) == spec_remove_each(self.links(), uids@.skip(k as int)),
                frame(*old(self), Cache { length: old(self).length, ..*self }),
            decreases uids@.len() - k,
        {
            let u: u64 = uids[k];
            assert(uids@.skip(k as int).drop_first() =~= uids@.skip(k + 1));
            assert(uids@.skip(k as int)[0] == u);
            if self.find_pos(u).is_some() {
                self.remove_crec(u);
            }
            k += 1;
        }
        assert(uids@.skip(uids@.len() as int) =~= Seq::<u64>::empty());
    }

    /// Frees records: for a forward kind, the records in the bucket of
    /// `name` that have run out or hold the name with the same kind;
    /// otherwise the records anywhere that have run out or hold `addr` with
    /// the same kind.  Records from the hosts file or DHCP stay.
    pub fn cache_scan_free(&mut self, name: Option<&str>, addr: Option<AllAddr>, now: Time, flags: u16)
        requires
            old(self).wf(),
            now.wf(),
            now.secs <= i64::MAX as u64,
        ensures
            final(self).wf(),
            final(self).links() == spec_remove_each(
                old(self).links(),
                scan_targets(
                    recs_view(old(self).records@),
                    old(self).hash_size,
                    match name {
                        Some(x) => Some(x@),
                        None => None,
                    },
                    addr,
                    now,
                    flags,
                ),
            ),
            frame(*old(self), Cache { length: old(self).length, ..*final(self) }),
            final(self)@ == cv_scan_free(old(self)@, opt_str(name), addr, now, flags),
            final(self).length <= old(self).length,
    {
        let targets: Vec<u64> = self.scan_targets_exec(name, addr, now, flags);
        self.remove_each(&targets);
    }

    /// An empty cache for `size` records; `logq` says whether queries are
    /// logged.  The hash size is 64, doubled until it is at least a tenth
    /// of the size.
    pub fn cache_init(size: usize, logq: u32) -> (c: Cache)
        ensures
            c.wf(),
            c.cache_size == size,
            c.length == 0,
            c.records@.len() == 0,
            c.head is None && c.tail is None,
            c.dhcp_inuse@.len() == 0 && c.new_chain@.len() == 0,
            c.log_queries == logq,
            c.cache_inserted == 0 && c.cache_live_freed == 0,
            c.hash_size == hash_size_for(size, 64),
            c.round_robin@.len() == 0,
            c.match_name@.len() == 0 && c.match_name_index == 0,
            c.match_addr@.len() == 0 && c.match_addr_index == 0,
            !c.insert_error,
            c.next_uid == 0,
    {
        let mut hs: usize = 64;
        while hs < size / 10
            invariant
                hs >= 64,
                hash_size_for(size, 64) == hash_size_for(size, hs as int),
            decreases usize::MAX - hs,
        {
            assert(hs <= usize::MAX / 2) by {
                assert(size / 10 <= usize::MAX / 2);
            }
            hs = hs * 2;
        }
        Cache {
            cache_size: size,
            length: 0,
            head: None,
            tail: None,
            dhcp_inuse: Vec::new(),
            new_chain: Vec::new(),
            log_queries: logq,
            cache_inserted: 0,
            cache_live_freed: 0,
            records: Vec::new(),
            hash_size: hs,
            round_robin: Vec::new(),
            match_name: Vec::new(),
            match_name_index: 0,
            match_addr: Vec::new(),
            match_addr_index: 0,
            insert_error: false,
            next_uid: 0,
        }
    }

    /// Starts inserting an answer: drops the records left waiting and
    /// forgets an earlier failure.
    pub fn cache_start_insert(&mut self)
        ensures
            final(self).new_chain@.len() == 0,
            !final(self).insert_error,
            *final(self) == (Cache { new_chain: final(self).new_chain, insert_error: false, ..*old(self) }),
            final(self)@ == cv_start_insert(old(self)@),
    {
        self.new_chain = Vec::new();
        self.insert_error = false;
        assert(crecs_view(self.new_chain@) =~= Seq::<CrecView>::empty());
    }

    /// Makes room for one more waiting record (see `spec_evict`), dropping
    /// at most `fuel` records; says whether the insertion fails.
    fn evict(&mut self, now: Time, fuel: usize) -> (failed: bool)
        requires
            old(self).wf(),
            now.wf(),
            now.secs <= i64::MAX as u64,
            old(self).cache_live_freed + fuel <= usize::MAX,
            !old(self).insert_error,
        ensures
            final(self).wf(),
            ({
                let (l, k, e) = spec_evict(
                    old(self).links(),
                    old(self).hash_size,
                    old(self).new_chain@.len() as int,
                    old(self).cache_size as int,
                    now,
                    fuel as nat,
                );
                &&& final(self).links() == l
                &&& final(self).cache_live_freed == old(self).cache_live_freed + k
                &&& final(self).insert_error == e
                &&& failed == e
            }),
            final(self).new_chain@ == old(self).new_chain@,
            same_settings(*old(self), *final(self)),
            final(self).length <= old(self).length,
            final(self).cache_live_freed <= old(self).cache_live_freed + fuel,
        decreases fuel,
    {
        if self.new_chain.len() > self.cache_size {
            self.insert_error = true;
            return true;
        }
        if self.length >= self.cache_size || self.new_chain.len() >= self.cache_size - self.length {
            if fuel == 0 {
                self.insert_error = true;
                return true;
            }
            match self.tail {
                None => {
                    self.insert_error = true;
                    true
                },
                Some(t) => {
                    self.tail = None;
                    match self.find_pos(t) {
                        Some(i) => {
                            let tname: String = self.records[i].crec.name.clone();
                            let taddr: Option<AllAddr> = self.records[i].crec.addr;
                            let tflags: u16 = self.records[i].crec.flags;
                            assert(self.records@[i as int]@.crec == recs_view(self.records@)[i as int].crec);
                            assert(times_ok(recs_view(self.records@)));
                            self.cache_scan_free(Some(tname.as_str()), taddr, now, tflags);
                        },
                        None => {},
                    }
                    self.cache_live_freed = self.cache_live_freed + 1;
                    self.evict(now, fuel - 1)
                },
            }
        } else {
            false
        }
    }

    /// Adds a record to the answer being inserted (see `spec_insert`):
    /// records of the same name (or address) and kind, and those run out,
    /// are freed; the least recently used records are dropped while the
    /// cache is full; then the record waits in `new_chain` for
    /// `cache_end_insert`.  A negative reverse record has no name.
    pub fn cache_insert(&mut self, name: Option<&str>, addr: Option<AllAddr>, now: Time, ttl: u32, flags: u16)
        requires
            old(self).wf(),
            name is Some,
            !(flags & F_NEG != 0 && flags & F_REVERSE != 0 && flags & F_FORWARD != 0),
            now.wf(),
            now.secs <= (i64::MAX - u32::MAX) as u64,
            old(self).records@.len() + old(self).cache_live_freed + 2 <= usize::MAX,
        ensures
            final(self).wf(),
            final(self)@ == cv_insert(old(self)@, opt_str(name), addr, now, ttl, flags),
            final(self).length <= old(self).length,
            final(self).cache_live_freed <= old(self).cache_live_freed + old(self).length + 1,
            final(self).new_chain@.len() <= old(self).new_chain@.len() + 1,
    {
        let name2: Option<&str> = if flags & F_NEG != 0 && flags & F_REVERSE != 0 {
            None
        } else {
            name
        };
        let flags2: u16 = flags & !F_CONFIG;
        if self.insert_error {
            return;
        }
        let ghost l0 = self.links();
        self.cache_scan_free(name2, addr, now, flags2);
        let ghost after_scan = *self;
        let ghost l1 = self.links();
        proof {
            lemma_remove_each_len(l0, scan_targets(l0.recs, self.hash_size, match name2 {
                Some(x) => Some(x@),
                None => None,
            }, addr, now, flags2));
        }
        let fuel0: usize = self.records.len() + 1;
        if self.evict(now, fuel0) {
            return;
        }
        let nm: String = match name2 {
            Some(n) => n.to_string(),
            None => String::new(),
        };
        let rec = Crec { ttd: Time { secs: now.secs + ttl as u64, nanos: now.nanos }, addr, flags: flags2, name: nm };
        let ghost chain0 = self.new_chain@;
        proof {
            reveal_strlit("");
        }
        assert(rec@ == new_crec(match name2 {
            Some(x) => Some(x@),
            None => None,
        }, addr, now, ttl, flags2));
        self.new_chain.push(rec);
        assert(crecs_view(self.new_chain@) =~= crecs_view(chain0).push(rec@));
    }

    /// Ends inserting an answer: unless an insertion failed, the waiting
    /// records join the table and the head of the list, in order.
    pub fn cache_end_insert(&mut self)
        requires
            old(self).wf(),
            old(self).next_uid + old(self).new_chain@.len() <= u64::MAX,
            old(self).length + old(self).new_chain@.len() <= usize::MAX,
            old(self).cache_inserted + old(self).new_chain@.len() <= usize::MAX,
        ensures
            final(self).wf(),
            old(self).insert_error ==> *final(self) == *old(self),
            !old(self).insert_error ==> {
                &&& final(self).links() == spec_add_chain(old(self).links(), crecs_view(old(self).new_chain@), old(self).next_uid)
                &&& final(self).new_chain@.len() == 0
                &&& final(self).next_uid == old(self).next_uid + old(self).new_chain@.len()
                &&& final(self).length == old(self).length + old(self).new_chain@.len()
                &&& final(self).cache_inserted == old(self).cache_inserted + old(self).new_chain@.len()
            },
            final(self)@ == cv_end_insert(old(self)@),
    {
        if self.insert_error {
            return;
        }
        let mut chain: Vec<Crec> = Vec::new();
        std::mem::swap(&mut chain, &mut self.new_chain);
        let ghost l0 = self.links();
        let ghost cv = crecs_view(chain@);
        let ghost uid0 = self.next_uid;
        let ghost len0 = self.length;
        let ghost ins0 = self.cache_inserted;
        let ghost old_chain = chain@;
        assert(cv.skip(0) =~= cv);
        let mut k: usize = 0;
        while k < chain.len()
            invariant
                self.wf(),
                k <= chain@.len(),
                chain@ == old_chain,
                forall|i: int| 0 <= i < chain@.len() ==> (#[trigger] chain@[i]).ttd.wf() && chain@[i].ttd.secs <= i64::MAX as u64,
                cv == crecs_view(chain@),
                self.next_uid == uid0 + k,
                self.length == len0 + k,
                self.cache_inserted == ins0 + k,
                uid0 + chain@.len() <= u64::MAX,
                len0 + chain@.len() <= usize::MAX,
                ins0 + chain@.len() <= usize::MAX,
                self.new_chain@.len() == 0,
                !self.insert_error,
                spec_add_chain(l0, cv, uid0) == spec_add_chain(self.links(), cv.skip(k as int), self.next_uid),
                self.cache_size == old(self).cache_size,
                self.hash_size == old(self).hash_size,
                self.dhcp_inuse@ == old(self).dhcp_inuse@,
                self.log_queries == old(self).log_queries,
                self.cache_live_freed == old(self).cache_live_freed,
                self.round_robin@ == old(self).round_robin@,
                self.match_name@ == old(self).match_name@,
                self.match_name_index == old(self).match_name_index,
                self.match_addr@ == old(self).match_addr@,
                self.match_addr_index == old(self).match_addr_index,
            decreases chain@.len() - k,
        {
            let uid: u64 = self.next_uid;
            let c: Crec = chain[k].copy();
            let ghost before = self.links();
            let ghost brecs = self.records@;
            self.records.push(CacheRec { uid, crec: c, prev: None, next: None });
            let ghost l1 = Links { recs: before.recs.push(RecView { uid, crec: cv[k as int], prev: None, next: None }), ..before };
            assert(cv[k as int] == chain@[k as int]@);
            assert(recs_view(self.records@) =~= l1.recs);
            self.next_uid = uid + 1;
            self.length = self.length + 1;
            assert forall|a: int, b: int| 0 <= a < b < recs_view(self.records@).len() implies recs_view(self.records@)[a].uid != recs_view(self.records@)[b].uid by {
                assert(recs_view(self.records@)[a] == self.records@[a]@);
                assert(recs_view(self.records@)[b] == self.records@[b]@);
                if b < brecs.len() {
                    assert(recs_view(brecs)[a] == brecs[a]@);
                    assert(recs_view(brecs)[b] == brecs[b]@);
                } else {
                    assert(self.records@[a] == brecs[a]);
                }
            }
            assert forall|i: int| 0 <= i < self.records@.len() implies (#[trigger] self.records@[i]).uid < self.next_uid by {
                if i < brecs.len() {
                    assert(self.records@[i] == brecs[i]);
                }
            }
            assert(times_ok(recs_view(self.records@))) by {
                assert forall|i: int| 0 <= i < recs_view(self.records@).len() implies (#[trigger] recs_view(self.records@)[i]).crec.ttd.wf()
                    && recs_view(self.records@)[i].crec.ttd.secs <= i64::MAX as u64 by {
                    assert(recs_view(self.records@)[i] == self.records@[i]@);
                    if i < brecs.len() {
                        assert(self.records@[i] == brecs[i]);
                        assert(recs_view(brecs)[i] == brecs[i]@);
                    }
                }
            }
            let ghost pre_link = self.links();
            self.cache_link(uid);
            proof {
                lemma_unlink_content(pre_link, uid);
                assert forall|a: int, b: int| 0 <= a < b < recs_view(self.records@).len() implies recs_view(self.records@)[a].uid != recs_view(self.records@)[b].uid by {
                    assert(recs_view(self.records@)[a].uid == pre_link.recs[a].uid);
                    assert(recs_view(self.records@)[b].uid == pre_link.recs[b].uid);
                }
                assert forall|i: int| 0 <= i < recs_view(self.records@).len() implies (#[trigger] recs_view(self.records@)[i]).crec.ttd.wf()
                    && recs_view(self.records@)[i].crec.ttd.secs <= i64::MAX as u64 by {
                    assert(recs_view(self.records@)[i].crec == pre_link.recs[i].crec);
                }
            }
            self.cache_inserted = self.cache_inserted + 1;
            assert(cv.skip(k as int).drop_first() =~= cv.skip(k + 1));
            assert(cv.skip(k as int)[0] == cv[k as int]);
            k += 1;
        }
        assert(cv.skip(cv.len() as int) =~= Seq::<CrecView>::empty());
        assert(crecs_view(self.new_chain@) =~= Seq::<CrecView>::empty());
    }
}

// ---------------------------------------------------------------------
// Searching
// ---------------------------------------------------------------------

/// Records from the hosts file or from DHCP: they are never on the list of
/// recent use and never freed by scanning.
pub open spec fn is_static(r: CrecView) -> bool {
    r.flags & (F_HOSTS | F_DHCP) != 0
}

/// Whether a record answers a search: by name, a forward record of one of
/// the kinds `prot` holding the name (ignoring ASCII case); by address, a
/// reverse record of one of those kinds holding the address.
pub open spec fn answers(r: CrecView, by_name: bool, name: Seq<char>, addr: Option<AllAddr>, prot: u16) -> bool {
    if by_name {
        r.flags & F_FORWARD != 0 && r.flags & prot != 0 && spec_hostname_isequal(r.name, name)
    } else {
        r.flags & F_REVERSE != 0 && r.flags & prot != 0 && r.addr == addr
    }
}

/// The live records among the first `n` that are in bucket `b` and answer
/// the search, in order.
pub open spec fn found_in(
    recs: Seq<RecView>,
    hs: usize,
    b: usize,
    n: int,
    by_name: bool,
    name: Seq<char>,
    addr: Option<AllAddr>,
    now: Time,
    prot: u16,
) -> Seq<RecView>
    decreases n,
{
    if n <= 0 || n > recs.len() {
        seq![]
    } else {
        let rest = found_in(recs, hs, b, n - 1, by_name, name, addr, now, prot);
        let r = recs[n - 1];
        if bucket_of(r.crec.name, hs) == b && live_at(r.crec, now) && answers(r.crec, by_name, name, addr, prot) {
            rest.push(r)
        } else {
            rest
        }
    }
}

/// The records among the first `n` in bucket `b` that are no longer live
/// and are not static: a search frees them.
pub open spec fn stale_in(recs: Seq<RecView>, hs: usize, b: usize, n: int, now: Time) -> Seq<u64>
    decreases n,
{
    if n <= 0 || n > recs.len() {
        seq![]
    } else {
        let rest = stale_in(recs, hs, b, n - 1, now);
        let r = recs[n - 1];
        if bucket_of(r.crec.name, hs) == b && !live_at(r.crec, now) && !is_static(r.crec) {
            rest.push(r.uid)
        } else {
            rest
        }
    }
}

/// The last of the first `n` records in bucket `b` that is static and no
/// longer live.
pub open spec fn static_stale_in(recs: Seq<RecView>, hs: usize, b: usize, n: int, now: Time) -> Option<RecView>
    decreases n,
{
    if n <= 0 || n > recs.len() {
        None
    } else {
        let r = recs[n - 1];
        if bucket_of(r.crec.name, hs) == b && !live_at(r.crec, now) && is_static(r.crec) {
            Some(r)
        } else {
            static_stale_in(recs, hs, b, n - 1, now)
        }
    }
}

/// `found_in` over the buckets below `nb`, bucket by bucket.
pub open spec fn found_all(
    recs: Seq<RecView>,
    hs: usize,
    nb: int,
    by_name: bool,
    name: Seq<char>,
    addr: Option<AllAddr>,
    now: Time,
    prot: u16,
) -> Seq<RecView>
    decreases nb,
{
    if nb <= 0 {
        seq![]
    } else {
        found_all(recs, hs, nb - 1, by_name, name, addr, now, prot) + found_in(
            recs,
            hs,
            (nb - 1) as usize,
            recs.len() as int,
            by_name,
            name,
            addr,
            now,
            prot,
        )
    }
}

/// `stale_in` over the buckets below `nb`, bucket by bucket.
pub open spec fn stale_all(recs: Seq<RecView>, hs: usize, nb: int, now: Time) -> Seq<u64>
    decreases nb,
{
    if nb <= 0 {
        seq![]
    } else {
        stale_all(recs, hs, nb - 1, now) + stale_in(recs, hs, (nb - 1) as usize, recs.len() as int, now)
    }
}

/// `static_stale_in` over the buckets below `nb`: the last one found.
pub open spec fn static_stale_all(recs: Seq<RecView>, hs: usize, nb: int, now: Time) -> Option<RecView>
    decreases nb,
{
    if nb <= 0 {
        None
    } else {
        match static_stale_in(recs, hs, (nb - 1) as usize, recs.len() as int, now) {
            Some(r) => Some(r),
            None => static_stale_all(recs, hs, nb - 1, now),
        }
    }
}

/// Moving record `uid` to the head of the list.  A record no longer in
/// the table has no neighbours, so taking it off the list empties both
/// ends, and it becomes the whole list.
pub open spec fn spec_move_to_front(l: Links, uid: u64) -> Links {
    let u = if present(l.recs, uid) {
        spec_unlink(l, uid)
    } else {
        Links { recs: l.recs, head: None, tail: None }
    };
    spec_link(u, uid)
}

/// The round-robin position of the first entry for exactly `name`.
pub open spec fn rr_pos(rr: Seq<RoundRobin>, name: Seq<char>) -> int
    decreases rr.len(),
{
    if rr.len() == 0 {
        0
    } else if rr[0].name@ == name {
        0
    } else {
        1 + rr_pos(rr.drop_first(), name)
    }
}

/// The round-robin index kept for `name`; 0 for a name not seen before.
pub open spec fn rr_get(rr: Seq<RoundRobin>, name: Seq<char>) -> usize {
    let p = rr_pos(rr, name);
    if 0 <= p < rr.len() {
        rr[p].index
    } else {
        0
    }
}

/// The round-robin index of `name` and that of every other name, after it
/// is set to `v`.
pub open spec fn rr_after(rr: Seq<RoundRobin>, name: Seq<char>, v: usize, rr2: Seq<RoundRobin>) -> bool {
    &&& rr_get(rr2, name) == v
    &&& forall|other: Seq<char>| other != name ==> rr_get(rr2, other) == rr_get(rr, other)
}

/// What the search hands back: the record found, when it answers the
/// search (a static record found because it is no longer live need not).
pub open spec fn checked(ans: Option<RecView>, by_name: bool, name: Seq<char>, addr: Option<AllAddr>, prot: u16) -> Option<RecView> {
    match ans {
        Some(r) => if answers(r.crec, by_name, name, addr, prot) {
            Some(r)
        } else {
            None
        },
        None => None,
    }
}

/// The records of the table keep their identifiers and contents, so the
/// invariant carries over.
proof fn lemma_wf_same_content(a: Cache, b: Cache)
    requires
        b.wf(),
        same_content(recs_view(a.records@), recs_view(b.records@)),
        a.length == b.length,
        a.next_uid == b.next_uid,
        a.hash_size == b.hash_size,
        a.new_chain@ == b.new_chain@,
    ensures
        a.wf(),
{
    let ra = recs_view(a.records@);
    let rb = recs_view(b.records@);
    assert forall|i: int, j: int| 0 <= i < j < ra.len() implies ra[i].uid != ra[j].uid by {
        assert(ra[i].uid == rb[i].uid);
        assert(ra[j].uid == rb[j].uid);
    }
    assert forall|i: int| 0 <= i < a.records@.len() implies (#[trigger] a.records@[i]).uid < a.next_uid by {
        assert(ra[i] == a.records@[i]@);
        assert(rb[i] == b.records@[i]@);
        assert(ra[i].uid == rb[i].uid);
    }
    assert forall|i: int| 0 <= i < ra.len() implies (#[trigger] ra[i]).crec.ttd.wf() && ra[i].crec.ttd.secs <= i64::MAX as u64 by {
        assert(ra[i].crec == rb[i].crec);
    }
}

impl Cache {
    /// Moves record `uid` to the head of the list of recent use (see
    /// `spec_move_to_front`).
    fn move_to_front(&mut self, uid: u64)
        requires
            old(self).wf(),
        ensures
            final(self).wf(),
            final(self).links() == spec_move_to_front(old(self).links(), uid),
            frame(*old(self), *final(self)),
    {
        let ghost l0 = self.links();
        if self.find_pos(uid).is_some() {
            self.cache_unlink(uid);
            proof {
                lemma_unlink_content(l0, uid);
            }
        } else {
            self.head = None;
            self.tail = None;
        }
        let ghost mid = *self;
        proof {
            lemma_wf_same_content(mid, *old(self));
        }
        self.cache_link(uid);
        proof {
            lemma_unlink_content(mid.links(), uid);
            lemma_same_content_trans(recs_view(self.records@), mid.links().recs, recs_view(old(self).records@));
            lemma_wf_same_content(*self, *old(self));
        }
    }

    /// Whether record `r` is live at `now` (see `live_at`).
    fn live_exec(r: &Crec, now: Time) -> (b: bool)
        requires
            r.ttd.wf(),
            r.ttd.secs <= i64::MAX as u64,
            now.wf(),
            now.secs <= i64::MAX as u64,
        ensures
            b == live_at(r@, now),
    {
        r.flags & F_IMMORTAL != 0 || difftime(now, r.ttd) < 0
    }

    /// Whether record `r` answers the search (see `answers`).
    fn answers_exec(r: &Crec, by_name: bool, name: &str, addr: Option<AllAddr>, prot: u16) -> (b: bool)
        ensures
            b == answers(r@, by_name, name@, addr, prot),
    {
        if by_name {
            r.flags & F_FORWARD != 0 && r.flags & prot != 0 && hostname_isequal(r.name.as_str(), name)
        } else {
            r.flags & F_REVERSE != 0 && r.flags & prot != 0 && addr_eq(r.addr, addr)
        }
    }

    /// Scans bucket `b`: appends the live records that answer the search
    /// to `found` and the stale records that are not static to `stale`,
    /// and keeps in `chain` the last static record no longer live.
    fn scan_bucket(
        &self,
        b: usize,
        by_name: bool,
        name: &str,
        addr: Option<AllAddr>,
        now: Time,
        prot: u16,
        found: &mut Vec<CacheRec>,
        stale: &mut Vec<u64>,
        chain: &mut Option<CacheRec>,
    )
        requires
            self.wf(),
            now.wf(),
            now.secs <= i64::MAX as u64,
        ensures
            recs_view(final(found)@) == recs_view(old(found)@) + found_in(
                recs_view(self.records@),
                self.hash_size,
                b,
                self.records@.len() as int,
                by_name,
                name@,
                addr,
                now,
                prot,
            ),
            final(stale)@ == old(stale)@ + stale_in(recs_view(self.records@), self.hash_size, b, self.records@.len() as int, now),
            opt_rec_view(*final(chain)) == match static_stale_in(
                recs_view(self.records@),
                self.hash_size,
                b,
                self.records@.len() as int,
                now,
            ) {
                Some(r) => Some(r),
                None => opt_rec_view(*old(chain)),
            },
    {
        let ghost rv = recs_view(self.records@);
        let ghost f0 = recs_view(found@);
        let ghost s0 = stale@;
        let ghost c0 = opt_rec_view(*chain);
        let mut i: usize = 0;
        while i < self.records.len()
            invariant
                rv == recs_view(self.records@),
                self.wf(),
                now.wf(),
                now.secs <= i64::MAX as u64,
                i <= self.records@.len(),
                recs_view(found@) == f0 + found_in(rv, self.hash_size, b, i as int, by_name, name@, addr, now, prot),
                stale@ == s0 + stale_in(rv, self.hash_size, b, i as int, now),
                opt_rec_view(*chain) == match static_stale_in(rv, self.hash_size, b, i as int, now) {
                    Some(r) => Some(r),
                    None => c0,
                },
            decreases self.records@.len() - i,
        {
            let r: &CacheRec = &self.records[i];
            assert(rv[i as int] == r@);
            assert(times_ok(rv));
            let inb: bool = self.hash_bucket(r.crec.name.as_str()) == b;
            let live: bool = Cache::live_exec(&r.crec, now);
            if inb && live && Cache::answers_exec(&r.crec, by_name, name, addr, prot) {
                let ghost fv = recs_view(found@);
                found.push(r.copy());
                assert(recs_view(found@) =~= fv.push(r@));
            }
            if inb && !live && !(r.crec.flags & (F_HOSTS | F_DHCP) != 0) {
                stale.push(r.uid);
            }
            if inb && !live && r.crec.flags & (F_HOSTS | F_DHCP) != 0 {
                *chain = Some(r.copy());
            }
            i += 1;
            assert(f0 + found_in(rv, self.hash_size, b, i as int, by_name, name@, addr, now, prot) =~= recs_view(found@));
            assert(s0 + stale_in(rv, self.hash_size, b, i as int, now) =~= stale@);
        }
    }
}

proof fn lemma_rr_pos(rr: Seq<RoundRobin>, name: Seq<char>)
    ensures
        0 <= rr_pos(rr, name) <= rr.len(),
        rr_pos(rr, name) < rr.len() ==> rr[rr_pos(rr, name)].name@ == name,
        forall|k: int| 0 <= k < rr_pos(rr, name) ==> rr[k].name@ != name,
    decreases rr.len(),
{
    if rr.len() > 0 && rr[0].name@ != name {
        lemma_rr_pos(rr.drop_first(), name);
        assert forall|k: int| 0 <= k < rr_pos(rr, name) implies rr[k].name@ != name by {
            if k > 0 {
                assert(rr[k] == rr.drop_first()[k - 1]);
            }
        }
    }
}

proof fn lemma_rr_pos_unique(rr: Seq<RoundRobin>, name: Seq<char>, q: int)
    requires
        0 <= q <= rr.len(),
        forall|k: int| 0 <= k < q ==> rr[k].name@ != name,
        q < rr.len() ==> rr[q].name@ == name,
    ensures
        rr_pos(rr, name) == q,
{
    lemma_rr_pos(rr, name);
    let p = rr_pos(rr, name);
    if p < q {
        assert(rr[p].name@ == name);
    }
    if q < p {
        assert(rr[q].name@ != name);
    }
}

/// The fields that a search leaves alone are the same.
pub open spec fn search_frame(a: Cache, b: Cache) -> bool {
    &&& a.cache_size == b.cache_size
    &&& a.hash_size == b.hash_size
    &&& a.dhcp_inuse@ == b.dhcp_inuse@
    &&& a.new_chain@ == b.new_chain@
    &&& a.log_queries == b.log_queries
    &&& a.cache_inserted == b.cache_inserted
    &&& a.cache_live_freed == b.cache_live_freed
    &&& a.insert_error == b.insert_error
    &&& a.next_uid == b.next_uid
}

/// The list after handing out record `x`: static records are not on it,
/// others move to its head.
pub open spec fn after_use(l: Links, x: Option<RecView>) -> Links {
    match x {
        Some(r) => if is_static(r.crec) {
            l
        } else {
            spec_move_to_front(l, r.uid)
        },
        None => l,
    }
}

/// The record at position `i` of a list, if there is one.
pub open spec fn nth(m: Seq<RecView>, i: int) -> Option<RecView> {
    if 0 <= i < m.len() {
        Some(m[i])
    } else {
        None
    }
}

/// The round-robin indices as a map from every name to its index.
pub open spec fn rr_view(rr: Seq<RoundRobin>) -> Map<Seq<char>, usize> {
    Map::new(|n: Seq<char>| true, |n: Seq<char>| rr_get(rr, n))
}

proof fn lemma_rr_view(rr: Seq<RoundRobin>, name: Seq<char>, v: usize, rr2: Seq<RoundRobin>)
    requires
        rr_after(rr, name, v, rr2),
    ensures
        rr_view(rr2) == rr_view(rr).insert(name, v),
{
    assert(rr_view(rr2) =~= rr_view(rr).insert(name, v));
}

/// What a search reads and changes: the table and the list, the records
/// kept by the last search and how far they were handed out, and the
/// round-robin indices.
pub struct SearchState {
    pub links: Links,
    pub matches: Seq<RecView>,
    pub index: usize,
    pub rr: Map<Seq<char>, usize>,
}

/// A search by name (see `Cache::cache_find_by_name`): the state after it
/// and the answer.  `again` asks for the next record of the last search.
pub open spec fn find_name_spec(s: SearchState, hs: usize, again: bool, name: Seq<char>, now: Time, prot: u16) -> (SearchState, Option<RecView>) {
    if again {
        let i = s.index + 1;
        let ans = nth(s.matches, i);
        (SearchState { links: after_use(s.links, ans), index: i as usize, ..s }, checked(ans, true, name, None, prot))
    } else {
        let recs = s.links.recs;
        let b = bucket_of(name, hs);
        let ms = found_in(recs, hs, b, recs.len() as int, true, name, None, now, prot);
        let ch = static_stale_in(recs, hs, b, recs.len() as int, now);
        let l1 = spec_remove_each(s.links, stale_in(recs, hs, b, recs.len() as int, now));
        if ch is Some {
            (SearchState { links: l1, matches: ms, index: 0, ..s }, checked(ch, true, name, None, prot))
        } else if ms.len() == 0 {
            (SearchState { links: l1, matches: ms, index: 0, ..s }, None)
        } else {
            let i0 = s.rr[name];
            let i = if i0 >= ms.len() {
                0
            } else {
                i0 as int
            };
            (
                SearchState {
                    links: after_use(l1, Some(ms[i])),
                    matches: rotate(ms, i),
                    index: 0,
                    rr: s.rr.insert(name, ((i + 1) % (ms.len() as int)) as usize),
                    ..s
                },
                checked(Some(ms[i]), true, name, None, prot),
            )
        }
    }
}

/// `m` turned so that it starts at position `i`: the records from `i` on,
/// then those before `i`.
pub open spec fn rotate(m: Seq<RecView>, i: int) -> Seq<RecView> {
    m.skip(i) + m.take(i)
}

/// A search by address (see `Cache::cache_find_by_addr`): the state after
/// it and the answer.
pub open spec fn find_addr_spec(s: SearchState, hs: usize, again: bool, addr: Option<AllAddr>, now: Time, prot: u16) -> (SearchState, Option<RecView>) {
    if again {
        let i = s.index + 1;
        let ans = nth(s.matches, i);
        (SearchState { links: after_use(s.links, ans), index: i as usize, ..s }, checked(ans, false, Seq::empty(), addr, prot))
    } else {
        let recs = s.links.recs;
        let ms = found_all(recs, hs, hs as int, false, Seq::empty(), addr, now, prot);
        let ch = static_stale_all(recs, hs, hs as int, now);
        let l1 = spec_remove_each(s.links, stale_all(recs, hs, hs as int, now));
        if ch is Some {
            (SearchState { links: l1, matches: ms, index: 0, ..s }, checked(ch, false, Seq::empty(), addr, prot))
        } else if ms.len() == 0 {
            (SearchState { links: l1, matches: ms, index: 0, ..s }, None)
        } else {
            (SearchState { links: after_use(l1, Some(ms[0])), matches: ms, index: 0, ..s }, checked(Some(ms[0]), false, Seq::empty(), addr, prot))
        }
    }
}

impl Cache {
    /// The state a search by name works on.
    pub open spec fn name_state(&self) -> SearchState {
        SearchState {
            links: self.links(),
            matches: recs_view(self.match_name@),
            index: self.match_name_index,
            rr: rr_view(self.round_robin@),
        }
    }

    /// The state a search by address works on.
    pub open spec fn addr_state(&self) -> SearchState {
        SearchState {
            links: self.links(),
            matches: recs_view(self.match_addr@),
            index: self.match_addr_index,
            rr: rr_view(self.round_robin@),
        }
    }
}

/// A copy of `m` turned so that it starts at position `i`.
fn rotated(m: &Vec<CacheRec>, i: usize) -> (r: Vec<CacheRec>)
    requires
        i <= m.len(),
    ensures
        recs_view(r@) == rotate(recs_view(m@), i as int),
{
    let mut r: Vec<CacheRec> = Vec::new();
    let mut k: usize = i;
    assert(recs_view(r@) =~= recs_view(m@).subrange(i as int, i as int));
    while k < m.len()
        invariant
            i <= k <= m.len(),
            recs_view(r@) == recs_view(m@).subrange(i as int, k as int),
        decreases m.len() - k,
    {
        let x: CacheRec = m[k].copy();
        let ghost r0 = r@;
        r.push(x);
        assert(recs_view(r@) =~= recs_view(r0).push(recs_view(m@)[k as int]));
        assert(recs_view(r@) =~= recs_view(m@).subrange(i as int, k + 1));
        k += 1;
    }
    assert(recs_view(r@) =~= recs_view(m@).skip(i as int) + recs_view(m@).take(0));
    let mut k: usize = 0;
    while k < i
        invariant
            k <= i <= m.len(),
            recs_view(r@) == recs_view(m@).skip(i as int) + recs_view(m@).take(k as int),
        decreases i - k,
    {
        let x: CacheRec = m[k].copy();
        let ghost r0 = r@;
        r.push(x);
        assert(recs_view(r@) =~= recs_view(r0).push(recs_view(m@)[k as int]));
        assert(recs_view(r@) =~= recs_view(m@).skip(i as int) + recs_view(m@).take(k + 1));
        k += 1;
    }
    r
}

/// A search by name on the whole cache.
pub open spec fn cv_find_name(c: CacheView, again: bool, name: Seq<char>, now: Time, prot: u16) -> (CacheView, Option<RecView>) {
    let s = SearchState { links: c.links, matches: c.name_matches, index: c.name_index, rr: c.rr };
    let (t, a) = find_name_spec(s, c.hash_size, again, name, now, prot);
    (CacheView { links: t.links, name_matches: t.matches, name_index: t.index, rr: t.rr, ..c }, a)
}

/// The live records of `name`'s bucket that answer a search by name.
pub open spec fn name_hits(c: CacheView, name: Seq<char>, now: Time, prot: u16) -> Seq<RecView> {
    let recs = c.links.recs;
    found_in(recs, c.hash_size, bucket_of(name, c.hash_size), recs.len() as int, true, name, None, now, prot)
}

/// A search by name followed by `k` searches for the next record.
pub open spec fn name_walk(c: CacheView, name: Seq<char>, now: Time, prot: u16, k: nat) -> CacheView
    decreases k,
{
    if k == 0 {
        cv_find_name(c, false, name, now, prot).0
    } else {
        cv_find_name(name_walk(c, name, now, prot, (k - 1) as nat), true, name, now, prot).0
    }
}

/// Walking the records of a name with `Cache::cache_find_by_name`: a
/// search keeps the live records that answer it, each once, and hands out
/// the first of them (where no record of the hosts file or of DHCP in the
/// name's bucket has run out); the `k`-th search for the next record after
/// it hands out the record at position `k`, and none past the end,
/// whatever searches came before.
pub proof fn law_name_walk(c: CacheView, name: Seq<char>, now: Time, prot: u16, k: nat)
    requires
        k < usize::MAX,
    ensures
        ({
            let recs = c.links.recs;
            let b = bucket_of(name, c.hash_size);
            static_stale_in(recs, c.hash_size, b, recs.len() as int, now) is None
                ==> cv_find_name(c, false, name, now, prot).1 == checked(
                nth(name_walk(c, name, now, prot, 0).name_matches, 0),
                true,
                name,
                None,
                prot,
            )
        }),
        name_walk(c, name, now, prot, 0).name_index == 0,
        name_walk(c, name, now, prot, 0).name_matches.to_multiset() == name_hits(c, name, now, prot).to_multiset(),
        name_walk(c, name, now, prot, k).name_matches == name_walk(c, name, now, prot, 0).name_matches,
        name_walk(c, name, now, prot, k).name_index == k,
        k >= 1 ==> cv_find_name(name_walk(c, name, now, prot, (k - 1) as nat), true, name, now, prot).1 == checked(
            nth(name_walk(c, name, now, prot, 0).name_matches, k as int),
            true,
            name,
            None,
            prot,
        ),
    decreases k,
{
    let ms = name_hits(c, name, now, prot);
    let w0 = name_walk(c, name, now, prot, 0);
    assert(w0.name_matches.to_multiset() == ms.to_multiset()) by {
        if w0.name_matches != ms {
            let i0 = c.rr[name];
            let i = if i0 >= ms.len() {
                0
            } else {
                i0 as int
            };
            assert(w0.name_matches == rotate(ms, i));
            vstd::seq_lib::lemma_multiset_commutative(ms.skip(i), ms.take(i));
            vstd::seq_lib::lemma_multiset_commutative(ms.take(i), ms.skip(i));
            assert(ms.take(i) + ms.skip(i) =~= ms);
        }
    }
    if k > 0 {
        law_name_walk(c, name, now, prot, (k - 1) as nat);
    }
}

/// A search by address on the whole cache.
pub open spec fn cv_find_addr(c: CacheView, again: bool, addr: Option<AllAddr>, now: Time, prot: u16) -> (CacheView, Option<RecView>) {
    let s = SearchState { links: c.links, matches: c.addr_matches, index: c.addr_index, rr: c.rr };
    let (t, a) = find_addr_spec(s, c.hash_size, again, addr, now, prot);
    (CacheView { links: t.links, addr_matches: t.matches, addr_index: t.index, ..c }, a)
}

impl Cache {
    /// The position of the round-robin entry for exactly `name`.
    fn rr_find(&self, name: &str) -> (p: usize)
        ensures
            p == rr_pos(self.round_robin@, name@),
    {
        proof {
            lemma_rr_pos(self.round_robin@, name@);
        }
        let mut i: usize = 0;
        while i < self.round_robin.len()
            invariant
                i <= self.round_robin@.len(),
                forall|k: int| 0 <= k < i ==> self.round_robin@[k].name@ != name@,
            decreases self.round_robin@.len() - i,
        {
            if str_eq(self.round_robin[i].name.as_str(), name) {
                proof {
                    lemma_rr_pos_unique(self.round_robin@, name@, i as int);
                }
                return i;
            }
            i += 1;
        }
        proof {
            lemma_rr_pos_unique(self.round_robin@, name@, i as int);
        }
        i
    }

    /// Sets the round-robin index of `name` to `v`.
    fn rr_store(&mut self, name: &str, v: usize)
        ensures
            rr_after(old(self).round_robin@, name@, v, final(self).round_robin@),
            *final(self) == (Cache { round_robin: final(self).round_robin, ..*old(self) }),
    {
        let p: usize = self.rr_find(name);
        let ghost rr = self.round_robin@;
        proof {
            lemma_rr_pos(rr, name@);
        }
        let e = RoundRobin { name: name.to_string(), index: v };
        if p < self.round_robin.len() {
            self.round_robin.set(p, e);
        } else {
            self.round_robin.push(e);
        }
        let ghost rr2 = self.round_robin@;
        proof {
            lemma_rr_pos_unique(rr2, name@, p as int);
            assert forall|other: Seq<char>| other != name@ implies rr_get(rr2, other) == rr_get(rr, other) by {
                lemma_rr_pos(rr, other);
                let q = rr_pos(rr, other);
                if q < rr.len() {
                    assert(q != p);
                    assert(rr2[q] == rr[q]);
                    assert forall|k: int| 0 <= k < q implies rr2[k].name@ != other by {
                        if k != p {
                            assert(rr2[k] == rr[k]);
                        }
                    }
                    lemma_rr_pos_unique(rr2, other, q);
                } else {
                    assert forall|k: int| 0 <= k < rr2.len() implies rr2[k].name@ != other by {
                        if k != p {
                            assert(rr2[k] == rr[k]);
                        }
                    }
                    lemma_rr_pos_unique(rr2, other, rr2.len() as int);
                }
            }
        }
    }

    /// Finds a record by name.  With `crecp` absent, searches the bucket of
    /// `name`: stale records that are not static are freed; when a static
    /// record of the bucket is no longer live the last such is the answer;
    /// otherwise the live records that answer are kept and handed out in
    /// turn over successive searches for the name (round robin).  With
    /// `crecp` present, hands out the next record kept by the last search.
    /// A record handed out that is not static moves to the head of the list
    /// of recent use.  What comes back is the record, when it answers the
    /// search.
    pub fn cache_find_by_name(&mut self, crecp: Option<u64>, name: &str, now: Time, prot: u16) -> (r: Option<CacheRec>)
        requires
            old(self).wf(),
            now.wf(),
            now.secs <= i64::MAX as u64,
            crecp is Some ==> old(self).match_name_index < usize::MAX,
        ensures
            final(self).wf(),
            search_frame(*old(self), *final(self)),
            final(self).match_addr@ == old(self).match_addr@,
            final(self).match_addr_index == old(self).match_addr_index,
            ({
                let (st, a) = find_name_spec(old(self).name_state(), old(self).hash_size, crecp is Some, name@, now, prot);
                &&& final(self).name_state() == st
                &&& opt_rec_view(r) == a
            }),
            final(self)@ == cv_find_name(old(self)@, crecp is Some, name@, now, prot).0,
            opt_rec_view(r) == cv_find_name(old(self)@, crecp is Some, name@, now, prot).1,
            final(self).length <= old(self).length,
    {
        let ans: Option<CacheRec>;
        if crecp.is_some() {
            self.match_name_index = self.match_name_index + 1;
            let i: usize = self.match_name_index;
            if i < self.match_name.len() {
                let x: CacheRec = self.match_name[i].copy();
                assert(recs_view(self.match_name@)[i as int] == x@);
                if x.crec.flags & (F_HOSTS | F_DHCP) == 0 {
                    self.move_to_front(x.uid);
                }
                ans = Some(x);
            } else {
                ans = None;
            }
        } else {
            let b: usize = self.hash_bucket(name);
            let mut found: Vec<CacheRec> = Vec::new();
            let mut stale: Vec<u64> = Vec::new();
            let mut chain: Option<CacheRec> = None;
            self.scan_bucket(b, true, name, None, now, prot, &mut found, &mut stale, &mut chain);
            assert(recs_view(Seq::<CacheRec>::empty()) =~= Seq::<RecView>::empty());
            assert(Seq::<u64>::empty() + stale@ =~= stale@);
            assert(Seq::<RecView>::empty() + recs_view(found@) =~= recs_view(found@));
            self.remove_each(&stale);
            let n: usize = found.len();
            self.match_name = found;
            self.match_name_index = 0;
            if chain.is_some() {
                ans = chain;
            } else if n == 0 {
                ans = None;
            } else {
                let i0: usize = {
                    let p: usize = self.rr_find(name);
                    if p < self.round_robin.len() {
                        self.round_robin[p].index
                    } else {
                        0
                    }
                };
                let i: usize = if i0 >= n {
                    0
                } else {
                    i0
                };
                let x: CacheRec = self.match_name[i].copy();
                assert(recs_view(self.match_name@)[i as int] == x@);
                let rot: Vec<CacheRec> = rotated(&self.match_name, i);
                self.match_name = rot;
                let ghost rr0 = self.round_robin@;
                let next_i: usize = (i + 1) % n;
                self.rr_store(name, next_i);
                proof {
                    lemma_rr_view(rr0, name@, next_i, self.round_robin@);
                }
                if x.crec.flags & (F_HOSTS | F_DHCP) == 0 {
                    self.move_to_front(x.uid);
                }
                ans = Some(x);
            }
        }
        match ans {
            Some(x) => {
                if Cache::answers_exec(&x.crec, true, name, None, prot) {
                    Some(x)
                } else {
                    None
                }
            },
            None => None,
        }
    }
}

impl Cache {
    /// Finds a reverse record by address.  With `crecp` absent, searches
    /// every bucket in turn: stale records that are not static are freed;
    /// when a static record is no longer live the last such found is the
    /// answer; otherwise the first live record that answers, and all of
    /// them are kept.  With `crecp` present, hands out the next record kept
    /// by the last search.  A record handed out that is not static moves to
    /// the head of the list of recent use.  What comes back is the record,
    /// when it answers the search.
    pub fn cache_find_by_addr(&mut self, crecp: Option<u64>, addr: Option<AllAddr>, now: Time, prot: u16) -> (r: Option<CacheRec>)
        requires
            old(self).wf(),
            now.wf(),
            now.secs <= i64::MAX as u64,
            crecp is Some ==> old(self).match_addr_index < usize::MAX,
        ensures
            final(self).wf(),
            search_frame(*old(self), *final(self)),
            final(self).match_name@ == old(self).match_name@,
            final(self).match_name_index == old(self).match_name_index,
            final(self).round_robin@ == old(self).round_robin@,
            ({
                let (st, a) = find_addr_spec(old(self).addr_state(), old(self).hash_size, crecp is Some, addr, now, prot);
                &&& final(self).addr_state() == st
                &&& opt_rec_view(r) == a
            }),
            final(self)@ == cv_find_addr(old(self)@, crecp is Some, addr, now, prot).0,
            final(self).length <= old(self).length,
    {
        let none: &str = "";
        proof {
            reveal_strlit("");
        }
        assert(none@ =~= Seq::<char>::empty());
        let ans: Option<CacheRec>;
        if crecp.is_some() {
            self.match_addr_index = self.match_addr_index + 1;
            let i: usize = self.match_addr_index;
            if i < self.match_addr.len() {
                let x: CacheRec = self.match_addr[i].copy();
                assert(recs_view(self.match_addr@)[i as int] == x@);
                if x.crec.flags & (F_HOSTS | F_DHCP) == 0 {
                    self.move_to_front(x.uid);
                }
                ans = Some(x);
            } else {
                ans = None;
            }
        } else {
            let ghost recs = recs_view(self.records@);
            let hs: usize = self.hash_size;
            let mut found: Vec<CacheRec> = Vec::new();
            let mut stale: Vec<u64> = Vec::new();
            let mut chain: Option<CacheRec> = None;
            let mut b: usize = 0;
            assert(recs_view(found@) =~= Seq::<RecView>::empty());
            while b < hs
                invariant
                    self.wf(),
                    now.wf(),
                    now.secs <= i64::MAX as u64,
                    hs == self.hash_size,
                    recs == recs_view(self.records@),
                    b <= hs,
                    none@ == Seq::<char>::empty(),
                    recs_view(found@) == found_all(recs, hs, b as int, false, none@, addr, now, prot),
                    stale@ == stale_all(recs, hs, b as int, now),
                    opt_rec_view(chain) == static_stale_all(recs, hs, b as int, now),
                decreases hs - b,
            {
                self.scan_bucket(b, false, none, addr, now, prot, &mut found, &mut stale, &mut chain);
                b += 1;
            }
            self.remove_each(&stale);
            let n: usize = found.len();
            self.match_addr = found;
            self.match_addr_index = 0;
            if chain.is_some() {
                ans = chain;
            } else if n == 0 {
                ans = None;
            } else {
                let x: CacheRec = self.match_addr[0].copy();
                assert(recs_view(self.match_addr@)[0] == x@);
                if x.crec.flags & (F_HOSTS | F_DHCP) == 0 {
                    self.move_to_front(x.uid);
                }
                ans = Some(x);
            }
        }
        match ans {
            Some(x) => {
                if Cache::answers_exec(&x.crec, false, none, addr, prot) {
                    Some(x)
                } else {
                    None
                }
            },
            None => None,
        }
    }
}

// ---------------------------------------------------------------------
// Records from the hosts file and from DHCP
// ---------------------------------------------------------------------

/// Adding a record to the table alone (not to the list of recent use).
pub open spec fn cv_hash(c: CacheView, r: CrecView) -> CacheView {
    CacheView {
        links: Links { recs: c.links.recs.push(RecView { uid: c.next_uid, crec: r, prev: None, next: None }), ..c.links },
        next_uid: (c.next_uid + 1) as u64,
        ..c
    }
}

/// The first `n` records less those from DHCP.
pub open spec fn keep_non_dhcp(recs: Seq<RecView>, n: int) -> Seq<RecView>
    decreases n,
{
    if n <= 0 || n > recs.len() {
        seq![]
    } else {
        let rest = keep_non_dhcp(recs, n - 1);
        if recs[n - 1].crec.flags & F_DHCP == 0 {
            rest.push(recs[n - 1])
        } else {
            rest
        }
    }
}

/// Whether `x` is one of the first `n` records.
pub open spec fn comes_from(x: RecView, recs: Seq<RecView>, n: int) -> bool {
    exists|j: int| 0 <= j < n && recs[j] == x
}

proof fn lemma_keep_non_dhcp(recs: Seq<RecView>, n: int)
    requires
        0 <= n <= recs.len(),
        uids_distinct(recs),
    ensures
        forall|k: int| 0 <= k < keep_non_dhcp(recs, n).len() ==> comes_from(#[trigger] keep_non_dhcp(recs, n)[k], recs, n),
        uids_distinct(keep_non_dhcp(recs, n)),
    decreases n,
{
    if n > 0 {
        lemma_keep_non_dhcp(recs, n - 1);
        let rest = keep_non_dhcp(recs, n - 1);
        let kept = keep_non_dhcp(recs, n);
        assert forall|k: int| 0 <= k < kept.len() implies comes_from(#[trigger] kept[k], recs, n) by {
            if k < rest.len() {
                assert(kept[k] == rest[k]);
                assert(comes_from(rest[k], recs, n - 1));
                let j = choose|j: int| 0 <= j < n - 1 && recs[j] == rest[k];
                assert(0 <= j < n && recs[j] == kept[k]);
            } else {
                assert(kept[k] == recs[n - 1]);
                assert(recs[n - 1] == kept[k]);
            }
        }
        assert forall|a: int, b: int| 0 <= a < b < kept.len() implies kept[a].uid != kept[b].uid by {
            assert(kept[a] == rest[a]);
            assert(comes_from(rest[a], recs, n - 1));
            let ja = choose|j: int| 0 <= j < n - 1 && recs[j] == rest[a];
            if b < rest.len() {
                assert(kept[b] == rest[b]);
            } else {
                assert(kept[b] == recs[n - 1]);
            }
        }
    }
}

/// Taking the DHCP records out of the table and forgetting the leases'
/// records.
pub open spec fn cv_unhash_dhcp(c: CacheView) -> CacheView {
    CacheView {
        links: Links { recs: keep_non_dhcp(c.links.recs, c.links.recs.len() as int), ..c.links },
        dhcp_inuse: Seq::empty(),
        ..c
    }
}

proof fn lemma_keep_non_dhcp_exact(recs: Seq<RecView>, n: int)
    requires
        0 <= n <= recs.len(),
    ensures
        forall|k: int| 0 <= k < keep_non_dhcp(recs, n).len() ==> (#[trigger] keep_non_dhcp(recs, n)[k]).crec.flags & F_DHCP == 0,
        forall|j: int| 0 <= j < n && (#[trigger] recs[j]).crec.flags & F_DHCP == 0 ==> keep_non_dhcp(recs, n).contains(recs[j]),
    decreases n,
{
    if n > 0 {
        lemma_keep_non_dhcp_exact(recs, n - 1);
        let rest = keep_non_dhcp(recs, n - 1);
        let kept = keep_non_dhcp(recs, n);
        assert forall|j: int| 0 <= j < n && (#[trigger] recs[j]).crec.flags & F_DHCP == 0 implies kept.contains(recs[j]) by {
            if j < n - 1 {
                let i = choose|i: int| 0 <= i < rest.len() && rest[i] == recs[j];
                assert(kept[i] == rest[i]);
            } else {
                assert(kept[kept.len() - 1] == recs[j]);
            }
        }
    }
}

/// Taking the DHCP records out of the cache leaves no DHCP record and
/// every other record as it was.
pub proof fn law_unhash_dhcp_keeps_others(c: CacheView)
    ensures
        forall|k: int|
            0 <= k < cv_unhash_dhcp(c).links.recs.len() ==> (#[trigger] cv_unhash_dhcp(c).links.recs[k]).crec.flags & F_DHCP == 0,
        forall|j: int|
            0 <= j < c.links.recs.len() && (#[trigger] c.links.recs[j]).crec.flags & F_DHCP == 0
                ==> cv_unhash_dhcp(c).links.recs.contains(c.links.recs[j]),
        cv_unhash_dhcp(c).dhcp_inuse.len() == 0,
{
    lemma_keep_non_dhcp_exact(c.links.recs, c.links.recs.len() as int);
}

/// The time at which no DHCP lease ends: a lease record with it never
/// runs out.
pub open spec fn epoch() -> Time {
    Time { secs: 0, nanos: 0 }
}

/// The record made for a DHCP lease.  (It holds no address.)
pub open spec fn dhcp_crec(name: Seq<char>, ttd: Time, flags: u16) -> CrecView {
    let fl = F_DHCP | F_FORWARD | F_IPV4 | flags;
    if ttd == epoch() {
        CrecView { ttd: epoch(), addr: None, flags: fl | F_IMMORTAL, name }
    } else {
        CrecView { ttd, addr: None, flags: fl, name }
    }
}

/// Adding the record of a DHCP lease for `name` at `addr`: the state after
/// it, and whether adding stops at a fault there (a negative reverse
/// record for the address is freed by a forward scan without a name).
/// A name held by a record from the hosts file, by another DHCP record,
/// or by a cached record that is not negative is left alone; a negative
/// record for the name is freed first.
pub open spec fn cv_add_dhcp_entry(c: CacheView, name: Seq<char>, addr: u32, ttd: Time, flags: u16) -> (CacheView, bool) {
    let (c1, f1) = cv_find_name(c, false, name, epoch(), F_IPV4);
    let go: Option<bool> = match f1 {
        None => Some(false),
        Some(r) => if r.crec.flags & F_HOSTS != 0 {
            None
        } else if r.crec.flags & F_DHCP == 0 {
            if r.crec.flags & F_NEG != 0 {
                Some(true)
            } else {
                None
            }
        } else {
            None
        },
    };
    match go {
        None => (c1, false),
        Some(scan) => {
            let c2 = if scan {
                cv_scan_free(c1, Some(name), None, epoch(), F_IPV4 | F_FORWARD)
            } else {
                c1
            };
            let (c3, f3) = cv_find_addr(c2, false, Some(AllAddr::V4(addr)), epoch(), F_IPV4);
            if f3 matches Some(r) && r.crec.flags & F_NEG != 0 {
                (c3, true)
            } else {
                let d = dhcp_crec(name, ttd, flags);
                (CacheView { dhcp_inuse: c3.dhcp_inuse.push(d), ..cv_hash(c3, d) }, false)
            }
        },
    }
}

impl Cache {
    /// Adds record `crec` to the table alone.
    pub fn cache_hash(&mut self, crec: Crec)
        requires
            old(self).wf(),
            crec.ttd.wf(),
            crec.ttd.secs <= i64::MAX as u64,
            old(self).next_uid < u64::MAX,
            old(self).length < usize::MAX,
        ensures
            final(self).wf(),
            final(self)@ == cv_hash(old(self)@, crec@),
            final(self).length == old(self).length + 1,
    {
        let uid: u64 = self.next_uid;
        let ghost brecs = self.records@;
        let ghost cv = crec@;
        self.records.push(CacheRec { uid, crec, prev: None, next: None });
        assert(recs_view(self.records@) =~= recs_view(brecs).push(RecView { uid, crec: cv, prev: None, next: None }));
        self.next_uid = uid + 1;
        self.length = self.length + 1;
        assert forall|a: int, b: int| 0 <= a < b < recs_view(self.records@).len() implies recs_view(self.records@)[a].uid
            != recs_view(self.records@)[b].uid by {
            assert(recs_view(self.records@)[a] == self.records@[a]@);
            assert(recs_view(self.records@)[b] == self.records@[b]@);
            if b < brecs.len() {
                assert(recs_view(brecs)[a] == brecs[a]@);
                assert(recs_view(brecs)[b] == brecs[b]@);
            } else {
                assert(self.records@[a] == brecs[a]);
            }
        }
        assert forall|i: int| 0 <= i < self.records@.len() implies (#[trigger] self.records@[i]).uid < self.next_uid by {
            if i < brecs.len() {
                assert(self.records@[i] == brecs[i]);
            }
        }
        assert(times_ok(recs_view(self.records@))) by {
            assert forall|i: int| 0 <= i < recs_view(self.records@).len() implies (#[trigger] recs_view(self.records@)[i]).crec.ttd.wf()
                && recs_view(self.records@)[i].crec.ttd.secs <= i64::MAX as u64 by {
                assert(recs_view(self.records@)[i] == self.records@[i]@);
                if i < brecs.len() {
                    assert(self.records@[i] == brecs[i]);
                    assert(recs_view(brecs)[i] == brecs[i]@);
                }
            }
        }
    }
}

/// Takes the DHCP records out of the table (they are not on the list of
/// recent use) and forgets the leases' records.
pub fn cache_unhash_dhcp(cache: &mut Cache)
    requires
        old(cache).wf(),
    ensures
        final(cache).wf(),
        final(cache)@ == cv_unhash_dhcp(old(cache)@),
        final(cache).length <= old(cache).length,
{
    let ghost rv = recs_view(cache.records@);
    let mut kept: Vec<CacheRec> = Vec::new();
    let mut i: usize = 0;
    while i < cache.records.len()
        invariant
            rv == recs_view(cache.records@),
            i <= cache.records@.len(),
            recs_view(kept@) == keep_non_dhcp(rv, i as int),
            kept@.len() <= i,
        decreases cache.records@.len() - i,
    {
        let r: &CacheRec = &cache.records[i];
        assert(rv[i as int] == r@);
        if r.crec.flags & F_DHCP == 0 {
            let ghost kv = recs_view(kept@);
            kept.push(r.copy());
            assert(recs_view(kept@) =~= kv.push(r@));
        }
        i += 1;
        assert(keep_non_dhcp(rv, i as int) =~= recs_view(kept@));
    }
    proof {
        lemma_keep_non_dhcp(rv, rv.len() as int);
    }
    let ghost kv = recs_view(kept@);
    cache.records = kept;
    cache.length = cache.records.len();
    cache.dhcp_inuse = Vec::new();
    assert(crecs_view(cache.dhcp_inuse@) =~= Seq::<CrecView>::empty());
    assert forall|a: int, b: int| 0 <= a < b < recs_view(cache.records@).len() implies recs_view(cache.records@)[a].uid
        != recs_view(cache.records@)[b].uid by {
        assert(kv[a].uid != kv[b].uid);
    }
    assert forall|k: int| 0 <= k < cache.records@.len() implies (#[trigger] cache.records@[k]).uid < cache.next_uid by {
        assert(kv[k] == cache.records@[k]@);
        assert(comes_from(kv[k], rv, rv.len() as int));
        let j = choose|j: int| 0 <= j < rv.len() && rv[j] == kv[k];
        assert(rv[j] == old(cache).records@[j]@);
    }
    assert forall|k: int| 0 <= k < kv.len() implies (#[trigger] kv[k]).crec.ttd.wf() && kv[k].crec.ttd.secs <= i64::MAX as u64 by {
        assert(comes_from(kv[k], rv, rv.len() as int));
        let j = choose|j: int| 0 <= j < rv.len() && rv[j] == kv[k];
        assert(times_ok(rv));
    }
}

/// Adds the record of a DHCP lease for `host_name` at `host_address` (see
/// `cv_add_dhcp_entry`); the name is first looked up, and the address.
pub fn cache_add_dhcp_entry(cache: &mut Cache, host_name: &str, host_address: u32, ttd: Time, flags: u16)
    requires
        old(cache).wf(),
        !cv_add_dhcp_entry(old(cache)@, host_name@, host_address, ttd, flags).1,
        ttd.wf(),
        ttd.secs <= i64::MAX as u64,
        old(cache).next_uid < u64::MAX,
        old(cache).length < usize::MAX,
    ensures
        final(cache).wf(),
        final(cache)@ == cv_add_dhcp_entry(old(cache)@, host_name@, host_address, ttd, flags).0,
        final(cache).length <= old(cache).length + 1,
        final(cache).next_uid <= old(cache).next_uid + 1,
{
    let zero: Time = Time { secs: 0, nanos: 0 };
    let found: Option<CacheRec> = cache.cache_find_by_name(None, host_name, zero, F_IPV4);
    let mut scan: bool = false;
    match found {
        Some(r) => {
            if r.crec.flags & F_HOSTS != 0 {
                return;
            } else if r.crec.flags & F_DHCP == 0 {
                if r.crec.flags & F_NEG != 0 {
                    scan = true;
                } else {
                    return;
                }
            } else {
                return;
            }
        },
        None => {},
    }
    if scan {
        cache.cache_scan_free(Some(host_name), None, zero, F_IPV4 | F_FORWARD);
    }
    let back: Option<CacheRec> = cache.cache_find_by_addr(None, Some(AllAddr::V4(host_address)), zero, F_IPV4);
    match back {
        Some(r) => {
            if r.crec.flags & F_NEG != 0 {
                // Never reached: `requires` leaves this case out.
                assert(false);
                return;
            }
        },
        None => {},
    }
    let fl: u16 = F_DHCP | F_FORWARD | F_IPV4 | flags;
    let crec: Crec = if ttd.secs == 0 && ttd.nanos == 0 {
        Crec { ttd: zero, addr: None, flags: fl | F_IMMORTAL, name: host_name.to_string() }
    } else {
        Crec { ttd, addr: None, flags: fl, name: host_name.to_string() }
    };
    let ghost d = crec@;
    assert(d == dhcp_crec(host_name@, ttd, flags));
    let ghost di = crecs_view(cache.dhcp_inuse@);
    cache.dhcp_inuse.push(crec.copy());
    assert(crecs_view(cache.dhcp_inuse@) =~= di.push(d));
    cache.cache_hash(crec);
}

// ---------------------------------------------------------------------
// The hosts file
// ---------------------------------------------------------------------

/// Adding a name read from the hosts file: the name is looked up first;
/// when a hosts record holds it with the same address nothing more is
/// done; when another record answers, a bare record for the name (no
/// address, no flags) joins the table; otherwise a record with the
/// address and `flags`.
pub open spec fn cv_add_hosts_entry(c: CacheView, name: Seq<char>, addr: AllAddr, flags: u16) -> CacheView {
    let prot = flags & (F_IPV4 | F_IPV6);
    let (c1, f) = cv_find_name(c, false, name, epoch(), prot);
    match f {
        Some(e) => if e.crec.flags & F_HOSTS != 0 && e.crec.addr == Some(addr) {
            c1
        } else {
            cv_hash(c1, CrecView { ttd: epoch(), addr: None, flags: 0, name })
        },
        None => cv_hash(c1, CrecView { ttd: epoch(), addr: Some(addr), flags, name }),
    }
}

/// Removing records keeps a property that every record had.
proof fn lemma_remove_each_keeps(l: Links, uids: Seq<u64>, p: spec_fn(CrecView) -> bool)
    requires
        forall|k: int| 0 <= k < l.recs.len() ==> #[trigger] p(l.recs[k].crec),
    ensures
        forall|k: int|
            0 <= k < spec_remove_each(l, uids).recs.len() ==> #[trigger] p(spec_remove_each(l, uids).recs[k].crec),
    decreases uids.len(),
{
    if uids.len() > 0 {
        if present(l.recs, uids[0]) {
            let uid = uids[0];
            lemma_unlink_content(l, uid);
            let u = spec_unlink(l, uid);
            let l2 = spec_remove(l, uid);
            assert forall|k: int| 0 <= k < u.recs.len() implies #[trigger] p(u.recs[k].crec) by {
                assert(u.recs[k].crec == l.recs[k].crec);
            }
            assert forall|k: int| 0 <= k < l2.recs.len() implies #[trigger] p(l2.recs[k].crec) by {
                if present(u.recs, uid) {
                    lemma_pos_of(u.recs, uid);
                    let i = pos_of(u.recs, uid);
                    if k < i {
                        assert(l2.recs[k] == u.recs[k]);
                    } else {
                        assert(l2.recs[k] == u.recs[k + 1]);
                    }
                }
            }
            lemma_remove_each_keeps(l2, uids.drop_first(), p);
        } else {
            lemma_remove_each_keeps(l, uids.drop_first(), p);
        }
    }
}

/// No record answers, so a search by name finds none.
proof fn lemma_found_in_empty(
    recs: Seq<RecView>,
    hs: usize,
    b: usize,
    n: int,
    name: Seq<char>,
    now: Time,
    prot: u16,
)
    requires
        forall|k: int| 0 <= k < recs.len() ==> !answers((#[trigger] recs[k]).crec, true, name, None, prot),
    ensures
        found_in(recs, hs, b, n, true, name, None, now, prot).len() == 0,
    decreases n,
{
    if 0 < n <= recs.len() {
        lemma_found_in_empty(recs, hs, b, n - 1, name, now, prot);
    }
}

/// Every static record lives for ever, so none is stale.
proof fn lemma_no_static_stale(recs: Seq<RecView>, hs: usize, b: usize, n: int, now: Time)
    requires
        forall|k: int| 0 <= k < recs.len() ==> is_static((#[trigger] recs[k]).crec) ==> recs[k].crec.flags & F_IMMORTAL != 0,
    ensures
        static_stale_in(recs, hs, b, n, now) is None,
    decreases n,
{
    if 0 < n <= recs.len() {
        lemma_no_static_stale(recs, hs, b, n - 1, now);
    }
}

/// A search reads only the records it has come to.
proof fn lemma_found_in_push(
    recs: Seq<RecView>,
    x: RecView,
    hs: usize,
    b: usize,
    n: int,
    name: Seq<char>,
    now: Time,
    prot: u16,
)
    requires
        n <= recs.len(),
    ensures
        found_in(recs.push(x), hs, b, n, true, name, None, now, prot) == found_in(recs, hs, b, n, true, name, None, now, prot),
    decreases n,
{
    if 0 < n {
        lemma_found_in_push(recs, x, hs, b, n - 1, name, now, prot);
        assert(recs.push(x)[n - 1] == recs[n - 1]);
    }
}

proof fn lemma_static_stale_push(recs: Seq<RecView>, x: RecView, hs: usize, b: usize, n: int, now: Time)
    requires
        n <= recs.len(),
    ensures
        static_stale_in(recs.push(x), hs, b, n, now) == static_stale_in(recs, hs, b, n, now),
    decreases n,
{
    if 0 < n {
        lemma_static_stale_push(recs, x, hs, b, n - 1, now);
        assert(recs.push(x)[n - 1] == recs[n - 1]);
    }
}

/// A name that no record of the cache answers, once read from the hosts
/// file with an address as a forward record that lives for ever, is then
/// found with that address: while every static record lives for ever (as
/// when the hosts file is read, before any DHCP lease), a search by name
/// of the same kind, at any time, answers with the new record.
pub proof fn law_hosts_entry_found(c: CacheView, name: Seq<char>, addr: AllAddr, flags: u16, now: Time)
    requires
        flags & F_FORWARD != 0,
        flags & F_IMMORTAL != 0,
        flags & (F_IPV4 | F_IPV6) != 0,
        forall|k: int|
            0 <= k < c.links.recs.len() ==> !answers((#[trigger] c.links.recs[k]).crec, true, name, None, flags & (F_IPV4 | F_IPV6)),
        forall|k: int|
            0 <= k < c.links.recs.len() ==> is_static((#[trigger] c.links.recs[k]).crec) ==> c.links.recs[k].crec.flags
                & F_IMMORTAL != 0,
    ensures
        cv_find_name(cv_add_hosts_entry(c, name, addr, flags), false, name, now, flags & (F_IPV4 | F_IPV6)).1 matches Some(r)
            && r.crec.addr == Some(addr) && r.crec.name == name && r.crec.flags == flags,
{
    let prot = flags & (F_IPV4 | F_IPV6);
    let hs = c.hash_size;
    let b = bucket_of(name, hs);
    let recs = c.links.recs;
    let n = recs.len() as int;
    lemma_found_in_empty(recs, hs, b, n, name, epoch(), prot);
    lemma_no_static_stale(recs, hs, b, n, epoch());
    let (c1, f) = cv_find_name(c, false, name, epoch(), prot);
    assert(f is None);
    let pa = |r: CrecView| !answers(r, true, name, None, prot);
    let ps = |r: CrecView| is_static(r) ==> r.flags & F_IMMORTAL != 0;
    let l1 = spec_remove_each(c.links, stale_in(recs, hs, b, n, epoch()));
    assert(c1.links == l1);
    assert forall|k: int| 0 <= k < recs.len() implies #[trigger] pa(recs[k].crec) by {}
    assert forall|k: int| 0 <= k < recs.len() implies #[trigger] ps(recs[k].crec) by {}
    lemma_remove_each_keeps(c.links, stale_in(recs, hs, b, n, epoch()), pa);
    lemma_remove_each_keeps(c.links, stale_in(recs, hs, b, n, epoch()), ps);
    let recs1 = l1.recs;
    let x = RecView { uid: c1.next_uid, crec: CrecView { ttd: epoch(), addr: Some(addr), flags, name }, prev: None, next: None };
    let c2 = cv_add_hosts_entry(c, name, addr, flags);
    assert(c2.links.recs == recs1.push(x));
    let recs2 = recs1.push(x);
    let n1 = recs1.len() as int;
    assert forall|k: int| 0 <= k < recs1.len() implies !answers((#[trigger] recs1[k]).crec, true, name, None, prot) by {
        assert(pa(recs1[k].crec));
    }
    assert forall|k: int| 0 <= k < recs2.len() && is_static((#[trigger] recs2[k]).crec) implies recs2[k].crec.flags
        & F_IMMORTAL != 0 by {
        if k < recs1.len() {
            assert(ps(recs1[k].crec));
        }
    }
    lemma_found_in_empty(recs1, hs, b, n1, name, now, prot);
    lemma_found_in_push(recs1, x, hs, b, n1, name, now, prot);
    lemma_no_static_stale(recs2, hs, b, n1 + 1, now);
    assert(spec_hostname_isequal(name, name));
    assert(answers(x.crec, true, name, None, prot)) by {
        assert(flags & prot != 0) by (bit_vector)
            requires prot == flags & (F_IPV4 | F_IPV6), flags & (F_IPV4 | F_IPV6) != 0;
    }
    assert(live_at(x.crec, now));
    let ms = found_in(recs2, hs, b, n1 + 1, true, name, None, now, prot);
    assert(ms =~= seq![x]);
}

/// The characters that part the fields of a hosts-file line.
pub open spec fn is_host_sep(c: char) -> bool {
    c == ' ' || c == '|' || c == '\t' || c == '\n' || c == '\r'
}

/// The fields finished among the first `n` characters, and the field
/// being read.
pub open spec fn split_acc(s: Seq<char>, n: int) -> (Seq<Seq<char>>, Seq<char>)
    decreases n,
{
    if n <= 0 || n > s.len() {
        (seq![], seq![])
    } else {
        let (d, c) = split_acc(s, n - 1);
        if is_host_sep(s[n - 1]) {
            if c.len() > 0 {
                (d.push(c), seq![])
            } else {
                (d, c)
            }
        } else {
            (d, c.push(s[n - 1]))
        }
    }
}

/// The fields of a line: the runs of characters that are not separators.
pub open spec fn host_tokens(s: Seq<char>) -> Seq<Seq<char>> {
    let (d, c) = split_acc(s, s.len() as int);
    if c.len() > 0 {
        d.push(c)
    } else {
        d
    }
}

/// The characters of some strings.
pub open spec fn strings_view(v: Seq<String>) -> Seq<Seq<char>> {
    v.map_values(|x: String| x@)
}

/// The flags of a hosts-file record for `addr`.
pub open spec fn hosts_flags(addr: AllAddr) -> u16 {
    match addr {
        AllAddr::V4(_) => F_HOSTS | F_IMMORTAL | F_FORWARD | F_REVERSE | F_IPV4,
        AllAddr::V6(_) => F_HOSTS | F_IMMORTAL | F_FORWARD | F_REVERSE | F_IPV6,
    }
}

/// Adding the names `toks[1..n]` of a hosts-file line for `addr`: empty
/// fields and fields starting with `#` are passed over, names with
/// characters not allowed are counted out; each good name is added (with
/// the domain suffix first, for a name without a dot when asked to
/// expand).  Gives the cache and how many names were good.
pub open spec fn cv_hosts_names(
    c: CacheView,
    toks: Seq<Seq<char>>,
    n: int,
    addr: AllAddr,
    opts: u32,
    suffix: Option<Seq<char>>,
    addn_flag: u16,
) -> (CacheView, nat)
    decreases n,
{
    if n <= 1 || n > toks.len() {
        (c, 0)
    } else {
        let (c0, k0) = cv_hosts_names(c, toks, n - 1, addr, opts, suffix, addn_flag);
        let (c1, good) = cv_hosts_name(c0, toks[n - 1], addr, hosts_flags(addr) | addn_flag, opts, suffix);
        (c1, if good {
            k0 + 1
        } else {
            k0
        })
    }
}

/// Adding one field `t` of a hosts-file line (see `cv_hosts_names`):
/// the cache after it, and whether it was a good name.
pub open spec fn cv_hosts_name(c: CacheView, t: Seq<char>, addr: AllAddr, fl: u16, opts: u32, suffix: Option<Seq<char>>) -> (CacheView, bool) {
    if t.len() == 0 || t[0] == '#' || !spec_canonical(t) {
        (c, false)
    } else {
        let c1 = if opts & OPT_EXPAND != 0 && suffix is Some && !t.contains('.') {
            cv_add_hosts_entry(c, t + seq!['.'] + suffix->0, addr, fl)
        } else {
            c
        };
        (cv_add_hosts_entry(c1, t, addr, fl), true)
    }
}

/// Adds the name `name` read from the hosts file for `addr` (see
/// `cv_add_hosts_entry`).
pub fn add_hosts_entry(cache: &mut Cache, name: &str, addr: AllAddr, flags: u16)
    requires
        old(cache).wf(),
        old(cache).next_uid < u64::MAX,
        old(cache).length < usize::MAX,
    ensures
        final(cache).wf(),
        final(cache)@ == cv_add_hosts_entry(old(cache)@, name@, addr, flags),
        final(cache).length <= old(cache).length + 1,
        final(cache).next_uid <= old(cache).next_uid + 1,
{
    let prot: u16 = flags & (F_IPV4 | F_IPV6);
    let zero: Time = Time { secs: 0, nanos: 0 };
    match cache.cache_find_by_name(None, name, zero, prot) {
        Some(e) => {
            if e.crec.flags & F_HOSTS != 0 && addr_eq(e.crec.addr, Some(addr)) {
                return;
            }
            cache.cache_hash(Crec { ttd: zero, addr: None, flags: 0, name: name.to_string() });
        },
        None => {
            cache.cache_hash(Crec { ttd: zero, addr: Some(addr), flags, name: name.to_string() });
        },
    }
}

/// The fields of a hosts-file line (see `host_tokens`); none for an empty
/// line or a comment.
pub fn hosts_line_tokens(line: &str) -> (v: Vec<String>)
    ensures
        strings_view(v@) == (if line@.len() == 0 || line@[0] == '#' {
            Seq::<Seq<char>>::empty()
        } else {
            host_tokens(line@)
        }),
{
    let chars: Vec<char> = str_chars(line);
    let mut done: Vec<String> = Vec::new();
    if chars.len() == 0 || chars[0] == '#' {
        assert(strings_view(done@) =~= Seq::<Seq<char>>::empty());
        return done;
    }
    let mut cur: Vec<char> = Vec::new();
    let mut i: usize = 0;
    while i < chars.len()
        invariant
            chars@ == line@,
            i <= chars@.len(),
            strings_view(done@) == split_acc(line@, i as int).0,
            cur@ == split_acc(line@, i as int).1,
        decreases chars@.len() - i,
    {
        let c: char = chars[i];
        if c == ' ' || c == '|' || c == '\t' || c == '\n' || c == '\r' {
            if cur.len() > 0 {
                let ghost dv = strings_view(done@);
                let t: String = string_from_chars(cur.as_slice());
                done.push(t);
                assert(strings_view(done@) =~= dv.push(cur@));
                cur = Vec::new();
            }
        } else {
            cur.push(c);
        }
        i += 1;
        assert(cur@ =~= split_acc(line@, i as int).1);
    }
    if cur.len() > 0 {
        let ghost dv = strings_view(done@);
        let t: String = string_from_chars(cur.as_slice());
        done.push(t);
        assert(strings_view(done@) =~= dv.push(cur@));
    }
    done
}

/// Adds one field `t` of a hosts-file line (see `cv_hosts_name`); says
/// whether it was a good name.
fn add_hosts_name(cache: &mut Cache, t: &str, addr: AllAddr, fl: u16, opts: u32, domain_suffix: &Option<String>) -> (good: bool)
    requires
        old(cache).wf(),
        old(cache).next_uid + 2 < u64::MAX,
        old(cache).length + 2 < usize::MAX,
    ensures
        final(cache).wf(),
        (final(cache)@, good) == cv_hosts_name(
            old(cache)@,
            t@,
            addr,
            fl,
            opts,
            match domain_suffix {
                Some(x) => Some(x@),
                None => None,
            },
        ),
        final(cache).length <= old(cache).length + 2,
        final(cache).next_uid <= old(cache).next_uid + 2,
{
    let tc: Vec<char> = str_chars(t);
    if tc.len() == 0 || tc[0] == '#' || !canonicalise(t) {
        return false;
    }
    let mut has_dot: bool = false;
    let mut k: usize = 0;
    while k < tc.len()
        invariant
            k <= tc@.len(),
            has_dot == (exists|j: int| 0 <= j < k && tc@[j] == '.'),
        decreases tc@.len() - k,
    {
        if tc[k] == '.' {
            has_dot = true;
        }
        k += 1;
    }
    assert(has_dot == t@.contains('.'));
    if opts & OPT_EXPAND != 0 && !has_dot {
        match domain_suffix {
            Some(sx) => {
                let mut full: Vec<char> = tc.clone();
                full.push('.');
                let sc: Vec<char> = str_chars(sx.as_str());
                let mut j: usize = 0;
                let ghost base = full@;
                while j < sc.len()
                    invariant
                        j <= sc@.len(),
                        full@ == base + sc@.take(j as int),
                    decreases sc@.len() - j,
                {
                    full.push(sc[j]);
                    j += 1;
                    assert(sc@.take(j as int) =~= sc@.take(j - 1).push(sc@[j - 1]));
                }
                assert(sc@.take(sc@.len() as int) =~= sc@);
                let name: String = string_from_chars(full.as_slice());
                assert(name@ =~= t@ + seq!['.'] + sx@);
                add_hosts_entry(cache, name.as_str(), addr, fl);
            },
            None => {},
        }
    }
    add_hosts_entry(cache, t, addr, fl);
    true
}

/// Adds the names of a hosts-file line whose fields are `toks` and whose
/// address, the first field, reads as `addr` (see `cv_hosts_names`);
/// gives how many names were good.
pub fn add_hosts_line(
    cache: &mut Cache,
    toks: &[String],
    addr: AllAddr,
    opts: u32,
    domain_suffix: &Option<String>,
    addn_flag: u16,
) -> (count: u32)
    requires
        old(cache).wf(),
        old(cache).next_uid + 2 * toks@.len() < u64::MAX,
        old(cache).length + 2 * toks@.len() < usize::MAX,
        toks@.len() < u32::MAX,
    ensures
        final(cache).wf(),
        ({
            let (c, k) = cv_hosts_names(
                old(cache)@,
                strings_view(toks@),
                toks@.len() as int,
                addr,
                opts,
                match domain_suffix {
                    Some(x) => Some(x@),
                    None => None,
                },
                addn_flag,
            );
            final(cache)@ == c && count == k
        }),
{
    let fl: u16 = match addr {
        AllAddr::V4(_) => F_HOSTS | F_IMMORTAL | F_FORWARD | F_REVERSE | F_IPV4,
        AllAddr::V6(_) => F_HOSTS | F_IMMORTAL | F_FORWARD | F_REVERSE | F_IPV6,
    } | addn_flag;
    let ghost tv = strings_view(toks@);
    let ghost sfx = match domain_suffix {
        Some(x) => Some(x@),
        None => None,
    };
    let mut count: u32 = 0;
    let mut i: usize = 1;
    while i < toks.len()
        invariant
            1 <= i,
            i <= toks@.len() || toks@.len() == 0,
            tv == strings_view(toks@),
            cache.wf(),
            cache.next_uid <= old(cache).next_uid + 2 * i,
            cache.length <= old(cache).length + 2 * i,
            old(cache).next_uid + 2 * toks@.len() < u64::MAX,
            old(cache).length + 2 * toks@.len() < usize::MAX,
            toks@.len() < u32::MAX,
            count <= i,
            fl == hosts_flags(addr) | addn_flag,
            sfx == match domain_suffix {
                Some(x) => Some(x@),
                None => None,
            },
            ({
                let (c, k) = cv_hosts_names(old(cache)@, tv, i as int, addr, opts, sfx, addn_flag);
                cache@ == c && count == k
            }),
        decreases toks@.len() - i,
    {
        let t: &str = toks[i].as_str();
        assert(tv[i as int] == t@);
        let ghost cb = cache@;
        let ghost kb = count;
        let good: bool = add_hosts_name(cache, t, addr, fl, opts, domain_suffix);
        assert((cache@, good) == cv_hosts_name(cb, tv[i as int], addr, hosts_flags(addr) | addn_flag, opts, sfx));
        if good {
            count = count + 1;
        }
        assert(cv_hosts_names(old(cache)@, tv, i as int, addr, opts, sfx, addn_flag) == (cb, kb as nat));
        assert(cv_hosts_names(old(cache)@, tv, i + 1, addr, opts, sfx, addn_flag) == (cache@, count as nat));
        i += 1;
    }
    count
}

/// The non-DHCP records of bucket `b` among the first `n`, in order.
pub open spec fn non_dhcp_in(recs: Seq<RecView>, hs: usize, b: usize, n: int) -> Seq<u64>
    decreases n,
{
    if n <= 0 || n > recs.len() {
        seq![]
    } else {
        let rest = non_dhcp_in(recs, hs, b, n - 1);
        let r = recs[n - 1];
        if bucket_of(r.crec.name, hs) == b && r.crec.flags & F_DHCP == 0 {
            rest.push(r.uid)
        } else {
            rest
        }
    }
}

/// `non_dhcp_in` over the buckets below `nb`, bucket by bucket.
pub open spec fn non_dhcp_all(recs: Seq<RecView>, hs: usize, nb: int) -> Seq<u64>
    decreases nb,
{
    if nb <= 0 {
        seq![]
    } else {
        non_dhcp_all(recs, hs, nb - 1) + non_dhcp_in(recs, hs, (nb - 1) as usize, recs.len() as int)
    }
}

/// Which files a reload reads after clearing the cache.
pub struct ReloadPlan {
    pub read_hosts: bool,
    pub read_addn_hosts: bool,
}

/// Reloads the cache: every record not from DHCP is removed, bucket by
/// bucket; then the hosts file is to be read unless the options say not
/// to, and the additional hosts file when there is one.
pub fn cache_reload(cache: &mut Cache, opts: u32, has_addn_hosts: bool) -> (plan: ReloadPlan)
    requires
        old(cache).wf(),
    ensures
        final(cache).wf(),
        final(cache)@ == (CacheView {
            links: spec_remove_each(
                old(cache).links(),
                non_dhcp_all(old(cache).links().recs, old(cache).hash_size, old(cache).hash_size as int),
            ),
            ..old(cache)@
        }),
        plan.read_hosts == (opts & OPT_NO_HOSTS == 0),
        plan.read_addn_hosts == has_addn_hosts,
{
    let ghost recs = recs_view(cache.records@);
    let hs: usize = cache.hash_size;
    let mut targets: Vec<u64> = Vec::new();
    let mut b: usize = 0;
    while b < hs
        invariant
            cache.wf(),
            hs == cache.hash_size,
            recs == recs_view(cache.records@),
            b <= hs,
            targets@ == non_dhcp_all(recs, hs, b as int),
        decreases hs - b,
    {
        let ghost t0 = targets@;
        let mut i: usize = 0;
        while i < cache.records.len()
            invariant
                cache.wf(),
                recs == recs_view(cache.records@),
                b < hs,
                hs == cache.hash_size,
                i <= cache.records@.len(),
                targets@ == t0 + non_dhcp_in(recs, hs, b, i as int),
            decreases cache.records@.len() - i,
        {
            let r: &CacheRec = &cache.records[i];
            assert(recs[i as int] == r@);
            if cache.hash_bucket(r.crec.name.as_str()) == b && r.crec.flags & F_DHCP == 0 {
                targets.push(r.uid);
            }
            i += 1;
            assert(t0 + non_dhcp_in(recs, hs, b, i as int) =~= targets@);
        }
        b += 1;
    }
    cache.remove_each(&targets);
    ReloadPlan { read_hosts: opts & OPT_NO_HOSTS == 0, read_addn_hosts: has_addn_hosts }
}

} // verus!
