//! Learning from replies: the resource records of an upstream answer are
//! read and put in the cache (addresses, reverse names, names behind a
//! CNAME), and a reply without answers leaves negative records.

use crate::arpa::{arpa_outcome, be_u128, in_arpa_name_2_addr, ArpaOutcome};
use crate::cache::{cv_end_insert, cv_insert, cv_start_insert, Cache, CacheView};
use crate::dnsmasq::{
    spec_header_bytes, spec_header_of, AllAddr, BogusAddr, Header, C_IN, F_CONFIG, F_FORWARD, F_IPV4, F_IPV6, F_NEG, F_NXDOMAIN, F_REVERSE, NXDOMAIN,
    T_A, T_AAAA, T_CNAME, T_PTR, T_SOA,
};
use crate::rfc1035::{
    extract_name, header_of, skip_questions, spec_answer_offset, spec_extract_name, spec_skip_questions,
    NameOutcome, Skip,
};
use crate::util::{be16_value, be32_value, get_long, get_short, str_eq, Time};
use vstd::prelude::*;

verus! {

// ---------------------------------------------------------------------
// Reading records
// ---------------------------------------------------------------------

/// The fixed part of a resource record, after its name.
pub struct RrHead {
    pub name: Seq<char>,
    pub qtype: u16,
    pub qclass: u16,
    pub ttl: u32,
    pub rdlen: u16,
    /// What follows the fixed part: the record's data, then the rest.
    pub rest: Seq<u8>,
}

/// How reading a record (or a question) ends.
pub enum RrRead {
    /// The reader would index past the end of the message.
    Panic,
    /// The name is malformed.
    Fail,
    Read(RrHead),
}

/// Reading the name at the start of `p` and the `fixed` bytes after it
/// (10 for a record: type, class, time to live, data length; 4 for a
/// question: type and class).
pub open spec fn spec_read_rr(packet: Seq<u8>, p: Seq<u8>, fixed: int) -> RrRead {
    match spec_extract_name(packet, p) {
        NameOutcome::Panic => RrRead::Panic,
        NameOutcome::Fail => RrRead::Fail,
        NameOutcome::Done(n, r) => if n.len() == 0 {
            RrRead::Fail
        } else {
            let q = p.subrange(r, p.len() as int);
            if q.len() < fixed {
                RrRead::Panic
            } else {
                RrRead::Read(
                    RrHead {
                        name: n,
                        qtype: be16_value(q[0], q[1]),
                        qclass: be16_value(q[2], q[3]),
                        ttl: if fixed >= 10 {
                            be32_value(q[4], q[5], q[6], q[7])
                        } else {
                            0
                        },
                        rdlen: if fixed >= 10 {
                            be16_value(q[8], q[9])
                        } else {
                            0
                        },
                        rest: q.subrange(fixed, q.len() as int),
                    },
                )
            }
        },
    }
}

/// Reads a record (`full`) or a question at the start of `p` (see
/// `spec_read_rr`) and advances `p` past its fixed part.
pub fn read_rr(packet: &[u8], p: &mut &[u8], full: bool) -> (r: Option<(String, u16, u16, u32, u16)>)
    requires
        !(spec_read_rr(packet@, old(p)@, if full {
            10
        } else {
            4
        }) is Panic),
    ensures
        match spec_read_rr(packet@, old(p)@, if full {
            10
        } else {
            4
        }) {
            RrRead::Read(h) => r matches Some((n, t, c, ttl, rd)) && n@ == h.name && t == h.qtype && c == h.qclass && ttl
                == h.ttl && rd == h.rdlen && final(p)@ == h.rest,
            _ => r is None,
        },
        final(p)@.len() <= old(p)@.len(),
{
    let name: String = extract_name(packet, p);
    if name.as_str().is_empty() {
        return None;
    }
    let qtype: u16 = get_short(p);
    let qclass: u16 = get_short(p);
    if full {
        let ttl: u32 = get_long(p);
        let rdlen: u16 = get_short(p);
        Some((name, qtype, qclass, ttl, rdlen))
    } else {
        Some((name, qtype, qclass, 0, 0))
    }
}

// ---------------------------------------------------------------------
// Negative answers
// ---------------------------------------------------------------------

/// The walk through the authority section looking for SOA records.
pub enum NsState {
    Panic,
    /// A malformed name ends the walk and the whole reading.
    Stop,
    /// Where the next record starts, whether an SOA was seen, and the
    /// smallest time to live found.
    Go(Seq<u8>, bool, u32),
}

/// The smaller of two times to live.
pub open spec fn min_ttl(a: u32, b: u32) -> u32 {
    if a < b {
        a
    } else {
        b
    }
}

/// Reading an SOA record's data: two names, four numbers, and the minimum
/// time to live, which with the record's own may lower the smallest seen.
pub open spec fn soa_step(packet: Seq<u8>, h: RrHead, found: bool, minttl: u32) -> NsState {
    match spec_extract_name(packet, h.rest) {
        NameOutcome::Panic => NsState::Panic,
        NameOutcome::Fail => NsState::Stop,
        NameOutcome::Done(n1, r1) => if n1.len() == 0 {
            NsState::Stop
        } else {
            let q1 = h.rest.subrange(r1, h.rest.len() as int);
            match spec_extract_name(packet, q1) {
                NameOutcome::Panic => NsState::Panic,
                NameOutcome::Fail => NsState::Stop,
                NameOutcome::Done(n2, r2) => if n2.len() == 0 {
                    NsState::Stop
                } else {
                    let q2 = q1.subrange(r2, q1.len() as int);
                    if q2.len() < 20 {
                        NsState::Panic
                    } else {
                        let m1 = if !found {
                            h.ttl
                        } else {
                            min_ttl(h.ttl, minttl)
                        };
                        let t = be32_value(q2[16], q2[17], q2[18], q2[19]);
                        NsState::Go(q2.subrange(20, q2.len() as int), true, min_ttl(t, m1))
                    }
                },
            }
        },
    }
}

/// One record of the authority section: an SOA record is read; any other
/// is stepped over by its data length.
#[verifier::opaque]
pub open spec fn ns_step(packet: Seq<u8>, p: Seq<u8>, found: bool, minttl: u32) -> NsState {
    match spec_read_rr(packet, p, 10) {
        RrRead::Panic => NsState::Panic,
        RrRead::Fail => NsState::Stop,
        RrRead::Read(h) => if h.qclass == C_IN && h.qtype == T_SOA {
            soa_step(packet, h, found, minttl)
        } else if h.rdlen > h.rest.len() {
            NsState::Panic
        } else {
            NsState::Go(h.rest.subrange(h.rdlen as int, h.rest.len() as int), found, minttl)
        },
    }
}

/// The first `i` records of the authority section, from `p0`.
pub open spec fn ns_run(packet: Seq<u8>, p0: Seq<u8>, i: nat) -> NsState
    decreases i,
{
    if i == 0 {
        NsState::Go(p0, false, 0)
    } else {
        match ns_run(packet, p0, (i - 1) as nat) {
            NsState::Go(p, f, m) => ns_step(packet, p, f, m),
            other => other,
        }
    }
}

proof fn lemma_ns_stops(packet: Seq<u8>, p0: Seq<u8>, i: nat, n: nat)
    requires
        i <= n,
        !(ns_run(packet, p0, i) is Go),
    ensures
        ns_run(packet, p0, n) == ns_run(packet, p0, i),
    decreases n - i,
{
    if i < n {
        lemma_ns_stops(packet, p0, i, (n - 1) as nat);
    }
}

/// The walk through the questions, adding records to the cache.
pub enum QdState {
    Panic,
    /// A malformed name ends the walk, with the cache as it is.
    Stop(CacheView),
    Go(Seq<u8>, CacheView),
}

/// What a question of a negative answer adds: a reverse record for a
/// PTR question about a reverse name, a forward record for an A or AAAA
/// question; nothing otherwise.  The name is read as a reverse name in
/// every case.
#[verifier::opaque]
pub open spec fn neg_q_step(packet: Seq<u8>, p: Seq<u8>, c: CacheView, now: Time, minttl: u32, flags: u16) -> QdState {
    match spec_read_rr(packet, p, 4) {
        RrRead::Panic => QdState::Panic,
        RrRead::Fail => QdState::Stop(c),
        RrRead::Read(h) => match arpa_outcome(h.name) {
            ArpaOutcome::Panic => QdState::Panic,
            ArpaOutcome::Res(is_arpa, addr) => {
                let c2 = if h.qclass == C_IN && h.qtype == T_PTR && is_arpa != 0 {
                    cv_insert(c, Some(h.name), addr, now, minttl, is_arpa | F_REVERSE | flags)
                } else if h.qclass == C_IN && h.qtype == T_A {
                    cv_insert(c, Some(h.name), None, now, minttl, F_IPV4 | F_FORWARD | flags)
                } else if h.qclass == C_IN && h.qtype == T_AAAA {
                    cv_insert(c, Some(h.name), None, now, minttl, F_IPV6 | F_FORWARD | flags)
                } else {
                    c
                };
                QdState::Go(h.rest, c2)
            },
        },
    }
}

/// The first `i` questions of a negative answer.
pub open spec fn neg_q_run(packet: Seq<u8>, p0: Seq<u8>, c0: CacheView, now: Time, minttl: u32, flags: u16, i: nat) -> QdState
    decreases i,
{
    if i == 0 {
        QdState::Go(p0, c0)
    } else {
        match neg_q_run(packet, p0, c0, now, minttl, flags, (i - 1) as nat) {
            QdState::Go(p, c) => neg_q_step(packet, p, c, now, minttl, flags),
            other => other,
        }
    }
}

proof fn lemma_neg_q_stops(packet: Seq<u8>, p0: Seq<u8>, c0: CacheView, now: Time, minttl: u32, flags: u16, i: nat, n: nat)
    requires
        i <= n,
        !(neg_q_run(packet, p0, c0, now, minttl, flags, i) is Go),
    ensures
        neg_q_run(packet, p0, c0, now, minttl, flags, n) == neg_q_run(packet, p0, c0, now, minttl, flags, i),
    decreases n - i,
{
    if i < n {
        lemma_neg_q_stops(packet, p0, c0, now, minttl, flags, i, (n - 1) as nat);
    }
}

/// How reading a reply into the cache ends.
pub enum LearnOutcome {
    /// Reading would index past the end of the message or of a buffer.
    Panic,
    /// The cache afterwards.
    Done(CacheView),
}

/// What a reply without answers leaves in the cache: when its authority
/// section holds an SOA record, a negative record for each question
/// (NXDOMAIN when the reply says so), living as long as the smallest
/// time to live of the SOA records.
pub open spec fn neg_outcome(c: CacheView, packet: Seq<u8>, now: Time) -> LearnOutcome {
    if packet.len() < 12 {
        LearnOutcome::Panic
    } else {
        let h = spec_header_of(packet);
        let flags: u16 = if h.rcode == NXDOMAIN {
            F_NEG | F_NXDOMAIN
        } else {
            F_NEG
        };
        if h.ancount != 0 {
            LearnOutcome::Done(c)
        } else if spec_skip_questions(packet) is Panic {
            LearnOutcome::Panic
        } else if spec_answer_offset(packet) == 0 {
            LearnOutcome::Done(c)
        } else {
            let p0 = packet.subrange(spec_answer_offset(packet), packet.len() as int);
            match ns_run(packet, p0, h.nscount as nat) {
                NsState::Panic => LearnOutcome::Panic,
                NsState::Stop => LearnOutcome::Done(c),
                NsState::Go(_, found, minttl) => if !found {
                    LearnOutcome::Done(c)
                } else {
                    let q0 = packet.subrange(12, packet.len() as int);
                    match neg_q_run(packet, q0, cv_start_insert(c), now, minttl, flags, h.qdcount as nat) {
                        QdState::Panic => LearnOutcome::Panic,
                        QdState::Stop(c2) => LearnOutcome::Done(c2),
                        QdState::Go(_, c2) => LearnOutcome::Done(cv_end_insert(c2)),
                    }
                },
            }
        }
    }
}

/// The bounds on the cache's counters under which `n` more insertions and
/// their end fit in machine integers.
pub open spec fn room_for(c: Cache, n: int) -> bool {
    &&& c.cache_live_freed + (n + 1) * (c.length + 2) <= usize::MAX
    &&& c.next_uid + n <= u64::MAX
    &&& c.length + n <= usize::MAX
    &&& c.cache_inserted + n <= usize::MAX
}

/// The kinds of address a reverse name gives.
proof fn lemma_arpa_kind(name: Seq<char>)
    ensures
        arpa_outcome(name) matches ArpaOutcome::Res(k, _) ==> k == 0 || k == F_IPV4 || k == F_IPV6,
{
}

proof fn lemma_neg_flags(flags: u16, is_arpa: u16)
    requires
        flags == F_NEG || flags == F_NEG | F_NXDOMAIN,
        is_arpa == 0 || is_arpa == F_IPV4 || is_arpa == F_IPV6,
    ensures
        !((is_arpa | F_REVERSE | flags) & F_NEG != 0 && (is_arpa | F_REVERSE | flags) & F_REVERSE != 0 && (is_arpa
            | F_REVERSE | flags) & F_FORWARD != 0),
        !((F_IPV4 | F_FORWARD | flags) & F_NEG != 0 && (F_IPV4 | F_FORWARD | flags) & F_REVERSE != 0 && (F_IPV4
            | F_FORWARD | flags) & F_FORWARD != 0),
        !((F_IPV6 | F_FORWARD | flags) & F_NEG != 0 && (F_IPV6 | F_FORWARD | flags) & F_REVERSE != 0 && (F_IPV6
            | F_FORWARD | flags) & F_FORWARD != 0),
{
    assert(32u16 | 4096u16 == 4128u16) by (bit_vector);
    assert(!((is_arpa | 4u16 | flags) & 32u16 != 0 && (is_arpa | 4u16 | flags) & 4u16 != 0 && (is_arpa | 4u16 | flags)
        & 8u16 != 0)) by (bit_vector)
        requires
            flags == 32u16 || flags == 4128u16,
            is_arpa == 0u16 || is_arpa == 128u16 || is_arpa == 256u16,
    ;
    assert(!((128u16 | 8u16 | flags) & 32u16 != 0 && (128u16 | 8u16 | flags) & 4u16 != 0 && (128u16 | 8u16 | flags)
        & 8u16 != 0)) by (bit_vector)
        requires
            flags == 32u16 || flags == 4128u16,
    ;
    assert(!((256u16 | 8u16 | flags) & 32u16 != 0 && (256u16 | 8u16 | flags) & 4u16 != 0 && (256u16 | 8u16 | flags)
        & 8u16 != 0)) by (bit_vector)
        requires
            flags == 32u16 || flags == 4128u16,
    ;
}

/// One question of a negative answer (see `neg_q_step`).
fn neg_question(caches: &mut Cache, packet: &[u8], p: &mut &[u8], now: Time, minttl: u32, flags: u16) -> (go: bool)
    requires
        old(caches).wf(),
        !(neg_q_step(packet@, old(p)@, old(caches)@, now, minttl, flags) is Panic),
        now.wf(),
        now.secs <= (i64::MAX - u32::MAX) as u64,
        old(caches).length + old(caches).cache_live_freed + 2 <= usize::MAX,
        flags == F_NEG || flags == F_NEG | F_NXDOMAIN,
    ensures
        final(caches).wf(),
        go ==> neg_q_step(packet@, old(p)@, old(caches)@, now, minttl, flags) == QdState::Go(final(p)@, final(caches)@),
        !go ==> neg_q_step(packet@, old(p)@, old(caches)@, now, minttl, flags) == QdState::Stop(final(caches)@),
        final(caches).length <= old(caches).length,
        final(caches).cache_live_freed <= old(caches).cache_live_freed + old(caches).length + 1,
        final(caches).new_chain@.len() <= old(caches).new_chain@.len() + 1,
        final(caches).next_uid == old(caches).next_uid,
        final(caches).cache_inserted == old(caches).cache_inserted,
{
    reveal(neg_q_step);
    match read_rr(packet, p, false) {
        None => false,
        Some((name, qtype, qclass, _t, _r)) => {
            let (is_arpa, addr) = in_arpa_name_2_addr(name.as_str());
            proof {
                lemma_arpa_kind(name@);
                lemma_neg_flags(flags, is_arpa);
            }
            if qclass == C_IN && qtype == T_PTR && is_arpa != 0 {
                caches.cache_insert(Some(name.as_str()), addr, now, minttl, is_arpa | F_REVERSE | flags);
            } else if qclass == C_IN && qtype == T_A {
                caches.cache_insert(Some(name.as_str()), None, now, minttl, F_IPV4 | F_FORWARD | flags);
            } else if qclass == C_IN && qtype == T_AAAA {
                caches.cache_insert(Some(name.as_str()), None, now, minttl, F_IPV6 | F_FORWARD | flags);
            }
            true
        },
    }
}

/// One record of the authority section (see `ns_step`).
fn ns_record(packet: &[u8], p: &mut &[u8], found: bool, minttl: u32) -> (r: Option<(bool, u32)>)
    requires
        !(ns_step(packet@, old(p)@, found, minttl) is Panic),
    ensures
        match r {
            Some((f, m)) => ns_step(packet@, old(p)@, found, minttl) == NsState::Go(final(p)@, f, m),
            None => ns_step(packet@, old(p)@, found, minttl) == NsState::Stop,
        },
{
    reveal(ns_step);
    match read_rr(packet, p, true) {
        None => None,
        Some((_name, qtype, qclass, ttl, rdlen)) => {
            if qclass == C_IN && qtype == T_SOA {
                let ghost r0 = p@;
                let n1: String = extract_name(packet, p);
                if n1.as_str().is_empty() {
                    return None;
                }
                let n2: String = extract_name(packet, p);
                if n2.as_str().is_empty() {
                    return None;
                }
                let ghost q2 = p@;
                let _serial: u32 = get_long(p);
                let _refresh: u32 = get_long(p);
                let _retry: u32 = get_long(p);
                let _expire: u32 = get_long(p);
                let m1: u32 = if !found {
                    ttl
                } else if ttl < minttl {
                    ttl
                } else {
                    minttl
                };
                assert(p@ =~= q2.subrange(16, q2.len() as int));
                let t: u32 = get_long(p);
                assert(p@ =~= q2.subrange(20, q2.len() as int));
                let m2: u32 = if t < m1 {
                    t
                } else {
                    m1
                };
                Some((true, m2))
            } else {
                let rest: &[u8] = *p;
                let cut: usize = rdlen as usize;
                *p = &rest[cut..rest.len()];
                Some((found, minttl))
            }
        },
    }
}

/// Walks the first `ns` records of the authority section from `p` (see
/// `ns_run`): whether an SOA was seen and the smallest time to live, or
/// nothing when a malformed name stops the walk.
fn ns_walk(packet: &[u8], p: &mut &[u8], ns: u16) -> (r: Option<(bool, u32)>)
    requires
        !(ns_run(packet@, old(p)@, ns as nat) is Panic),
    ensures
        match ns_run(packet@, old(p)@, ns as nat) {
            NsState::Go(_, f, m) => r == Some((f, m)),
            _ => r is None,
        },
{
    let ghost p0 = p@;
    let mut found: bool = false;
    let mut minttl: u32 = 0;
    let mut i: u16 = 0;
    while i < ns
        invariant
            i <= ns,
            p0 == old(p)@,
            ns_run(packet@, p0, i as nat) == NsState::Go(p@, found, minttl),
            !(ns_run(packet@, p0, ns as nat) is Panic),
        decreases ns - i,
    {
        proof {
            if !(ns_run(packet@, p0, (i + 1) as nat) is Go) {
                lemma_ns_stops(packet@, p0, (i + 1) as nat, ns as nat);
            }
        }
        match ns_record(packet, p, found, minttl) {
            None => {
                return None;
            },
            Some((f, m)) => {
                found = f;
                minttl = m;
            },
        }
        i += 1;
    }
    Some((found, minttl))
}

proof fn lemma_mul_step(k: int, w: int)
    ensures
        (k + 1) * w == k * w + w,
{
    assert((k + 1) * w == k * w + w) by (nonlinear_arith);
}

proof fn lemma_mul_le(k: int, n: int, w: int)
    requires
        0 <= k <= n,
        0 <= w,
    ensures
        k * w <= n * w,
{
    assert(k * w <= n * w) by (nonlinear_arith)
        requires
            0 <= k <= n,
            0 <= w,
    ;
}

/// Adds the records of the first `qd` questions from `p` (see
/// `neg_q_run`); says whether it went through them all.
fn neg_questions(caches: &mut Cache, packet: &[u8], p: &mut &[u8], qd: u16, now: Time, minttl: u32, flags: u16) -> (all: bool)
    requires
        old(caches).wf(),
        !(neg_q_run(packet@, old(p)@, old(caches)@, now, minttl, flags, qd as nat) is Panic),
        now.wf(),
        now.secs <= (i64::MAX - u32::MAX) as u64,
        old(caches).cache_live_freed + 65537 * (old(caches).length + 2) <= usize::MAX,
        flags == F_NEG || flags == F_NEG | F_NXDOMAIN,
    ensures
        final(caches).wf(),
        all ==> neg_q_run(packet@, old(p)@, old(caches)@, now, minttl, flags, qd as nat) == QdState::Go(
            final(p)@,
            final(caches)@,
        ),
        !all ==> neg_q_run(packet@, old(p)@, old(caches)@, now, minttl, flags, qd as nat) == QdState::Stop(
            final(caches)@,
        ),
        final(caches).length <= old(caches).length,
        final(caches).new_chain@.len() <= old(caches).new_chain@.len() + qd,
        final(caches).next_uid == old(caches).next_uid,
        final(caches).cache_inserted == old(caches).cache_inserted,
{
    let ghost p0 = p@;
    let ghost c0 = caches@;
    let ghost len0 = caches.length;
    let ghost lf0 = caches.cache_live_freed;
    let ghost nc0 = caches.new_chain@.len();
    let mut k: u16 = 0;
    while k < qd
        invariant
            k <= qd,
            p0 == old(p)@,
            c0 == old(caches)@,
            len0 == old(caches).length,
            lf0 == old(caches).cache_live_freed,
            nc0 == old(caches).new_chain@.len(),
            flags == F_NEG || flags == F_NEG | F_NXDOMAIN,
            caches.wf(),
            now.wf(),
            now.secs <= (i64::MAX - u32::MAX) as u64,
            neg_q_run(packet@, p0, c0, now, minttl, flags, k as nat) == QdState::Go(p@, caches@),
            !(neg_q_run(packet@, p0, c0, now, minttl, flags, qd as nat) is Panic),
            caches.length <= len0,
            caches.cache_live_freed <= lf0 + k * (len0 + 1),
            lf0 + 65537 * (len0 + 2) <= usize::MAX,
            caches.new_chain@.len() <= nc0 + k,
            caches.next_uid == old(caches).next_uid,
            caches.cache_inserted == old(caches).cache_inserted,
        decreases qd - k,
    {
        proof {
            if !(neg_q_run(packet@, p0, c0, now, minttl, flags, (k + 1) as nat) is Go) {
                lemma_neg_q_stops(packet@, p0, c0, now, minttl, flags, (k + 1) as nat, qd as nat);
            }
            lemma_mul_le(k as int, 65535, len0 + 1);
            lemma_mul_step(k as int, len0 + 1);
        }
        if !neg_question(caches, packet, p, now, minttl, flags) {
            proof {
                lemma_neg_q_stops(packet@, p0, c0, now, minttl, flags, (k + 1) as nat, qd as nat);
            }
            return false;
        }
        k += 1;
    }
    true
}

/// Reads a reply without answers into the cache (see `neg_outcome`).
pub fn extract_neg_addrs(caches: &mut Cache, packet: &[u8], now: Time)
    requires
        old(caches).wf(),
        !(neg_outcome(old(caches)@, packet@, now) is Panic),
        now.wf(),
        now.secs <= (i64::MAX - u32::MAX) as u64,
        room_for(*old(caches), 65536),
    ensures
        final(caches).wf(),
        neg_outcome(old(caches)@, packet@, now) == LearnOutcome::Done(final(caches)@),
{
    let header = header_of(packet);
    let flags: u16 = if header.rcode == NXDOMAIN {
        F_NEG | F_NXDOMAIN
    } else {
        F_NEG
    };
    if header.ancount != 0 {
        return;
    }
    let pos: usize = skip_questions(packet);
    if pos == 0 {
        return;
    }
    let mut p: &[u8] = &packet[pos..packet.len()];
    let (found, minttl) = match ns_walk(packet, &mut p, header.nscount) {
        None => {
            return;
        },
        Some(x) => x,
    };
    if !found {
        return;
    }
    caches.cache_start_insert();
    let mut q: &[u8] = &packet[12..packet.len()];
    if !neg_questions(caches, packet, &mut q, header.qdcount, now, minttl, flags) {
        return;
    }
    caches.cache_end_insert();
}

// ---------------------------------------------------------------------
// Answers
// ---------------------------------------------------------------------

/// An AAAA answer is learnt: reading it never stops the reading, and
/// unless the cache cannot take another record (then nothing changes), it
/// waits to join the cache as a forward IPv6 record owned by the owner
/// name, holding the sixteen data bytes as address and running out `ttl`
/// seconds from now.
pub proof fn law_aaaa_answer_learnt(packet: Seq<u8>, c: CacheView, owner: Seq<char>, data: Seq<u8>, ttl: u32, now: Time)
    requires
        data.len() >= 16,
    ensures
        rr_learn(packet, c, owner, T_AAAA, data, ttl, now) matches LearnStep::Next(c2) && {
            &&& c.insert_error ==> c2 == c
            &&& !c2.insert_error ==> {
                &&& c2.new_chain.len() == c.new_chain.len() + 1
                &&& c2.new_chain.last().name == owner
                &&& c2.new_chain.last().addr == Some(AllAddr::V6(be_u128(data, 16)))
                &&& c2.new_chain.last().flags == F_IPV6 | F_FORWARD
                &&& c2.new_chain.last().ttd == (Time { secs: (now.secs + ttl) as u64, nanos: now.nanos })
            }
        },
{
    assert((F_IPV6 | F_FORWARD) & F_NEG == 0) by (bit_vector);
    assert((F_IPV6 | F_FORWARD) & !F_CONFIG == F_IPV6 | F_FORWARD) by (bit_vector);
}

/// An A answer is learnt the same way, its four data bytes as address.
pub proof fn law_a_answer_learnt(packet: Seq<u8>, c: CacheView, owner: Seq<char>, data: Seq<u8>, ttl: u32, now: Time)
    requires
        data.len() >= 4,
    ensures
        rr_learn(packet, c, owner, T_A, data, ttl, now) matches LearnStep::Next(c2) && {
            &&& c.insert_error ==> c2 == c
            &&& !c2.insert_error ==> {
                &&& c2.new_chain.len() == c.new_chain.len() + 1
                &&& c2.new_chain.last().name == owner
                &&& c2.new_chain.last().addr == Some(AllAddr::V4(be32_value(data[0], data[1], data[2], data[3])))
                &&& c2.new_chain.last().flags == F_IPV4 | F_FORWARD
                &&& c2.new_chain.last().ttd == (Time { secs: (now.secs + ttl) as u64, nanos: now.nanos })
            }
        },
{
    assert((F_IPV4 | F_FORWARD) & F_NEG == 0) by (bit_vector);
    assert((F_IPV4 | F_FORWARD) & !F_CONFIG == F_IPV4 | F_FORWARD) by (bit_vector);
}

/// How learning one record ends.
pub enum LearnStep {
    Panic,
    /// A malformed name ends the whole reading, with the cache as it is.
    Stop(CacheView),
    Next(CacheView),
}

/// What an answer record of type `qtype` owned by `owner`, with data
/// `data`, adds: an address for A and AAAA; for PTR, when the owner is a
/// reverse name, the name in the data as the name of that address;
/// nothing for other types.
pub open spec fn rr_learn(packet: Seq<u8>, c: CacheView, owner: Seq<char>, qtype: u16, data: Seq<u8>, ttl: u32, now: Time) -> LearnStep {
    if qtype == T_A {
        if data.len() < 4 {
            LearnStep::Panic
        } else {
            let a = be32_value(data[0], data[1], data[2], data[3]);
            LearnStep::Next(cv_insert(c, Some(owner), Some(AllAddr::V4(a)), now, ttl, F_IPV4 | F_FORWARD))
        }
    } else if qtype == T_AAAA {
        if data.len() < 16 {
            LearnStep::Panic
        } else {
            LearnStep::Next(cv_insert(c, Some(owner), Some(AllAddr::V6(be_u128(data, 16))), now, ttl, F_IPV6 | F_FORWARD))
        }
    } else if qtype == T_PTR {
        match arpa_outcome(owner) {
            ArpaOutcome::Panic => LearnStep::Panic,
            ArpaOutcome::Res(enc, addr) => if enc == 0 {
                LearnStep::Next(c)
            } else {
                match spec_extract_name(packet, data) {
                    NameOutcome::Panic => LearnStep::Panic,
                    NameOutcome::Fail => LearnStep::Stop(c),
                    NameOutcome::Done(n2, _) => if n2.len() == 0 {
                        LearnStep::Stop(c)
                    } else {
                        LearnStep::Next(cv_insert(c, Some(n2), addr, now, ttl, enc | F_REVERSE))
                    },
                }
            },
        }
    } else {
        LearnStep::Next(c)
    }
}

/// One pass of the walk behind a CNAME: the record at `p` counts when it
/// is in class IN and is owned by the CNAME's target (read at `targp`);
/// it is then learnt as a record of the CNAME's owner (read at
/// `origname`), living no longer than the CNAME.  A record whose data
/// leaves less than its own length behind ends the walk.
#[verifier::opaque]
pub open spec fn cname_step(packet: Seq<u8>, p: Seq<u8>, c: CacheView, origname: Seq<u8>, targp: Seq<u8>, ttl: u32, now: Time) -> QdState {
    match spec_extract_name(packet, targp) {
        NameOutcome::Panic => QdState::Panic,
        NameOutcome::Fail => QdState::Stop(c),
        NameOutcome::Done(tn, _) => if tn.len() == 0 {
            QdState::Stop(c)
        } else {
            match spec_read_rr(packet, p, 10) {
                RrRead::Panic => QdState::Panic,
                RrRead::Fail => QdState::Stop(c),
                RrRead::Read(h) => if h.rdlen > h.rest.len() {
                    QdState::Panic
                } else {
                    let endrr = h.rest.subrange(h.rdlen as int, h.rest.len() as int);
                    if endrr.len() < h.rdlen {
                        QdState::Stop(c)
                    } else if h.qclass != C_IN || h.name != tn {
                        QdState::Go(endrr, c)
                    } else {
                        let cttl = min_ttl(ttl, h.ttl);
                        match spec_extract_name(packet, origname) {
                            NameOutcome::Panic => QdState::Panic,
                            NameOutcome::Fail => QdState::Stop(c),
                            NameOutcome::Done(on, _) => if on.len() == 0 {
                                QdState::Stop(c)
                            } else {
                                match rr_learn(packet, c, on, h.qtype, h.rest, cttl, now) {
                                    LearnStep::Panic => QdState::Panic,
                                    LearnStep::Stop(c2) => QdState::Stop(c2),
                                    LearnStep::Next(c2) => QdState::Go(endrr, c2),
                                }
                            },
                        }
                    }
                },
            }
        },
    }
}

/// The first `i` passes of the walk behind a CNAME, from `p0`.
pub open spec fn cname_run(
    packet: Seq<u8>,
    p0: Seq<u8>,
    c0: CacheView,
    origname: Seq<u8>,
    targp: Seq<u8>,
    ttl: u32,
    now: Time,
    i: nat,
) -> QdState
    decreases i,
{
    if i == 0 {
        QdState::Go(p0, c0)
    } else {
        match cname_run(packet, p0, c0, origname, targp, ttl, now, (i - 1) as nat) {
            QdState::Go(p, c) => cname_step(packet, p, c, origname, targp, ttl, now),
            other => other,
        }
    }
}

proof fn lemma_cname_stops(
    packet: Seq<u8>,
    p0: Seq<u8>,
    c0: CacheView,
    origname: Seq<u8>,
    targp: Seq<u8>,
    ttl: u32,
    now: Time,
    i: nat,
    n: nat,
)
    requires
        i <= n,
        !(cname_run(packet, p0, c0, origname, targp, ttl, now, i) is Go),
    ensures
        cname_run(packet, p0, c0, origname, targp, ttl, now, n) == cname_run(packet, p0, c0, origname, targp, ttl, now, i),
    decreases n - i,
{
    if i < n {
        lemma_cname_stops(packet, p0, c0, origname, targp, ttl, now, i, (n - 1) as nat);
    }
}

/// One answer record at `p` (the answer section starting at `psave`,
/// with `an` records): records of other classes are stepped over; a
/// CNAME sends a walk through the whole answer section for the records of
/// its target; other records are learnt (see `rr_learn`).
#[verifier::opaque]
pub open spec fn an_step(packet: Seq<u8>, p: Seq<u8>, psave: Seq<u8>, c: CacheView, now: Time, an: u16) -> QdState {
    match spec_read_rr(packet, p, 10) {
        RrRead::Panic => QdState::Panic,
        RrRead::Fail => QdState::Stop(c),
        RrRead::Read(h) => if h.rdlen > h.rest.len() {
            QdState::Panic
        } else {
            let endrr = h.rest.subrange(h.rdlen as int, h.rest.len() as int);
            if h.qclass != C_IN {
                QdState::Go(endrr, c)
            } else if h.qtype == T_CNAME {
                match cname_run(packet, psave, c, p, h.rest, h.ttl, now, an as nat) {
                    QdState::Panic => QdState::Panic,
                    QdState::Stop(c2) => QdState::Stop(c2),
                    QdState::Go(_, c2) => QdState::Go(endrr, c2),
                }
            } else {
                match rr_learn(packet, c, h.name, h.qtype, h.rest, h.ttl, now) {
                    LearnStep::Panic => QdState::Panic,
                    LearnStep::Stop(c2) => QdState::Stop(c2),
                    LearnStep::Next(c2) => QdState::Go(endrr, c2),
                }
            }
        },
    }
}

/// The first `i` answer records, from `p0`.
pub open spec fn an_run(packet: Seq<u8>, p0: Seq<u8>, c0: CacheView, now: Time, an: u16, i: nat) -> QdState
    decreases i,
{
    if i == 0 {
        QdState::Go(p0, c0)
    } else {
        match an_run(packet, p0, c0, now, an, (i - 1) as nat) {
            QdState::Go(p, c) => an_step(packet, p, p0, c, now, an),
            other => other,
        }
    }
}

proof fn lemma_an_stops(packet: Seq<u8>, p0: Seq<u8>, c0: CacheView, now: Time, an: u16, i: nat, n: nat)
    requires
        i <= n,
        !(an_run(packet, p0, c0, now, an, i) is Go),
    ensures
        an_run(packet, p0, c0, now, an, n) == an_run(packet, p0, c0, now, an, i),
    decreases n - i,
{
    if i < n {
        lemma_an_stops(packet, p0, c0, now, an, i, (n - 1) as nat);
    }
}

/// What an answer leaves in the cache: its answer records are learnt in
/// order (see `an_step`) and join the cache together at the end; a
/// malformed name stops the reading with the records learnt so far still
/// waiting.
pub open spec fn addr_outcome(c: CacheView, packet: Seq<u8>, now: Time) -> LearnOutcome {
    if packet.len() < 12 {
        LearnOutcome::Panic
    } else if spec_skip_questions(packet) is Panic {
        LearnOutcome::Panic
    } else if spec_answer_offset(packet) == 0 {
        LearnOutcome::Done(c)
    } else {
        let h = spec_header_of(packet);
        let p0 = packet.subrange(spec_answer_offset(packet), packet.len() as int);
        match an_run(packet, p0, cv_start_insert(c), now, h.ancount, h.ancount as nat) {
            QdState::Panic => LearnOutcome::Panic,
            QdState::Stop(c2) => LearnOutcome::Done(c2),
            QdState::Go(_, c2) => LearnOutcome::Done(cv_end_insert(c2)),
        }
    }
}

/// The counters' room for one more insertion.
pub open spec fn room1(c: Cache) -> bool {
    c.length + c.cache_live_freed + 2 <= usize::MAX
}

/// Learns one record (see `rr_learn`); false when a malformed name stops
/// the reading.
#[verifier::rlimit(60)]
fn learn_rr(caches: &mut Cache, packet: &[u8], owner: &str, qtype: u16, data: &[u8], ttl: u32, now: Time) -> (next: bool)
    requires
        old(caches).wf(),
        room1(*old(caches)),
        now.wf(),
        now.secs <= (i64::MAX - u32::MAX) as u64,
        !(rr_learn(packet@, old(caches)@, owner@, qtype, data@, ttl, now) is Panic),
    ensures
        final(caches).wf(),
        next ==> rr_learn(packet@, old(caches)@, owner@, qtype, data@, ttl, now) == LearnStep::Next(final(caches)@),
        !next ==> rr_learn(packet@, old(caches)@, owner@, qtype, data@, ttl, now) == LearnStep::Stop(final(caches)@),
        final(caches).length <= old(caches).length,
        final(caches).cache_live_freed <= old(caches).cache_live_freed + old(caches).length + 1,
        final(caches).new_chain@.len() <= old(caches).new_chain@.len() + 1,
        final(caches).next_uid == old(caches).next_uid,
        final(caches).cache_inserted == old(caches).cache_inserted,
{
    if qtype == T_A {
        let a: u32 = ((data[0] as u32) << 24) | ((data[1] as u32) << 16) | ((data[2] as u32) << 8) | (data[3] as u32);
        let (b0, b1, b2, b3) = (data[0], data[1], data[2], data[3]);
        assert(a == be32_value(b0, b1, b2, b3)) by (bit_vector)
            requires
                a == ((b0 as u32) << 24) | ((b1 as u32) << 16) | ((b2 as u32) << 8) | (b3 as u32),
        ;
        assert((F_IPV4 | F_FORWARD) & F_NEG == 0) by (bit_vector);
        caches.cache_insert(Some(owner), Some(AllAddr::V4(a)), now, ttl, F_IPV4 | F_FORWARD);
        true
    } else if qtype == T_AAAA {
        let mut v: u128 = 0;
        let mut k: usize = 0;
        while k < 16
            invariant
                k <= 16,
                data@.len() >= 16,
                v == be_u128(data@, k as int),
            decreases 16 - k,
        {
            v = (v << 8u128) | (data[k] as u128);
            k += 1;
        }
        assert((F_IPV6 | F_FORWARD) & F_NEG == 0) by (bit_vector);
        caches.cache_insert(Some(owner), Some(AllAddr::V6(v)), now, ttl, F_IPV6 | F_FORWARD);
        true
    } else if qtype == T_PTR {
        let (enc, addr) = in_arpa_name_2_addr(owner);
        proof {
            lemma_arpa_kind(owner@);
        }
        if enc == 0 {
            return true;
        }
        let mut d: &[u8] = data;
        let n2: String = extract_name(packet, &mut d);
        if n2.as_str().is_empty() {
            return false;
        }
        assert(!((enc | F_REVERSE) & F_NEG != 0)) by (bit_vector)
            requires
                enc == 128u16 || enc == 256u16,
        ;
        caches.cache_insert(Some(n2.as_str()), addr, now, ttl, enc | F_REVERSE);
        true
    } else {
        true
    }
}

/// One pass of the walk behind a CNAME (see `cname_step`).
fn cname_pass(
    caches: &mut Cache,
    packet: &[u8],
    p: &mut &[u8],
    origname: &[u8],
    targp: &[u8],
    ttl: u32,
    now: Time,
) -> (go: bool)
    requires
        old(caches).wf(),
        room1(*old(caches)),
        now.wf(),
        now.secs <= (i64::MAX - u32::MAX) as u64,
        !(cname_step(packet@, old(p)@, old(caches)@, origname@, targp@, ttl, now) is Panic),
    ensures
        final(caches).wf(),
        go ==> cname_step(packet@, old(p)@, old(caches)@, origname@, targp@, ttl, now) == QdState::Go(
            final(p)@,
            final(caches)@,
        ),
        !go ==> cname_step(packet@, old(p)@, old(caches)@, origname@, targp@, ttl, now) == QdState::Stop(final(caches)@),
        final(caches).length <= old(caches).length,
        final(caches).cache_live_freed <= old(caches).cache_live_freed + old(caches).length + 1,
        final(caches).new_chain@.len() <= old(caches).new_chain@.len() + 1,
        final(caches).next_uid == old(caches).next_uid,
        final(caches).cache_inserted == old(caches).cache_inserted,
{
    reveal(cname_step);
    let mut tmp: &[u8] = targp;
    let target: String = extract_name(packet, &mut tmp);
    if target.as_str().is_empty() {
        return false;
    }
    match read_rr(packet, p, true) {
        None => false,
        Some((res, qtype, qclass, cttl0, rdlen)) => {
            let data: &[u8] = *p;
            let cut: usize = rdlen as usize;
            let endrr: &[u8] = &data[cut..data.len()];
            if endrr.len() < cut {
                return false;
            }
            if qclass != C_IN || !str_eq(res.as_str(), target.as_str()) {
                *p = endrr;
                return true;
            }
            let cttl: u32 = if ttl < cttl0 {
                ttl
            } else {
                cttl0
            };
            let mut tmp2: &[u8] = origname;
            let owner: String = extract_name(packet, &mut tmp2);
            if owner.as_str().is_empty() {
                return false;
            }
            let next: bool = learn_rr(caches, packet, owner.as_str(), qtype, data, cttl, now);
            *p = endrr;
            next
        },
    }
}

/// The walk behind a CNAME through the `an` records from `p` (see
/// `cname_run`); false when a malformed name stops the reading.
fn cname_walk(
    caches: &mut Cache,
    packet: &[u8],
    p: &mut &[u8],
    origname: &[u8],
    targp: &[u8],
    ttl: u32,
    now: Time,
    an: u16,
) -> (all: bool)
    requires
        old(caches).wf(),
        old(caches).cache_live_freed + 65536 * (old(caches).length + 2) <= usize::MAX,
        now.wf(),
        now.secs <= (i64::MAX - u32::MAX) as u64,
        !(cname_run(packet@, old(p)@, old(caches)@, origname@, targp@, ttl, now, an as nat) is Panic),
    ensures
        final(caches).wf(),
        all ==> cname_run(packet@, old(p)@, old(caches)@, origname@, targp@, ttl, now, an as nat) == QdState::Go(
            final(p)@,
            final(caches)@,
        ),
        !all ==> cname_run(packet@, old(p)@, old(caches)@, origname@, targp@, ttl, now, an as nat) == QdState::Stop(
            final(caches)@,
        ),
        final(caches).length <= old(caches).length,
        final(caches).cache_live_freed <= old(caches).cache_live_freed + 65535 * (old(caches).length + 1),
        final(caches).new_chain@.len() <= old(caches).new_chain@.len() + 65535,
        final(caches).next_uid == old(caches).next_uid,
        final(caches).cache_inserted == old(caches).cache_inserted,
{
    let ghost p0 = p@;
    let ghost c0 = caches@;
    let ghost len0 = caches.length;
    let ghost lf0 = caches.cache_live_freed;
    let ghost nc0 = caches.new_chain@.len();
    let mut k: u16 = 0;
    while k < an
        invariant
            k <= an,
            p0 == old(p)@,
            c0 == old(caches)@,
            len0 == old(caches).length,
            lf0 == old(caches).cache_live_freed,
            nc0 == old(caches).new_chain@.len(),
            caches.wf(),
            now.wf(),
            now.secs <= (i64::MAX - u32::MAX) as u64,
            cname_run(packet@, p0, c0, origname@, targp@, ttl, now, k as nat) == QdState::Go(p@, caches@),
            !(cname_run(packet@, p0, c0, origname@, targp@, ttl, now, an as nat) is Panic),
            caches.length <= len0,
            caches.cache_live_freed <= lf0 + k * (len0 + 1),
            lf0 + 65536 * (len0 + 2) <= usize::MAX,
            caches.new_chain@.len() <= nc0 + k,
            caches.next_uid == old(caches).next_uid,
            caches.cache_inserted == old(caches).cache_inserted,
        decreases an - k,
    {
        proof {
            if !(cname_run(packet@, p0, c0, origname@, targp@, ttl, now, (k + 1) as nat) is Go) {
                lemma_cname_stops(packet@, p0, c0, origname@, targp@, ttl, now, (k + 1) as nat, an as nat);
            }
            lemma_mul_le(k as int, 65534, len0 + 1);
            lemma_mul_step(k as int, len0 + 1);
        }
        if !cname_pass(caches, packet, p, origname, targp, ttl, now) {
            proof {
                lemma_cname_stops(packet@, p0, c0, origname@, targp@, ttl, now, (k + 1) as nat, an as nat);
            }
            proof {
                lemma_mul_le(k as int + 1, 65535, len0 + 1);
            }
            return false;
        }
        k += 1;
    }
    proof {
        lemma_mul_le(k as int, 65535, len0 + 1);
    }
    true
}

/// One answer record (see `an_step`).
fn an_record(caches: &mut Cache, packet: &[u8], p: &mut &[u8], psave: &[u8], now: Time, an: u16) -> (go: bool)
    requires
        old(caches).wf(),
        old(caches).cache_live_freed + 65536 * (old(caches).length + 2) <= usize::MAX,
        now.wf(),
        now.secs <= (i64::MAX - u32::MAX) as u64,
        !(an_step(packet@, old(p)@, psave@, old(caches)@, now, an) is Panic),
    ensures
        final(caches).wf(),
        go ==> an_step(packet@, old(p)@, psave@, old(caches)@, now, an) == QdState::Go(final(p)@, final(caches)@),
        !go ==> an_step(packet@, old(p)@, psave@, old(caches)@, now, an) == QdState::Stop(final(caches)@),
        final(caches).length <= old(caches).length,
        final(caches).cache_live_freed <= old(caches).cache_live_freed + 65535 * (old(caches).length + 1),
        final(caches).new_chain@.len() <= old(caches).new_chain@.len() + 65535,
        final(caches).next_uid == old(caches).next_uid,
        final(caches).cache_inserted == old(caches).cache_inserted,
{
    reveal(an_step);
    let origname: &[u8] = *p;
    match read_rr(packet, p, true) {
        None => false,
        Some((name, qtype, qclass, ttl, rdlen)) => {
            let data: &[u8] = *p;
            let cut: usize = rdlen as usize;
            let endrr: &[u8] = &data[cut..data.len()];
            if qclass != C_IN {
                *p = endrr;
                return true;
            }
            if qtype == T_CNAME {
                let mut q: &[u8] = psave;
                if !cname_walk(caches, packet, &mut q, origname, data, ttl, now, an) {
                    return false;
                }
                *p = endrr;
                true
            } else {
                proof {
                    lemma_mul_le(1, 65535, old(caches).length + 1);
                }
                let next: bool = learn_rr(caches, packet, name.as_str(), qtype, data, ttl, now);
                *p = endrr;
                next
            }
        },
    }
}

/// Reads the answer records of a reply into the cache (see
/// `addr_outcome`).
pub fn extract_addresses(caches: &mut Cache, packet: &[u8], now: Time)
    requires
        old(caches).wf(),
        !(addr_outcome(old(caches)@, packet@, now) is Panic),
        now.wf(),
        now.secs <= (i64::MAX - u32::MAX) as u64,
        room_for(*old(caches), 4294967296),
    ensures
        final(caches).wf(),
        addr_outcome(old(caches)@, packet@, now) == LearnOutcome::Done(final(caches)@),
{
    let header = header_of(packet);
    let pos: usize = skip_questions(packet);
    if pos == 0 {
        return;
    }
    let psave: &[u8] = &packet[pos..packet.len()];
    let mut p: &[u8] = psave;
    caches.cache_start_insert();
    let ghost c0 = caches@;
    let ghost len0 = caches.length;
    let ghost lf0 = caches.cache_live_freed;
    let ghost x = 65535 * (len0 + 1);
    let an: u16 = header.ancount;
    let mut i: u16 = 0;
    while i < an
        invariant
            i <= an,
            an == spec_header_of(packet@).ancount,
            packet@.len() >= 12,
            !(spec_skip_questions(packet@) is Panic),
            spec_answer_offset(packet@) != 0,
            psave@ == packet@.subrange(spec_answer_offset(packet@), packet@.len() as int),
            c0 == cv_start_insert(old(caches)@),
            len0 == old(caches).length,
            lf0 == old(caches).cache_live_freed,
            x == 65535 * (len0 + 1),
            room_for(*old(caches), 4294967296),
            caches.wf(),
            now.wf(),
            now.secs <= (i64::MAX - u32::MAX) as u64,
            an_run(packet@, psave@, c0, now, an, i as nat) == QdState::Go(p@, caches@),
            !(an_run(packet@, psave@, c0, now, an, an as nat) is Panic),
            caches.length <= len0,
            caches.cache_live_freed <= lf0 + i * x,
            caches.new_chain@.len() <= i * 65535,
            caches.next_uid == old(caches).next_uid,
            caches.cache_inserted == old(caches).cache_inserted,
        decreases an - i,
    {
        proof {
            if !(an_run(packet@, psave@, c0, now, an, (i + 1) as nat) is Go) {
                lemma_an_stops(packet@, psave@, c0, now, an, (i + 1) as nat, an as nat);
            }
            lemma_mul_le(i as int, 65534, x);
            lemma_mul_step(i as int, x);
            lemma_mul_step(i as int, 65535);
        }
        if !an_record(caches, packet, &mut p, psave, now, an) {
            proof {
                lemma_an_stops(packet@, psave@, c0, now, an, (i + 1) as nat, an as nat);
            }
            return;
        }
        i += 1;
    }
    proof {
        lemma_mul_le(i as int, 65535, 65535);
    }
    caches.cache_end_insert();
}

// ---------------------------------------------------------------------
// Bogus wildcard answers
// ---------------------------------------------------------------------

/// The walk through the answers looking for a bogus address.
pub enum BogusState {
    Panic,
    /// A malformed name ends the walk.
    Stop,
    /// An A record holds a bogus address: its name and time to live.
    Hit(Seq<char>, u32),
    Go(Seq<u8>),
}

/// Whether one of `baddrs` is `a`.
pub open spec fn is_bogus(baddrs: Seq<BogusAddr>, a: u32) -> bool {
    exists|k: int| 0 <= k < baddrs.len() && baddrs[k].addr == a
}

/// One answer record: an A record of class IN whose data starts with a
/// bogus address is a hit; other records are stepped over.
#[verifier::opaque]
pub open spec fn bogus_step(packet: Seq<u8>, p: Seq<u8>, baddrs: Seq<BogusAddr>) -> BogusState {
    match spec_read_rr(packet, p, 10) {
        RrRead::Panic => BogusState::Panic,
        RrRead::Fail => BogusState::Stop,
        RrRead::Read(h) => {
            let d = h.rest;
            if h.qclass == C_IN && h.qtype == T_A && d.len() >= 4 && is_bogus(baddrs, be32_value(d[0], d[1], d[2], d[3])) {
                BogusState::Hit(h.name, h.ttl)
            } else if h.rdlen > d.len() {
                BogusState::Panic
            } else {
                BogusState::Go(d.subrange(h.rdlen as int, d.len() as int))
            }
        },
    }
}

/// The first `i` answer records, from `p0`.
pub open spec fn bogus_run(packet: Seq<u8>, p0: Seq<u8>, baddrs: Seq<BogusAddr>, i: nat) -> BogusState
    decreases i,
{
    if i == 0 {
        BogusState::Go(p0)
    } else {
        match bogus_run(packet, p0, baddrs, (i - 1) as nat) {
            BogusState::Go(p) => bogus_step(packet, p, baddrs),
            other => other,
        }
    }
}

proof fn lemma_bogus_stops(packet: Seq<u8>, p0: Seq<u8>, baddrs: Seq<BogusAddr>, i: nat, n: nat)
    requires
        i <= n,
        !(bogus_run(packet, p0, baddrs, i) is Go),
    ensures
        bogus_run(packet, p0, baddrs, n) == bogus_run(packet, p0, baddrs, i),
    decreases n - i,
{
    if i < n {
        lemma_bogus_stops(packet, p0, baddrs, i, (n - 1) as nat);
    }
}

/// How checking for a bogus answer ends.
pub enum BogusOutcome {
    Panic,
    /// The result, the message afterwards and the cache afterwards.
    Done(u32, Seq<u8>, CacheView),
}

/// The flags of the negative record left for a bogus answer.
pub open spec fn bogus_flags() -> u16 {
    F_IPV4 | F_FORWARD | F_NEG | F_NXDOMAIN | F_CONFIG
}

/// The header of a reply turned into NXDOMAIN.
pub open spec fn nxdomain_header(h: Header) -> Header {
    Header { aa: false, ra: true, nscount: 0, arcount: 0, ancount: 0, rcode: NXDOMAIN, ..h }
}

/// Checking a reply for an answer holding one of `baddrs` (the walk
/// starts where the questions end, or at the header when they cannot be
/// skipped): on a hit the reply becomes NXDOMAIN without answers, a
/// negative record for the name is cached, and the result is 1; otherwise
/// nothing changes and the result is 0.
#[verifier::opaque]
pub open spec fn bogus_outcome(c: CacheView, packet: Seq<u8>, baddrs: Seq<BogusAddr>, now: Time) -> BogusOutcome {
    if packet.len() < 12 || spec_skip_questions(packet) is Panic {
        BogusOutcome::Panic
    } else {
        let p0 = packet.subrange(spec_answer_offset(packet), packet.len() as int);
        if p0.len() == 0 {
            BogusOutcome::Done(0, packet, c)
        } else {
            let h = spec_header_of(packet);
            match bogus_run(packet, p0, baddrs, h.ancount as nat) {
                BogusState::Panic => BogusOutcome::Panic,
                BogusState::Hit(name, ttl) => BogusOutcome::Done(
                    1,
                    spec_header_bytes(nxdomain_header(h)) + packet.subrange(12, packet.len() as int),
                    cv_end_insert(cv_insert(cv_start_insert(c), Some(name), None, now, ttl, bogus_flags())),
                ),
                _ => BogusOutcome::Done(0, packet, c),
            }
        }
    }
}

/// Whether one of `baddrs` is `a`.
fn any_bogus(baddrs: &[BogusAddr], a: u32) -> (b: bool)
    ensures
        b == is_bogus(baddrs@, a),
{
    let mut k: usize = 0;
    while k < baddrs.len()
        invariant
            k <= baddrs@.len(),
            forall|m: int| 0 <= m < k ==> baddrs@[m].addr != a,
        decreases baddrs@.len() - k,
    {
        if baddrs[k].addr == a {
            assert(baddrs@[k as int].addr == a);
            return true;
        }
        k += 1;
    }
    false
}

/// One answer record (see `bogus_step`).
fn bogus_record(packet: &[u8], p: &mut &[u8], baddrs: &[BogusAddr]) -> (r: Option<Option<(String, u32)>>)
    requires
        !(bogus_step(packet@, old(p)@, baddrs@) is Panic),
    ensures
        match bogus_step(packet@, old(p)@, baddrs@) {
            BogusState::Stop => r is None,
            BogusState::Hit(n, t) => r matches Some(Some((n2, t2))) && n2@ == n && t2 == t,
            BogusState::Go(q) => r == Some(None::<(String, u32)>) && final(p)@ == q,
            BogusState::Panic => false,
        },
{
    reveal(bogus_step);
    match read_rr(packet, p, true) {
        None => None,
        Some((name, qtype, qclass, ttl, rdlen)) => {
            let d: &[u8] = *p;
            if qclass == C_IN && qtype == T_A && d.len() >= 4 {
                let (b0, b1, b2, b3) = (d[0], d[1], d[2], d[3]);
                let a: u32 = ((b0 as u32) << 24) | ((b1 as u32) << 16) | ((b2 as u32) << 8) | (b3 as u32);
                assert(a == be32_value(b0, b1, b2, b3)) by (bit_vector)
                    requires
                        a == ((b0 as u32) << 24) | ((b1 as u32) << 16) | ((b2 as u32) << 8) | (b3 as u32),
                ;
                if any_bogus(baddrs, a) {
                    return Some(Some((name, ttl)));
                }
            }
            let cut: usize = rdlen as usize;
            *p = &d[cut..d.len()];
            Some(None)
        },
    }
}

/// Walks the first `an` answer records from `p` (see `bogus_run`):
/// nothing when a malformed name stops the walk, the name and time to
/// live of a hit, or no hit.
fn bogus_walk(packet: &[u8], p: &[u8], baddrs: &[BogusAddr], an: u16) -> (r: Option<Option<(String, u32)>>)
    requires
        !(bogus_run(packet@, p@, baddrs@, an as nat) is Panic),
    ensures
        match bogus_run(packet@, p@, baddrs@, an as nat) {
            BogusState::Stop => r is None,
            BogusState::Hit(n, t) => r matches Some(Some((n2, t2))) && n2@ == n && t2 == t,
            BogusState::Go(_) => r == Some(None::<(String, u32)>),
            BogusState::Panic => false,
        },
{
    let mut q: &[u8] = p;
    let mut i: u16 = 0;
    while i < an
        invariant
            i <= an,
            bogus_run(packet@, p@, baddrs@, i as nat) == BogusState::Go(q@),
            !(bogus_run(packet@, p@, baddrs@, an as nat) is Panic),
        decreases an - i,
    {
        proof {
            if !(bogus_run(packet@, p@, baddrs@, (i + 1) as nat) is Go) {
                lemma_bogus_stops(packet@, p@, baddrs@, (i + 1) as nat, an as nat);
            }
        }
        match bogus_record(packet, &mut q, baddrs) {
            None => {
                return None;
            },
            Some(Some(hit)) => {
                return Some(Some(hit));
            },
            Some(None) => {},
        }
        i += 1;
    }
    Some(None)
}

/// Checks a reply for an answer holding one of the bogus addresses (see
/// `bogus_outcome`).
pub fn check_for_bogus_wildcard(caches: &mut Cache, packet: &mut [u8], baddrs: &[BogusAddr], now: Time) -> (r: u32)
    requires
        old(caches).wf(),
        !(bogus_outcome(old(caches)@, old(packet)@, baddrs@, now) is Panic),
        now.wf(),
        now.secs <= (i64::MAX - u32::MAX) as u64,
        room_for(*old(caches), 1),
    ensures
        final(caches).wf(),
        bogus_outcome(old(caches)@, old(packet)@, baddrs@, now) == BogusOutcome::Done(r, final(packet)@, final(caches)@),
        r == 0 ==> *final(caches) == *old(caches) && final(packet)@ == old(packet)@,
        final(packet)@.len() == old(packet)@.len(),
{
    reveal(bogus_outcome);
    let pos: usize = skip_questions(packet);
    let header: Header = header_of(packet);
    let ghost pk = packet@;
    let found: Option<Option<(String, u32)>> = {
        let whole: &[u8] = packet;
        let p: &[u8] = &whole[pos..whole.len()];
        if p.len() == 0 {
            return 0;
        }
        bogus_walk(whole, p, baddrs, header.ancount)
    };
    match found {
        None => 0,
        Some(None) => 0,
        Some(Some((name, ttl))) => {
            caches.cache_start_insert();
            assert(!(bogus_flags() & F_NEG != 0 && bogus_flags() & F_REVERSE != 0 && bogus_flags() & F_FORWARD != 0)) by (bit_vector);
            caches.cache_insert(Some(name.as_str()), None, now, ttl, F_IPV4 | F_FORWARD | F_NEG | F_NXDOMAIN | F_CONFIG);
            caches.cache_end_insert();
            let mut h: Header = header;
            h.aa = false;
            h.ra = true;
            h.nscount = 0;
            h.arcount = 0;
            h.ancount = 0;
            h.rcode = NXDOMAIN;
            let hb: Vec<u8> = h.to_bytes();
            let mut k: usize = 0;
            while k < 12
                invariant
                    hb@.len() == 12,
                    packet@.len() == pk.len(),
                    packet@.len() >= 12,
                    k <= 12,
                    forall|m: int| 0 <= m < k ==> packet@[m] == hb@[m],
                    forall|m: int| 12 <= m < packet@.len() ==> packet@[m] == pk[m],
                decreases 12 - k,
            {
                packet[k] = hb[k];
                k += 1;
            }
            assert(packet@ =~= hb@ + pk.subrange(12, pk.len() as int));
            1
        },
    }
}

} // verus!
